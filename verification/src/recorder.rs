//! The recorder's state: what starting and stopping a take, saving it and
//! throwing it away do to the editor's state. The audio stream, the shared
//! sample buffer and the WAV file stay with the caller, which performs the
//! action a transition asks for and hands back what came of it.
use vstd::prelude::*;
use crate::text::{chars_of, nat_text, push_nat_text, string_from_chars};

verus! {

/// A recorded take: mono samples and their rate.
pub struct WavData<S> {
    pub samples: Vec<S>,
    pub sample_rate: u32,
}

/// The part of the editor's state that the recorder reads and changes.
pub struct CopaibaApp<S> {
    pub show_recorder: bool,
    pub is_recording: bool,
    pub recorder_sample_rate: u32,
    /// Value of the flag that tells the input stream to stop.
    pub recorder_stop_signal: bool,
    pub recorded_wav: Option<WavData<S>>,
    pub status: String,
}

/// "Gravando a {rate} Hz..."
pub open spec fn recording_status(rate: int) -> Seq<char> {
    "Gravando a "@ + nat_text(rate as nat) + " Hz..."@
}

/// "Erro ao iniciar gravação: {error}"
pub open spec fn start_error_status(error: Seq<char>) -> Seq<char> {
    "Erro ao iniciar gravação: "@ + error
}

/// "Gravado com sucesso: {alias}"
pub open spec fn saved_status(alias: Seq<char>) -> Seq<char> {
    "Gravado com sucesso: "@ + alias
}

/// "Erro ao salvar: {error}"
pub open spec fn save_error_status(error: Seq<char>) -> Seq<char> {
    "Erro ao salvar: "@ + error
}

/// The error given when there is no take to save.
pub open spec fn nothing_to_save() -> Seq<char> {
    "Nenhuma gravação para salvar"@
}

/// What opening the input stream does to the recording fields: the stop
/// flag is lowered; on success recording runs at the stream's rate and the
/// status says so, on failure the status shows the error.
pub open spec fn start_outcome<S>(
    before: CopaibaApp<S>,
    after: CopaibaApp<S>,
    started: Result<u32, String>,
) -> bool {
    &&& !after.recorder_stop_signal
    &&& match started {
        Ok(rate) => {
            &&& after.is_recording
            &&& after.recorder_sample_rate == rate
            &&& after.status@ == recording_status(rate as int)
        },
        Err(e) => {
            &&& after.is_recording == before.is_recording
            &&& after.recorder_sample_rate == before.recorder_sample_rate
            &&& after.status@ == start_error_status(e@)
        },
    }
}

/// What starting a take does, given the outcome of opening the input
/// stream: `start_outcome`, with the recorder window and the last take left
/// alone.
pub open spec fn started_recording<S>(
    before: CopaibaApp<S>,
    after: CopaibaApp<S>,
    started: Result<u32, String>,
) -> bool {
    &&& start_outcome(before, after, started)
    &&& after.show_recorder == before.show_recorder
    &&& after.recorded_wav == before.recorded_wav
}

/// What recording again does: the last take is dropped, the recorder
/// window stays as it was, and a take starts as with `start_outcome`.
pub open spec fn rerecorded<S>(
    before: CopaibaApp<S>,
    after: CopaibaApp<S>,
    started: Result<u32, String>,
) -> bool {
    &&& start_outcome(before, after, started)
    &&& after.show_recorder == before.show_recorder
    &&& after.recorded_wav is None
}

/// What stopping does with the `captured` samples: a running take stops,
/// the stop flag is raised, and a non-empty capture becomes the recorded
/// take at the recording rate; with no take running nothing changes.
pub open spec fn stopped_recording<S>(
    before: CopaibaApp<S>,
    after: CopaibaApp<S>,
    captured: Seq<S>,
    was_recording: bool,
) -> bool {
    &&& was_recording == before.is_recording
    &&& after.recorder_sample_rate == before.recorder_sample_rate
    &&& after.status == before.status
    &&& !after.is_recording
    &&& was_recording ==> after.recorder_stop_signal
    &&& !was_recording ==> after.recorder_stop_signal == before.recorder_stop_signal
    &&& was_recording && captured.len() > 0 ==> (after.recorded_wav matches Some(w)
        && w.samples@ == captured && w.sample_rate == before.recorder_sample_rate)
    &&& !(was_recording && captured.len() > 0) ==> after.recorded_wav == before.recorded_wav
}

/// A take started at some rate and then stopped with samples captured
/// keeps exactly those samples at that rate, and leaves the recorder idle
/// with the stop flag raised.
pub proof fn law_start_then_stop_keeps_take<S>(
    s0: CopaibaApp<S>,
    s1: CopaibaApp<S>,
    s2: CopaibaApp<S>,
    rate: u32,
    captured: Seq<S>,
    was_recording: bool,
)
    requires
        started_recording(s0, s1, Ok(rate)),
        stopped_recording(s1, s2, captured, was_recording),
        captured.len() > 0,
    ensures
        was_recording,
        !s2.is_recording,
        s2.recorder_stop_signal,
        s2.recorded_wav matches Some(w) && w.samples@ == captured && w.sample_rate == rate,
{
}

/// Stopping a second time changes nothing: no take is running any more.
pub proof fn law_stop_twice<S>(
    s0: CopaibaApp<S>,
    s1: CopaibaApp<S>,
    s2: CopaibaApp<S>,
    c1: Seq<S>,
    c2: Seq<S>,
    w1: bool,
    w2: bool,
)
    requires
        stopped_recording(s0, s1, c1, w1),
        stopped_recording(s1, s2, c2, w2),
    ensures
        !w2,
        s2.is_recording == s1.is_recording,
        s2.recorder_stop_signal == s1.recorder_stop_signal,
        s2.recorded_wav == s1.recorded_wav,
        s2.status == s1.status,
{
}

fn concat_text(first: &str, rest: &Vec<char>) -> (r: String)
    ensures
        r@ == first@ + rest@,
{
    let mut v = chars_of(first);
    let mut tail = rest.clone();
    v.append(&mut tail);
    string_from_chars(v.as_slice())
}

impl<S> CopaibaApp<S> {
    /// Recorder closed and idle, nothing recorded.
    pub fn new() -> (r: Self)
        ensures
            !r.show_recorder,
            !r.is_recording,
            r.recorder_sample_rate == 0,
            !r.recorder_stop_signal,
            r.recorded_wav is None,
            r.status@ == Seq::<char>::empty(),
    {
        CopaibaApp {
            show_recorder: false,
            is_recording: false,
            recorder_sample_rate: 0,
            recorder_stop_signal: false,
            recorded_wav: None,
            status: String::new(),
        }
    }

    /// Takes the outcome of opening the input stream (its sample rate, or
    /// the error), after the caller cleared the sample buffer and lowered
    /// the stop flag: recording starts at that rate, or the error is shown.
    pub fn start_recording(&mut self, started: Result<u32, String>)
        ensures
            started_recording(*old(self), *final(self), started),
    {
        self.recorder_stop_signal = false;
        match started {
            Ok(rate) => {
                self.recorder_sample_rate = rate;
                self.is_recording = true;
                let mut digits: Vec<char> = Vec::new();
                push_nat_text(&mut digits, rate as u64);
                let mut unit = chars_of(" Hz...");
                digits.append(&mut unit);
                self.status = concat_text("Gravando a ", &digits);
                assert(self.status@ =~= recording_status(rate as int));
            },
            Err(e) => {
                let rest = chars_of(e.as_str());
                self.status = concat_text("Erro ao iniciar gravação: ", &rest);
            },
        }
    }

    /// The recorder's "record again" button: drops the last take and
    /// starts a new one, given the outcome of opening the input stream
    /// (after the caller cleared the sample buffer and lowered the stop
    /// flag). The recorder window stays open.
    pub fn rerecord(&mut self, started: Result<u32, String>)
        ensures
            rerecorded(*old(self), *final(self), started),
    {
        self.recorded_wav = None;
        self.start_recording(started);
    }

    /// Stops a running take: raises the stop flag, and keeps what was
    /// captured as the recorded take unless it is empty. Returns whether a
    /// take was running, in which case the caller drops the input stream.
    /// When none was running nothing changes.
    pub fn stop_recording(&mut self, captured: Vec<S>) -> (was_recording: bool)
        ensures
            stopped_recording(*old(self), *final(self), captured@, was_recording),
            final(self).show_recorder == old(self).show_recorder,
    {
        if self.is_recording {
            self.recorder_stop_signal = true;
            self.is_recording = false;
            if captured.len() > 0 {
                self.recorded_wav = Some(
                    WavData { samples: captured, sample_rate: self.recorder_sample_rate },
                );
            }
            true
        } else {
            false
        }
    }

    /// Closing the recorder window: a running take stops as with
    /// `stop_recording`, and the window closes.
    pub fn close_recorder(&mut self, captured: Vec<S>) -> (was_recording: bool)
        ensures
            stopped_recording(*old(self), *final(self), captured@, was_recording),
            !final(self).show_recorder,
    {
        let was_recording = self.stop_recording(captured);
        self.show_recorder = false;
        was_recording
    }

    /// The take to write to the WAV file, or the error when there is none.
    pub fn recording_to_save(&self) -> (r: Result<&WavData<S>, String>)
        ensures
            match r {
                Ok(w) => self.recorded_wav == Some(*w),
                Err(e) => self.recorded_wav is None && e@ == nothing_to_save(),
            },
    {
        match &self.recorded_wav {
            Some(w) => Ok(w),
            None => Err("Nenhuma gravação para salvar".to_owned()),
        }
    }

    /// Takes the outcome of writing the take of `alias` to its WAV file: on
    /// success the recorder closes and the take is dropped; either way the
    /// status says what happened.
    pub fn finish_save(&mut self, alias: &str, saved: Result<(), String>)
        ensures
            final(self).is_recording == old(self).is_recording,
            final(self).recorder_sample_rate == old(self).recorder_sample_rate,
            final(self).recorder_stop_signal == old(self).recorder_stop_signal,
            match saved {
                Ok(()) => {
                    &&& !final(self).show_recorder
                    &&& final(self).recorded_wav is None
                    &&& final(self).status@ == saved_status(alias@)
                },
                Err(e) => {
                    &&& final(self).show_recorder == old(self).show_recorder
                    &&& final(self).recorded_wav == old(self).recorded_wav
                    &&& final(self).status@ == save_error_status(e@)
                },
            },
    {
        match saved {
            Ok(()) => {
                let rest = chars_of(alias);
                self.status = concat_text("Gravado com sucesso: ", &rest);
                self.show_recorder = false;
                self.recorded_wav = None;
            },
            Err(e) => {
                let rest = chars_of(e.as_str());
                self.status = concat_text("Erro ao salvar: ", &rest);
            },
        }
    }

    /// Throws the take away and closes the recorder.
    pub fn discard_recording(&mut self)
        ensures
            final(self).recorded_wav is None,
            !final(self).show_recorder,
            final(self).is_recording == old(self).is_recording,
            final(self).recorder_sample_rate == old(self).recorder_sample_rate,
            final(self).recorder_stop_signal == old(self).recorder_stop_signal,
            final(self).status == old(self).status,
    {
        self.recorded_wav = None;
        self.show_recorder = false;
    }
}

} // verus!
