//! Reading and writing oto.ini files.
//!
//! Each line of an oto.ini reads `filename=alias,offset,consonant,cutoff,preutter,overlap`.
//! Files come as UTF-8, Shift-JIS or GBK; the encoding found on reading is
//! the one used to write the file back.
use vstd::prelude::*;
use vstd::slice::slice_subrange;
use vstd::utf8::{decode_utf8, encode_utf8, valid_utf8};
use crate::text::{
    chars_of, find_char, index_of_in, lemma_find_char, split_on, split_spans, string_from_chars,
    trim, trim_span,
};
use crate::timing::{field_micros, parse_micros_in, push_rounded_ms_text, rounded_ms_text};

verus! {

/// Detected encoding of the oto.ini file
#[derive(Clone, Copy, Debug, PartialEq, Eq, Structural)]
pub enum OtoEncoding {
    Utf8,
    ShiftJis,
    Gbk,
}

/// One entry (alias) in an oto.ini file.
///
/// The five timing fields are milliseconds held as whole microseconds.
#[derive(Debug)]
pub struct OtoEntry {
    /// e.g. "あ.wav"
    pub filename: String,
    /// e.g. "- あ"
    pub alias: String,
    /// Offset from start of WAV
    pub offset: i64,
    /// Consonant area (from offset)
    pub consonant: i64,
    /// Cutoff from end of WAV (negative) or from offset (positive)
    pub cutoff: i64,
    /// Preutterance from offset
    pub preutter: i64,
    /// Overlap from offset
    pub overlap: i64,
    /// Line of the file the entry was read from
    pub line_index: usize,
    /// Marked as done by user
    pub done: bool,
    /// User annotations
    pub notes: String,
}

/// What an [`OtoEntry`] holds, as plain values.
pub struct OtoEntryView {
    pub filename: Seq<char>,
    pub alias: Seq<char>,
    pub offset: int,
    pub consonant: int,
    pub cutoff: int,
    pub preutter: int,
    pub overlap: int,
    pub line_index: int,
    pub done: bool,
    pub notes: Seq<char>,
}

impl View for OtoEntry {
    type V = OtoEntryView;

    open spec fn view(&self) -> OtoEntryView {
        OtoEntryView {
            filename: self.filename@,
            alias: self.alias@,
            offset: self.offset as int,
            consonant: self.consonant as int,
            cutoff: self.cutoff as int,
            preutter: self.preutter as int,
            overlap: self.overlap as int,
            line_index: self.line_index as int,
            done: self.done,
            notes: self.notes@,
        }
    }
}

impl Clone for OtoEntry {
    fn clone(&self) -> (res: Self)
        ensures
            res == *self,
    {
        OtoEntry {
            filename: self.filename.clone(),
            alias: self.alias.clone(),
            offset: self.offset,
            consonant: self.consonant,
            cutoff: self.cutoff,
            preutter: self.preutter,
            overlap: self.overlap,
            line_index: self.line_index,
            done: self.done,
            notes: self.notes.clone(),
        }
    }
}

impl PartialEq for OtoEntry {
    fn eq(&self, other: &Self) -> (res: bool) {
        self.filename == other.filename && self.alias == other.alias && self.offset
            == other.offset && self.consonant == other.consonant && self.cutoff == other.cutoff
            && self.preutter == other.preutter && self.overlap == other.overlap
            && self.line_index == other.line_index && self.done == other.done && self.notes
            == other.notes
    }
}

impl vstd::std_specs::cmp::PartialEqSpecImpl for OtoEntry {
    open spec fn obeys_eq_spec() -> bool {
        true
    }

    open spec fn eq_spec(&self, other: &OtoEntry) -> bool {
        self@ == other@
    }
}

/// The views of a sequence of entries.
pub open spec fn entry_views(es: Seq<OtoEntry>) -> Seq<OtoEntryView> {
    es.map_values(|e: OtoEntry| e@)
}

// ---------------------------------------------------------------------
// Writing
// ---------------------------------------------------------------------

/// The oto.ini line of an entry: timing values rounded to whole milliseconds.
pub open spec fn line_text(e: OtoEntryView) -> Seq<char> {
    e.filename + seq!['='] + e.alias + seq![','] + rounded_ms_text(e.offset) + seq![',']
        + rounded_ms_text(e.consonant) + seq![','] + rounded_ms_text(e.cutoff) + seq![',']
        + rounded_ms_text(e.preutter) + seq![','] + rounded_ms_text(e.overlap)
}

/// Appends the characters of `s` to `out`.
fn push_str_chars(out: &mut Vec<char>, s: &str)
    ensures
        final(out)@ == old(out)@ + s@,
{
    let mut chars = chars_of(s);
    out.append(&mut chars);
}

/// Appends the oto.ini line of `e` to `out`.
fn push_line_text(out: &mut Vec<char>, e: &OtoEntry)
    ensures
        final(out)@ == old(out)@ + line_text(e@),
{
    let ghost start = out@;
    push_str_chars(out, e.filename.as_str());
    out.push('=');
    push_str_chars(out, e.alias.as_str());
    out.push(',');
    push_rounded_ms_text(out, e.offset);
    out.push(',');
    push_rounded_ms_text(out, e.consonant);
    out.push(',');
    push_rounded_ms_text(out, e.cutoff);
    out.push(',');
    push_rounded_ms_text(out, e.preutter);
    out.push(',');
    push_rounded_ms_text(out, e.overlap);
    assert(out@ =~= start + line_text(e@));
}

impl OtoEntry {
    /// Serialize back to one oto.ini line
    pub fn to_line(&self) -> (res: String)
        ensures
            res@ == line_text(self@),
    {
        let mut out: Vec<char> = Vec::new();
        push_line_text(&mut out, self);
        assert(out@ =~= line_text(self@));
        string_from_chars(out.as_slice())
    }
}

/// The text of an oto.ini file: each entry's line followed by a newline.
pub open spec fn oto_text(es: Seq<OtoEntryView>) -> Seq<char>
    decreases es.len(),
{
    if es.len() == 0 {
        Seq::<char>::empty()
    } else {
        oto_text(es.drop_last()) + line_text(es.last()) + seq!['\n']
    }
}

/// What `Encoding::encode` of encoding_rs returns for `text` in `encoding`:
/// the bytes, with unmappable characters written as numeric character
/// references.
pub uninterp spec fn encoded_with(encoding: OtoEncoding, text: Seq<char>) -> Seq<u8>;

/// `encoding_rs::Encoding::encode` on the encoding that `encoding` names.
/// Its bytes are named `encoded_with`; the flag for unmappable characters
/// is not returned. The call panics only when the output size overflows
/// `usize`, which the bound on the input leaves out.
#[verifier::external_body]
fn encode_with(encoding: OtoEncoding, text: &str) -> (res: Vec<u8>)
    requires
        encode_utf8(text@).len() <= usize::MAX / 16,
    ensures
        res@ == encoded_with(encoding, text@),
{
    let target = match encoding {
        OtoEncoding::Utf8 => encoding_rs::UTF_8,
        OtoEncoding::ShiftJis => encoding_rs::SHIFT_JIS,
        OtoEncoding::Gbk => encoding_rs::GBK,
    };
    let (bytes, _, _) = target.encode(text);
    bytes.into_owned()
}

/// The bytes of an oto.ini file in `encoding`: UTF-8 text as it is,
/// Shift-JIS and GBK through encoding_rs.
pub open spec fn oto_file_bytes(es: Seq<OtoEntryView>, encoding: OtoEncoding) -> Seq<u8> {
    match encoding {
        OtoEncoding::Utf8 => encode_utf8(oto_text(es)),
        _ => encoded_with(encoding, oto_text(es)),
    }
}

/// The bytes that saving `entries` in `encoding` writes to the oto.ini file.
pub fn save_oto_bytes(entries: &[OtoEntry], encoding: OtoEncoding) -> (res: Vec<u8>)
    requires
        encode_utf8(oto_text(entry_views(entries@))).len() <= usize::MAX / 16,
    ensures
        res@ == oto_file_bytes(entry_views(entries@), encoding),
{
    let mut out: Vec<char> = Vec::new();
    let mut k: usize = 0;
    while k < entries.len()
        invariant
            k <= entries@.len(),
            out@ == oto_text(entry_views(entries@.take(k as int))),
        decreases entries@.len() - k,
    {
        push_line_text(&mut out, &entries[k]);
        out.push('\n');
        proof {
            let es = entry_views(entries@.take(k + 1));
            assert(es.drop_last() =~= entry_views(entries@.take(k as int)));
            assert(es.last() == entries@[k as int]@);
        }
        k = k + 1;
    }
    assert(entries@.take(entries@.len() as int) =~= entries@);
    let text = string_from_chars(out.as_slice());
    match encoding {
        OtoEncoding::Utf8 => text.as_str().as_bytes_vec(),
        _ => encode_with(encoding, text.as_str()),
    }
}

// ---------------------------------------------------------------------
// Reading
// ---------------------------------------------------------------------

/// The entry that a line of an oto.ini file describes, if it describes one:
/// the filename runs to the first `=`, and the rest must hold at least six
/// comma-separated fields: the alias and the five timing values. A timing
/// field that is not a number reads as 0.
pub open spec fn parse_line_spec(line: Seq<char>, idx: int) -> Option<OtoEntryView> {
    match find_char(line, '=') {
        None => None,
        Some(eq) => {
            let parts = split_on(line.skip(eq + 1), ',');
            if parts.len() < 6 {
                None
            } else {
                Some(
                    OtoEntryView {
                        filename: line.take(eq),
                        alias: parts[0],
                        offset: field_micros(parts[1]),
                        consonant: field_micros(parts[2]),
                        cutoff: field_micros(parts[3]),
                        preutter: field_micros(parts[4]),
                        overlap: field_micros(parts[5]),
                        line_index: idx,
                        done: false,
                        notes: Seq::<char>::empty(),
                    },
                )
            }
        },
    }
}

/// The value of the timing field `v[lo..hi]`.
fn field_value_in(v: &Vec<char>, lo: usize, hi: usize) -> (r: i64)
    requires
        lo <= hi <= v@.len(),
    ensures
        r == field_micros(v@.subrange(lo as int, hi as int)),
{
    let (a, b) = trim_span(v, lo, hi);
    match parse_micros_in(v, a, b) {
        Some(x) => x,
        None => 0,
    }
}

/// The characters `v[lo..hi]` as a `String`.
fn string_of_span(v: &Vec<char>, lo: usize, hi: usize) -> (r: String)
    requires
        lo <= hi <= v@.len(),
    ensures
        r@ == v@.subrange(lo as int, hi as int),
{
    string_from_chars(slice_subrange(v.as_slice(), lo, hi))
}

/// `parse_line_spec` on `v[lo..hi]`.
fn parse_line_in(v: &Vec<char>, lo: usize, hi: usize, idx: usize) -> (r: Option<OtoEntry>)
    requires
        lo <= hi <= v@.len(),
    ensures
        match parse_line_spec(v@.subrange(lo as int, hi as int), idx as int) {
            Some(e) => r matches Some(x) && x@ == e,
            None => r is None,
        },
{
    let ghost line = v@.subrange(lo as int, hi as int);
    let eq = match index_of_in(v, lo, hi, '=') {
        Some(q) => q,
        None => {
            return None;
        },
    };
    proof {
        lemma_find_char(line, '=');
        assert(line.skip(eq - lo + 1) =~= v@.subrange(eq + 1, hi as int));
        assert(line.take(eq - lo) =~= v@.subrange(lo as int, eq as int));
    }
    let spans = split_spans(v, eq + 1, hi, ',');
    if spans.len() < 6 {
        return None;
    }
    let alias = string_of_span(v, spans[0].0, spans[0].1);
    let offset = field_value_in(v, spans[1].0, spans[1].1);
    let consonant = field_value_in(v, spans[2].0, spans[2].1);
    let cutoff = field_value_in(v, spans[3].0, spans[3].1);
    let preutter = field_value_in(v, spans[4].0, spans[4].1);
    let overlap = field_value_in(v, spans[5].0, spans[5].1);
    let entry = OtoEntry {
        filename: string_of_span(v, lo, eq),
        alias,
        offset,
        consonant,
        cutoff,
        preutter,
        overlap,
        line_index: idx,
        done: false,
        notes: String::new(),
    };
    Some(entry)
}

/// Parse one line of an oto.ini file; `idx` is its line number.
pub fn parse_line(line: &str, idx: usize) -> (r: Option<OtoEntry>)
    ensures
        match parse_line_spec(line@, idx as int) {
            Some(e) => r matches Some(x) && x@ == e,
            None => r is None,
        },
{
    let v = chars_of(line);
    assert(v@.subrange(0, v@.len() as int) =~= v@);
    parse_line_in(&v, 0, v.len(), idx)
}

/// A line without one carriage return at its end.
pub open spec fn strip_cr(s: Seq<char>) -> Seq<char> {
    if s.len() > 0 && s.last() == '\r' {
        s.drop_last()
    } else {
        s
    }
}

/// The lines of `s` as `str::lines` yields them: split at `\n`, a `\r`
/// before a `\n` dropped, and no empty line after a final `\n`.
pub open spec fn text_lines(s: Seq<char>) -> Seq<Seq<char>> {
    let p = split_on(s, '\n');
    let n = p.len();
    let body = Seq::new((n - 1) as nat, |k: int| strip_cr(p[k]));
    if n == 0 || p[n - 1].len() == 0 {
        body
    } else {
        body.push(p[n - 1])
    }
}

/// The entry on line `idx`: lines that are blank once trimmed, or start
/// with `#`, hold none.
pub open spec fn line_entry(line: Seq<char>, idx: int) -> Option<OtoEntryView> {
    let t = trim(line);
    if t.len() == 0 || t[0] == '#' {
        None
    } else {
        parse_line_spec(t, idx)
    }
}

/// The entries of the first `k` lines, in order.
pub open spec fn entries_of_lines(ls: Seq<Seq<char>>, k: int) -> Seq<OtoEntryView>
    decreases k,
{
    if k <= 0 {
        Seq::<OtoEntryView>::empty()
    } else {
        let prev = entries_of_lines(ls, k - 1);
        match line_entry(ls[k - 1], k - 1) {
            Some(e) => prev.push(e),
            None => prev,
        }
    }
}

/// The entries of an oto.ini text.
pub open spec fn oto_entries(text: Seq<char>) -> Seq<OtoEntryView> {
    entries_of_lines(text_lines(text), text_lines(text).len() as int)
}

/// The entries of the oto.ini text held in `v`.
#[verifier::rlimit(40)]
pub fn parse_oto_text(v: &Vec<char>) -> (res: Vec<OtoEntry>)
    ensures
        entry_views(res@) == oto_entries(v@),
{
    let ghost pieces = split_on(v@, '\n');
    let ghost ls = text_lines(v@);
    let spans = split_spans(v, 0, v.len(), '\n');
    assert(v@.subrange(0, v@.len() as int) =~= v@);
    proof {
        crate::text::lemma_split_on_nonempty(v@, '\n');
    }
    let n = spans.len();
    let last_empty = spans[n - 1].0 == spans[n - 1].1;
    let count = if last_empty {
        n - 1
    } else {
        n
    };
    assert(count == ls.len());
    let mut res: Vec<OtoEntry> = Vec::new();
    let mut k: usize = 0;
    while k < count
        invariant
            pieces == split_on(v@, '\n'),
            ls == text_lines(v@),
            n == spans@.len() == pieces.len(),
            n >= 1,
            count == ls.len(),
            count <= n,
            k <= count,
            forall|j: int|
                0 <= j < spans@.len() ==> {
                    &&& #[trigger] spans@[j].0 <= spans@[j].1 <= v@.len()
                    &&& v@.subrange(spans@[j].0 as int, spans@[j].1 as int) == pieces[j]
                },
            entry_views(res@) == entries_of_lines(ls, k as int),
        decreases count - k,
    {
        let a = spans[k].0;
        let mut b = spans[k].1;
        if k + 1 < n && b > a && v[b - 1] == '\r' {
            b = b - 1;
        }
        proof {
            assert(v@.subrange(a as int, spans@[k as int].1 as int) == pieces[k as int]);
            if k + 1 < n {
                assert(ls[k as int] == strip_cr(pieces[k as int]));
                if b < spans@[k as int].1 {
                    assert(pieces[k as int].drop_last() =~= v@.subrange(a as int, b as int));
                }
            } else {
                assert(ls[k as int] == pieces[k as int]);
            }
            assert(v@.subrange(a as int, b as int) == ls[k as int]);
        }
        let (ta, tb) = trim_span(v, a, b);
        let ghost prev = entry_views(res@);
        if ta < tb && v[ta] != '#' {
            match parse_line_in(v, ta, tb, k) {
                Some(e) => {
                    res.push(e);
                    proof {
                        assert(entry_views(res@) =~= prev.push(e@));
                    }
                },
                None => {},
            }
        }
        k = k + 1;
    }
    res
}

/// What `Encoding::decode` of encoding_rs returns for `bytes` in
/// `encoding`: the text (after BOM sniffing, malformed sequences replaced)
/// and whether there were malformed sequences.
pub uninterp spec fn decoded_with(encoding: OtoEncoding, bytes: Seq<u8>) -> (Seq<char>, bool);

/// `encoding_rs::Encoding::decode` on the encoding that `encoding` names.
/// Its text and error flag are named `decoded_with`. The call panics only
/// when the output size overflows `usize`, which the bound leaves out.
#[verifier::external_body]
fn decode_with(encoding: OtoEncoding, bytes: &[u8]) -> (res: (String, bool))
    requires
        bytes@.len() <= usize::MAX / 16,
    ensures
        (res.0@, res.1) == decoded_with(encoding, bytes@),
{
    let source = match encoding {
        OtoEncoding::Utf8 => encoding_rs::UTF_8,
        OtoEncoding::ShiftJis => encoding_rs::SHIFT_JIS,
        OtoEncoding::Gbk => encoding_rs::GBK,
    };
    let (text, _, had_errors) = source.decode(bytes);
    (text.into_owned(), had_errors)
}

/// `std::str::from_utf8`: the text when `bytes` is valid UTF-8, as vstd's
/// model of UTF-8 decodes it, and `None` otherwise.
#[verifier::external_body]
fn utf8_text(bytes: &[u8]) -> (res: Option<String>)
    ensures
        match res {
            Some(s) => valid_utf8(bytes@) && s@ == decode_utf8(bytes@),
            None => !valid_utf8(bytes@),
        },
{
    match std::str::from_utf8(bytes) {
        Ok(s) => Some(s.to_owned()),
        Err(_) => None,
    }
}

/// The text of an oto.ini file and its encoding: UTF-8 when the bytes are
/// valid UTF-8, else Shift-JIS when they decode as it without errors, else GBK.
pub open spec fn decode_oto(bytes: Seq<u8>) -> (Seq<char>, OtoEncoding) {
    if valid_utf8(bytes) {
        (decode_utf8(bytes), OtoEncoding::Utf8)
    } else if !decoded_with(OtoEncoding::ShiftJis, bytes).1 {
        (decoded_with(OtoEncoding::ShiftJis, bytes).0, OtoEncoding::ShiftJis)
    } else {
        (decoded_with(OtoEncoding::Gbk, bytes).0, OtoEncoding::Gbk)
    }
}

pub struct ParsedOto {
    pub entries: Vec<OtoEntry>,
    pub encoding: OtoEncoding,
}

/// Parse the bytes of an oto.ini file.
/// Tries UTF-8 first; falls back to Shift-JIS, then GBK.
pub fn parse_oto(bytes: &[u8]) -> (res: ParsedOto)
    requires
        bytes@.len() <= usize::MAX / 16,
    ensures
        res.encoding == decode_oto(bytes@).1,
        entry_views(res.entries@) == oto_entries(decode_oto(bytes@).0),
{
    let (text, encoding) = match utf8_text(bytes) {
        Some(t) => (t, OtoEncoding::Utf8),
        None => {
            let (sjis, sjis_errors) = decode_with(OtoEncoding::ShiftJis, bytes);
            if !sjis_errors {
                (sjis, OtoEncoding::ShiftJis)
            } else {
                let (gbk, _) = decode_with(OtoEncoding::Gbk, bytes);
                (gbk, OtoEncoding::Gbk)
            }
        },
    };
    let chars = chars_of(text.as_str());
    let entries = parse_oto_text(&chars);
    ParsedOto { entries, encoding }
}

} // verus!
