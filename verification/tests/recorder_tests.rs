use copaiba::recorder::CopaibaApp;

#[test]
fn start_then_stop_keeps_the_take() {
    let mut app: CopaibaApp<f32> = CopaibaApp::new();
    app.show_recorder = true;
    app.recorder_stop_signal = true;
    app.start_recording(Ok(44100));
    assert!(app.is_recording);
    assert!(!app.recorder_stop_signal);
    assert_eq!(app.recorder_sample_rate, 44100);
    assert_eq!(app.status, "Gravando a 44100 Hz...");
    assert!(app.stop_recording(vec![0.5, -0.25]));
    assert!(!app.is_recording);
    assert!(app.recorder_stop_signal);
    let take = app.recorded_wav.as_ref().unwrap();
    assert_eq!(take.samples, vec![0.5, -0.25]);
    assert_eq!(take.sample_rate, 44100);
    assert!(app.show_recorder);
}

#[test]
fn failed_start_shows_error() {
    let mut app: CopaibaApp<f32> = CopaibaApp::new();
    app.start_recording(Err("no device".to_string()));
    assert!(!app.is_recording);
    assert_eq!(app.status, "Erro ao iniciar gravação: no device");
}

#[test]
fn empty_capture_keeps_previous_take_and_second_stop_does_nothing() {
    let mut app: CopaibaApp<i16> = CopaibaApp::new();
    app.start_recording(Ok(8000));
    assert!(app.stop_recording(vec![1, 2, 3]));
    app.start_recording(Ok(16000));
    assert!(app.stop_recording(Vec::new()));
    assert_eq!(app.recorded_wav.as_ref().unwrap().samples, vec![1, 2, 3]);
    assert_eq!(app.recorded_wav.as_ref().unwrap().sample_rate, 8000);
    assert!(!app.stop_recording(vec![9]));
    assert_eq!(app.recorded_wav.as_ref().unwrap().samples, vec![1, 2, 3]);
}

#[test]
fn saving_and_discarding() {
    let mut app: CopaibaApp<f32> = CopaibaApp::new();
    assert_eq!(app.recording_to_save().err().unwrap(), "Nenhuma gravação para salvar");
    app.show_recorder = true;
    app.start_recording(Ok(22050));
    app.stop_recording(vec![0.1]);
    assert_eq!(app.recording_to_save().ok().unwrap().sample_rate, 22050);
    app.finish_save("ka", Err("disk full".to_string()));
    assert_eq!(app.status, "Erro ao salvar: disk full");
    assert!(app.show_recorder);
    assert!(app.recorded_wav.is_some());
    app.finish_save("ka", Ok(()));
    assert_eq!(app.status, "Gravado com sucesso: ka");
    assert!(!app.show_recorder);
    assert!(app.recorded_wav.is_none());
    app.show_recorder = true;
    app.start_recording(Ok(22050));
    app.stop_recording(vec![0.2]);
    app.discard_recording();
    assert!(app.recorded_wav.is_none());
    assert!(!app.show_recorder);
}

#[test]
fn rerecord_drops_the_take_and_starts_again() {
    let mut app: CopaibaApp<f32> = CopaibaApp::new();
    app.show_recorder = true;
    app.start_recording(Ok(44100));
    app.stop_recording(vec![0.3]);
    assert!(app.recorded_wav.is_some());
    app.rerecord(Ok(48000));
    assert!(app.recorded_wav.is_none());
    assert!(app.show_recorder);
    assert!(app.is_recording);
    assert!(!app.recorder_stop_signal);
    assert_eq!(app.recorder_sample_rate, 48000);
    assert_eq!(app.status, "Gravando a 48000 Hz...");
    app.stop_recording(vec![0.4]);
    app.rerecord(Err("busy".to_string()));
    assert!(app.recorded_wav.is_none());
    assert!(!app.is_recording);
    assert_eq!(app.status, "Erro ao iniciar gravação: busy");
}
