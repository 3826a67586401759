use meeting_transcriber::audio::recorder::{MeetingRecorder, Opened, Recording};
use meeting_transcriber::audio::system::{Prefer, SystemBackend};
use meeting_transcriber::chunking::checkpoint::transcript_path_for;
use meeting_transcriber::chunking::TranscribeError;
use meeting_transcriber::commands::{
    delete_transcript, recording_failed, start_recording, stop_recording, AfterStop,
};
use meeting_transcriber::engine::{
    engine_cache_key, header_line, is_audio, list_models, merge_recording, recording_header,
    resume_events, segment_event, select_sources, timestamp, Batch, DownloadStatus, EngineEvent,
    EngineHost, EngineStep, MergeOutcome, RecordingJob,
};
use meeting_transcriber::merge::conversation_path;
use meeting_transcriber::paths::{FilePath, Place};
use meeting_transcriber::recording::{
    parse_backend, recordings_dir, recordings_dir_under, LiveLevels, RecordingHost,
};
use meeting_transcriber::settings::{load, settings_path, settings_path_under, Settings};
use meeting_transcriber::sidecar::{read_line, send_line, sort_line, SidecarLine};
use meeting_transcriber::state::{AppState, CancelFlag, LanguageMode, Phase};
use meeting_transcriber::transcribe::models::DownloadError;
use meeting_transcriber::transcribe::segment::TranscriptSegment;
use meeting_transcriber::transcribe::{DEFAULT_MODEL, MODEL_OPTIONS};

fn at(dir: &str, name: &str) -> FilePath {
    FilePath::at(dir).join(name)
}

fn message_of(event: &EngineEvent) -> &str {
    match event {
        EngineEvent::Error { message, .. } | EngineEvent::Status { message } => message,
        other => panic!("no message in {other:?}"),
    }
}

// ---------------------------------------------------------------------------
// Which files
// ---------------------------------------------------------------------------

#[test]
fn only_known_audio_extensions_are_imported() {
    assert!(is_audio(&at("/tmp", "meeting.m4a")));
    assert!(is_audio(&at("/tmp", "MEETING.MP3")), "case-insensitive");
    assert!(!is_audio(&at("/tmp", "meeting.txt")));
    assert!(!is_audio(&at("/tmp", "meeting")));
}

#[test]
fn engine_only_known_audio_extensions_are_imported() {
    assert!(is_audio(&at("/tmp", "meeting.m4a")));
    assert!(is_audio(&at("/tmp", "MEETING.MP3")), "case-insensitive");
    assert!(!is_audio(&at("/tmp", "meeting.txt")));
    assert!(!is_audio(&at("/tmp", "meeting")));
    assert!(!is_audio(&at("/tmp", ".mp3")), "a hidden file has no extension");
    assert!(is_audio(&at("/tmp", "a.b.OpUs")));
    assert!(!is_audio(&FilePath::at("/tmp")));
}

#[test]
fn what_is_no_file_or_no_audio_is_skipped() {
    let paths = vec![at("/a", "1.mp3"), at("/a", "2.txt"), at("/a", "3.wav"), at("/a", "4.ogg")];
    let sources = select_sources(&paths, &vec![true, true, false, true]);
    assert_eq!(sources, [at("/a", "1.mp3"), at("/a", "4.ogg")]);
}

// ---------------------------------------------------------------------------
// Models
// ---------------------------------------------------------------------------

#[test]
fn list_models_reports_every_selectable_checkpoint() {
    let files = vec!["ggml-large-v3.bin".to_string()];
    let event = list_models(&files, &vec![None, None, None, Some(42), None]);
    assert_eq!(event.name(), "models");
    let EngineEvent::Models { models } = event else {
        panic!("models expected");
    };
    assert_eq!(models.len(), MODEL_OPTIONS.len());
    assert_eq!(models[0].name, MODEL_OPTIONS[0]);
    assert!(!models[0].downloaded && models[3].downloaded);
    assert_eq!((models[0].size_bytes, models[3].size_bytes), (0, 42));
}

#[test]
fn engine_list_models_reports_every_selectable_checkpoint() {
    let EngineEvent::Models { models } = list_models(&vec![], &vec![None; 5]) else {
        panic!("models expected");
    };
    let names: Vec<&str> = models.iter().map(|row| row.name.as_str()).collect();
    assert_eq!(names, MODEL_OPTIONS);
}

#[test]
fn a_second_download_of_the_same_model_is_refused() {
    let mut host = EngineHost::default();
    assert!(host.begin_download("small"));
    assert!(!host.begin_download("small"));
    assert!(host.begin_download("medium"));
    assert!(!host.download_cancelled("small"));
    assert!(host.cancel_download("small").is_none());
    assert!(host.download_cancelled("small") && !host.download_cancelled("medium"));

    let event = host.finish_download("small", &Err(DownloadError::Cancelled));
    assert_eq!(
        event,
        EngineEvent::DownloadFinished {
            name: "small".to_string(),
            status: DownloadStatus::Cancelled
        }
    );
    assert_eq!(event.name(), "mm_download_finished");
    // The entry is gone before the event fires.
    assert!(host.begin_download("small"));
    assert!(!host.download_cancelled("small"));
    assert!(!host.begin_download("medium"));
    let failed = host.finish_download("medium", &Err(DownloadError::Other("reset".to_string())));
    assert_eq!(
        failed,
        EngineEvent::DownloadFinished {
            name: "medium".to_string(),
            status: DownloadStatus::Error("reset".to_string())
        }
    );
}

#[test]
fn a_loaded_engine_is_used_again_until_its_model_is_deleted() {
    let mut host = EngineHost::default();
    let load = match host.resolve_engine("small", LanguageMode::ViEn, false) {
        EngineStep::Fetch(load) => load,
        EngineStep::UseLoaded => panic!("nothing is loaded yet"),
    };
    assert_eq!(load.key, "small|vi");
    assert_eq!(load.key, engine_cache_key("small", LanguageMode::ViEn));
    assert_eq!(
        message_of(&load.announcement().unwrap()),
        "Downloading 'small' (one-time, first use)…"
    );
    let (finished, status) = load.fetched(&Ok(()), false);
    assert_eq!(
        finished.unwrap(),
        EngineEvent::DownloadFinished { name: "small".to_string(), status: DownloadStatus::Done }
    );
    assert_eq!(message_of(&status.unwrap()), "Loading model 'small'…");
    host.set_loaded(&load.key);

    assert_eq!(host.resolve_engine("small", LanguageMode::ViEn, true), EngineStep::UseLoaded);
    assert!(matches!(
        host.resolve_engine("small", LanguageMode::Auto, true),
        EngineStep::Fetch(_)
    ));
    host.delete_model("large-v3");
    assert!(host.has_loaded("small|vi"));
    assert_eq!(
        host.delete_model("small"),
        EngineEvent::ModelDeleted { name: "small".to_string() }
    );
    assert!(!host.has_loaded("small|vi"));
}

#[test]
fn a_job_whose_model_cannot_be_had_ends() {
    let host = EngineHost::default();
    let EngineStep::Fetch(load) = host.resolve_engine("small", LanguageMode::En, true) else {
        panic!("nothing is loaded yet");
    };
    assert!(load.announcement().is_none(), "it is on disk");
    assert_eq!(load.fetched(&Ok(()), true), (None, Err(TranscribeError::Cancelled)));
    assert_eq!(
        load.fetched(&Err(DownloadError::Cancelled), false),
        (None, Err(TranscribeError::Cancelled))
    );
    assert_eq!(
        load.fetched(&Err(DownloadError::Other("no route".to_string())), false),
        (None, Err(TranscribeError::Other("no route".to_string())))
    );
}

// ---------------------------------------------------------------------------
// Jobs
// ---------------------------------------------------------------------------

#[test]
fn one_job_at_a_time() {
    let mut host = EngineHost::default();
    let mut state = AppState::default();
    assert!(host.claim_job(&mut state, "job-1").is_none());
    assert_eq!(state.phase(), Phase::Transcribing);
    let refused = host.claim_job(&mut state, "job-2").unwrap();
    assert_eq!(message_of(&refused), "job 'job-1' is already running");
    assert!(!host.job_cancelled());
    assert!(host.cancel_job("job-1").is_none());
    assert!(host.job_cancelled());
    host.finish_job(&mut state);
    assert_eq!(state.phase(), Phase::Idle);
    assert!(!host.job_cancelled());
    assert!(host.claim_job(&mut state, "job-2").is_none());
    assert!(!host.job_cancelled(), "a new job starts uncancelled");
}

#[test]
fn nothing_is_imported_while_a_recording_runs() {
    let mut host = EngineHost::default();
    let mut state = AppState::default();
    state.set_phase(Phase::Recording);
    let paths = vec![at("/a", "1.mp3"), at("/a", "2.txt")];
    let files = vec![true, true];
    let refused = host.start_transcription(&mut state, "job-1", &paths, &files).unwrap_err();
    assert_eq!(message_of(&refused), "the app is busy; stop what is running first");
    assert_eq!(state.phase(), Phase::Recording);
    assert!(host.claim_job(&mut state, "job-1").is_some());
    assert!(host.cancel_job("job-1").is_some(), "no job was started");

    // The recording itself is transcribed once it has ended.
    let job = host.transcribe_recording(&mut state, &recording_of("/rec", "m")).unwrap();
    assert_eq!(job.id(), "recording-m");
    assert_eq!(state.phase(), Phase::Transcribing);
    let refused = host.start_transcription(&mut state, "job-1", &paths, &files).unwrap_err();
    assert_eq!(message_of(&refused), "job 'recording-m' is already running");
    let refused = host.transcribe_recording(&mut state, &recording_of("/rec", "n")).unwrap_err();
    assert_eq!(message_of(&refused), "job 'recording-m' is already running");

    host.finish_job(&mut state);
    let batch = host.start_transcription(&mut state, "job-1", &paths, &files).unwrap();
    assert_eq!(batch.next().unwrap().label, "Transcribing: 1.mp3");
    assert_eq!(state.phase(), Phase::Transcribing);
}

#[test]
fn cancelling_something_that_is_not_running_is_an_error_not_a_silence() {
    let mut host = EngineHost::default();

    let event = host.cancel_job("no-such-job").unwrap();
    assert_eq!(event.name(), "error");
    assert!(message_of(&event).contains("no-such-job"));

    let event = host.cancel_download("large-v3").unwrap();
    assert!(message_of(&event).contains("large-v3"));
}

#[test]
fn engine_cancelling_something_that_is_not_running_is_an_error_not_a_silence() {
    let mut host = EngineHost::default();
    let mut state = AppState::default();
    host.claim_job(&mut state, "job-1");
    let event = host.cancel_job("no-such-job").unwrap();
    assert_eq!(message_of(&event), "no running job 'no-such-job'");
    assert!(!host.job_cancelled());
    host.begin_download("small");
    let event = host.cancel_download("large-v3").unwrap();
    assert_eq!(message_of(&event), "no download in progress for 'large-v3'");
}

fn finish(batch: Batch) -> (String, Vec<String>, bool) {
    let event = batch.done(5);
    assert_eq!(event.name(), "batch_done");
    match event {
        EngineEvent::BatchDone { id, saved, cancelled, elapsed_ns } => {
            assert_eq!(elapsed_ns, 5);
            (id, saved, cancelled)
        }
        other => panic!("expected batch_done, got {other:?}"),
    }
}

#[test]
fn a_batch_with_nothing_transcribable_still_finishes() {
    // Every job ends in exactly one `batch_done` carrying its own id, even when
    // the import contained no audio at all.
    let sources = select_sources(&vec![at("/nonexistent", "notes.txt")], &vec![false]);
    let batch = Batch::new("job-1", sources);
    assert!(batch.next().is_none());
    let (id, saved, cancelled) = finish(batch);
    assert_eq!(id, "job-1");
    assert_eq!(cancelled, false);
    assert_eq!(
        saved.len(),
        0,
        "a skipped file must not be reported as a written transcript"
    );
}

#[test]
fn engine_a_batch_with_nothing_transcribable_still_finishes() {
    let (id, saved, cancelled) = finish(Batch::new("job-1", Vec::new()));
    assert_eq!((id.as_str(), saved.len(), cancelled), ("job-1", 0, false));
}

#[test]
fn one_file_failing_does_not_stop_the_batch() {
    let mut batch = Batch::new("b", vec![at("/a", "1.mp3"), at("/a", "2.mp3"), at("/a", "3.mp3")]);
    let turn = batch.next().unwrap();
    assert_eq!(turn.source, at("/a", "1.mp3"));
    assert_eq!(turn.label, "Transcribing 1/3: 1.mp3");
    assert_eq!(message_of(&turn.status), "Transcribing 1/3: 1.mp3…");
    assert_eq!(turn.start, EngineEvent::FileStart { name: "1.mp3".to_string() });
    let event = batch.report(Err(TranscribeError::Other("corrupt".to_string()))).unwrap();
    assert_eq!(
        event,
        EngineEvent::Error { file: Some("1.mp3".to_string()), message: "corrupt".to_string() }
    );
    assert_eq!(batch.next().unwrap().label, "Transcribing 2/3: 2.mp3");
    assert!(batch.report(Ok("/a/2.txt".to_string())).is_none());
    assert!(batch.report(Ok("/a/3.txt".to_string())).is_none());
    assert!(batch.next().is_none());
    assert_eq!(
        finish(batch),
        ("b".to_string(), vec!["/a/2.txt".to_string(), "/a/3.txt".to_string()], false)
    );
}

#[test]
fn cancelling_stops_the_batch() {
    let mut batch = Batch::new("b", vec![at("/a", "1.mp3"), at("/a", "2.mp3")]);
    assert!(batch.report(Err(TranscribeError::Cancelled)).is_none());
    assert!(batch.next().is_none());
    assert_eq!(finish(batch), ("b".to_string(), Vec::new(), true));

    let single = Batch::new("s", vec![FilePath::at("only")]);
    assert_eq!(single.next().unwrap().label, "Transcribing: only");
}

#[test]
fn a_resumed_file_says_where_it_goes_on() {
    let (baseline, status) = resume_events("Transcribing: a.mp3", 1_500_000_000_000).unwrap();
    assert_eq!(baseline, EngineEvent::ChunkBaseline { resume_at_ns: 1_500_000_000_000 });
    assert_eq!(message_of(&status), "Transcribing: a.mp3 — resuming at 00:25:00…");
    assert!(resume_events("x", 0).is_none());
}

#[test]
fn an_invented_outro_never_flashes_on_screen() {
    let real = TranscriptSegment::new(4_000_000_000, 5_000_000_000, " xin chào ".to_string());
    assert_eq!(
        segment_event(&real).unwrap(),
        EngineEvent::SegmentText { text: "[00:00:04] xin chào".to_string() }
    );
    let fake = TranscriptSegment::new(0, 1, "Thanks for watching!".to_string());
    assert!(segment_event(&fake).is_none());
}

// ---------------------------------------------------------------------------
// Recordings
// ---------------------------------------------------------------------------

fn recording_of(dir: &str, stem: &str) -> Recording {
    Recording {
        stem: stem.to_string(),
        mic_path: Some(at(dir, &format!("{stem}-me.wav"))),
        system_path: Some(at(dir, &format!("{stem}-meeting.wav"))),
        duration_ns: 90_000_000_000,
        // 2026-08-04 00:00:00 UTC; asserted on only through the year, so the test
        // does not depend on the machine's timezone.
        started_at_ns: 1_785_801_600_000_000_000,
        warnings: Vec::new(),
    }
}

#[test]
fn a_finished_recording_becomes_one_conversation() {
    let mic = "[00:00:01] xin chào\n[00:00:09] vâng\n";
    let system = "[00:00:05] hello there\n";
    let recording = recording_of("/rec", "meeting-20260804-100000");
    let header = recording_header(&recording);
    let conversation = merge_recording(&recording, Some(mic), Some(system), &header)
        .expect("a conversation is made");

    assert_eq!(
        conversation.path.file_name().unwrap(),
        "meeting-20260804-100000-conversation.txt",
        "the conversation is named after the recording, next to its tracks"
    );
    assert_eq!(conversation.path.base.shown, "/rec");
    let text = conversation.text;
    assert!(text.starts_with("# Meeting recorded 202"), "{text}");
    // Midnight of the fourth by Greenwich is the third or the fourth anywhere.
    assert!(
        text.starts_with("# Meeting recorded 2026-08-03 ")
            || text.starts_with("# Meeting recorded 2026-08-04 "),
        "{text}"
    );
    assert!(text.contains("(1m30s)"), "the header carries the duration: {text}");
    // Interleaved by timestamp, which is the whole point of recording the two
    // sides against one clock.
    let spoken: Vec<&str> = text.lines().filter(|line| line.starts_with('[')).collect();
    assert_eq!(
        spoken,
        vec![
            "[00:00:01] Me: xin chào",
            "[00:00:05] Meeting: hello there",
            "[00:00:09] Me: vâng",
        ]
    );
}

#[test]
fn a_recording_nobody_spoke_in_writes_no_conversation() {
    // Both tracks transcribed to nothing. An empty conversation file would only
    // be one more thing to find and delete.
    let recording = recording_of("/rec", "meeting-20260804-100000");
    assert!(merge_recording(&recording, Some(""), None, "# header").is_none());
    assert_eq!(
        conversation_path(&FilePath::at("/rec"), &recording.stem).file_name().unwrap(),
        "meeting-20260804-100000-conversation.txt"
    );
}

#[test]
fn a_header_dates_the_recording() {
    assert_eq!(
        header_line(Some("2026-08-04 14:05"), 1_930_000_000_000),
        "# Meeting recorded 2026-08-04 14:05 (32m10s)"
    );
    assert_eq!(header_line(None, 0), "# Meeting recorded an unknown time (0s)");
    assert_eq!(timestamp(1_500_000_000), (1, 500_000_000));
    assert_eq!(timestamp(-1_500_000_000), (-1, 0));
    assert_eq!(timestamp(-1), (0, 0));
}

#[test]
fn both_tracks_are_transcribed_and_then_merged() {
    let mut job = RecordingJob::new(&recording_of("/rec", "m"));
    assert_eq!(job.id(), "recording-m");
    let turn = job.next().unwrap();
    assert_eq!(turn.label, "Transcribing the Me track");
    assert_eq!(turn.start, EngineEvent::FileStart { name: "Me — m-me.wav".to_string() });
    assert!(job.report(Ok("/rec/me.txt".to_string())).is_none());
    let turn = job.next().unwrap();
    assert_eq!(message_of(&turn.status), "Transcribing the Meeting track…");
    let event = job.report(Err(TranscribeError::Other("corrupt".to_string()))).unwrap();
    assert_eq!(
        event,
        EngineEvent::Error {
            file: Some("m-meeting.wav".to_string()),
            message: "corrupt".to_string()
        }
    );
    assert!(job.next().is_none());
    let inputs = job.merge_inputs().unwrap();
    assert_eq!(inputs.mic.as_deref(), Some("/rec/me.txt"));
    assert_eq!(inputs.system, None);
    let event = job
        .merged(MergeOutcome::Written { path: "/rec/c.txt".to_string(), text: "x".to_string() })
        .unwrap();
    assert_eq!(event.name(), "merged_text");
    match job.done(9) {
        EngineEvent::BatchDone { id, saved, cancelled, elapsed_ns } => {
            assert_eq!(id, "recording-m");
            assert_eq!(saved, ["/rec/me.txt", "/rec/c.txt"]);
            assert!(!cancelled);
            assert_eq!(elapsed_ns, 9);
        }
        other => panic!("expected batch_done, got {other:?}"),
    }
}

#[test]
fn a_cancelled_recording_is_not_merged() {
    let mut job = RecordingJob::new(&recording_of("/rec", "m"));
    job.report(Ok("/rec/me.txt".to_string()));
    job.report(Err(TranscribeError::Cancelled));
    assert!(job.next().is_none());
    assert!(job.merge_inputs().is_none(), "half a conversation reads worse than none");

    let mut failed = RecordingJob::new(&recording_of("/rec", "m"));
    failed.report(Err(TranscribeError::Other("a".to_string())));
    failed.report(Err(TranscribeError::Other("b".to_string())));
    assert!(failed.merge_inputs().is_none(), "there is nothing to merge");
    assert!(failed.merged(MergeOutcome::Nothing).is_none());
    let event = failed.merged(MergeOutcome::Failed("disk full".to_string())).unwrap();
    assert_eq!(event, EngineEvent::Error { file: None, message: "disk full".to_string() });
}

// ---------------------------------------------------------------------------
// The recording thread
// ---------------------------------------------------------------------------

#[test]
fn unknown_backends_fall_back_to_auto() {
    assert_eq!(parse_backend("loopback"), Prefer::Loopback);
    assert_eq!(parse_backend("screencapturekit"), Prefer::ScreenCaptureKit);
    assert_eq!(parse_backend("auto"), Prefer::Auto);
    assert_eq!(parse_backend(""), Prefer::Auto);
}

#[test]
fn recordings_live_somewhere_the_user_can_find_them() {
    let dir = recordings_dir();
    assert!(dir.base.shown.starts_with('/') || dir.base.shown == ".");
    assert!(dir.base.exact.is_some() || dir.base.shown == ".");
    assert_eq!(dir.parts, ["Transcriber", "recordings"]);
    let documents = Some(Place::named("/docs"));
    assert_eq!(recordings_dir_under(documents, Some(Place::named("/home"))).base.shown, "/docs");
    assert_eq!(recordings_dir_under(None, Some(Place::named("/home"))).base.shown, "/home");
    assert_eq!(recordings_dir_under(None, None).base.shown, ".");
}

#[test]
fn stopping_when_nothing_runs_reports_no_recording() {
    let mut host = RecordingHost::default();
    assert!(host.stop(0, 0, None, None).is_none());
}

#[test]
fn levels_are_zero_and_not_running_before_a_recording_starts() {
    let host = RecordingHost::default();
    let levels = host.levels(Some(5), Some(5), 7);
    assert!(!levels.running);
    assert_eq!(levels.elapsed_ns, 0);
    assert_eq!(levels, LiveLevels::default());
}

#[test]
fn a_second_recording_is_refused_while_one_runs() {
    let mut host = RecordingHost::default();
    assert!(host.refuse_start().is_none());
    let failed = host.started(Err("Nothing could be recorded.".to_string()));
    assert_eq!(failed.unwrap_err(), "Nothing could be recorded.");
    assert!(host.refuse_start().is_none());

    let recorder = MeetingRecorder::start(
        &FilePath::at("/rec"),
        "m".to_string(),
        &Opened::NoCapture(Some("unplugged".to_string())),
        &Opened::Running,
        SystemBackend::ScreenCaptureKit,
        0,
    );
    let started = host.started(recorder).unwrap();
    assert_eq!(started.stem, "m");
    assert_eq!(
        started.system_description.as_deref(),
        Some("macOS system audio (ScreenCaptureKit)")
    );
    assert_eq!(started.warnings, ["Microphone unavailable: unplugged"]);
    assert_eq!(host.refuse_start().unwrap(), "a recording is already running");
    let levels = host.levels(None, Some(5), 7);
    assert_eq!((levels.mic, levels.system, levels.elapsed_ns, levels.running), (0, 5, 7, true));
    let recording = host.stop(0, 160, Some("late".to_string()), None).unwrap();
    assert_eq!(
        recording.warnings,
        ["Microphone unavailable: unplugged", "Microphone track: late"]
    );
    assert_eq!(recording.stem, "m");
    assert_eq!(recording.duration_ns, 10_000_000);
    assert!(host.refuse_start().is_none());
}

// ---------------------------------------------------------------------------
// Commands, settings, state
// ---------------------------------------------------------------------------

#[test]
fn only_transcripts_are_deleted() {
    assert!(delete_transcript(&at("/rec", "a.txt")).is_ok());
    let written = transcript_path_for(&at("/rec", ".mp3"), Some("20260804-100000"));
    assert!(delete_transcript(&written).is_ok());
    assert!(delete_transcript(&conversation_path(&FilePath::at("/rec"), "")).is_ok());
    for name in ["a.wav", "a.TXT", "txt", ".txt", "a.txt.bak"] {
        assert_eq!(
            delete_transcript(&at("/rec", name)).unwrap_err(),
            "refusing to delete a non-transcript file",
            "{name}"
        );
    }
}

#[test]
fn recording_starts_only_from_idle_and_with_a_side() {
    let mut state = AppState::default();
    assert_eq!(
        start_recording(&mut state, false, false, None, None).unwrap_err(),
        "nothing to record — enable at least one side"
    );
    assert_eq!(state.phase(), Phase::Idle);
    let options =
        start_recording(&mut state, true, false, Some("mic".to_string()), Some("loopback")).unwrap();
    assert_eq!(state.phase(), Phase::Recording);
    assert!(options.record_mic && !options.record_system);
    assert_eq!(options.mic_device_id.as_deref(), Some("mic"));
    assert_eq!(options.system_backend, Prefer::Loopback);
    assert_eq!(
        start_recording(&mut state, true, true, None, None).unwrap_err(),
        "the app is busy; stop what is running first"
    );
    recording_failed(&mut state);
    assert_eq!(state.phase(), Phase::Idle);
}

#[test]
fn a_stopped_recording_is_transcribed_if_there_is_anything_of_it() {
    let mut state = AppState::default();
    state.set_phase(Phase::Recording);
    assert_eq!(
        stop_recording(&mut state, Some(&recording_of("/rec", "m"))),
        AfterStop::Transcribe
    );
    assert_eq!(state.phase(), Phase::Recording);
    let mut empty = recording_of("/rec", "m");
    empty.mic_path = None;
    empty.system_path = None;
    assert_eq!(stop_recording(&mut state, Some(&empty)), AfterStop::Empty);
    assert_eq!(state.phase(), Phase::Idle);
    state.set_phase(Phase::Recording);
    assert_eq!(stop_recording(&mut state, None), AfterStop::NotRunning);
    assert_eq!(state.phase(), Phase::Idle);
}

#[test]
fn defaults_are_the_app_the_python_version_started_as() {
    let settings = Settings::default();
    assert_eq!(settings.language_mode, "vi+en");
    assert!(settings.record_mic && settings.record_system);
    assert_eq!(settings.model, DEFAULT_MODEL);
    assert_eq!(settings.mic_device_id, None);
}

#[test]
fn garbage_does_not_take_the_app_down_with_it() {
    // What does not parse is handed over as nothing.
    assert_eq!(load(None), Settings::default());
    let mut chosen = Settings::default();
    chosen.model = "medium".to_string();
    assert_eq!(load(Some(chosen.clone())), chosen);
}

#[test]
fn settings_live_beside_the_app_not_beside_the_audio() {
    let path = settings_path();
    assert_eq!(path.parts, ["dev.placepad.transcriber", "settings.json"]);
    assert_eq!(settings_path_under(Some(Place::named("/cfg"))).base.shown, "/cfg");
    assert_eq!(settings_path_under(None).base.shown, ".");
    // A name that is not Unicode is kept as it is.
    let odd = Place { shown: "/cfg\u{fffd}".to_string(), exact: Some(b"/cfg\xff".to_vec()) };
    assert_eq!(settings_path_under(Some(odd.clone())).base, odd);
    assert_eq!(FilePath::in_place(odd.clone()).join("a").parent().unwrap().base, odd);
    assert_eq!(FilePath::in_place(odd).shown_name(), "/cfg\u{fffd}");
}

#[test]
fn an_unknown_language_is_the_default_one() {
    assert_eq!(LanguageMode::parse("en"), LanguageMode::En);
    assert_eq!(LanguageMode::parse("auto"), LanguageMode::Auto);
    assert_eq!(LanguageMode::parse("vi+en"), LanguageMode::ViEn);
    assert_eq!(LanguageMode::parse("vi"), LanguageMode::ViEn);
    assert_eq!(LanguageMode::ViEn.whisper_language(), Some("vi"));
    assert_eq!(LanguageMode::En.whisper_language(), Some("en"));
    assert_eq!(LanguageMode::Auto.whisper_language(), None);
    let state = AppState::default();
    assert_eq!(state.phase(), Phase::Idle);
    assert_eq!(state.language, LanguageMode::ViEn);
    assert_eq!(state.model, DEFAULT_MODEL);
    assert!(state.cancel.is_none());
    let mut flag = CancelFlag::default();
    assert!(!flag.is_cancelled());
    flag.cancel();
    assert!(flag.is_cancelled());
}

// ---------------------------------------------------------------------------
// The helper's lines
// ---------------------------------------------------------------------------

#[test]
fn lines_of_the_helper_are_values_or_go_to_the_log() {
    assert_eq!(read_line("  \t"), SidecarLine::Skip);
    assert_eq!(
        read_line(" { \"event\" : \"status\", \"n\": [1, 2] } "),
        SidecarLine::Event("{\"event\":\"status\",\"n\":[1,2]}".to_string())
    );
    match read_line("{ nope") {
        SidecarLine::Bad(message) => {
            assert!(message.starts_with("sidecar: bad JSON line ("), "{message}");
            assert!(message.ends_with("): { nope"), "{message}");
        }
        other => panic!("expected a bad line, got {other:?}"),
    }
    assert_eq!(
        sort_line("x", Err("why".to_string())),
        SidecarLine::Bad("sidecar: bad JSON line (why): x".to_string())
    );
    assert_eq!(sort_line(" ", Err("why".to_string())), SidecarLine::Skip);
    assert_eq!(
        sort_line("1", Ok("1".to_string())),
        SidecarLine::Event("1".to_string())
    );
}

#[test]
fn a_message_is_one_line() {
    assert_eq!(
        send_line("{\"text\": \"a\\nb\",\n\"id\": 1}").unwrap(),
        "{\"id\":1,\"text\":\"a\\nb\"}\n"
    );
    assert!(send_line("{").is_err());
}
