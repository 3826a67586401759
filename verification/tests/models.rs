use meeting_transcriber::engine::{download_progress, EngineEvent};
use meeting_transcriber::paths::{FilePath, Place};
use meeting_transcriber::state::CancelFlag;
use meeting_transcriber::transcribe::models::{
    begin_download, cache_dir, cache_dir_under, ggml_filename, header_u64, is_model_downloaded,
    list_downloaded_models, model_path, model_size_on_disk, partial_path, plan_body, range_header,
    remote_size, remote_url, total_from_content_range, Attempts, BodyPlan, DownloadBegin,
    DownloadError, DownloadStep, FetchOutcome, Transfer, TransferStep, DOWNLOAD_CHUNK,
};
use meeting_transcriber::transcribe::params::{decode_params, default_threads};
use meeting_transcriber::transcribe::segment::TranscriptSegment;
use meeting_transcriber::transcribe::whisper_cpp::{
    collect, finished_segments, on_timeline, PreviewFilter, RawSegment, WhisperCppEngine,
};
use meeting_transcriber::transcribe::{DEFAULT_MODEL, MODEL_OPTIONS};

// ---------------------------------------------------------------------------
// The cache
// ---------------------------------------------------------------------------

#[test]
fn ggml_names_match_the_published_files() {
    assert_eq!(ggml_filename("large-v3"), "ggml-large-v3.bin");
    assert_eq!(ggml_filename("large-v3-turbo"), "ggml-large-v3-turbo.bin");
    assert_eq!(ggml_filename("small"), "ggml-small.bin");
}

#[test]
fn the_cache_is_not_the_python_apps_cache() {
    // Sharing the directory would let Manage Models delete checkpoints that
    // another program is still using.
    let dir = cache_dir(None);
    assert_eq!(dir.file_name().as_deref(), Some("whisper-cpp"));
    assert_eq!(dir.parts, [".cache", "whisper-cpp"]);
}

#[test]
fn xdg_cache_home_is_honoured() {
    let dir = cache_dir(Some(&Place::named("/tmp/xdg-example")));
    assert_eq!(dir, FilePath::at("/tmp/xdg-example").join("whisper-cpp"));
    // An empty value is no directory.
    let home = cache_dir_under(Some(&Place::named("")), Some(&Place::named("/home/me")));
    assert_eq!(home, FilePath::at("/home/me").join(".cache").join("whisper-cpp"));
    assert_eq!(cache_dir_under(None, None).base.shown, ".");
}

#[test]
fn an_unfinished_model_has_a_name_of_its_own() {
    let cache = FilePath::at("/cache");
    assert_eq!(model_path(&cache, "small").file_name().unwrap(), "ggml-small.bin");
    assert_eq!(partial_path(&cache, "small").file_name().unwrap(), "ggml-small.bin.part");
}

#[test]
fn models_on_disk_are_listed_fastest_first() {
    let files: Vec<String> = ["ggml-large-v3.bin", "ggml-small.bin", "ggml-medium.bin.part", "x"]
        .iter()
        .map(|s| s.to_string())
        .collect();
    assert_eq!(list_downloaded_models(&files), ["small", "large-v3"]);
    assert!(is_model_downloaded("small", &files));
    assert!(!is_model_downloaded("medium", &files), "half a model is no model");
    assert_eq!(model_size_on_disk(Some(7)), 7);
    assert_eq!(model_size_on_disk(None), 0);
    assert!(MODEL_OPTIONS.contains(&DEFAULT_MODEL));
}

// ---------------------------------------------------------------------------
// Downloading
// ---------------------------------------------------------------------------

fn attempts() -> Attempts {
    match begin_download("small", false) {
        DownloadBegin::Fetch(attempts) => attempts,
        other => panic!("expected a download, got {other:?}"),
    }
}

fn failed(message: &str) -> FetchOutcome {
    FetchOutcome::Failed(DownloadError::Other(message.to_string()))
}

#[test]
fn unknown_models_are_refused_rather_than_fetched() {
    match begin_download("not-a-model", false) {
        DownloadBegin::Refuse(error) => {
            assert!(matches!(error, DownloadError::Other(_)));
            assert!(error.message().contains("unknown model"));
            assert_eq!(error.message(), "unknown model 'not-a-model'");
        }
        other => panic!("must be refused, got {other:?}"),
    }
    // What is on disk is used, whatever it is called.
    assert_eq!(begin_download("not-a-model", true), DownloadBegin::Have);
}

/// Move `data` through a transfer, as the program does.
fn stream(
    mut transfer: Transfer,
    data: &[u8],
    cancel: &CancelFlag,
    seen: &mut Vec<(String, u64, u64)>,
) -> Result<Vec<u8>, DownloadError> {
    let mut file = Vec::new();
    let mut rest = data;
    loop {
        if transfer.next(cancel.is_cancelled()) == TransferStep::Cancelled {
            return Err(DownloadError::Cancelled);
        }
        let count = rest.len().min(DOWNLOAD_CHUNK);
        file.extend_from_slice(&rest[..count]);
        rest = &rest[count..];
        if !transfer.received(count) {
            break;
        }
        match download_progress("small", &transfer) {
            EngineEvent::DownloadProgress { model, downloaded, total } => {
                seen.push((model, downloaded, total));
            }
            other => panic!("expected progress, got {other:?}"),
        }
    }
    transfer.finish()?;
    Ok(file)
}

#[test]
fn a_cancelled_download_reports_cancellation() {
    let mut cancel = CancelFlag::new();
    cancel.cancel();
    let data = vec![0u8; 4096];
    let transfer = Transfer { downloaded: 0, total: 4096 };
    let error = stream(transfer, &data, &cancel, &mut Vec::new()).unwrap_err();
    assert!(matches!(error, DownloadError::Cancelled));
    assert_eq!(error.message(), "download cancelled");
    assert_eq!(
        attempts().step("small", FetchOutcome::Failed(error), 0, 0),
        DownloadStep::Discard
    );
}

#[test]
fn a_truncated_download_is_rejected() {
    let data = vec![0u8; 100];
    // Claim more than we deliver, as a dropped connection would.
    let transfer = Transfer { downloaded: 0, total: 999_999 };
    let error = stream(transfer, &data, &CancelFlag::new(), &mut Vec::new()).unwrap_err();
    assert!(error.message().contains("truncated"));
    assert_eq!(error.message(), "download truncated: got 100 of 999999 bytes");
}

#[test]
fn progress_is_reported_with_the_model_name() {
    let data = vec![7u8; DOWNLOAD_CHUNK + 512];
    let transfer = Transfer { downloaded: 0, total: data.len() as u64 };
    let mut seen = Vec::new();
    let file = stream(transfer, &data, &CancelFlag::new(), &mut seen).unwrap();
    assert!(seen.len() >= 2, "expected several progress ticks: {seen:?}");
    assert_eq!(seen.last().unwrap().1, data.len() as u64);
    assert!(seen.iter().all(|(name, _, _)| name == "small"));
    assert_eq!(file.len(), data.len());
}

#[test]
fn a_resumed_download_counts_the_bytes_already_on_disk() {
    // The server sends the remaining 400 bytes of a 1000-byte file.
    assert_eq!(range_header(600).unwrap(), "bytes=600-");
    let plan = plan_body(206, 600, Some("400"), Some("bytes 600-999/1000"));
    assert_eq!(
        plan,
        BodyPlan { append: true, remove_stale: false, already: 600, total: 1000 }
    );
    let mut seen = Vec::new();
    let rest = stream(Transfer::begin(&plan), &[2u8; 400], &CancelFlag::new(), &mut seen).unwrap();
    assert_eq!(600 + rest.len(), 1000, "appended, not overwritten");
    assert_eq!(seen.last().unwrap(), &("small".to_string(), 1000, 1000));
}

#[test]
fn a_server_that_ignores_the_range_starts_the_file_over() {
    assert_eq!(
        plan_body(200, 600, Some("1000"), None),
        BodyPlan { append: false, remove_stale: true, already: 0, total: 1000 }
    );
    assert_eq!(
        plan_body(200, 0, None, Some("bytes 0-9/10")),
        BodyPlan { append: false, remove_stale: false, already: 0, total: 0 }
    );
    assert_eq!(range_header(0), None);
    // A body of unknown length is whole whenever it ends.
    assert!(Transfer { downloaded: 3, total: 0 }.finish().is_ok());
}

#[test]
fn content_range_yields_the_total_size() {
    assert_eq!(total_from_content_range(Some("bytes 600-999/1000")), Some(1000));
    // An unsatisfiable-range reply has no range, but it has a total.
    assert_eq!(total_from_content_range(Some("bytes */1000")), Some(1000));
    assert_eq!(total_from_content_range(None), None);
    assert_eq!(total_from_content_range(Some("bytes 0-9/*")), None);
    assert_eq!(total_from_content_range(Some("bytes 0-9/ 12 ")), Some(12));
}

#[test]
fn a_header_holds_a_number_or_nothing() {
    assert_eq!(remote_size(Some("1533763059")), Some(1_533_763_059));
    assert_eq!(remote_size(None), None);
    assert_eq!(header_u64(Some("18446744073709551615")), Some(u64::MAX));
    assert_eq!(header_u64(Some("18446744073709551616")), None);
    assert_eq!(header_u64(Some("+7")), Some(7));
    assert_eq!(header_u64(Some("+")), None);
    assert_eq!(header_u64(Some(" 7")), None);
    assert_eq!(header_u64(Some("")), None);
    assert_eq!(
        remote_url("large-v3"),
        "https://huggingface.co/ggerganov/whisper.cpp/resolve/main/ggml-large-v3.bin"
    );
}

#[test]
fn attempts_in_vain_are_given_up_after_the_sixth() {
    let mut tries = attempts();
    for wait in [2u64, 4, 6, 8, 10] {
        assert_eq!(
            tries.step("small", failed("reset"), 500, 500),
            DownloadStep::Retry { wait_sec: wait }
        );
    }
    assert_eq!(
        tries.step("small", failed("reset"), 0, 0),
        DownloadStep::Fail(DownloadError::Other("reset".to_string())),
        "with nothing kept the reason is the reason"
    );
}

#[test]
fn gaining_ground_goes_on_until_the_ceiling() {
    let mut tries = attempts();
    for n in 1..60u64 {
        assert_eq!(
            tries.step("small", failed("reset"), n * 1_000_000, (n + 1) * 1_000_000),
            DownloadStep::Retry { wait_sec: 2 }
        );
    }
    assert_eq!(
        tries.step("small", failed("reset"), 60_000_000, 61_500_000),
        DownloadStep::Fail(DownloadError::Other(
            "downloaded 61 MB of 'small' before failing; it is kept and will resume on the next attempt"
                .to_string()
        ))
    );
    assert_eq!(
        attempts().step("small", FetchOutcome::Done, 0, 10),
        DownloadStep::Install
    );
}

// ---------------------------------------------------------------------------
// Driving the decoder
// ---------------------------------------------------------------------------

#[test]
fn always_leaves_a_core_free() {
    for cores in 1..64usize {
        let threads = default_threads(Some(cores));
        assert!(threads >= 1);
        assert!((threads as usize) < cores || cores == 1);
    }
    assert_eq!(default_threads(None), 3);
    assert_eq!(default_threads(Some(8)), 7);
}

#[test]
fn params_build_for_every_language_mode() {
    let vi = decode_params(Some("vi"), 4);
    let en = decode_params(Some("en"), 4);
    let auto = decode_params(None, 4);
    assert_eq!(vi.language.as_deref(), Some("vi"));
    assert_eq!(en.language.as_deref(), Some("en"));
    assert!(!vi.detect_language && !en.detect_language);
    assert!(auto.language.is_none() && auto.detect_language);
    assert_eq!((vi.beam_size, vi.patience_tenths, vi.threads), (5, -10, 4));
    assert_eq!((vi.logprob_tenths, vi.entropy_tenths, vi.no_speech_tenths), (-10, 24, 6));
    assert!(vi.no_context, "an invented line must never prompt the next window");
    assert!(vi.token_timestamps && vi.split_on_word && vi.suppress_non_speech);
    assert!(!vi.translate && !vi.print_anything);
}

#[test]
fn engine_keys_distinguish_model_and_language() {
    fn key(model: &str, language: Option<&str>) -> String {
        WhisperCppEngine::load(model, language, None).engine_key()
    }
    assert_eq!(key("large-v3", Some("vi")), "whispercpp-large-v3:vi");
    assert_eq!(key("large-v3", Some("en")), "whispercpp-large-v3:en");
    assert_eq!(key("large-v3", None), "whispercpp-large-v3:auto");
    assert_ne!(key("large-v3", Some("vi")), key("large-v2", Some("vi")));
    assert!(WhisperCppEngine::load("small", None, Some(2)).supports_streaming());
}

#[test]
fn centisecond_timestamps_land_on_the_recordings_timeline() {
    // 250 centiseconds into a chunk starting at 300 s is 302.5 s overall.
    let offset = 300_000_000_000;
    let raw_timestamp: i64 = 250;
    assert_eq!(on_timeline(offset, raw_timestamp) as f64 / 1e9, 302.5);
    assert_eq!(on_timeline(i64::MAX, 1), i64::MAX);
    assert_eq!(on_timeline(0, i64::MIN), i64::MIN);
}

fn raw(start_cs: i64, end_cs: i64, text: &str) -> RawSegment {
    RawSegment { start_cs, end_cs, text: Some(text.to_string()) }
}

#[test]
fn segments_without_words_are_not_collected() {
    let found = vec![
        Some(raw(0, 100, "  xin chào ")),
        None,
        Some(raw(100, 200, "   ")),
        Some(RawSegment { start_cs: 200, end_cs: 300, text: None }),
        Some(raw(300, 400, "Thanks for watching!")),
    ];
    let collected = collect(&found, 1_000_000_000);
    assert_eq!(
        collected,
        vec![
            TranscriptSegment::new(1_000_000_000, 2_000_000_000, "xin chào".to_string()),
            TranscriptSegment::new(4_000_000_000, 5_000_000_000, "Thanks for watching!".to_string()),
        ]
    );
    assert_eq!(finished_segments(&found, 1_000_000_000), collected[..1]);
}

#[test]
fn the_preview_shows_no_filler_and_no_loop() {
    let mut preview = PreviewFilter::new();
    assert!(preview.show(&raw(0, 1, "Thanks for watching!"), 0).is_none());
    assert!(preview.show(&raw(0, 1, "  "), 0).is_none());
    let line = preview.show(&raw(0, 100, " mình chốt như thế "), 5).unwrap();
    assert_eq!(line, TranscriptSegment::new(5, 1_000_000_005, "mình chốt như thế".to_string()));
    assert!(preview.show(&raw(100, 200, "mình chốt như thế"), 0).is_none());
    assert!(preview.show(&raw(200, 300, "vâng"), 0).is_some());
    assert!(preview.show(&raw(300, 400, "vâng"), 0).is_some(), "really said twice");
    assert!(preview.show_judged(&raw(400, 500, "anything"), 0, true).is_none());
}
