use std::cell::{Cell, RefCell};

use meeting_transcriber::chunking::checkpoint::{
    checkpoint_path, clear_checkpoint, format_chunk_sec, load_checkpoint, resolve_transcript_path,
    resumable_seconds, resume_or_restart, save_checkpoint, source_fingerprint, started_transcript,
    tmp_path, transcript_path_for, Checkpoint, CheckpointRecord, ResumePlan, CHECKPOINT_VERSION,
};
use meeting_transcriber::chunking::decode::{
    decode_args, decode_failure, find_tool, format_millis, known_duration, pcm_s16le, ToolPlace,
};
use meeting_transcriber::chunking::split::find_split_index;
use meeting_transcriber::chunking::{
    text_to_show, ChunkObserver, ChunkOptions, ChunkRun, NextStep, Progress, SilentObserver,
    TranscribeError, DEFAULT_CHUNK_NS,
};
use meeting_transcriber::paths::FilePath;
use meeting_transcriber::state::CancelFlag;
use meeting_transcriber::transcribe::segment::TranscriptSegment;
use meeting_transcriber::transcribe::whisper_cpp::{PreviewFilter, RawSegment, WhisperCppEngine};
use meeting_transcriber::SAMPLE_RATE;

const CHUNK_NS: i64 = 5_000_000_000;
const SECOND: i64 = 1_000_000_000;

fn audio_path() -> FilePath {
    FilePath::at("/tmp").join("standup.m4a")
}

fn checkpoint_for(fingerprint: &str, out_name: &str) -> Checkpoint {
    Checkpoint {
        fingerprint: fingerprint.to_string(),
        next_start_ns: 300 * SECOND,
        chunks_done: 1,
        text_bytes: 12,
        transcript_name: out_name.to_string(),
    }
}

// ---------------------------------------------------------------------------
// Names and fingerprints
// ---------------------------------------------------------------------------

#[test]
fn transcript_name_puts_the_stamp_first() {
    let path = transcript_path_for(&audio_path(), Some("20260728-142530"));
    assert_eq!(path.file_name().unwrap(), "20260728-142530-standup.txt");
}

#[test]
fn the_files_of_a_run_are_apart() {
    let audio = audio_path();
    let first = transcript_path_for(&audio, Some("20260728-142530"));
    let second = transcript_path_for(&audio, Some("20260728-142531"));
    assert_ne!(first, second, "a later run keeps the earlier transcript");
    let checkpoint = checkpoint_path(&audio);
    assert_ne!(first, checkpoint);
    assert_ne!(first, tmp_path(&checkpoint));
    assert_ne!(checkpoint, tmp_path(&checkpoint));
}

#[test]
fn a_fresh_stamp_tells_the_time() {
    let name = transcript_path_for(&audio_path(), None).file_name().unwrap();
    let stamp = name.strip_suffix("-standup.txt").unwrap();
    assert_eq!(stamp.len(), 15, "{name}");
    assert_eq!(stamp.as_bytes()[8], b'-');
    assert!(stamp.starts_with("2"), "{name}");
    assert!(stamp.chars().filter(|c| c.is_ascii_digit()).count() == 14, "{name}");
    let part = |from: usize, to: usize| stamp[from..to].parse::<u32>().unwrap();
    assert!(part(0, 4) >= 1969, "{name}");
    assert!((1..=12).contains(&part(4, 6)), "{name}");
    assert!((1..=31).contains(&part(6, 8)), "{name}");
    assert!(part(9, 11) <= 23 && part(11, 13) <= 59 && part(13, 15) <= 60, "{name}");
}

#[test]
fn checkpoint_sits_next_to_the_audio() {
    let path = checkpoint_path(&audio_path());
    assert_eq!(path.file_name().unwrap(), "standup.transcript.partial.json");
    assert_eq!(path.base.shown, "/tmp");
    assert_eq!(path.parts.len(), 1);
}

#[test]
fn a_name_without_an_extension_is_its_own_stem() {
    let name = |file: &str| checkpoint_path(&FilePath::at("/tmp").join(file)).file_name().unwrap();
    assert_eq!(name("standup"), "standup.transcript.partial.json");
    assert_eq!(name(".hidden"), ".hidden.transcript.partial.json");
    assert_eq!(name("a.b.wav"), "a.b.transcript.partial.json");
    assert_eq!(name("ends."), "ends.transcript.partial.json");
}

#[test]
fn fingerprint_renders_the_default_chunk_size_without_a_decimal() {
    assert_eq!(format_chunk_sec(300 * SECOND), "300");
    assert_eq!(format_chunk_sec(12_500_000_000), "12.5");
    assert_eq!(format_chunk_sec(50_000_000), "0.05");
    assert_eq!(format_chunk_sec(-12_500_000_001), "-12.500000001");
    assert_eq!(format_chunk_sec(0), "0");
}

#[test]
fn fingerprint_changes_with_the_engine() {
    let a = source_fingerprint(48, Some(7), "whispercpp-large-v3:vi", 300 * SECOND);
    let b = source_fingerprint(48, Some(7), "whispercpp-large-v3:en", 300 * SECOND);
    let c = source_fingerprint(48, Some(7), "whispercpp-large-v3:vi", 120 * SECOND);
    assert_ne!(a, b, "language is part of the engine key");
    assert_ne!(a, c, "chunk size is part of the fingerprint");
    assert_eq!(a, "48:7:whispercpp-large-v3:vi:300");
    assert_eq!(
        source_fingerprint(48, None, "e", 300 * SECOND),
        "48:0:e:300",
        "a file that does not say when it was changed"
    );
    assert_eq!(
        source_fingerprint(0, Some(340_282_366_920_938_463_463_374_607_431_768_211_455), "e", 1),
        "0:340282366920938463463374607431768211455:e:0.000000001"
    );
}

// ---------------------------------------------------------------------------
// The checkpoint
// ---------------------------------------------------------------------------

#[test]
fn a_stale_fingerprint_is_rejected() {
    let fingerprint = source_fingerprint(48, Some(7), "engine-a", 300 * SECOND);
    let plan = save_checkpoint(
        &audio_path(),
        &checkpoint_for(&fingerprint, "out.txt"),
        Some(600 * SECOND),
    );
    assert_eq!(plan.path.file_name().unwrap(), "standup.transcript.partial.json");
    assert_eq!(plan.tmp.file_name().unwrap(), "standup.transcript.partial.json.tmp");
    assert_eq!(plan.record.version, CHECKPOINT_VERSION);
    assert_eq!(plan.record.duration_ns, Some(600 * SECOND));

    assert_eq!(
        load_checkpoint(Some(plan.record.clone()), &fingerprint),
        Some(checkpoint_for(&fingerprint, "out.txt"))
    );
    assert!(
        load_checkpoint(Some(plan.record), "a-different-engine").is_none(),
        "switching model or language must restart, not resume"
    );
}

#[test]
fn a_corrupt_checkpoint_is_ignored_rather_than_trusted() {
    // What does not parse is handed over as nothing.
    assert!(load_checkpoint(None, "engine-a").is_none());
}

#[test]
fn another_version_is_never_resumed() {
    let record = CheckpointRecord {
        version: 3,
        duration_ns: None,
        state: checkpoint_for("f", "out.txt"),
    };
    assert!(load_checkpoint(Some(record), "f").is_none());
}

#[test]
fn resume_truncates_the_tail_of_an_interrupted_chunk() {
    let out = FilePath::at("/tmp").join("out.txt");
    // 12 bytes were checkpointed; the rest is debris from a chunk that was still
    // being written when the process died.
    let written = b"[00:00:00] o\n[00:05:00] half-writ";
    let plan = resume_or_restart(
        Some(checkpoint_for("f", "out.txt")),
        &out,
        Some(written.len() as u64),
        "f",
    );
    match plan {
        ResumePlan::Resume { state } => {
            assert_eq!(state.chunks_done, 1);
            assert_eq!(state.next_start_ns, 300 * SECOND);
            assert_eq!(&written[..state.text_bytes as usize], b"[00:00:00] o");
        }
        ResumePlan::Restart { .. } => panic!("must resume"),
    }
}

#[test]
fn resume_restarts_when_the_transcript_is_shorter_than_claimed() {
    let out = FilePath::at("/tmp").join("out.txt");
    for len in [Some(4), None] {
        // The user deleted or edited the transcript between runs.
        let plan = resume_or_restart(Some(checkpoint_for("f", "out.txt")), &out, len, "f");
        match plan {
            ResumePlan::Restart { state } => {
                assert_eq!(state.chunks_done, 0, "must start over rather than resume into a gap");
                assert_eq!(state.next_start_ns, 0);
                assert_eq!(state.text_bytes, 0);
                assert_eq!(state.transcript_name, "out.txt");
                assert_eq!(state.fingerprint, "f");
            }
            ResumePlan::Resume { .. } => panic!("must start over"),
        }
    }
}

#[test]
fn nothing_done_yet_starts_over() {
    let out = FilePath::at("/tmp").join("out.txt");
    let mut state = checkpoint_for("f", "out.txt");
    state.chunks_done = 0;
    assert!(matches!(
        resume_or_restart(Some(state), &out, Some(100), "f"),
        ResumePlan::Restart { .. }
    ));
    assert!(matches!(
        resume_or_restart(None, &out, Some(100), "f"),
        ResumePlan::Restart { .. }
    ));
}

#[test]
fn resolve_transcript_path_reuses_the_resumed_file() {
    let audio = audio_path();
    let state = Some(checkpoint_for("f", "20260101-090000-standup.txt"));
    let started = started_transcript(&audio, &state).unwrap();
    assert_eq!(started.file_name().unwrap(), "20260101-090000-standup.txt");

    let resolved = resolve_transcript_path(&audio, Some(started.clone()), true);
    assert_eq!(resolved, started, "a resumed run must append, not mint a new stamp");

    let fresh = resolve_transcript_path(&audio, Some(started.clone()), false);
    assert_ne!(fresh, started, "a file that is gone cannot be appended to");
    assert!(fresh.file_name().unwrap().ends_with("-standup.txt"));
    assert_eq!(resumable_seconds(&state), 300 * SECOND);
    assert_eq!(resumable_seconds(&None), 0);

    let mut nameless = checkpoint_for("f", "");
    assert!(started_transcript(&audio, &Some(nameless.clone())).is_none());
    nameless.transcript_name = "x.txt".to_string();
    nameless.chunks_done = 0;
    assert!(started_transcript(&audio, &Some(nameless)).is_none());
}

#[test]
fn clear_checkpoint_removes_the_temp_file_too() {
    let audio = audio_path();
    let (path, tmp) = clear_checkpoint(&audio);
    assert_eq!(path, checkpoint_path(&audio));
    assert_eq!(tmp, tmp_path(&path));
    assert_eq!(tmp.file_name().unwrap(), "standup.transcript.partial.json.tmp");
}

// ---------------------------------------------------------------------------
// Decoding
// ---------------------------------------------------------------------------

#[test]
fn pcm_conversion_matches_the_python_scaling() {
    // 0, +1, -1, and full negative scale.
    let bytes = [0x00, 0x00, 0x01, 0x00, 0xff, 0xff, 0x00, 0x80];
    let samples: Vec<f32> = pcm_s16le(&bytes).into_iter().map(|s| s as f32 / 32768.0).collect();
    assert_eq!(samples.len(), 4);
    assert_eq!(samples[0], 0.0);
    assert_eq!(samples[1], 1.0 / 32768.0);
    assert_eq!(samples[2], -1.0 / 32768.0);
    assert_eq!(samples[3], -1.0);
}

#[test]
fn a_trailing_odd_byte_is_ignored_rather_than_panicking() {
    let samples = pcm_s16le(&[0x00, 0x00, 0x7f]);
    assert_eq!(samples.len(), 1);
}

#[test]
fn ffmpeg_is_asked_for_a_range_in_milliseconds() {
    let (before, behind) = decode_args(62_500, 320 * SECOND);
    assert_eq!(
        before,
        ["-nostdin", "-threads", "0", "-ss", "0.000", "-t", "320.000", "-i"]
    );
    assert_eq!(
        behind,
        ["-f", "s16le", "-ac", "1", "-acodec", "pcm_s16le", "-ar", "16000", "-"]
    );
    assert_eq!(format_millis(-5), "0.000");
    assert_eq!(format_millis(305_050_000_000), "305.050");
    assert_eq!(format_millis(1_999_600_000), "2.000");
    assert_eq!(format_millis(62_500_000), format!("{:.3}", 0.0625f64));
    assert_eq!(format_millis(187_500_000), format!("{:.3}", 0.1875f64));
}

#[test]
fn the_last_thing_ffmpeg_said_is_the_reason() {
    assert_eq!(
        decode_failure("a.mp3", "ffmpeg version 7\nbuilt with clang\nInvalid data found\n\n  \n"),
        "ffmpeg failed to decode a.mp3: Invalid data found"
    );
    assert_eq!(
        decode_failure("a.mp3", " \n"),
        "ffmpeg failed to decode a.mp3: unknown ffmpeg error"
    );
}

#[test]
fn the_bundled_decoder_comes_before_the_path() {
    let own = FilePath::at("/Applications/App/MacOS");
    let chosen = FilePath::at("/opt/ffmpeg");
    assert_eq!(
        find_tool("ffmpeg", Some(&chosen), Some(&own), true),
        ToolPlace::At(chosen.join("ffmpeg"))
    );
    assert_eq!(find_tool("ffmpeg", None, Some(&own), true), ToolPlace::At(own.join("ffmpeg")));
    assert_eq!(find_tool("ffmpeg", None, Some(&own), false), ToolPlace::OnPath);
    assert_eq!(find_tool("ffmpeg", None, None, false), ToolPlace::OnPath);
}

#[test]
fn a_length_that_is_not_positive_is_none() {
    assert_eq!(known_duration(Some(5)), Some(5));
    assert_eq!(known_duration(Some(0)), None);
    assert_eq!(known_duration(Some(-1)), None);
    assert_eq!(known_duration(None), None);
}

// ---------------------------------------------------------------------------
// Choosing where to cut
// ---------------------------------------------------------------------------

const FRAME: usize = 1600;

fn pcm(sample: f32) -> i16 {
    (sample * 32768.0) as i16
}

#[test]
fn returns_len_when_search_starts_past_the_end() {
    let audio = vec![pcm(0.5); 100];
    assert_eq!(find_split_index(&audio, 100), 100);
    assert_eq!(find_split_index(&audio, 200), 100);
}

#[test]
fn returns_len_when_less_than_one_frame_remains() {
    let audio = vec![pcm(0.5); FRAME + 10];
    assert_eq!(find_split_index(&audio, FRAME + 1), audio.len());
}

#[test]
fn cuts_in_the_middle_of_the_quiet_frame() {
    // Loud everywhere except one frame, three frames past search_from.
    let mut audio = vec![pcm(0.5); FRAME * 10];
    let quiet = FRAME * 3;
    for sample in &mut audio[quiet..quiet + FRAME] {
        *sample = pcm(0.0);
    }
    assert_eq!(find_split_index(&audio, 0), quiet + FRAME / 2);
}

#[test]
fn searches_only_from_the_requested_offset() {
    // Quietest frame overall is at 0, but the search starts after it.
    let mut audio = vec![pcm(0.5); FRAME * 10];
    for sample in &mut audio[0..FRAME] {
        *sample = pcm(0.0);
    }
    let quiet_later = FRAME * 6;
    for sample in &mut audio[quiet_later..quiet_later + FRAME] {
        *sample = pcm(0.01);
    }
    let cut = find_split_index(&audio, FRAME * 4);
    assert_eq!(cut, quiet_later + FRAME / 2);
}

#[test]
fn ties_pick_the_earliest_frame() {
    let audio = vec![pcm(0.0); FRAME * 5];
    assert_eq!(find_split_index(&audio, 0), FRAME / 2);
}

// ---------------------------------------------------------------------------
// Whole runs, with an engine that reports one segment per chunk
// ---------------------------------------------------------------------------

/// A 220 Hz tone at 16 kHz.
fn tone(seconds: f64) -> Vec<i16> {
    let frames = (seconds * SAMPLE_RATE as f64) as u32;
    (0..frames)
        .map(|frame| {
            let phase = frame as f64 / SAMPLE_RATE as f64 * 220.0 * std::f64::consts::TAU;
            (phase.sin() * 12_000.0) as i16
        })
        .collect()
}

/// What is on disk.
#[derive(Default)]
struct Disk {
    transcript: Vec<u8>,
    record: Option<CheckpointRecord>,
}

/// Counts what a run reports.
#[derive(Default)]
struct CountingObserver {
    texts: RefCell<Vec<String>>,
    previews: Cell<usize>,
    reported: Cell<usize>,
}

impl ChunkObserver for CountingObserver {
    fn on_text(&self, text: &str) {
        self.texts.borrow_mut().push(text.to_string());
    }

    fn on_segment(&self, _segment: &TranscriptSegment) {
        self.previews.set(self.previews.get() + 1);
    }

    fn on_progress(&self, progress: Progress) {
        self.reported.set(progress.chunks_done);
    }
}

struct Outcome {
    calls: usize,
    previews: usize,
    texts: Vec<String>,
    reported: usize,
    result: Result<String, TranscribeError>,
}

/// Drive one run as the program does, failing on the engine's call `fail_on`.
fn transcribe(
    disk: &mut Disk,
    audio: &[i16],
    key: &str,
    fail_on: Option<usize>,
    cancel: bool,
) -> Outcome {
    let observer = CountingObserver::default();
    let (calls, result) = run_chunks(disk, audio, key, fail_on, cancel, &observer);
    Outcome {
        calls,
        previews: observer.previews.get(),
        texts: observer.texts.into_inner(),
        reported: observer.reported.get(),
        result,
    }
}

fn run_chunks(
    disk: &mut Disk,
    audio: &[i16],
    key: &str,
    fail_on: Option<usize>,
    cancel: bool,
    observer: &dyn ChunkObserver,
) -> (usize, Result<String, TranscribeError>) {
    let source = FilePath::at("/tmp").join("meeting.wav");
    let out = FilePath::at("/tmp").join("20260101-000000-meeting.txt");
    let fingerprint = source_fingerprint(audio.len() as u64, Some(1), key, CHUNK_NS);
    let duration = Some(audio.len() as i64 * 62_500);
    let state = load_checkpoint(disk.record.clone(), &fingerprint);
    let plan = resume_or_restart(state, &out, Some(disk.transcript.len() as u64), &fingerprint);
    match &plan {
        ResumePlan::Resume { state } => disk.transcript.truncate(state.text_bytes as usize),
        ResumePlan::Restart { .. } => {
            disk.record = None;
            disk.transcript.clear();
        }
    }
    let mut run = ChunkRun::begin(plan, CHUNK_NS, duration);
    let on_disk = String::from_utf8(disk.transcript.clone()).unwrap();
    if let Some(text) = run.opening_text(Some(&on_disk)) {
        observer.on_text(text);
    }
    if let Some(progress) = run.opening_progress() {
        observer.on_progress(progress);
    }
    let engine = WhisperCppEngine::load("small", None, None);
    let mut preview = PreviewFilter::new();
    let mut calls = 0;
    loop {
        let (start, len) = match run.next(cancel) {
            NextStep::Finish => break,
            NextStep::Cancelled => {
                return (calls, Err(TranscribeError::Cancelled));
            }
            NextStep::Decode { start_ns, len_ns } => (start_ns, len_ns),
        };
        let from = ((start / 62_500) as usize).min(audio.len());
        let to = (((start + len) / 62_500) as usize).min(audio.len());
        let decoded = &audio[from..to];
        let Some(cut) = run.cut(decoded) else { break };
        calls += 1;
        if fail_on == Some(calls) {
            let message = format!("stub engine failed on call {calls}");
            return (calls, Err(TranscribeError::Other(message)));
        }
        let segment = TranscriptSegment::new(
            start,
            start + cut as i64 * 62_500,
            format!("chunk at {:.2}", start as f64 / 1e9),
        );
        if engine.supports_streaming() {
            let raw = RawSegment { start_cs: 0, end_cs: 500, text: Some(segment.text.clone()) };
            if let Some(shown) = preview.show(&raw, start) {
                assert_eq!(shown.text, segment.text);
                observer.on_segment(&shown);
            }
        }
        let text = run.chunk_text(decoded, cut, vec![segment]);
        disk.transcript.extend_from_slice(text.as_bytes());
        let last = run.commit(cut, decoded.len(), disk.transcript.len() as u64);
        disk.record = Some(save_checkpoint(&source, &run.state, run.duration_ns).record);
        if let Some(text) = text_to_show(&text) {
            observer.on_text(text);
        }
        observer.on_progress(run.progress());
        if last {
            break;
        }
    }
    let footer = run.footer(3 * SECOND);
    disk.transcript.extend_from_slice(footer.as_bytes());
    observer.on_text(&footer);
    disk.record = None;
    (calls, Ok(String::from_utf8(disk.transcript.clone()).unwrap()))
}

#[test]
fn a_completed_run_writes_every_chunk_and_clears_the_checkpoint() {
    let audio = tone(12.0);
    let mut disk = Disk::default();
    let outcome = transcribe(&mut disk, &audio, "stub:vi", None, false);
    let text = outcome.result.unwrap();

    assert!(text.contains("[00:00:00] chunk at 0.00"), "{text}");
    assert!(text.contains("chunk at 5.05"), "{text}");
    assert!(
        text.contains("----- Complete:"),
        "a finished transcript is marked whole: {text}"
    );
    assert!(
        disk.record.is_none(),
        "a finished file must not leave a checkpoint behind"
    );
    assert!(
        outcome.previews >= 2,
        "streaming engines must report previews"
    );
    assert_eq!(outcome.texts.concat(), text);
    assert_eq!(outcome.reported, 3);
}

#[test]
fn an_interrupted_run_resumes_from_the_last_checkpointed_chunk() {
    let audio = tone(12.0);
    let mut disk = Disk::default();

    // Die on the third chunk, after two are safely on disk.
    let error = transcribe(&mut disk, &audio, "stub:vi", Some(3), false).result.unwrap_err();
    assert!(matches!(error, TranscribeError::Other(_)));
    assert_eq!(error.message(), "stub engine failed on call 3");

    let state = disk.record.clone().expect("progress must be checkpointed").state;
    assert_eq!(state.chunks_done, 2);

    // The transcript on disk is a complete prefix: readable, no partial line.
    let partial = String::from_utf8(disk.transcript.clone()).unwrap();
    assert_eq!(partial.lines().count(), 2, "{partial}");
    assert_eq!(partial.len() as u64, state.text_bytes);

    // Re-running continues rather than starting over.
    let resumed = transcribe(&mut disk, &audio, "stub:vi", None, false);
    let text = resumed.result.unwrap();
    assert_eq!(resumed.texts.concat(), text, "what is shown is the transcript");
    assert!(text.starts_with("[00:00:00] chunk at 0.00"), "{text}");
    assert!(text.contains("----- Complete:"));
    assert!(
        text.contains("resumed from"),
        "the footer must admit it did not do the whole file: {text}"
    );
    assert_eq!(
        resumed.calls, 1,
        "only the one remaining chunk should be transcribed again"
    );
}

#[test]
fn a_tail_past_the_checkpoint_is_truncated_and_that_chunk_redone() {
    let audio = tone(12.0);
    let mut disk = Disk::default();
    let _ = transcribe(&mut disk, &audio, "stub:vi", Some(3), false);

    // A crash *between* the append and the checkpoint write: the file has a chunk
    // the checkpoint does not know about, and it is half-written.
    disk.transcript.extend_from_slice(b"[00:00:10] half-writ");

    let text = transcribe(&mut disk, &audio, "stub:vi", None, false).result.unwrap();
    assert!(
        !text.contains("half-writ"),
        "the debris past text_bytes must be truncated away: {text}"
    );
    // Every line is a whole line, and no chunk appears twice.
    let chunk_lines: Vec<&str> = text.lines().filter(|l| l.contains("chunk at")).collect();
    let mut unique = chunk_lines.clone();
    unique.sort_unstable();
    unique.dedup();
    assert_eq!(chunk_lines.len(), unique.len(), "duplicated chunk: {text}");
    assert_eq!(chunk_lines.len(), 3);
}

#[test]
fn cancelling_keeps_everything_already_written() {
    let audio = tone(12.0);
    let mut disk = Disk::default();
    let mut cancel = CancelFlag::new();
    // Trip it immediately: the first between-chunks check should stop the run.
    cancel.cancel();

    let outcome = transcribe(&mut disk, &audio, "stub:vi", None, cancel.is_cancelled());
    let error = outcome.result.unwrap_err();
    assert!(matches!(error, TranscribeError::Cancelled));
    assert_eq!(error.message(), "transcription cancelled");
    assert_eq!(
        outcome.calls, 0,
        "cancellation is checked before the chunk is decoded"
    );
}

#[test]
fn switching_engine_restarts_instead_of_resuming() {
    let audio = tone(12.0);
    let mut disk = Disk::default();
    let _ = transcribe(&mut disk, &audio, "stub:vi", Some(3), false);
    assert!(disk.record.is_some());

    // A different engine key must not resume into text produced by the old one.
    let other = transcribe(&mut disk, &audio, "stub:en", None, false);
    let text = other.result.unwrap();
    assert!(
        !text.contains("resumed from"),
        "a different engine must start the file over: {text}"
    );
    assert_eq!(other.calls, 3, "the whole file should be redone");
}

#[test]
fn however_often_a_run_dies_the_text_is_the_same() {
    let audio = tone(23.0);
    let mut whole = Disk::default();
    let _ = transcribe(&mut whole, &audio, "stub:vi", None, false);
    let spoken = |disk: &Disk| -> Vec<String> {
        String::from_utf8(disk.transcript.clone())
            .unwrap()
            .lines()
            .filter(|line| line.starts_with('['))
            .map(str::to_string)
            .collect()
    };

    let mut torn = Disk::default();
    for round in 0..6 {
        let _ = transcribe(&mut torn, &audio, "stub:vi", Some(2), false);
        torn.transcript.extend_from_slice(&b"[00:00:59] half a li"[..round * 3]);
    }
    let _ = transcribe(&mut torn, &audio, "stub:vi", None, false);
    assert_eq!(spoken(&torn), spoken(&whole));
    assert_eq!(spoken(&whole).len(), 5);
}

#[test]
fn a_recording_of_unknown_length_ends_with_its_audio() {
    let plan = resume_or_restart(None, &audio_path(), None, "f");
    let mut run = ChunkRun::begin(plan, CHUNK_NS, None);
    assert_eq!(run.opening_text(Some("left over")), None, "a fresh run shows nothing of before");
    assert_eq!(run.opening_progress(), None);
    let audio = tone(4.0);
    assert_eq!(
        run.next(false),
        NextStep::Decode { start_ns: 0, len_ns: 25 * SECOND }
    );
    assert_eq!(run.cut(&audio), Some(64_000));
    assert!(run.commit(64_000, 64_000, 10));
    assert_eq!(run.progress().done_ns, 4 * SECOND);
    assert_eq!(run.progress().chunks_done, 1);
    assert_eq!(run.state.text_bytes, 10);
    assert_eq!(run.opening_text(None), None);
    assert_eq!(run.opening_text(Some("")), None);
    assert_eq!(run.opening_text(Some("x")), Some("x"));
    assert_eq!(run.opening_progress(), Some(run.progress()));
    assert_eq!(text_to_show(""), None);
    assert_eq!(run.cut(&[0; 3_200]), None, "a sliver is not worth a chunk");
    assert_eq!(run.cut(&[0; 3_201]), Some(3_201));
    assert_eq!(
        run.footer(SECOND),
        "\n----- Complete: 00:00:04 of audio · transcribed in 1s -----\n"
    );
}

#[test]
fn what_is_said_in_a_silence_is_left_out_of_the_text() {
    let plan = resume_or_restart(None, &audio_path(), None, "f");
    let run = ChunkRun::begin(plan, CHUNK_NS, None);
    let mut audio = tone(2.0);
    audio.extend(vec![0i16; 48_000]);
    let segments = vec![
        TranscriptSegment::new(0, 2 * SECOND, "thật".to_string()),
        TranscriptSegment::new(3 * SECOND, 4 * SECOND, "bịa".to_string()),
    ];
    assert_eq!(run.chunk_text(&audio, audio.len(), segments), "[00:00:00] thật\n");
}

#[test]
fn the_default_run_works_in_five_minute_chunks() {
    let options = ChunkOptions::default();
    assert_eq!(options.chunk_ns, DEFAULT_CHUNK_NS);
    assert_eq!(options.chunk_ns, 300 * SECOND);
    assert!(options.output_path.is_none() && options.cancel.is_none());
    // A silent observer takes everything and does nothing.
    SilentObserver.on_status("x");
    SilentObserver.on_text("x");
}
