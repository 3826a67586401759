use meeting_transcriber::audio::devices::{
    default_input_device, list_input_devices, resolve_input_device, FoundDevice,
};
use meeting_transcriber::audio::mic::{
    block_start, check_loopback_format, choose_rate, i16_level, plan_loopback, plan_mic,
    supports_16k, u16_level, CapturePlan, DeviceConfig, SampleFormat, I16_SCALE, U16_SCALE,
};
use meeting_transcriber::audio::recorder::{
    peak, recording_stem, stem_at, track_file, track_path, MeetingRecorder, Opened, RecorderOptions,
    Recording, Side,
};
use meeting_transcriber::audio::resampler::{gcd, Resampled, Resampler};
use meeting_transcriber::audio::system::{
    capture_problem, find_loopback_device, is_loopback_name, names_loopback, permission_problem,
    OpenStep, Prefer, SystemBackend, SystemOpening, NO_LOOPBACK,
};
use meeting_transcriber::audio::wav_writer::{
    pcm_bytes, wav_header, MonoWavWriter, Placement, WAV_HEADER_LEN,
};
use meeting_transcriber::audio::{frames_of, planar_frames};
use meeting_transcriber::chunking::decode::pcm_s16le;
use meeting_transcriber::paths::FilePath;
use meeting_transcriber::SAMPLE_RATE;

fn ns(seconds: f64) -> i64 {
    (seconds * 1e9).round() as i64
}

// ---------------------------------------------------------------------------
// Devices
// ---------------------------------------------------------------------------

fn found(id: Option<&str>, name: Option<&str>, config: Option<(u16, u32)>) -> FoundDevice {
    FoundDevice {
        id: id.map(str::to_string),
        name: name.map(str::to_string),
        config,
    }
}

#[test]
fn a_device_that_does_not_describe_itself_is_not_offered() {
    let devices = list_input_devices(
        &vec![
            found(Some("a"), Some("Mic"), Some((1, 48_000))),
            found(None, Some("Ghost"), Some((1, 48_000))),
            found(Some("b"), Some("Broken"), None),
            found(Some("c"), None, Some((2, 44_100))),
        ],
        Some("c"),
    );
    assert_eq!(devices.len(), 2);
    assert_eq!(devices[0].name, "Mic");
    assert!(!devices[0].is_default);
    assert_eq!(devices[1].name, "c", "a nameless device goes by its id");
    assert!(devices[1].is_default);
    assert_eq!((devices[1].channels, devices[1].sample_rate), (2, 44_100));
    assert!(devices.iter().filter(|d| d.is_default).count() <= 1);
}

#[test]
fn enumeration_does_not_panic_on_this_machine() {
    // Safe with any device list, including an empty one.
    assert!(list_input_devices(&vec![], None).is_empty());
    let devices = list_input_devices(
        &vec![
            found(Some("x"), Some("Mic"), Some((1, 48_000))),
            found(Some("y"), None, Some((1, 48_000))),
            found(None, None, None),
        ],
        Some("x"),
    );
    for device in &devices {
        assert!(!device.id.is_empty());
        assert!(!device.name.is_empty(), "a nameless row is not selectable");
        assert!(device.sample_rate > 0);
    }
    // At most one device may claim to be the default.
    assert!(devices.iter().filter(|d| d.is_default).count() <= 1);
    assert_eq!(devices.len(), 2);
}

#[test]
fn resolving_an_unknown_id_falls_back_to_the_default() {
    let ids = vec![Some("a".to_string()), None, Some("b".to_string()), Some("b".to_string())];
    assert_eq!(resolve_input_device(&ids, Some("no-such-device-id")), None);
    assert_eq!(resolve_input_device(&ids, Some("b")), Some(2));
    assert_eq!(resolve_input_device(&ids, None), None);
    let default = found(Some("a"), None, Some((1, 16_000)));
    assert!(default_input_device(Some(&default)).unwrap().is_default);
    assert!(default_input_device(None).is_none());
}

// ---------------------------------------------------------------------------
// The microphone
// ---------------------------------------------------------------------------

#[test]
fn a_block_is_stamped_at_its_start_not_its_arrival() {
    // A 1024-frame block at 48 kHz was captured over ~21.3 ms, so its first
    // sample belongs that far back from when the callback ran.
    let elapsed = ns(5.0);
    let started_at = block_start(elapsed, 1024, 1, 48_000) as f64 / 1e9;
    assert!((started_at - 4.978_666).abs() < 1e-5, "got {started_at}");
    assert!(
        started_at < 5.0,
        "a block can never start after the callback that delivered it"
    );
    // Two channels: half as many frames.
    assert_eq!(block_start(elapsed, 2048, 2, 48_000), block_start(elapsed, 1024, 0, 48_000));
}

#[test]
fn u16_samples_map_to_the_full_signed_range() {
    // Mid-scale is silence; the extremes are +/- full scale.
    let convert = |s: u16| u16_level(s) as f32 / U16_SCALE as f32;
    assert_eq!(convert(32768), 0.0);
    assert_eq!(convert(0), -1.0);
    assert!((convert(65535) - 0.999_97).abs() < 1e-4);
}

#[test]
fn i16_samples_map_to_unit_range() {
    let convert = |s: i16| i16_level(s) as f32 / I16_SCALE as f32;
    assert_eq!(convert(0), 0.0);
    assert_eq!(convert(i16::MAX), 1.0);
    assert!((convert(i16::MIN) + 1.0).abs() < 1e-4);
}

#[test]
fn sixteen_kilohertz_is_asked_for_where_it_can_be_had() {
    assert!(supports_16k(Some(&vec![(44_100, 48_000), (8_000, 16_000)])));
    assert!(!supports_16k(Some(&vec![(44_100, 48_000)])));
    assert!(!supports_16k(None));
    assert_eq!(choose_rate(true, 48_000), (16_000, false));
    assert_eq!(choose_rate(false, 48_000), (48_000, true));
}

#[test]
fn a_microphone_that_cannot_be_recorded_says_why() {
    let config = |format: SampleFormat| DeviceConfig { channels: 2, sample_rate: 48_000, format };
    assert_eq!(plan_mic(false, None, None).unwrap_err(), "no microphone is available");
    assert_eq!(
        plan_mic(true, None, None).unwrap_err(),
        "the microphone did not report a usable configuration"
    );
    assert_eq!(
        plan_mic(true, Some(&config(SampleFormat::Other("F64".to_string()))), None).unwrap_err(),
        "unsupported microphone sample format F64"
    );
    assert_eq!(
        plan_mic(true, Some(&config(SampleFormat::U16)), None),
        Ok(CapturePlan { channels: 2, rate: 48_000, resample: true })
    );
    assert_eq!(
        plan_mic(true, Some(&config(SampleFormat::F32)), Some(&vec![(8_000, 48_000)])),
        Ok(CapturePlan { channels: 2, rate: 16_000, resample: false })
    );
}

#[test]
fn a_loopback_device_that_cannot_be_recorded_says_why() {
    let config = |format, sample_rate| DeviceConfig { channels: 2, sample_rate, format };
    assert_eq!(plan_loopback(false, None).unwrap_err(), NO_LOOPBACK);
    assert_eq!(
        plan_loopback(true, None).unwrap_err(),
        "the loopback device did not report a usable configuration"
    );
    assert_eq!(
        check_loopback_format(&SampleFormat::U16).unwrap_err(),
        "unsupported loopback sample format U16"
    );
    assert_eq!(
        plan_loopback(true, Some(&config(SampleFormat::I16, 16_000))),
        Ok(CapturePlan { channels: 2, rate: 16_000, resample: false })
    );
    assert_eq!(
        plan_loopback(true, Some(&config(SampleFormat::F32, 44_100))),
        Ok(CapturePlan { channels: 2, rate: 44_100, resample: true })
    );
}

fn to_mono(interleaved: &[f32], channels: usize) -> Vec<f32> {
    frames_of(interleaved, channels)
        .iter()
        .map(|frame| frame.iter().sum::<f32>() / frame.len() as f32)
        .collect()
}

#[test]
fn mono_input_is_returned_unchanged() {
    let block = [0.1, 0.2, 0.3];
    assert_eq!(to_mono(&block, 1), block);
    assert_eq!(to_mono(&block, 0), block);
}

#[test]
fn stereo_is_averaged_per_frame() {
    // L/R pairs: (1.0, 0.0) -> 0.5, (0.5, 0.5) -> 0.5, (-1.0, 1.0) -> 0.0
    let interleaved = [1.0, 0.0, 0.5, 0.5, -1.0, 1.0];
    assert_eq!(to_mono(&interleaved, 2), vec![0.5, 0.5, 0.0]);
}

#[test]
fn a_ragged_tail_is_averaged_over_what_is_there() {
    // A backend can hand us a partial frame at the end of a stream; dividing by
    // the declared channel count would quietly attenuate it.
    let interleaved = [1.0, 1.0, 0.5];
    assert_eq!(to_mono(&interleaved, 2), vec![1.0, 0.5]);
}

#[test]
fn planes_are_as_long_as_the_shortest() {
    let planes = vec![vec![1, 2, 3], vec![4, 5]];
    assert_eq!(planar_frames(&planes).unwrap(), vec![vec![1, 4], vec![2, 5]]);
    assert_eq!(planar_frames(&vec![vec![1], vec![]]), None::<Vec<Vec<i32>>>);
    assert_eq!(planar_frames::<i32>(&vec![]), None);
}

// ---------------------------------------------------------------------------
// The meeting side
// ---------------------------------------------------------------------------

#[test]
fn known_loopback_drivers_are_recognised() {
    assert!(is_loopback_name("BlackHole 2ch"));
    assert!(is_loopback_name("blackhole 16ch"));
    assert!(is_loopback_name("Loopback Audio"));
    assert!(is_loopback_name("VB-Audio Virtual Cable"));
    assert!(is_loopback_name("CABLE Output (VB-Audio Point)"));
    assert!(is_loopback_name("Stereo Mix"));
    assert!(is_loopback_name("Monitor of Built-in Audio"));
    assert!(is_loopback_name("Soundflower (2ch)"));
}

#[test]
fn real_inputs_are_not_mistaken_for_loopback() {
    // Recording the microphone into the "Meeting" track would double every word
    // the local speaker says.
    assert!(!is_loopback_name("MacBook Pro Microphone"));
    assert!(!is_loopback_name("AirPods Pro"));
    assert!(!is_loopback_name("External Headset"));
    assert!(!is_loopback_name("Studio Display Microphone"));
}

#[test]
fn small_letters_are_unicodes() {
    // The Kelvin sign is a capital letter, and its small one is a plain k.
    assert!(is_loopback_name("BLAC\u{212A}HOLE"));
    assert!(names_loopback("my blackhole"));
    assert!(!names_loopback("my BlackHole"));
    let names = vec![None, Some("Micro".to_string()), Some("Loopback 1".to_string())];
    assert_eq!(find_loopback_device(&names), Some(2));
    assert_eq!(find_loopback_device(&vec![None]), None);
}

#[test]
fn backend_descriptions_say_where_the_audio_came_from() {
    assert!(SystemBackend::ScreenCaptureKit
        .description()
        .contains("ScreenCaptureKit"));
    assert!(SystemBackend::LoopbackDevice
        .description()
        .contains("loopback"));
}

#[test]
fn a_missing_backend_reports_rather_than_panics() {
    // Asking for a loopback device that isn't there must yield a message, never a
    // panic and never a lost recording.
    let (opening, step) = SystemOpening::begin(Prefer::Loopback, false);
    assert_eq!(step, OpenStep::TryLoopback);
    let message = opening.loopback_failed(NO_LOOPBACK);
    assert!(!message.is_empty(), "a failure must explain itself");
    assert_eq!(
        message,
        format!("System audio capture is not available on this platform. {NO_LOOPBACK}")
    );
}

#[test]
fn the_system_mix_is_tried_before_a_loopback_device() {
    let (mut opening, step) = SystemOpening::begin(Prefer::Auto, true);
    assert_eq!(step, OpenStep::TryScreenCaptureKit);
    assert_eq!(opening.sck_failed(permission_problem("denied")), OpenStep::TryLoopback);
    assert!(opening.loopback_failed("none").ends_with("restart this app. none"));

    let (mut only, step) = SystemOpening::begin(Prefer::ScreenCaptureKit, true);
    assert_eq!(step, OpenStep::TryScreenCaptureKit);
    assert_eq!(
        only.sck_failed(capture_problem("busy")),
        OpenStep::Unavailable("could not start system audio capture: busy".to_string())
    );

    let (_, step) = SystemOpening::begin(Prefer::ScreenCaptureKit, false);
    assert_eq!(
        step,
        OpenStep::Unavailable(
            "System audio capture is not available on this platform.".to_string()
        )
    );
    let (other, step) = SystemOpening::begin(Prefer::Loopback, true);
    assert_eq!(step, OpenStep::TryLoopback);
    assert_eq!(other.loopback_failed("x"), "System audio capture was not requested. x");
    assert_eq!(Prefer::default(), Prefer::Auto);
}

// ---------------------------------------------------------------------------
// The recorder
// ---------------------------------------------------------------------------

fn start(mic: Opened, system: Opened) -> Result<MeetingRecorder, String> {
    MeetingRecorder::start(
        &FilePath::at("/rec"),
        "meeting-x".to_string(),
        &mic,
        &system,
        SystemBackend::LoopbackDevice,
        7,
    )
}

#[test]
fn recording_with_neither_side_requested_is_refused() {
    // The UI blocks this, but the recorder must not silently produce an empty
    // take either.
    let message = match start(Opened::NotWanted, Opened::NotWanted) {
        Ok(_) => panic!("a recording with neither side must be refused"),
        Err(error) => error,
    };
    assert!(message.contains("Nothing could be recorded"), "{message}");
    assert_eq!(message, "Nothing could be recorded.");
    assert_eq!(
        start(
            Opened::NoCapture(Some("no microphone is available".to_string())),
            Opened::NoFile("disk full".to_string())
        )
        .unwrap_err(),
        "Nothing could be recorded. Microphone unavailable: no microphone is available \
         Cannot write the meeting track: disk full"
    );
}

#[test]
fn track_files_are_named_by_side() {
    // The merge and the UI both key off these names.
    let stem = "meeting-20260730-142530";
    assert_eq!(track_file(stem, Side::Mic), "meeting-20260730-142530-me.wav");
    assert_eq!(
        track_file(stem, Side::System),
        "meeting-20260730-142530-meeting.wav"
    );
    assert_eq!(
        track_path(&FilePath::at("/rec"), stem, Side::Mic).file_name().unwrap(),
        "meeting-20260730-142530-me.wav"
    );
}

#[test]
fn half_a_recording_beats_none() {
    let recorder = start(Opened::Running, Opened::NoCapture(None)).unwrap();
    assert_eq!(recorder.warnings, ["system audio is unavailable"]);
    assert_eq!(recorder.system_description(), None);
    assert!(recorder.system_path.is_none());
    assert_eq!(recorder.out_dir(), &FilePath::at("/rec"));
    assert_eq!(recorder.mic_path.as_ref().unwrap().file_name().unwrap(), "meeting-x-me.wav");

    let recording = recorder.stop(16_000, 0, None, None);
    assert_eq!(recording.duration_ns, 1_000_000_000);
    assert_eq!(recording.started_at_ns, 7);
    assert_eq!(recording.paths().len(), 1);
    assert_eq!(recording.warnings.len(), 1);
}

#[test]
fn a_side_that_captured_nothing_is_no_track() {
    let recorder = start(Opened::Running, Opened::Running).unwrap();
    assert_eq!(
        recorder.system_description(),
        Some("system audio via a loopback input device")
    );
    assert_eq!(recorder.levels(Some(3), None).mic, 3);
    assert_eq!(recorder.levels(Some(3), None).system, 0);
    let recording = recorder.stop(
        0,
        32_000,
        Some("unplugged".to_string()),
        Some("stalled".to_string()),
    );
    assert!(recording.mic_path.is_none());
    assert_eq!(recording.paths()[0].file_name().unwrap(), "meeting-x-meeting.wav");
    assert_eq!(recording.duration_ns, 2_000_000_000);
    assert_eq!(
        recording.warnings,
        ["Microphone track: unplugged", "Meeting track: stalled"]
    );
}

#[test]
fn a_recording_reports_only_the_tracks_that_captured_audio() {
    let recording = Recording {
        stem: "meeting-x".into(),
        mic_path: Some(FilePath::at("/tmp").join("x-me.wav")),
        system_path: None,
        duration_ns: ns(12.0),
        started_at_ns: 0,
        warnings: vec!["Screen Recording permission is not granted".into()],
    };
    assert_eq!(recording.paths().len(), 1);
    assert!(!recording.warnings.is_empty(), "the user must learn why");
}

#[test]
fn an_empty_writer_contributes_no_duration() {
    let (mut writer, _) = MonoWavWriter::create();
    let (frames, _) = writer.close();
    assert_eq!(frames, 0);
    assert_eq!(writer.seconds(), 0);
}

#[test]
fn peak_of_a_missing_side_is_silence_not_a_panic() {
    assert_eq!(peak(None), 0);
    assert_eq!(peak(Some(9)), 9);
}

#[test]
fn the_usual_name_tells_when_the_recording_began() {
    let stem = recording_stem(None);
    let stamp = stem.strip_prefix("meeting-").unwrap();
    assert_eq!(stamp.len(), 15, "{stem}");
    assert_eq!(recording_stem(Some("mine".to_string())), "mine");
    assert_eq!(stem_at("20260730-142530"), "meeting-20260730-142530");
    let options = RecorderOptions::default();
    assert!(options.record_mic && options.record_system);
    assert!(options.stem.is_none() && options.mic_device_id.is_none());
}

// ---------------------------------------------------------------------------
// The WAV writer
// ---------------------------------------------------------------------------

/// Loudness as a number that orders as it does.
fn levels(block: &[f32]) -> Vec<u32> {
    block.iter().map(|s| s.abs().to_bits()).collect()
}

fn writer() -> MonoWavWriter {
    MonoWavWriter::create().0
}

fn append(writer: &mut MonoWavWriter, block: &[f32], started_at: f64) -> Option<Placement> {
    assert!(writer.fits(block.len()));
    writer.append(&levels(block), ns(started_at))
}

fn seconds(ns: i128) -> f64 {
    ns as f64 / 1e9
}

#[test]
fn audio_before_the_origin_is_dropped() {
    let mut writer = writer();
    // A permission prompt is still open; this block predates the timeline.
    assert_eq!(append(&mut writer, &[0.5; 1600], 100.0), None);
    assert_eq!(writer.frames(), 0);
    assert_eq!(seconds(writer.seconds()), 0.0);
}

#[test]
fn a_gap_is_padded_with_silence_so_later_audio_keeps_its_offset() {
    let mut writer = writer();
    writer.set_origin(ns(100.0));

    // First block arrives on time at t0.
    append(&mut writer, &[0.5; 1600], 100.0);
    assert_eq!(writer.frames(), 1600);

    // Next block belongs a full second in: 0.9 s of it went missing.
    let placed = append(&mut writer, &[0.5; 1600], 101.0).unwrap();
    assert_eq!(placed, Placement { silence: 14_400, skip: 0 });
    assert_eq!(writer.frames(), 16_000 + 1600, "silence must hold the timeline open");
    assert!((seconds(writer.drift_seconds()) - 0.9).abs() < 1e-6);
}

#[test]
fn jitter_within_tolerance_is_left_alone() {
    let mut writer = writer();
    writer.set_origin(0);
    append(&mut writer, &[0.1; 1600], 0.0);
    // 50 ms early/late is ordinary callback jitter, under the 100 ms bar.
    append(&mut writer, &[0.1; 1600], 0.05);
    assert_eq!(writer.frames(), 3200, "no padding or trimming expected");
    assert_eq!(seconds(writer.drift_seconds()), 0.0);
}

#[test]
fn a_block_running_ahead_is_trimmed_rather_than_pushing_everything_later() {
    let mut writer = writer();
    writer.set_origin(0);

    // A full second already written…
    append(&mut writer, &[0.5; 16_000], 0.0);
    // …but this block claims to start at 0.5 s, overlapping by 0.5 s.
    let placed = append(&mut writer, &[0.5; 16_000], 0.5).unwrap();

    assert_eq!(placed, Placement { silence: 0, skip: 8_000 });
    assert_eq!(writer.frames(), 24_000, "the overlapping 8000 frames are dropped");
    assert!((seconds(writer.drift_seconds()) + 0.5).abs() < 1e-6, "drift is signed");
}

#[test]
fn a_block_shorter_than_the_overlap_is_dropped_entirely() {
    let mut writer = writer();
    writer.set_origin(0);
    append(&mut writer, &[0.5; 16_000], 0.0);
    // Claims to start half a second back but only carries 100 frames.
    let placed = append(&mut writer, &[0.5; 100], 0.5).unwrap();
    assert_eq!(placed.skip, 100);
    assert_eq!(writer.frames(), 16_000);
}

#[test]
fn a_block_from_before_the_origin_belongs_at_the_start() {
    let mut writer = writer();
    writer.set_origin(ns(10.0));
    assert_eq!(
        append(&mut writer, &[0.5; 160], 3.0),
        Some(Placement { silence: 0, skip: 0 })
    );
}

#[test]
fn close_patches_the_header_with_the_real_length() {
    let (mut writer, first) = MonoWavWriter::create();
    assert_eq!(first, wav_header(0));
    writer.set_origin(0);
    append(&mut writer, &[0.25; 8000], 0.0);
    let (frames, header) = writer.close();

    assert_eq!(frames, 8000);
    let mut bytes = header.expect("the first close patches the header");
    bytes.extend(pcm_bytes(&[8_191i16; 8000]));
    assert_eq!(bytes.len(), WAV_HEADER_LEN + 8000 * 2);
    assert_eq!(&bytes[0..4], b"RIFF");
    assert_eq!(&bytes[8..16], b"WAVEfmt ");
    assert_eq!(&bytes[36..40], b"data");
    assert_eq!(
        u32::from_le_bytes(bytes[40..44].try_into().unwrap()),
        8000 * 2,
        "data chunk length must match what was written"
    );
    assert_eq!(
        u32::from_le_bytes(bytes[4..8].try_into().unwrap()),
        36 + 8000 * 2
    );
    assert_eq!(u32::from_le_bytes(bytes[24..28].try_into().unwrap()), 16_000);
    assert_eq!(u32::from_le_bytes(bytes[28..32].try_into().unwrap()), 32_000);
    assert_eq!(&bytes[16..24], &[16, 0, 0, 0, 1, 0, 1, 0]);
    assert_eq!(&bytes[32..36], &[2, 0, 16, 0]);
}

#[test]
fn close_is_idempotent() {
    let mut writer = writer();
    writer.set_origin(0);
    append(&mut writer, &[0.1; 160], 0.0);
    assert_eq!(writer.close().0, 160);
    let again = writer.close();
    assert_eq!(again, (160, None), "a second close must not corrupt");
    // Nor does a block that arrives late.
    assert_eq!(append(&mut writer, &[0.1; 160], 5.0), None);
    assert_eq!(writer.frames(), 160);
}

#[test]
fn peak_resets_each_time_it_is_read() {
    let mut writer = writer();
    writer.set_origin(0);
    append(&mut writer, &[0.0, 0.7, -0.3], 0.0);
    assert!((f32::from_bits(writer.take_peak()) - 0.7).abs() < 1e-6);
    assert_eq!(
        f32::from_bits(writer.take_peak()),
        0.0,
        "meters must fall when sound stops"
    );
}

#[test]
fn the_two_tracks_stay_aligned_across_independent_jitter() {
    // Two writers sharing one t0 land the same wall-clock instant at the same
    // frame, however differently their callbacks arrived.
    let mut mic = writer();
    let mut system = writer();
    mic.set_origin(ns(1000.0));
    system.set_origin(ns(1000.0));

    // Mic delivers tidy 0.1 s blocks.
    for step in 0..100 {
        append(&mut mic, &[0.2; 1600], 1000.0 + step as f64 * 0.1);
    }
    // System stalls for half a second in the middle, then catches up.
    for step in 0..50 {
        append(&mut system, &[0.2; 1600], 1000.0 + step as f64 * 0.1);
    }
    for step in 55..100 {
        append(&mut system, &[0.2; 1600], 1000.0 + step as f64 * 0.1);
    }

    // Both describe the same 10 seconds of wall clock.
    assert!(
        (seconds(mic.seconds()) - seconds(system.seconds())).abs() < 0.10 * 2.0,
        "mic {} vs system {}",
        mic.seconds(),
        system.seconds()
    );
}

#[test]
fn what_is_written_reads_back() {
    let samples = [0i16, 1, -1, 256, -256, i16::MAX, i16::MIN, 12_345, -12_345];
    assert_eq!(pcm_s16le(&pcm_bytes(&samples)), samples);
    assert_eq!(pcm_bytes(&[-2, 258]), [0xfe, 0xff, 0x02, 0x01]);
    // A length that does not fit wraps around.
    assert_eq!(&wav_header(u32::MAX)[4..8], &[35, 0, 0, 0]);
}

/// The bytes that a block adds, all pieces together.
fn added(placement: Placement, block: &[i16]) -> Vec<u8> {
    let mut pieces = placement.pieces();
    let mut bytes = Vec::new();
    while let Some(piece) = pieces.next(block) {
        assert!(!piece.is_empty());
        bytes.extend(piece);
    }
    assert_eq!(pieces.next(block), None);
    bytes
}

#[test]
fn a_block_is_written_behind_its_silence_and_without_its_overlap() {
    assert_eq!(added(Placement { silence: 2, skip: 1 }, &[7, 8]), [0, 0, 0, 0, 8, 0]);
    assert!(added(Placement { silence: 0, skip: 2 }, &[7, 8]).is_empty());
    assert_eq!(added(Placement { silence: 0, skip: 0 }, &[-1]), [0xff, 0xff]);
    assert_eq!(added(Placement { silence: 1, skip: 0 }, &[]), [0, 0]);
    let long = added(Placement { silence: 40_000, skip: 0 }, &[5]);
    assert_eq!(long.len(), 80_002);
    assert!(long[..80_000].iter().all(|byte| *byte == 0));
    assert_eq!(&long[80_000..], [5, 0]);
}

// ---------------------------------------------------------------------------
// The resampler
// ---------------------------------------------------------------------------

#[test]
fn a_matching_rate_passes_straight_through() {
    let mut resampler = Resampler::new(SAMPLE_RATE);
    assert!(resampler.is_passthrough());
    let block = vec![0.1f32, -0.2, 0.3];
    assert!(resampler.fits(block.len()));
    match resampler.process(&block) {
        Resampled::Same(same) => assert_eq!(same, block),
        Resampled::Windows(_) => panic!("must pass through"),
    }
}

#[test]
fn common_device_rates_reduce_to_small_ratios() {
    assert_eq!(Resampler::<f32>::new(48_000).ratio(), (1, 3));
    assert_eq!(Resampler::<f32>::new(44_100).ratio(), (160, 441));
    assert_eq!(Resampler::<f32>::new(32_000).ratio(), (1, 2));
    assert_eq!(Resampler::<f32>::new(48_000).taps_len(), 97);
    assert_eq!(gcd(44_100, 16_000), 100);
    assert_eq!(gcd(0, 0), 1);
    assert_eq!(gcd(0, 5), 5);
    assert_eq!(gcd(5, 0), 5);
}

/// A windowed-sinc lowpass, as the program designs it.
fn design_lowpass(up: u64, down: u64, len: usize) -> Vec<f32> {
    let max_rate = up.max(down) as f64;
    let half = (len - 1) / 2;
    let mut taps = vec![0.0f32; len];
    for (index, tap) in taps.iter_mut().enumerate() {
        let position = index as f64 - half as f64;
        let sinc = if position == 0.0 {
            1.0
        } else {
            let x = std::f64::consts::PI * position / max_rate;
            x.sin() / x
        };
        let ratio = index as f64 / (len - 1) as f64;
        let window = 0.42 - 0.5 * (2.0 * std::f64::consts::PI * ratio).cos()
            + 0.08 * (4.0 * std::f64::consts::PI * ratio).cos();
        *tap = (sinc * window) as f32;
    }
    let sum: f32 = taps.iter().sum();
    for tap in &mut taps {
        *tap *= up as f32 / sum;
    }
    taps
}

struct Filter {
    resampler: Resampler<f32>,
    taps: Vec<f32>,
}

impl Filter {
    fn new(rate: u32) -> Self {
        let resampler = Resampler::new(rate);
        let (up, down) = resampler.ratio();
        let taps = design_lowpass(up, down, resampler.taps_len() as usize);
        Filter { resampler, taps }
    }

    fn process(&mut self, block: &[f32]) -> Vec<f32> {
        assert!(self.resampler.fits(block.len()));
        match self.resampler.process(block) {
            Resampled::Same(same) => same,
            Resampled::Windows(windows) => windows
                .iter()
                .map(|window| {
                    window
                        .samples
                        .iter()
                        .enumerate()
                        .map(|(i, sample)| {
                            sample * self.taps[(window.first_tap - i as u64 * window.step) as usize]
                        })
                        .sum()
                })
                .collect(),
        }
    }
}

fn rms(samples: &[f32]) -> f32 {
    (samples.iter().map(|s| s * s).sum::<f32>() / samples.len() as f32).sqrt()
}

fn sine(rate: u32, freq: f64, seconds: f64) -> Vec<f32> {
    let count = (rate as f64 * seconds) as usize;
    (0..count)
        .map(|i| (2.0 * std::f64::consts::PI * freq * i as f64 / rate as f64).sin() as f32)
        .collect()
}

#[test]
fn output_length_tracks_the_rate_ratio() {
    let mut resampler = Filter::new(48_000);
    // One second in at 48 kHz should be about one second out at 16 kHz.
    let out = resampler.process(&sine(48_000, 440.0, 1.0));
    let expected = 16_000i64;
    assert!(
        (out.len() as i64 - expected).abs() < 40,
        "got {} samples, expected ~{expected}",
        out.len()
    );
}

/// Dominant frequency by brute-force correlation.
fn dominant_freq(samples: &[f32], rate: u32, candidates: &[f64]) -> f64 {
    let mut best = (0.0f64, f64::NEG_INFINITY);
    for &freq in candidates {
        let mut re = 0.0f64;
        let mut im = 0.0f64;
        for (i, sample) in samples.iter().enumerate() {
            let phase = 2.0 * std::f64::consts::PI * freq * i as f64 / rate as f64;
            re += *sample as f64 * phase.cos();
            im += *sample as f64 * phase.sin();
        }
        let power = re * re + im * im;
        if power > best.1 {
            best = (freq, power);
        }
    }
    best.0
}

#[test]
fn a_speech_band_tone_survives_at_the_same_frequency() {
    let mut resampler = Filter::new(48_000);
    let out = resampler.process(&sine(48_000, 440.0, 0.5));
    // Skip the filter's lead-in before measuring.
    let steady = &out[400..];
    let candidates: Vec<f64> = (100..2000).step_by(10).map(|f| f as f64).collect();
    let found = dominant_freq(steady, SAMPLE_RATE, &candidates);
    assert!((found - 440.0).abs() <= 10.0, "found {found} Hz");
}

#[test]
fn an_awkward_rate_still_resamples() {
    // 44.1 kHz is the ratio that makes naive implementations fall over.
    let mut resampler = Filter::new(44_100);
    let out = resampler.process(&sine(44_100, 440.0, 0.5));
    assert!(
        (out.len() as i64 - 8_000).abs() < 40,
        "got {} samples",
        out.len()
    );
    let candidates: Vec<f64> = (100..2000).step_by(10).map(|f| f as f64).collect();
    let found = dominant_freq(&out[600..], SAMPLE_RATE, &candidates);
    assert!((found - 440.0).abs() <= 10.0, "found {found} Hz");
}

#[test]
fn amplitude_is_preserved() {
    let mut resampler = Filter::new(48_000);
    let input = sine(48_000, 440.0, 0.5);
    let out = resampler.process(&input);
    let steady = &out[400..out.len() - 400];
    // A sine's RMS is 1/sqrt(2); the filter must not change the level.
    assert!(
        (rms(steady) - rms(&input)).abs() < 0.05,
        "in {} vs out {}",
        rms(&input),
        rms(steady)
    );
}

#[test]
fn a_tone_above_nyquist_is_rejected_rather_than_aliased() {
    // 7 kHz survives; 15 kHz would fold to 1 kHz at 16 kHz if unfiltered.
    let kept = Filter::new(48_000).process(&sine(48_000, 7_000.0, 0.5));
    let rejected = Filter::new(48_000).process(&sine(48_000, 15_000.0, 0.5));

    let kept_level = rms(&kept[400..kept.len() - 400]);
    let rejected_level = rms(&rejected[400..rejected.len() - 400]);
    assert!(kept_level > 0.5, "7 kHz should pass, got {kept_level}");
    assert!(
        rejected_level < kept_level / 50.0,
        "15 kHz should be rejected: kept {kept_level}, rejected {rejected_level}"
    );
}

#[test]
fn block_size_does_not_change_the_result() {
    // A signal split across callbacks must resample identically to the same
    // signal in one go.
    let input = sine(48_000, 600.0, 0.4);
    let one_shot = Filter::new(48_000).process(&input);

    let mut streamed = Filter::new(48_000);
    let mut pieces = Vec::new();
    // Deliberately ragged block sizes, as a real callback delivers.
    let mut offset = 0;
    for size in [512usize, 1024, 137, 4096, 999].iter().cycle() {
        if offset >= input.len() {
            break;
        }
        let end = (offset + *size).min(input.len());
        pieces.extend(streamed.process(&input[offset..end]));
        offset = end;
    }

    assert_eq!(pieces.len(), one_shot.len(), "sample count must match");
    assert_eq!(pieces.len(), (input.len() * 16_000).div_ceil(48_000));
    for (index, (a, b)) in one_shot.iter().zip(pieces.iter()).enumerate() {
        assert!(
            (a - b).abs() < 1e-6,
            "sample {index} differs: {a} vs {b}: filter state is not continuous"
        );
    }
}

#[test]
fn there_is_no_discontinuity_at_block_boundaries() {
    let mut resampler = Filter::new(48_000);
    let input = sine(48_000, 300.0, 0.3);
    let mut out = Vec::new();
    for chunk in input.chunks(480) {
        out.extend(resampler.process(chunk));
    }
    let steady = &out[200..out.len() - 200];
    let largest_step = steady
        .windows(2)
        .map(|pair| (pair[1] - pair[0]).abs())
        .fold(0.0f32, f32::max);
    // A 300 Hz sine at 16 kHz moves at most ~0.12 per sample.
    assert!(largest_step < 0.2, "largest step {largest_step} suggests a boundary glitch");
}

#[test]
fn silence_in_gives_silence_out() {
    let out = Filter::new(44_100).process(&vec![0.0f32; 44_100]);
    assert!(out.iter().all(|s| s.abs() < 1e-9));
}

#[test]
fn an_empty_block_is_harmless() {
    assert!(Filter::new(48_000).process(&[]).is_empty());
}

#[test]
fn the_windows_of_a_tiny_signal() {
    // 32 kHz: two inputs make one output, and the window reaches back to the
    // beginning for as long as the filter does.
    let mut resampler = Resampler::new(32_000);
    let Resampled::Windows(windows) = resampler.process(&[10, 20, 30]) else {
        panic!("must resample");
    };
    assert_eq!(windows.len(), 2);
    assert_eq!(windows[0].samples, [10]);
    assert_eq!((windows[0].first_tap, windows[0].step), (0, 1));
    assert_eq!(windows[1].samples, [10, 20, 30]);
    assert_eq!((windows[1].first_tap, windows[1].step), (2, 1));
}
