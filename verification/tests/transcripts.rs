use meeting_transcriber::chunking::{format_elapsed, preview_is_worth_showing, summary_line};
use meeting_transcriber::merge::{
    conversation_path, merge, merge_transcripts, parse_transcript_text, render, Utterance,
    MIC_LABEL, SYSTEM_LABEL,
};
use meeting_transcriber::paths::FilePath;
use meeting_transcriber::transcribe::hallucination::{
    drop_hallucinations, drop_marked, drop_segments_in_silence, is_hallucination, is_sentence,
    judge, normalize, silent_spans, HALLUCINATION_SILENCE_NS,
};
use meeting_transcriber::transcribe::segment::{
    format_timestamp, segments_to_text, TranscriptSegment,
};

fn ns(seconds: f64) -> i64 {
    (seconds * 1e9).round() as i64
}

fn seg(start: f64, end: f64, text: &str) -> TranscriptSegment {
    TranscriptSegment::new(ns(start), ns(end), text.to_string())
}

fn pcm(sample: f32) -> i16 {
    (sample * 32768.0) as i16
}

fn utterance(at: f64, speaker: &str, text: &str) -> Utterance {
    Utterance {
        at_ns: ns(at),
        speaker: speaker.to_string(),
        text: text.to_string(),
    }
}

// ---------------------------------------------------------------------------
// Segments
// ---------------------------------------------------------------------------

#[test]
fn timestamps_truncate_and_clamp() {
    assert_eq!(format_timestamp(ns(0.0)), "00:00:00");
    assert_eq!(format_timestamp(ns(59.9)), "00:00:59");
    assert_eq!(format_timestamp(ns(60.0)), "00:01:00");
    assert_eq!(format_timestamp(ns(3661.4)), "01:01:01");
    // Negative and non-finite inputs must not panic or wrap.
    assert_eq!(format_timestamp(ns(-5.0)), "00:00:00");
    assert_eq!(format_timestamp(ns(f64::NAN)), "00:00:00");
}

#[test]
fn a_hundred_hours_take_three_digits() {
    assert_eq!(format_timestamp(ns(360_000.0)), "100:00:00");
}

#[test]
fn line_format_matches_python() {
    let segment = seg(4.2, 6.0, "  Chào mọi người  ");
    assert_eq!(segment.format_line(), "[00:00:04] Chào mọi người");
}

#[test]
fn no_segments_produce_empty_text() {
    // A chunk that decoded to silence has to add nothing to the file, or the
    // checkpoint's `text_bytes` would drift from what is actually written.
    assert_eq!(segments_to_text(&vec![]), "");
}

#[test]
fn a_whitespace_only_segment_still_emits_its_timestamp() {
    let blank = vec![seg(0.0, 1.0, "   ")];
    assert_eq!(segments_to_text(&blank), "[00:00:00]\n");
}

#[test]
fn text_ends_with_single_newline() {
    let segments = vec![seg(0.0, 1.0, "một"), seg(1.0, 2.0, "hai")];
    assert_eq!(
        segments_to_text(&segments),
        "[00:00:00] một\n[00:00:01] hai\n"
    );
}

// ---------------------------------------------------------------------------
// Canned phrases and repeats
// ---------------------------------------------------------------------------

#[test]
fn canned_outros_are_dropped() {
    assert!(is_hallucination("Hãy subscribe cho kênh Ghiền Mì Gõ để không bỏ lỡ!"));
    assert!(is_hallucination("Đăng ký kênh để xem thêm video nhé"));
    assert!(is_hallucination("Thanks for watching!"));
    assert!(is_hallucination("Subtitles by the Amara.org community"));
    assert!(is_hallucination("Hẹn gặp lại các bạn"));
}

#[test]
fn empty_and_punctuation_only_count_as_hallucination() {
    assert!(is_hallucination(""));
    assert!(is_hallucination("   "));
    assert!(is_hallucination("..."));
    assert!(is_hallucination("—"));
}

#[test]
fn real_speech_containing_the_words_survives() {
    // The whole-string match is what protects these.
    assert!(!is_hallucination(
        "Mình nghĩ nên subscribe cho kênh nội bộ của team trước khi deploy"
    ));
    assert!(!is_hallucination("Chào mọi người, hôm nay mình review sprint backlog."));
    assert!(!is_hallucination("Ticket này đang bị block ở phần authentication."));
    assert!(!is_hallucination("Hôm qua mình xem video của Ghiền Mì Gõ"));
    assert!(!is_hallucination("Khách hàng để lại câu hỏi trong phần bình luận"));
    assert!(!is_hallucination("Mình sẽ trả lời ticket đó trong phần bình luận"));
    assert!(!is_hallucination("Mình thích xem Ghiền Mì Gõ"));
}

#[test]
fn chunks_append_to_one_text() {
    let first = vec![seg(1.0, 2.0, " một "), seg(2.0, 3.0, "hai")];
    let second = vec![seg(3.0, 4.0, "ba")];
    let both: Vec<TranscriptSegment> = first.iter().chain(&second).cloned().collect();
    assert_eq!(
        segments_to_text(&both),
        segments_to_text(&first) + &segments_to_text(&second)
    );
}

#[test]
fn every_canned_phrase_is_recognised() {
    assert!(is_hallucination("Cảm ơn các bạn đã theo dõi."));
    assert!(is_hallucination("Các bạn có thể nhận thêm nhiều thông tin ở đây"));
    assert!(is_hallucination("Trong phần bình luận."));
    assert!(is_hallucination("Để lại câu hỏi trong phần bình luận"));
    assert!(is_hallucination(
        "Các bạn hãy để lại ý kiến của mình ở bên dưới, trong phần bình luận!"
    ));
    assert!(is_hallucination("Nếu các bạn có câu hỏi gì, hãy để lại trong phần bình luận."));
    assert!(is_hallucination("Hãy cho mình biết suy nghĩ của các bạn trong phần bình luận"));
    assert!(is_hallucination("video của Ghiền Mì Gõ đây"));
    assert!(is_hallucination("Theo dõi kênh Ghiền Mì Gõ nhé!"));
    assert!(is_hallucination("Chào mừng các bạn đến với kênh Ghiền Mì Gõ"));
    assert!(is_hallucination("Chúc các bạn xem video vui vẻ"));
    assert!(is_hallucination("Please subscribe!"));
    assert!(is_hallucination("Please don't forget to subscribe"));
    assert!(is_hallucination("Ghiền Mì Gõ xin chào"));
    assert!(is_hallucination("AMARA"));
}

#[test]
fn words_are_normalized_before_they_are_matched() {
    assert_eq!(normalize("  Thanks,\t for — watching!  "), "Thanks for watching");
    assert_eq!(normalize("a…b(c)[d]\"e'f"), "a b c d e f");
    assert_eq!(normalize(" \u{a0}\u{3000}."), "");
}

#[test]
fn the_verdict_follows_the_match() {
    assert!(judge("", None));
    assert!(judge("", Some(false)));
    assert!(judge("words", Some(true)));
    assert!(!judge("words", Some(false)));
    assert!(!judge("words", None));
}

#[test]
fn a_preview_of_canned_filler_is_not_shown() {
    assert!(!preview_is_worth_showing("Thanks for watching!"));
    assert!(!preview_is_worth_showing(" ... "));
    assert!(preview_is_worth_showing("Chào mọi người"));
}

#[test]
fn four_words_are_a_sentence() {
    assert!(is_sentence("một hai ba bốn"));
    assert!(!is_sentence("  một\thai ba  "));
    assert!(!is_sentence(""));
}

#[test]
fn adjacent_sentence_repeat_collapses_into_one() {
    let segments = vec![
        seg(0.0, 3.0, "Chúng ta cần review lại toàn bộ authentication flow"),
        seg(3.5, 6.0, "Chúng ta cần review lại toàn bộ authentication flow"),
        seg(6.2, 9.0, "Chúng ta cần review lại toàn bộ authentication flow"),
    ];
    let kept = drop_hallucinations(segments);
    assert_eq!(kept.len(), 1);
    // The survivor is stretched over the repeats it absorbed.
    assert_eq!(kept[0].start_ns, ns(0.0));
    assert_eq!(kept[0].end_ns, ns(9.0));
}

#[test]
fn distant_repeat_is_dropped_but_not_stretched_over_the_gap() {
    // "Back-to-back" means adjacent in the segment list, not adjacent in time.
    // What the adjacency rule gates is only whether the survivor's end is
    // stretched.
    let segments = vec![
        seg(0.0, 3.0, "Chúng ta cần review lại authentication flow"),
        seg(65.0, 68.0, "Chúng ta cần review lại authentication flow"),
    ];
    let kept = drop_hallucinations(segments);
    assert_eq!(kept.len(), 1);
    assert_eq!(kept[0].end_ns, ns(3.0), "must not stretch across the silence");
}

#[test]
fn short_utterances_may_repeat() {
    let segments = vec![
        seg(0.0, 0.5, "vâng"),
        seg(0.6, 1.0, "vâng"),
        seg(1.1, 1.5, "ừ"),
        seg(1.6, 2.0, "ừ"),
    ];
    let kept = drop_hallucinations(segments);
    assert_eq!(kept.len(), 4, "people really do say these twice in a row");
}

#[test]
fn filtering_twice_changes_nothing() {
    let segments = vec![
        seg(0.0, 1.0, "Thanks for watching!"),
        seg(1.0, 2.0, "mình chốt như thế nhé"),
        seg(2.0, 3.0, " mình chốt như thế nhé "),
        seg(3.0, 4.0, "vâng"),
        seg(4.0, 5.0, "mình chốt như thế nhé"),
    ];
    let once = drop_hallucinations(segments);
    assert_eq!(once.len(), 3);
    assert_eq!(once[0].end_ns, ns(3.0));
    let twice = drop_hallucinations(once.clone());
    assert_eq!(twice, once);
}

#[test]
fn a_marked_segment_between_two_copies_does_not_part_them() {
    let segments = vec![
        seg(0.0, 1.0, "mình chốt như thế"),
        seg(1.0, 1.2, "outro"),
        seg(1.2, 2.0, "mình chốt như thế"),
    ];
    let kept = drop_marked(segments, &vec![false, true, false]);
    assert_eq!(kept.len(), 1);
    assert_eq!(kept[0].end_ns, ns(2.0));
}

// ---------------------------------------------------------------------------
// Silence
// ---------------------------------------------------------------------------

#[test]
fn silent_spans_finds_a_trailing_pause() {
    let sample_rate = 16_000;
    // 1 s of speech-ish noise, then 3 s of silence.
    let mut audio = vec![0i16; sample_rate as usize * 4];
    for (index, sample) in audio.iter_mut().take(sample_rate as usize).enumerate() {
        *sample = if index % 2 == 0 { pcm(0.3) } else { pcm(-0.3) };
    }
    let spans = silent_spans(&audio, sample_rate, HALLUCINATION_SILENCE_NS);
    assert_eq!(spans.len(), 1);
    assert!((spans[0].0 as f64 / 1e9 - 1.0).abs() < 0.15, "span starts near 1 s: {spans:?}");
    assert!((spans[0].1 as f64 / 1e9 - 4.0).abs() < 0.15, "span ends near 4 s: {spans:?}");
    assert_eq!(spans[0], (1_000_000_000, 4_000_000_000));
}

#[test]
fn short_pauses_are_not_reported() {
    let sample_rate = 16_000;
    // A 0.5 s gap is a breath, not grounds for dropping a segment.
    let mut audio = vec![pcm(0.3); sample_rate as usize * 3];
    let gap = (sample_rate as usize)..(sample_rate as usize + sample_rate as usize / 2);
    for sample in &mut audio[gap] {
        *sample = 0;
    }
    let spans = silent_spans(&audio, sample_rate, HALLUCINATION_SILENCE_NS);
    assert!(spans.is_empty(), "expected no long spans, got {spans:?}");
}

#[test]
fn every_long_silence_is_found() {
    // Silence, a loud second, silence again; two seconds each.
    let mut audio = vec![0i16; 16_000 * 5];
    for sample in &mut audio[32_000..48_000] {
        *sample = 20_000;
    }
    let spans = silent_spans(&audio, 16_000, HALLUCINATION_SILENCE_NS);
    assert_eq!(spans, vec![(0, 2_000_000_000), (3_000_000_000, 5_000_000_000)]);
    assert!(silent_spans(&audio, 0, HALLUCINATION_SILENCE_NS).is_empty());
    assert!(silent_spans(&[], 16_000, HALLUCINATION_SILENCE_NS).is_empty());
}

#[test]
fn segments_inside_silence_are_dropped_but_overlapping_ones_kept() {
    let spans = vec![(10_000_000_000, 15_000_000_000)];
    let segments = vec![
        // Invented entirely inside the pause.
        seg(111.0, 114.0, "Hãy đăng ký kênh"),
        // Trailing off into the pause: real speech.
        seg(109.0, 111.0, "Vậy thì mình chốt như thế nhé"),
        // Well outside it.
        seg(120.0, 122.0, "Tiếp theo là phần deploy"),
    ];
    let kept = drop_segments_in_silence(segments, &spans, ns(100.0));
    assert_eq!(kept.len(), 2);
    assert!(kept.iter().all(|s| !s.text.contains("đăng ký")));
}

// ---------------------------------------------------------------------------
// The footer
// ---------------------------------------------------------------------------

#[test]
fn elapsed_reads_at_a_glance() {
    assert_eq!(format_elapsed(ns(45.0)), "45s");
    assert_eq!(format_elapsed(ns(272.0)), "4m32s");
    assert_eq!(format_elapsed(ns(11_520.0)), "3h12m");
    assert_eq!(format_elapsed(ns(-1.0)), "0s");
}

#[test]
fn summary_of_a_fresh_run_omits_the_resume_note() {
    let line = summary_line(ns(3600.0), ns(272.0), ns(0.0));
    assert_eq!(
        line,
        "----- Complete: 01:00:00 of audio · transcribed in 4m32s -----\n"
    );
}

#[test]
fn summary_of_a_resumed_run_says_so() {
    let line = summary_line(ns(3600.0), ns(272.0), ns(1500.0));
    assert!(line.contains("resumed from 00:25:00"));
    assert!(
        line.contains("this run"),
        "must not claim a total it cannot vouch for"
    );
    assert_eq!(
        line,
        "----- Complete: 01:00:00 of audio · transcribed in 4m32s this run (resumed from 00:25:00) -----\n"
    );
}

#[test]
fn summary_without_a_known_length_says_only_how_long_it_took() {
    assert_eq!(
        summary_line(0, ns(5.0), 0),
        "----- Complete: transcribed in 5s -----\n"
    );
}

// ---------------------------------------------------------------------------
// The conversation
// ---------------------------------------------------------------------------

#[test]
fn only_timestamped_lines_are_parsed() {
    let text = "\
===== standup.m4a =====
[00:00:04] Chào mọi người
not a transcript line
[00:00:11] Ticket đầu tiên đang bị block

----- Complete: 00:01:30 of audio · transcribed in 15s -----
";
    let parsed = parse_transcript_text(text, MIC_LABEL);
    assert_eq!(parsed.len(), 2, "banners and footers have no place in a merge");
    assert_eq!(parsed[0].at_ns, ns(4.0));
    assert_eq!(parsed[0].text, "Chào mọi người");
    assert_eq!(parsed[1].at_ns, ns(11.0));
}

#[test]
fn timestamps_beyond_an_hour_parse() {
    let parsed = parse_transcript_text("[01:02:03] muộn rồi", MIC_LABEL);
    assert_eq!(parsed[0].at_ns, ns(3723.0));
}

#[test]
fn a_timestamp_with_no_words_is_skipped() {
    assert!(parse_transcript_text("[00:00:04]   ", MIC_LABEL).is_empty());
}

#[test]
fn digits_of_other_scripts_stand_for_nothing() {
    // The shape is a timestamp's, and its digits are no numbers that are read.
    let parsed = parse_transcript_text("[٠٠:٠١:02] xin chào", MIC_LABEL);
    assert_eq!(parsed.len(), 1);
    assert_eq!(parsed[0].at_ns, ns(2.0));
    // A letter is no digit of any script.
    assert!(parse_transcript_text("[0é:01:02] xin chào", MIC_LABEL).is_empty());
}

#[test]
fn line_endings_of_either_kind_end_a_line() {
    let parsed = parse_transcript_text("[00:00:01] a\r\n[00:00:02] b\r\n", MIC_LABEL);
    assert_eq!(parsed.len(), 2);
    assert_eq!(parsed[0].text, "a");
    assert_eq!(parsed[1].text, "b");
}

#[test]
fn what_a_chunk_writes_reads_back() {
    let segments = vec![
        seg(4.2, 6.0, " Chào mọi người "),
        seg(3599.9, 3600.5, "một: hai [ba]"),
        seg(359_999.0, 360_000.0, "muộn"),
    ];
    let parsed = parse_transcript_text(&segments_to_text(&segments), SYSTEM_LABEL);
    assert_eq!(
        parsed,
        vec![
            utterance(4.0, SYSTEM_LABEL, "Chào mọi người"),
            utterance(3599.0, SYSTEM_LABEL, "một: hai [ba]"),
            utterance(359_999.0, SYSTEM_LABEL, "muộn"),
        ]
    );
    // From a hundred hours on the stamp is none that is read.
    let late = vec![seg(360_000.0, 360_001.0, "quá muộn")];
    assert!(parse_transcript_text(&segments_to_text(&late), SYSTEM_LABEL).is_empty());
}

#[test]
fn ties_put_the_microphone_first() {
    // The local speaker echoed back through the meeting app a beat later.
    let mic = vec![utterance(10.0, MIC_LABEL, "mình nói trước")];
    let system = vec![utterance(10.0, SYSTEM_LABEL, "echo")];
    let merged = merge(mic, system);
    assert_eq!(merged[0].speaker, MIC_LABEL);
    assert_eq!(merged[1].speaker, SYSTEM_LABEL);
}

#[test]
fn both_sides_interleave_by_time() {
    let mic = vec![utterance(0.0, MIC_LABEL, "a"), utterance(20.0, MIC_LABEL, "c")];
    let system = vec![
        utterance(10.0, SYSTEM_LABEL, "b"),
        utterance(30.0, SYSTEM_LABEL, "d"),
    ];
    let merged = merge(mic, system);
    let texts: Vec<&str> = merged.iter().map(|u| u.text.as_str()).collect();
    assert_eq!(texts, ["a", "b", "c", "d"]);
}

#[test]
fn same_side_lines_within_one_second_keep_their_order() {
    let mic = vec![
        utterance(5.0, MIC_LABEL, "first"),
        utterance(5.0, MIC_LABEL, "second"),
        utterance(5.0, MIC_LABEL, "third"),
    ];
    let merged = merge(mic, Vec::new());
    let texts: Vec<&str> = merged.iter().map(|u| u.text.as_str()).collect();
    assert_eq!(texts, ["first", "second", "third"]);
}

#[test]
fn a_side_out_of_order_is_put_in_order() {
    let mic = vec![utterance(9.0, MIC_LABEL, "late"), utterance(1.0, MIC_LABEL, "early")];
    let system = vec![utterance(9.0, SYSTEM_LABEL, "echo"), utterance(0.0, SYSTEM_LABEL, "first")];
    let texts: Vec<String> = merge(mic, system).into_iter().map(|u| u.text).collect();
    assert_eq!(texts, ["first", "early", "late", "echo"]);
}

#[test]
fn render_breaks_a_line_at_each_change_of_speaker() {
    let merged = vec![
        utterance(0.0, MIC_LABEL, "chào"),
        utterance(2.0, MIC_LABEL, "mọi người"),
        utterance(5.0, SYSTEM_LABEL, "hello"),
    ];
    let text = render(&merged, None);
    assert_eq!(
        text,
        "[00:00:00] Me: chào\n[00:00:02] Me: mọi người\n\n[00:00:05] Meeting: hello\n"
    );
}

#[test]
fn render_puts_a_blank_line_under_the_header() {
    let merged = vec![utterance(0.0, MIC_LABEL, "chào")];
    let text = render(&merged, Some("# Meeting recorded 2026-07-30 14:25 (1m30s)"));
    assert!(text.starts_with("# Meeting recorded 2026-07-30 14:25 (1m30s)\n\n[00:00:00] Me:"));
}

#[test]
fn nothing_to_merge_renders_nothing() {
    assert_eq!(render(&vec![], None), "");
}

#[test]
fn one_missing_side_still_produces_a_labelled_transcript() {
    let mic = "[00:00:01] chỉ có mình thôi\n";
    let out = conversation_path(&FilePath::at("/tmp"), "meeting-20260730-142530");

    let (text, count) = merge_transcripts(Some(mic), None, None);

    assert_eq!(count, 1);
    assert_eq!(text, "[00:00:01] Me: chỉ có mình thôi\n");
    assert!(out.file_name().unwrap().ends_with("-conversation.txt"));
}

#[test]
fn a_missing_file_is_treated_as_an_empty_side() {
    let (text, count) = merge_transcripts(None, None, None);
    assert_eq!(count, 0);
    assert_eq!(text, "");
}

#[test]
fn a_finished_transcript_reads_back_without_its_footer() {
    let first = vec![seg(1.9, 3.0, " xin chào "), seg(4.0, 5.0, "vâng")];
    let second = vec![seg(300.0, 301.0, "hello there")];
    let mut text = segments_to_text(&first);
    text.push_str(&segments_to_text(&Vec::new()));
    text.push_str(&segments_to_text(&second));
    text.push('\n');
    text.push_str(&summary_line(301_000_000_000, 45_000_000_000, 0));
    assert!(text.ends_with(
        "\n\n----- Complete: 00:05:01 of audio · transcribed in 45s -----\n"
    ));
    let said: Vec<(i64, String)> = parse_transcript_text(&text, "Me")
        .into_iter()
        .map(|utterance| (utterance.at_ns / 1_000_000_000, utterance.text))
        .collect();
    assert_eq!(
        said,
        vec![
            (1, "xin chào".to_string()),
            (4, "vâng".to_string()),
            (300, "hello there".to_string()),
        ]
    );
}

#[test]
fn a_line_is_held_only_over_repeats_that_follow_at_once() {
    let said = "một hai ba bốn";
    let kept = drop_hallucinations(vec![
        seg(0.0, 3.0, said),
        seg(4.0, 6.0, said),
        seg(5.0, 5.5, said),
        seg(8.0, 9.0, said),
        seg(9.5, 10.0, "khác hẳn"),
    ]);
    assert_eq!(kept, vec![seg(0.0, 6.0, said), seg(9.5, 10.0, "khác hẳn")]);
}
