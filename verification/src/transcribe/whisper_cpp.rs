//! What is asked of whisper.cpp, and what becomes of its segments.

use vstd::prelude::*;
use vstd::string::*;

use crate::picking;
use crate::state::LanguageMode;
use crate::text;
use crate::transcribe::hallucination;
use crate::transcribe::models;
use crate::transcribe::params;
use crate::transcribe::segment;
use crate::transcribe::segment::{SegmentView, TranscriptSegment};

verus! {

/// Nanoseconds in a centisecond, which whisper.cpp reports timestamps in.
pub const NANOS_PER_CENTISECOND: i64 = 10_000_000;

/// A number as near to `n` as 64 bits can hold.
pub open spec fn clamped(n: int) -> int {
    if n > i64::MAX {
        i64::MAX as int
    } else if n < i64::MIN {
        i64::MIN as int
    } else {
        n
    }
}

/// The time on the recording's timeline of a timestamp in a chunk that starts at
/// `offset_ns`.
pub open spec fn placed(offset_ns: int, centiseconds: int) -> int {
    clamped(offset_ns + centiseconds * NANOS_PER_CENTISECOND)
}

/// The time on the recording's timeline of a timestamp in a chunk that starts at
/// `offset_ns`, so that chunks can be merged into one transcript.
pub fn on_timeline(offset_ns: i64, centiseconds: i64) -> (r: i64)
    ensures
        r == placed(offset_ns as int, centiseconds as int),
{
    let n: i128 = offset_ns as i128 + centiseconds as i128 * NANOS_PER_CENTISECOND as i128;
    if n > i64::MAX as i128 {
        i64::MAX
    } else if n < i64::MIN as i128 {
        i64::MIN
    } else {
        n as i64
    }
}

// ---------------------------------------------------------------------------
// Identity
// ---------------------------------------------------------------------------

/// Identity of the engine for the resume checkpoint.
pub open spec fn engine_key_of(model: Seq<char>, language: Option<Seq<char>>) -> Seq<char> {
    "whispercpp-"@ + model + ":"@ + match language {
        Some(code) => code,
        None => "auto"@,
    }
}

/// What is known of a loaded engine.
#[derive(Debug, Clone, PartialEq, Eq)]
pub struct WhisperCppEngine {
    pub model_name: String,
    /// `None` means "detect".
    pub language: Option<String>,
    pub threads: i32,
}

impl WhisperCppEngine {
    /// An engine for a checkpoint and a language, on a machine that says it has
    /// this many cores.
    pub fn load(model_name: &str, language: Option<&str>, cores: Option<usize>) -> (r: Self)
        ensures
            r.model_name@ == model_name@,
            text::view_of(r.language) == models::str_view(language),
            r.threads == params::threads_for(cores),
    {
        WhisperCppEngine {
            model_name: model_name.to_owned(),
            language: match language {
                Some(code) => Some(code.to_owned()),
                None => None,
            },
            threads: params::default_threads(cores),
        }
    }

    /// Identity of this engine for the resume checkpoint.
    ///
    /// It changes whenever the produced text would differ (model, language, or
    /// engine), because a transcript half-written by one engine must never be
    /// continued by another. Splicing two different decodings of the same meeting
    /// into one file is worse than redoing the work.
    pub fn engine_key(&self) -> (r: String)
        ensures
            r@ == engine_key_of(self.model_name@, text::view_of(self.language)),
    {
        let mut r: String = "whispercpp-".to_owned();
        r.append(self.model_name.as_str());
        r.append(":");
        match &self.language {
            Some(code) => r.append(code.as_str()),
            None => r.append("auto"),
        }
        r
    }

    /// Whether this engine can report segments before the chunk is finished.
    pub fn supports_streaming(&self) -> (r: bool)
        ensures
            r,
    {
        true
    }
}

/// Two engines have the same key only where both the model and the language mode
/// are the same.
pub proof fn law_engine_keys_tell_apart(
    model: (Seq<char>, Seq<char>),
    language: (LanguageMode, LanguageMode),
)
    requires
        engine_key_of(model.0, language.0.code()) == engine_key_of(model.1, language.1.code()),
    ensures
        model.0 == model.1,
        language.0 == language.1,
{
    reveal_strlit(":");
    reveal_strlit("vi");
    reveal_strlit("en");
    reveal_strlit("auto");
    reveal_strlit("whispercpp-");
    assert(":"@ == seq![':']);
    let a = match language.0.code() {
        Some(code) => code,
        None => "auto"@,
    };
    let b = match language.1.code() {
        Some(code) => code,
        None => "auto"@,
    };
    assert(text::free_of(a, ':'));
    assert(text::free_of(b, ':'));
    text::lemma_split_last("whispercpp-"@ + model.0, a, "whispercpp-"@ + model.1, b, ':');
    let n = "whispercpp-"@.len() as int;
    assert(model.0 == ("whispercpp-"@ + model.0).skip(n));
    assert(model.1 == ("whispercpp-"@ + model.1).skip(n));
    assert("vi"@[0] == 'v');
    assert("en"@[0] == 'e');
    assert("auto"@[0] == 'a');
}

// ---------------------------------------------------------------------------
// Segments
// ---------------------------------------------------------------------------

/// A segment as the decoder hands it out.
#[derive(Debug, Clone, PartialEq, Eq)]
pub struct RawSegment {
    pub start_cs: i64,
    pub end_cs: i64,
    /// What is said, where it can be read at all.
    pub text: Option<String>,
}

/// What a decoder's segment says.
pub open spec fn said(raw: RawSegment) -> Seq<char> {
    match raw.text {
        Some(s) => text::trimmed(s@),
        None => Seq::empty(),
    }
}

/// A decoder's segment on the recording's timeline.
pub open spec fn on_recording(raw: RawSegment, offset_ns: int) -> SegmentView {
    SegmentView {
        start_ns: placed(offset_ns, raw.start_cs as int),
        end_ns: placed(offset_ns, raw.end_cs as int),
        text: said(raw),
    }
}

/// The segments of a chunk that say anything. A segment that the decoder does not
/// hand out is left out.
pub open spec fn collected(raw: Seq<Option<RawSegment>>, offset_ns: int) -> Seq<SegmentView>
    decreases raw.len(),
{
    if raw.len() == 0 {
        Seq::empty()
    } else {
        let before = collected(raw.drop_last(), offset_ns);
        match raw.last() {
            Some(last) => if said(last).len() > 0 {
                before.push(on_recording(last, offset_ns))
            } else {
                before
            },
            None => before,
        }
    }
}

/// Read the finished segments out of a completed decode of a chunk that starts at
/// `offset_ns`.
pub fn collect(raw: &Vec<Option<RawSegment>>, offset_ns: i64) -> (r: Vec<TranscriptSegment>)
    ensures
        segment::segment_views(r@) == collected(raw@, offset_ns as int),
{
    let mut r: Vec<TranscriptSegment> = Vec::new();
    assert(segment::segment_views(r@) == collected(raw@.take(0), offset_ns as int));
    for i in 0..raw.len()
        invariant
            segment::segment_views(r@) == collected(raw@.take(i as int), offset_ns as int),
    {
        assert(raw@.take(i + 1).drop_last() == raw@.take(i as int));
        let ghost before = segment::segment_views(r@);
        if let Some(found) = &raw[i] {
            let words: String = match &found.text {
                Some(s) => text::trim(s.as_str()),
                None => String::new(),
            };
            assert(words@ == said(*found));
            if !words.as_str().is_empty() {
                let one = TranscriptSegment::new(
                    on_timeline(offset_ns, found.start_cs),
                    on_timeline(offset_ns, found.end_cs),
                    words,
                );
                let ghost seen = one@;
                assert(seen == on_recording(*found, offset_ns as int));
                r.push(one);
                assert(segment::segment_views(r@) == before.push(seen));
            }
        }
    }
    assert(raw@.take(raw@.len() as int) == raw@);
    r
}

/// The segments of a completed decode, without canned filler and repeat loops.
pub fn finished_segments(raw: &Vec<Option<RawSegment>>, offset_ns: i64) -> (r: Vec<
    TranscriptSegment,
>)
    ensures
        segment::segment_views(r@) == hallucination::kept_of(
            collected(raw@, offset_ns as int),
            hallucination::canned_of(collected(raw@, offset_ns as int)),
        ),
{
    hallucination::drop_hallucinations(collect(raw, offset_ns))
}

/// What has been shown of a chunk that is still being decoded.
///
/// Preview lines go straight to the UI without passing through the post-chunk
/// filtering, so an invented outro would otherwise flash on screen before being
/// dropped from the text that lands on disk.
#[derive(Debug, Clone, PartialEq, Eq)]
pub struct PreviewFilter {
    last: String,
}

impl PreviewFilter {
    /// The line shown last, and nothing before the first.
    pub closed spec fn shown(self) -> Seq<char> {
        self.last@
    }

    pub fn new() -> (r: Self)
        ensures
            r.shown() == Seq::<char>::empty(),
    {
        PreviewFilter { last: String::new() }
    }

    /// Whether a line is shown: it says something, it is not canned, and it is
    /// not the sentence shown last over again.
    pub open spec fn shows(self, words: Seq<char>, canned: bool) -> bool {
        words.len() > 0 && !canned && !(words == self.shown() && hallucination::sentence(words))
    }

    /// The line to show for a segment that the decoder reports, if any; `canned`
    /// tells whether it is one of the canned phrases. A sentence repeated
    /// verbatim back-to-back is a decode loop, not speech; short utterances are
    /// left alone.
    pub fn show_judged(&mut self, raw: &RawSegment, offset_ns: i64, canned: bool) -> (r: Option<
        TranscriptSegment,
    >)
        ensures
            match r {
                Some(line) => old(self).shows(said(*raw), canned) && line@ == on_recording(
                    *raw,
                    offset_ns as int,
                ) && final(self).shown() == said(*raw),
                None => !old(self).shows(said(*raw), canned) && final(self).shown() == old(
                    self,
                ).shown(),
            },
    {
        let words: String = match &raw.text {
            Some(s) => text::trim(s.as_str()),
            None => String::new(),
        };
        if words.as_str().is_empty() || canned {
            return None;
        }
        if text::same(words.as_str(), self.last.as_str()) && hallucination::is_sentence(
            words.as_str(),
        ) {
            return None;
        }
        self.last = words.clone();
        Some(
            TranscriptSegment::new(
                on_timeline(offset_ns, raw.start_cs),
                on_timeline(offset_ns, raw.end_cs),
                words,
            ),
        )
    }

    /// The line to show for a segment that the decoder reports, if any.
    pub fn show(&mut self, raw: &RawSegment, offset_ns: i64) -> (r: Option<TranscriptSegment>)
        ensures
            match r {
                Some(line) => old(self).shows(said(*raw), hallucination::hallucinated(said(*raw)))
                    && line@ == on_recording(*raw, offset_ns as int) && final(self).shown() == said(
                    *raw,
                ),
                None => !old(self).shows(said(*raw), hallucination::hallucinated(said(*raw)))
                    && final(self).shown() == old(self).shown(),
            },
    {
        let words: String = match &raw.text {
            Some(s) => text::trim(s.as_str()),
            None => String::new(),
        };
        assert(words@ == said(*raw));
        let canned: bool = hallucination::is_hallucination(words.as_str());
        self.show_judged(raw, offset_ns, canned)
    }
}

// ---------------------------------------------------------------------------
// What is collected
// ---------------------------------------------------------------------------

/// A timestamp of a chunk is that many hundredths of a second after the chunk's
/// start, or as near to that as can be counted.
pub proof fn law_timestamps_are_hundredths(offset_ns: int, centiseconds: int)
    ensures
        i64::MIN <= offset_ns + centiseconds * 10_000_000 <= i64::MAX ==> placed(
            offset_ns,
            centiseconds,
        ) == offset_ns + centiseconds * 10_000_000,
        offset_ns + centiseconds * 10_000_000 > i64::MAX ==> placed(offset_ns, centiseconds)
            == i64::MAX,
        offset_ns + centiseconds * 10_000_000 < i64::MIN ==> placed(offset_ns, centiseconds)
            == i64::MIN,
{
}

/// Whether a decoder's segment is handed out and has words.
pub open spec fn has_words(raw: Option<RawSegment>) -> bool {
    raw matches Some(found) && (found.text matches Some(t) && !text::blank(t@))
}

proof fn lemma_collected(raw: Seq<Option<RawSegment>>, offset_ns: int)
    ensures
        ({
            let chosen = picking::positions(raw.len(), |i: int| has_words(raw[i]));
            &&& collected(raw, offset_ns).len() == chosen.len()
            &&& forall|k: int|
                0 <= k < chosen.len() ==> collected(raw, offset_ns)[k] == on_recording(
                    raw[#[trigger] chosen[k]]->0,
                    offset_ns,
                )
        }),
    decreases raw.len(),
{
    if raw.len() > 0 {
        let front = raw.drop_last();
        let n = front.len();
        let wanted = |i: int| has_words(raw[i]);
        lemma_collected(front, offset_ns);
        picking::lemma_positions_same(n, |i: int| has_words(front[i]), wanted);
        picking::lemma_positions(n, wanted);
        let before = picking::positions(n, wanted);
        let chosen = picking::positions(raw.len(), wanted);
        if let Some(found) = raw.last() {
            if let Some(t) = found.text {
                text::lemma_trim_blank(t@);
            }
        }
        assert forall|k: int| 0 <= k < chosen.len() implies collected(raw, offset_ns)[k]
            == on_recording(raw[#[trigger] chosen[k]]->0, offset_ns) by {
            if k < before.len() {
                assert(chosen[k] == before[k]);
                assert(front[before[k]] == raw[before[k]]);
            }
        }
    }
}

/// The decoder's segments that have words are collected, every one of them and
/// nothing else, in order, whatever stands next to each: with its words, and on the
/// recording's timeline.
pub proof fn law_every_segment_with_words_is_collected(
    raw: Seq<Option<RawSegment>>,
    offset_ns: int,
)
    ensures
        exists|chosen: Seq<int>|
            #![trigger chosen.len()]
            {
                let found = collected(raw, offset_ns);
                &&& picking::exactly(
                    chosen,
                    raw.len() as int,
                    |i: int|
                        raw[i] matches Some(segment) && (segment.text matches Some(t)
                            && !text::blank(t@)),
                )
                &&& found.len() == chosen.len()
                &&& forall|k: int|
                    0 <= k < chosen.len() ==> {
                        let segment = raw[#[trigger] chosen[k]]->0;
                        &&& found[k].text == text::trimmed(segment.text->0@)
                        &&& found[k].start_ns == placed(offset_ns, segment.start_cs as int)
                        &&& found[k].end_ns == placed(offset_ns, segment.end_cs as int)
                    }
            },
{
    let wanted = |i: int|
        raw[i] matches Some(segment) && (segment.text matches Some(t) && !text::blank(t@));
    lemma_collected(raw, offset_ns);
    picking::lemma_positions_same(raw.len(), |i: int| has_words(raw[i]), wanted);
    picking::lemma_positions(raw.len(), wanted);
    let chosen = picking::positions(raw.len(), wanted);
    assert(chosen.len() == collected(raw, offset_ns).len());
}

/// The preview shows a line that has words, unless it is canned or says four words
/// or more that the line shown last said: a short utterance may be said twice.
pub proof fn law_preview(filter: PreviewFilter, words: Seq<char>, canned: bool)
    ensures
        filter.shows(words, canned) <==> words.len() > 0 && !canned && (words != filter.shown()
            || text::word_count_of(words) < 4),
{
}

} // verus!
