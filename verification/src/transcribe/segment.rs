//! Transcript segments and the transcript's on-disk line format.
//!
//! The line format is load-bearing beyond display: `merge` parses it back to
//! interleave the two recorded tracks, so `[HH:MM:SS] text` has to stay exactly
//! this shape.

use vstd::prelude::*;
use vstd::string::*;

use crate::text;
use crate::NANOS_PER_SEC;

verus! {

/// A stretch of speech on the recording's timeline.
#[derive(Debug, Clone, PartialEq, Eq)]
pub struct TranscriptSegment {
    pub start_ns: i64,
    pub end_ns: i64,
    pub text: String,
}

/// What a segment says and when.
pub struct SegmentView {
    pub start_ns: int,
    pub end_ns: int,
    pub text: Seq<char>,
}

impl View for TranscriptSegment {
    type V = SegmentView;

    open spec fn view(&self) -> SegmentView {
        SegmentView { start_ns: self.start_ns as int, end_ns: self.end_ns as int, text: self.text@ }
    }
}

/// The views of a sequence of segments.
pub open spec fn segment_views(segments: Seq<TranscriptSegment>) -> Seq<SegmentView> {
    Seq::new(segments.len(), |i: int| segments[i]@)
}

/// `HH:MM:SS` for a whole number of seconds; more hours than two digits hold
/// take as many as they need.
pub open spec fn hms(total: nat) -> Seq<char> {
    text::pad2_of(total / 3600) + seq![':'] + text::pad2_of((total % 3600) / 60) + seq![':'] + text::pad2_of(
        total % 60,
    )
}

/// Whole seconds in `ns`, cut off rather than rounded, and none below zero.
pub open spec fn whole_seconds(ns: int) -> nat {
    if ns > 0 {
        (ns / NANOS_PER_SEC as int) as nat
    } else {
        0
    }
}

impl SegmentView {
    /// The transcript line of a segment: `[HH:MM:SS] text`.
    pub open spec fn line(self) -> Seq<char> {
        seq!['['] + hms(whole_seconds(self.start_ns)) + seq![']', ' '] + text::trimmed(self.text)
    }
}

/// The transcript lines of `segments`.
pub open spec fn segment_lines(segments: Seq<SegmentView>) -> Seq<Seq<char>> {
    Seq::new(segments.len(), |i: int| segments[i].line())
}

/// One chunk's segments as transcript text.
pub open spec fn text_of_segments(segments: Seq<SegmentView>) -> Seq<char> {
    if segments.len() == 0 {
        Seq::empty()
    } else {
        text::trimmed(text::joined(segment_lines(segments), seq!['\n'])).push('\n')
    }
}

/// The line of a segment that has words neither begins nor ends with white space.
pub proof fn lemma_line_is_tight(segment: SegmentView)
    requires
        !text::blank(segment.text),
    ensures
        segment.line().len() > 0,
        text::tight(segment.line()),
{
    let t = text::trimmed(segment.text);
    text::lemma_trim_blank(segment.text);
    text::lemma_trimmed(segment.text);
    assert(segment.line()[0] == '[');
    assert(segment.line().last() == t.last());
}

/// The lines of segments that have words neither begin nor end with white space.
pub proof fn lemma_lines_are_tight(segments: Seq<SegmentView>)
    requires
        segments.len() > 0,
        forall|i: int| 0 <= i < segments.len() ==> !text::blank((#[trigger] segments[i]).text),
    ensures
        text::joined(segment_lines(segments), seq!['\n']).len() > 0,
        text::tight(text::joined(segment_lines(segments), seq!['\n'])),
    decreases segments.len(),
{
    let lines = segment_lines(segments);
    lemma_line_is_tight(segments[segments.len() - 1]);
    if segments.len() > 1 {
        let front = segments.drop_last();
        assert forall|i: int| 0 <= i < front.len() implies !text::blank(
            (#[trigger] front[i]).text,
        ) by {
            assert(front[i] == segments[i]);
        }
        lemma_lines_are_tight(front);
        assert(segment_lines(front) == lines.drop_last());
        let a = text::joined(lines.drop_last(), seq!['\n']);
        let all = text::joined(lines, seq!['\n']);
        assert(all == a + seq!['\n'] + lines.last());
        assert(all[0] == a[0]);
        assert(all.last() == lines.last().last());
    }
}

/// Appending the texts of consecutive chunks gives the text of all their segments:
/// one line per segment, whatever the chunks were.
pub proof fn law_chunks_append(a: Seq<SegmentView>, b: Seq<SegmentView>)
    requires
        forall|i: int| 0 <= i < a.len() ==> !text::blank((#[trigger] a[i]).text),
        forall|i: int| 0 <= i < b.len() ==> !text::blank((#[trigger] b[i]).text),
    ensures
        text_of_segments(a + b) == text_of_segments(a) + text_of_segments(b),
{
    if a.len() == 0 {
        assert(a + b == b);
        assert(text_of_segments(a) + text_of_segments(b) == text_of_segments(b));
    } else if b.len() == 0 {
        assert(a + b == a);
        assert(text_of_segments(a) + text_of_segments(b) == text_of_segments(a));
    } else {
        let both = a + b;
        assert forall|i: int| 0 <= i < both.len() implies !text::blank(
            (#[trigger] both[i]).text,
        ) by {
            if i < a.len() {
                assert(both[i] == a[i]);
            } else {
                assert(both[i] == b[i - a.len()]);
            }
        }
        lemma_lines_are_tight(a);
        lemma_lines_are_tight(b);
        lemma_lines_are_tight(both);
        let x = text::joined(segment_lines(a), seq!['\n']);
        let y = text::joined(segment_lines(b), seq!['\n']);
        text::lemma_trim_tight(x);
        text::lemma_trim_tight(y);
        text::lemma_trim_tight(text::joined(segment_lines(both), seq!['\n']));
        assert(segment_lines(both) == segment_lines(a) + segment_lines(b));
        text::lemma_joined_add(segment_lines(a), segment_lines(b), seq!['\n']);
        assert((x + seq!['\n'] + y).push('\n') == x.push('\n') + y.push('\n'));
    }
}

/// Whole seconds in `ns`, cut off rather than rounded, and none below zero.
pub fn seconds_in(ns: i64) -> (r: u64)
    ensures
        r == whole_seconds(ns as int),
{
    if ns > 0 {
        (ns / NANOS_PER_SEC) as u64
    } else {
        0
    }
}

/// `HH:MM:SS` for a whole number of seconds.
pub fn format_hms(total: u64) -> (r: String)
    ensures
        r@ == hms(total as nat),
{
    let mut r: String = text::pad2(total / 3600);
    r.push(':');
    r.append(text::pad2((total % 3600) / 60).as_str());
    r.push(':');
    r.append(text::pad2(total % 60).as_str());
    assert(r@ == hms(total as nat));
    r
}

/// `HH:MM:SS`, clamped at zero.
///
/// Truncates rather than rounds, so a segment starting at 59.9 s reads
/// `00:00:59`.
pub fn format_timestamp(ns: i64) -> (r: String)
    ensures
        r@ == hms(whole_seconds(ns as int)),
{
    format_hms(seconds_in(ns))
}

impl TranscriptSegment {
    pub fn new(start_ns: i64, end_ns: i64, text: String) -> (r: Self)
        ensures
            r.start_ns == start_ns,
            r.end_ns == end_ns,
            r.text == text,
    {
        TranscriptSegment { start_ns, end_ns, text }
    }

    /// Another segment that says the same.
    pub fn duplicate(&self) -> (r: Self)
        ensures
            r@ == self@,
            r == *self,
    {
        TranscriptSegment { start_ns: self.start_ns, end_ns: self.end_ns, text: self.text.clone() }
    }

    /// `[HH:MM:SS] text`.
    pub fn format_line(&self) -> (r: String)
        ensures
            r@ == self@.line(),
    {
        let mut r: String = String::new();
        r.push('[');
        r.append(format_timestamp(self.start_ns).as_str());
        r.push(']');
        r.push(' ');
        r.append(text::trim(self.text.as_str()).as_str());
        assert(r@ == self@.line());
        r
    }
}

/// One chunk's segments as transcript text.
///
/// The trailing newline is what makes appending consecutive chunks produce one
/// line per segment, and the empty case stays genuinely empty so a chunk that
/// decoded to silence adds nothing to the file.
pub fn segments_to_text(segments: &Vec<TranscriptSegment>) -> (r: String)
    ensures
        r@ == text_of_segments(segment_views(segments@)),
{
    if segments.len() == 0 {
        return String::new();
    }
    let mut lines: Vec<String> = Vec::new();
    for i in 0..segments.len()
        invariant
            text::views(lines@) == segment_lines(segment_views(segments@)).take(i as int),
    {
        let ghost before = text::views(lines@);
        lines.push(segments[i].format_line());
        assert(text::views(lines@) == before.push(segments@[i as int]@.line()));
        assert(text::views(lines@) == segment_lines(segment_views(segments@)).take(i + 1));
    }
    assert(segment_lines(segment_views(segments@)).take(segments@.len() as int) == segment_lines(
        segment_views(segments@),
    ));
    let mut newline: String = String::new();
    newline.push('\n');
    assert(newline@ == seq!['\n']);
    let mut r: String = text::trim(text::join(&lines, newline.as_str()).as_str());
    r.push('\n');
    r
}

/// A time is shown as the whole hours, minutes and seconds of it, cut off rather
/// than rounded: `HH:MM:SS`.
pub proof fn law_times_are_shown_as_they_are(
    hours: nat,
    minutes: nat,
    seconds: nat,
    rest_ns: nat,
)
    requires
        minutes < 60,
        seconds < 60,
        rest_ns < 1_000_000_000,
    ensures
        hms(
            whole_seconds(
                (hours * 3600 + minutes * 60 + seconds) * 1_000_000_000 + rest_ns as int,
            ),
        ) == text::pad2_of(hours) + seq![':'] + text::pad2_of(minutes) + seq![':'] + text::pad2_of(
            seconds,
        ),
        whole_seconds(-(rest_ns as int)) == 0,
{
    let total = hours * 3600 + minutes * 60 + seconds;
    assert((total * 1_000_000_000 + rest_ns) / 1_000_000_000 == total);
    assert(total / 3600 == hours);
    assert((total % 3600) / 60 == minutes);
    assert(total % 60 == seconds);
}

} // verus!
