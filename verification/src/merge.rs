//! Weaving the two sides of a recorded meeting into one conversation.
//!
//! The microphone track and the system track are transcribed independently,
//! which gives two transcripts of the same span of time. Because both recordings
//! were written against a single `t0` (see `audio::wav_writer`), their timestamps
//! are directly comparable, so interleaving them by time reconstructs the order
//! the meeting actually happened in, and, since each line's origin is known, who
//! said it.
//!
//! Transcribing the tracks separately rather than mixing them is what makes the
//! attribution possible at all, and it also stops the local speaker's voice,
//! bleeding from the speakers back into the microphone, from being transcribed
//! twice.

use vstd::prelude::*;
use vstd::string::*;

use crate::chunking;
use crate::paths::{FilePath, PathView};
use crate::patterns;
use crate::picking;
use crate::text;
use crate::transcribe::segment;
use crate::transcribe::segment::SegmentView;

verus! {

pub const MIC_LABEL: &'static str = "Me";

pub const SYSTEM_LABEL: &'static str = "Meeting";

/// Something said by one side at a point in time.
#[derive(Debug, Clone, PartialEq, Eq)]
pub struct Utterance {
    pub at_ns: i64,
    pub speaker: String,
    pub text: String,
}

/// Who said what, and when.
#[verifier::ext_equal]
pub struct UtteranceView {
    pub at_ns: int,
    pub speaker: Seq<char>,
    pub text: Seq<char>,
}

impl View for Utterance {
    type V = UtteranceView;

    open spec fn view(&self) -> UtteranceView {
        UtteranceView { at_ns: self.at_ns as int, speaker: self.speaker@, text: self.text@ }
    }
}

/// The views of a sequence of utterances.
pub open spec fn utterance_views(v: Seq<Utterance>) -> Seq<UtteranceView> {
    Seq::new(v.len(), |i: int| v[i]@)
}

impl UtteranceView {
    /// The line of an utterance: `[HH:MM:SS] speaker: text`.
    pub open spec fn line(self) -> Seq<char> {
        seq!['['] + segment::hms(segment::whole_seconds(self.at_ns)) + seq![']', ' '] + self.speaker
            + seq![':', ' '] + self.text
    }
}

impl Utterance {
    /// `[HH:MM:SS] speaker: text`.
    pub fn format_line(&self) -> (r: String)
        ensures
            r@ == self@.line(),
    {
        let mut r: String = String::new();
        r.push('[');
        r.append(segment::format_timestamp(self.at_ns).as_str());
        r.push(']');
        r.push(' ');
        r.append(self.speaker.as_str());
        r.push(':');
        r.push(' ');
        r.append(self.text.as_str());
        assert(r@ == self@.line());
        r
    }
}

// ---------------------------------------------------------------------------
// Reading a transcript
// ---------------------------------------------------------------------------

/// What two digits are worth, and nothing where one of them is not `0` to `9`.
pub open spec fn two_digits(a: char, b: char) -> nat {
    if text::is_digit(a) && text::is_digit(b) {
        ((a as u32 - 48) * 10 + (b as u32 - 48)) as nat
    } else {
        0
    }
}

/// Whether a text begins with a timestamp, `[HH:MM:SS]`.
pub open spec fn stamped(s: Seq<char>) -> bool {
    &&& s.len() >= 10
    &&& s[0] == '['
    &&& patterns::decimal_digit(s[1])
    &&& patterns::decimal_digit(s[2])
    &&& s[3] == ':'
    &&& patterns::decimal_digit(s[4])
    &&& patterns::decimal_digit(s[5])
    &&& s[6] == ':'
    &&& patterns::decimal_digit(s[7])
    &&& patterns::decimal_digit(s[8])
    &&& s[9] == ']'
}

/// The seconds that a timestamp stands for.
pub open spec fn stamp_seconds(s: Seq<char>) -> nat {
    two_digits(s[1], s[2]) * 3600 + two_digits(s[4], s[5]) * 60 + two_digits(s[7], s[8])
}

/// What a line of a transcript says, and when: nothing where it has no timestamp
/// or no words.
pub open spec fn line_says(line: Seq<char>) -> Option<(nat, Seq<char>)> {
    let s = text::trimmed(line);
    if stamped(s) && !text::blank(s.skip(10)) {
        Some((stamp_seconds(s), text::trimmed(s.skip(10))))
    } else {
        None
    }
}

/// The utterances that lines of a transcript hold.
pub open spec fn utterances_of(lines: Seq<Seq<char>>, speaker: Seq<char>) -> Seq<UtteranceView>
    decreases lines.len(),
{
    if lines.len() == 0 {
        Seq::empty()
    } else {
        let before = utterances_of(lines.drop_last(), speaker);
        match line_says(lines.last()) {
            Some((seconds, said)) => before.push(
                UtteranceView { at_ns: seconds as int * 1_000_000_000, speaker, text: said },
            ),
            None => before,
        }
    }
}

fn two_digit_value(a: char, b: char) -> (r: u64)
    ensures
        r == two_digits(a, b),
        r <= 99,
{
    if '0' <= a && a <= '9' && '0' <= b && b <= '9' {
        ((a as u32 - 48) * 10 + (b as u32 - 48)) as u64
    } else {
        0
    }
}

fn parse_line(line: &str) -> (r: Option<(u64, String)>)
    ensures
        match r {
            Some((seconds, said)) => line_says(line@) == Some((seconds as nat, said@)),
            None => line_says(line@) is None,
        },
        match r {
            Some((seconds, said)) => seconds < 1_000_000,
            None => true,
        },
{
    let trimmed: String = text::trim(line);
    let c: Vec<char> = text::chars_of(trimmed.as_str());
    let n: usize = c.len();
    if n < 10 || c[0] != '[' || c[3] != ':' || c[6] != ':' || c[9] != ']' {
        return None;
    }
    if !patterns::is_decimal_digit(c[1]) || !patterns::is_decimal_digit(c[2])
        || !patterns::is_decimal_digit(c[4]) || !patterns::is_decimal_digit(c[5])
        || !patterns::is_decimal_digit(c[7]) || !patterns::is_decimal_digit(c[8]) {
        return None;
    }
    let rest: String = text::string_of(c.as_slice(), 10, n);
    assert(rest@ == trimmed@.skip(10));
    let said: String = text::trim(rest.as_str());
    proof {
        text::lemma_trim_blank(rest@);
    }
    if said.as_str().is_empty() {
        return None;
    }
    let seconds: u64 = two_digit_value(c[1], c[2]) * 3600 + two_digit_value(c[4], c[5]) * 60
        + two_digit_value(c[7], c[8]);
    Some((seconds, said))
}

/// Read a timestamped transcript into utterances.
///
/// Lines that don't carry a timestamp (blank lines, the `===== file =====`
/// banners, the `----- Complete: … -----` footer) are skipped rather than guessed
/// at: a line with no time has no place in a merge ordered by time.
pub fn parse_transcript_text(content: &str, speaker: &str) -> (r: Vec<Utterance>)
    ensures
        utterance_views(r@) == utterances_of(text::lines_of(content@), speaker@),
{
    let lines: Vec<String> = text::lines(content);
    let ghost all = text::views(lines@);
    let mut r: Vec<Utterance> = Vec::new();
    assert(utterance_views(r@) == utterances_of(all.take(0), speaker@));
    for i in 0..lines.len()
        invariant
            all == text::views(lines@),
            utterance_views(r@) == utterances_of(all.take(i as int), speaker@),
    {
        assert(all.take(i + 1).drop_last() == all.take(i as int));
        assert(all.take(i + 1).last() == lines@[i as int]@);
        let ghost before = utterance_views(r@);
        if let Some((seconds, said)) = parse_line(lines[i].as_str()) {
            let u = Utterance {
                at_ns: seconds as i64 * 1_000_000_000,
                speaker: speaker.to_owned(),
                text: said,
            };
            let ghost seen = u@;
            r.push(u);
            assert(utterance_views(r@) == before.push(seen));
        }
    }
    assert(all.take(all.len() as int) == all);
    r
}

/// The utterances of a transcript that was read, of what reading it gave.
///
/// A transcript that could not be read yields no utterances rather than an
/// error: one missing side must still produce a labelled transcript for the
/// other.
pub fn parse_transcript(content: Option<&str>, speaker: &str) -> (r: Vec<Utterance>)
    ensures
        utterance_views(r@) == side_of(content, speaker@),
{
    match content {
        Some(s) => parse_transcript_text(s, speaker),
        None => {
            let r: Vec<Utterance> = Vec::new();
            assert(utterance_views(r@) == Seq::<UtteranceView>::empty());
            r
        },
    }
}

/// The utterances of one side, of what reading its transcript gave.
pub open spec fn side_of(content: Option<&str>, speaker: Seq<char>) -> Seq<UtteranceView> {
    match content {
        Some(s) => utterances_of(text::lines_of(s@), speaker),
        None => Seq::empty(),
    }
}

// ---------------------------------------------------------------------------
// Interleaving
// ---------------------------------------------------------------------------

/// How many of `sorted`, from the front, come no later than `at_ns`.
pub open spec fn rank(sorted: Seq<UtteranceView>, at_ns: int) -> nat
    decreases sorted.len(),
{
    if sorted.len() == 0 {
        0
    } else if sorted.last().at_ns <= at_ns {
        sorted.len()
    } else {
        rank(sorted.drop_last(), at_ns)
    }
}

/// `all` in the order of time, those of one moment in the order they are in.
pub open spec fn by_time(all: Seq<UtteranceView>) -> Seq<UtteranceView>
    decreases all.len(),
{
    if all.len() == 0 {
        all
    } else {
        let sorted = by_time(all.drop_last());
        sorted.insert(rank(sorted, all.last().at_ns) as int, all.last())
    }
}

/// Both sides interleaved by time.
pub open spec fn merged(mic: Seq<UtteranceView>, system: Seq<UtteranceView>) -> Seq<UtteranceView> {
    by_time(mic + system)
}

proof fn lemma_rank(sorted: Seq<UtteranceView>, at_ns: int)
    ensures
        rank(sorted, at_ns) <= sorted.len(),
        rank(sorted, at_ns) > 0 ==> sorted[rank(sorted, at_ns) - 1].at_ns <= at_ns,
        forall|i: int|
            rank(sorted, at_ns) <= i < sorted.len() ==> (#[trigger] sorted[i]).at_ns > at_ns,
    decreases sorted.len(),
{
    if sorted.len() > 0 && sorted.last().at_ns > at_ns {
        lemma_rank(sorted.drop_last(), at_ns);
        assert forall|i: int| rank(sorted, at_ns) <= i < sorted.len() implies (
        #[trigger] sorted[i]).at_ns > at_ns by {
            if i < sorted.len() - 1 {
                assert(sorted[i] == sorted.drop_last()[i]);
            }
        }
    }
}

fn insert_by_time(sorted: &mut Vec<Utterance>, u: Utterance)
    ensures
        utterance_views(final(sorted)@) == utterance_views(old(sorted)@).insert(
            rank(utterance_views(old(sorted)@), u@.at_ns) as int,
            u@,
        ),
{
    let ghost before = utterance_views(sorted@);
    let mut k: usize = sorted.len();
    assert(before.take(k as int) == before);
    while k > 0 && sorted[k - 1].at_ns > u.at_ns
        invariant
            k <= sorted@.len(),
            before == utterance_views(sorted@),
            rank(before.take(k as int), u@.at_ns) == rank(before, u@.at_ns),
        decreases k,
    {
        assert(before.take(k as int).drop_last() == before.take(k - 1));
        k -= 1;
    }
    assert(rank(before.take(k as int), u@.at_ns) == k);
    let ghost seen = u@;
    sorted.insert(k, u);
    assert(utterance_views(sorted@) == before.insert(k as int, seen));
}

/// Interleave both sides by time.
///
/// Ties go to the microphone: when both sides carry the same second, it is
/// nearly always the local speaker being echoed back through the meeting app a
/// beat later, so putting "Me" first reads the way the exchange happened.
/// Utterances of one side keep their own order within a second: the
/// transcripts are already in order and re-sorting them would scramble a fast
/// exchange.
pub fn merge(mic: Vec<Utterance>, system: Vec<Utterance>) -> (r: Vec<Utterance>)
    ensures
        utterance_views(r@) == merged(utterance_views(mic@), utterance_views(system@)),
{
    let ghost all = utterance_views(mic@) + utterance_views(system@);
    let mut rest: Vec<Utterance> = mic;
    let mut more: Vec<Utterance> = system;
    rest.append(&mut more);
    assert(utterance_views(rest@) == all);
    let mut r: Vec<Utterance> = Vec::new();
    assert(utterance_views(r@) == by_time(all.take(0)));
    for i in 0..rest.len()
        invariant
            utterance_views(rest@) == all,
            utterance_views(r@) == by_time(all.take(i as int)),
    {
        assert(all.take(i + 1).drop_last() == all.take(i as int));
        assert(all.take(i + 1).last() == rest@[i as int]@);
        let u = Utterance {
            at_ns: rest[i].at_ns,
            speaker: rest[i].speaker.clone(),
            text: rest[i].text.clone(),
        };
        insert_by_time(&mut r, u);
    }
    assert(all.take(all.len() as int) == all);
    r
}

/// Whether utterances stand in the order of time.
pub open spec fn in_order(s: Seq<UtteranceView>) -> bool {
    forall|i: int, j: int|
        0 <= i <= j < s.len() ==> (#[trigger] s[i]).at_ns <= (#[trigger] s[j]).at_ns
}

/// The utterances of one moment.
pub open spec fn moment(s: Seq<UtteranceView>, at_ns: int) -> Seq<UtteranceView> {
    s.filter(|u: UtteranceView| u.at_ns == at_ns)
}

proof fn lemma_in_order(all: Seq<UtteranceView>)
    ensures
        in_order(by_time(all)),
        by_time(all).len() == all.len(),
    decreases all.len(),
{
    if all.len() > 0 {
        let sorted = by_time(all.drop_last());
        let u = all.last();
        let k = rank(sorted, u.at_ns) as int;
        lemma_in_order(all.drop_last());
        lemma_rank(sorted, u.at_ns);
        let r = sorted.insert(k, u);
        assert forall|i: int, j: int| 0 <= i <= j < r.len() implies (#[trigger] r[i]).at_ns <= (
        #[trigger] r[j]).at_ns by {
            let a = if i < k {
                sorted[i]
            } else if i == k {
                u
            } else {
                sorted[i - 1]
            };
            let b = if j < k {
                sorted[j]
            } else if j == k {
                u
            } else {
                sorted[j - 1]
            };
            assert(r[i] == a && r[j] == b);
            if i < k && j == k {
                assert(sorted[i].at_ns <= sorted[k - 1].at_ns);
            }
        }
    }
}

proof fn lemma_filter_none(s: Seq<UtteranceView>, keep: spec_fn(UtteranceView) -> bool)
    requires
        forall|i: int| 0 <= i < s.len() ==> !keep(#[trigger] s[i]),
    ensures
        s.filter(keep) == Seq::<UtteranceView>::empty(),
    decreases s.len(),
{
    reveal(Seq::filter);
    if s.len() > 0 {
        assert forall|i: int| 0 <= i < s.drop_last().len() implies !keep(
            #[trigger] s.drop_last()[i],
        ) by {
            assert(s.drop_last()[i] == s[i]);
        }
        lemma_filter_none(s.drop_last(), keep);
        assert(!keep(s[s.len() - 1]));
    }
}

proof fn lemma_moment(all: Seq<UtteranceView>, at_ns: int)
    ensures
        moment(by_time(all), at_ns) == moment(all, at_ns),
    decreases all.len(),
{
    let keep = |u: UtteranceView| u.at_ns == at_ns;
    if all.len() > 0 {
        let rest = all.drop_last();
        let sorted = by_time(rest);
        let u = all.last();
        let k = rank(sorted, u.at_ns) as int;
        lemma_moment(rest, at_ns);
        lemma_rank(sorted, u.at_ns);
        let front = sorted.take(k);
        let back = sorted.skip(k);
        assert(sorted == front + back);
        assert(sorted.insert(k, u) == front.push(u) + back);
        Seq::filter_distributes_over_add(front, back, keep);
        Seq::filter_distributes_over_add(front.push(u), back, keep);
        front.lemma_filter_push(u, keep);
        assert(all == rest.push(u));
        rest.lemma_filter_push(u, keep);
        if keep(u) {
            assert forall|i: int| 0 <= i < back.len() implies !keep(#[trigger] back[i]) by {
                assert(back[i] == sorted[k + i]);
            }
            lemma_filter_none(back, keep);
            assert(front.filter(keep) + Seq::<UtteranceView>::empty() == front.filter(keep));
            assert(front.filter(keep).push(u) + Seq::<UtteranceView>::empty() == front.filter(
                keep,
            ).push(u));
        }
    }
}

/// The conversation is in the order of time, and what was said at one moment
/// stands in it as it did on each side, the microphone first. So nothing is lost
/// or made up, and no fast exchange is scrambled.
pub proof fn law_merge(mic: Seq<UtteranceView>, system: Seq<UtteranceView>)
    ensures
        in_order(merged(mic, system)),
        merged(mic, system).len() == mic.len() + system.len(),
        forall|at_ns: int| #[trigger]
            moment(merged(mic, system), at_ns) == moment(mic, at_ns) + moment(system, at_ns),
{
    lemma_in_order(mic + system);
    assert forall|at_ns: int| #[trigger]
        moment(merged(mic, system), at_ns) == moment(mic, at_ns) + moment(system, at_ns) by {
        lemma_moment(mic + system, at_ns);
        Seq::filter_distributes_over_add(mic, system, |u: UtteranceView| u.at_ns == at_ns);
    }
}

// ---------------------------------------------------------------------------
// Rendering
// ---------------------------------------------------------------------------

/// The lines of a conversation, with an empty one at each change of speaker.
pub open spec fn body_lines(utterances: Seq<UtteranceView>) -> Seq<Seq<char>>
    decreases utterances.len(),
{
    if utterances.len() == 0 {
        Seq::empty()
    } else {
        let before = body_lines(utterances.drop_last());
        let n = utterances.len();
        if n > 1 && utterances[n - 2].speaker != utterances[n - 1].speaker {
            before.push(Seq::empty()).push(utterances.last().line())
        } else {
            before.push(utterances.last().line())
        }
    }
}

/// The lines of a conversation, under its header and an empty line, if it has
/// one.
pub open spec fn conversation_lines(utterances: Seq<UtteranceView>, header: Option<&str>) -> Seq<
    Seq<char>,
> {
    match header {
        Some(h) => seq![h@, Seq::empty()] + body_lines(utterances),
        None => body_lines(utterances),
    }
}

/// A conversation as text: its lines, each ended, and nothing where it has none.
pub open spec fn conversation_text(utterances: Seq<UtteranceView>, header: Option<&str>) -> Seq<char> {
    let lines = conversation_lines(utterances, header);
    if lines.len() == 0 {
        Seq::empty()
    } else {
        text::joined(lines, "\n"@) + "\n"@
    }
}

/// Merged transcript as text, with a blank line at each change of speaker.
///
/// The blank line is the whole readability win: an unbroken column of
/// alternating labels is much harder to follow than visible turns.
pub fn render(utterances: &Vec<Utterance>, header: Option<&str>) -> (r: String)
    ensures
        r@ == conversation_text(utterance_views(utterances@), header),
{
    let ghost all = utterance_views(utterances@);
    let mut lines: Vec<String> = Vec::new();
    if let Some(h) = header {
        lines.push(h.to_owned());
        lines.push(String::new());
    }
    let ghost top = text::views(lines@);
    assert(top == (match header {
        Some(h) => seq![h@, Seq::empty()],
        None => Seq::empty(),
    }));
    assert(text::views(lines@) == top + body_lines(all.take(0)));
    for i in 0..utterances.len()
        invariant
            all == utterance_views(utterances@),
            text::views(lines@) == top + body_lines(all.take(i as int)),
    {
        let ghost before = text::views(lines@);
        let ghost body = body_lines(all.take(i as int));
        assert(all.take(i + 1).drop_last() == all.take(i as int));
        assert(all.take(i + 1).last() == utterances@[i as int]@);
        let line: String = utterances[i].format_line();
        let ghost said = line@;
        if i > 0 && !text::same(
            utterances[i - 1].speaker.as_str(),
            utterances[i].speaker.as_str(),
        ) {
            lines.push(String::new());
            assert(text::views(lines@) == before.push(Seq::empty()));
            lines.push(line);
            assert(text::views(lines@) == before.push(Seq::empty()).push(said));
            assert(top + body.push(Seq::empty()).push(said) == (top + body).push(
                Seq::empty(),
            ).push(said));
        } else {
            lines.push(line);
            assert(text::views(lines@) == before.push(said));
            assert(top + body.push(said) == (top + body).push(said));
        }
    }
    assert(all.take(all.len() as int) == all);
    assert(text::views(lines@) == conversation_lines(all, header));
    if lines.len() == 0 {
        String::new()
    } else {
        let mut r: String = text::join(&lines, "\n");
        r.append("\n");
        r
    }
}

/// The conversation that two transcripts make, of what reading each of them
/// gave, and how many utterances it holds.
///
/// Either side may be missing: a recording with only one usable track still gets
/// a labelled transcript, which keeps the output shape the same either way.
pub fn merge_transcripts(mic: Option<&str>, system: Option<&str>, header: Option<&str>) -> (r: (
    String,
    usize,
))
    ensures
        ({
            let both = merged(side_of(mic, MIC_LABEL@), side_of(system, SYSTEM_LABEL@));
            &&& r.0@ == conversation_text(both, header)
            &&& r.1 == both.len()
        }),
{
    let both: Vec<Utterance> = merge(
        parse_transcript(mic, MIC_LABEL),
        parse_transcript(system, SYSTEM_LABEL),
    );
    (render(&both, header), both.len())
}

/// Where a recording's merged conversation goes.
pub open spec fn conversation_place(dir: PathView, stem: Seq<char>) -> PathView {
    dir.joined(stem + "-conversation.txt"@)
}

/// Where a recording's merged conversation goes: `<stem>-conversation.txt`.
pub fn conversation_path(dir: &FilePath, stem: &str) -> (r: FilePath)
    ensures
        r@ == conversation_place(dir@, stem@),
{
    let mut name: String = stem.to_owned();
    name.append("-conversation.txt");
    dir.join(name.as_str())
}

// ---------------------------------------------------------------------------
// Reading back
// ---------------------------------------------------------------------------

/// Whether a segment's line can be read back: it has words, they stand on one
/// line, white space around them aside, and its hours have two digits.
pub open spec fn readable(segment: SegmentView) -> bool {
    &&& !text::blank(segment.text)
    &&& text::free_of(text::trimmed(segment.text), '\n')
    &&& segment::whole_seconds(segment.start_ns) < 360_000
}

/// What is read back of a segment: its words, at the second it began.
pub open spec fn read_back(segment: SegmentView, speaker: Seq<char>) -> UtteranceView {
    UtteranceView {
        at_ns: segment::whole_seconds(segment.start_ns) as int * 1_000_000_000,
        speaker,
        text: text::trimmed(segment.text),
    }
}

proof fn lemma_digit(n: nat)
    requires
        n < 10,
    ensures
        text::is_digit(text::digit(n)),
        text::digit(n) as u32 - 48 == n,
{
    assert(text::digit(n) as u32 == 48 + n);
}

proof fn lemma_line(segment: SegmentView)
    requires
        readable(segment),
    ensures
        text::tight(segment.line()),
        segment.line().len() > 10,
        segment.line()[0] == '[',
        text::free_of(segment.line(), '\n'),
        line_says(segment.line()) == Some(
            (segment::whole_seconds(segment.start_ns), text::trimmed(segment.text)),
        ),
{
    let total = segment::whole_seconds(segment.start_ns);
    let h = total / 3600;
    let m = (total % 3600) / 60;
    let sec = total % 60;
    let t = text::trimmed(segment.text);
    let line = segment.line();
    text::lemma_trim_blank(segment.text);
    text::lemma_trimmed(segment.text);
    text::lemma_pad2_digits(h);
    text::lemma_pad2_digits(m);
    text::lemma_pad2_digits(sec);
    lemma_digit(h / 10);
    lemma_digit(h % 10);
    lemma_digit(m / 10);
    lemma_digit(m % 10);
    lemma_digit(sec / 10);
    lemma_digit(sec % 10);
    let stamp = seq![
        '[',
        text::digit(h / 10),
        text::digit(h % 10),
        ':',
        text::digit(m / 10),
        text::digit(m % 10),
        ':',
        text::digit(sec / 10),
        text::digit(sec % 10),
        ']',
        ' ',
    ];
    assert(line == stamp + t);
    assert(line.last() == t.last());
    text::lemma_trim_tight(line);
    let rest = line.skip(10);
    assert(rest == seq![' '] + t);
    assert(rest[1] == t[0]);
    assert(!text::blank(rest));
    assert(rest.skip(1) == t);
    assert(text::trim_start_of(rest) == text::trim_start_of(t));
    assert(text::trim_start_of(t) == t);
    assert(text::trimmed(rest) == t);
    assert forall|k: int| 0 <= k < line.len() implies line[k] != '\n' by {
        if k >= 11 {
            assert(line[k] == t[k - 11]);
        }
    }
    assert(stamp_seconds(line) == total);
}

proof fn lemma_utterances_of_lines(segments: Seq<SegmentView>, speaker: Seq<char>)
    requires
        forall|i: int| 0 <= i < segments.len() ==> readable(#[trigger] segments[i]),
    ensures
        utterances_of(segment::segment_lines(segments), speaker) == segments.map_values(
            |s: SegmentView| read_back(s, speaker),
        ),
    decreases segments.len(),
{
    let back = |s: SegmentView| read_back(s, speaker);
    if segments.len() > 0 {
        let front = segments.drop_last();
        assert forall|i: int| 0 <= i < front.len() implies readable(#[trigger] front[i]) by {
            assert(front[i] == segments[i]);
        }
        lemma_utterances_of_lines(front, speaker);
        assert(segment::segment_lines(segments).drop_last() == segment::segment_lines(front));
        lemma_line(segments[segments.len() - 1]);
        assert(segments.map_values(back) == front.map_values(back).push(back(segments.last())));
    } else {
        assert(segments.map_values(back) == Seq::<UtteranceView>::empty());
    }
}

/// The transcript of a chunk reads back as what was said: every segment's words,
/// in order, each at the second it began.
pub proof fn law_transcript_reads_back(segments: Seq<SegmentView>, speaker: Seq<char>)
    requires
        forall|i: int| 0 <= i < segments.len() ==> readable(#[trigger] segments[i]),
    ensures
        utterances_of(text::lines_of(segment::text_of_segments(segments)), speaker)
            == segments.map_values(|s: SegmentView| read_back(s, speaker)),
{
    let lines = segment::segment_lines(segments);
    if segments.len() == 0 {
        assert(segments.map_values(|s: SegmentView| read_back(s, speaker)) == Seq::<
            UtteranceView,
        >::empty());
    } else {
        assert forall|i: int| 0 <= i < segments.len() implies !text::blank(
            (#[trigger] segments[i]).text,
        ) by {
            assert(readable(segments[i]));
        }
        segment::lemma_lines_are_tight(segments);
        text::lemma_trim_tight(text::joined(lines, seq!['\n']));
        assert forall|i: int| 0 <= i < lines.len() implies text::free_of(#[trigger] lines[i], '\n')
            && text::without_return(lines[i]) == lines[i] by {
            lemma_line(segments[i]);
            assert(lines[i] == segments[i].line());
            assert(!text::white(lines[i].last()));
        }
        text::lemma_lines_of_joined(lines);
        lemma_utterances_of_lines(segments, speaker);
    }
}

/// What a run has written of `chunks`, one after another.
pub open spec fn chunk_texts(chunks: Seq<Seq<SegmentView>>) -> Seq<char>
    decreases chunks.len(),
{
    if chunks.len() == 0 {
        Seq::empty()
    } else {
        chunk_texts(chunks.drop_last()) + segment::text_of_segments(chunks.last())
    }
}

/// What was said in `chunks`, one after another.
pub open spec fn chunks_read_back(chunks: Seq<Seq<SegmentView>>, speaker: Seq<char>) -> Seq<
    UtteranceView,
>
    decreases chunks.len(),
{
    if chunks.len() == 0 {
        Seq::empty()
    } else {
        chunks_read_back(chunks.drop_last(), speaker) + chunks.last().map_values(
            |s: SegmentView| read_back(s, speaker),
        )
    }
}

/// A finished transcript: its chunks, and the footer behind an empty line.
pub open spec fn finished_text(
    chunks: Seq<Seq<SegmentView>>,
    audio_ns: int,
    run_ns: int,
    resumed_from_ns: int,
) -> Seq<char> {
    chunk_texts(chunks) + (seq!['\n'] + chunking::summary_text(audio_ns, run_ns, resumed_from_ns))
}

proof fn lemma_utterances_add(a: Seq<Seq<char>>, b: Seq<Seq<char>>, speaker: Seq<char>)
    ensures
        utterances_of(a + b, speaker) == utterances_of(a, speaker) + utterances_of(b, speaker),
    decreases b.len(),
{
    if b.len() == 0 {
        assert(a + b == a);
        assert(utterances_of(a, speaker) + utterances_of(b, speaker) == utterances_of(a, speaker));
    } else {
        lemma_utterances_add(a, b.drop_last(), speaker);
        assert((a + b).drop_last() == a + b.drop_last());
        assert((a + b).last() == b.last());
        if let Some((seconds, said)) = line_says(b.last()) {
            let u = UtteranceView { at_ns: seconds as int * 1_000_000_000, speaker, text: said };
            let before = utterances_of(b.drop_last(), speaker);
            assert((utterances_of(a, speaker) + before).push(u) == utterances_of(a, speaker)
                + before.push(u));
        }
    }
}

proof fn lemma_chunks_read_back(chunks: Seq<Seq<SegmentView>>, speaker: Seq<char>)
    requires
        forall|i: int, j: int|
            0 <= i < chunks.len() && 0 <= j < chunks[i].len() ==> readable(
                #[trigger] chunks[i][j],
            ),
    ensures
        chunk_texts(chunks).len() > 0 ==> chunk_texts(chunks).last() == '\n',
        utterances_of(text::lines_of(chunk_texts(chunks)), speaker) == chunks_read_back(
            chunks,
            speaker,
        ),
    decreases chunks.len(),
{
    if chunks.len() > 0 {
        let front = chunks.drop_last();
        let last = chunks.last();
        assert forall|i: int, j: int| 0 <= i < front.len() && 0 <= j < front[i].len() implies readable(
            #[trigger] front[i][j],
        ) by {
            assert(readable(chunks[i][j]));
        }
        assert forall|j: int| 0 <= j < last.len() implies readable(#[trigger] last[j]) by {
            assert(readable(chunks[chunks.len() - 1][j]));
        }
        lemma_chunks_read_back(front, speaker);
        law_transcript_reads_back(last, speaker);
        let a = chunk_texts(front);
        let b = segment::text_of_segments(last);
        text::lemma_lines_add(a, b);
        lemma_utterances_add(text::lines_of(a), text::lines_of(b), speaker);
        if last.len() == 0 {
            assert(a + b == a);
        }
    }
}

proof fn lemma_footer_says_nothing(
    audio_ns: int,
    run_ns: int,
    resumed_from_ns: int,
    speaker: Seq<char>,
)
    ensures
        utterances_of(
            text::lines_of(seq!['\n'] + chunking::summary_text(audio_ns, run_ns, resumed_from_ns)),
            speaker,
        ) == Seq::<UtteranceView>::empty(),
{
    let summary = chunking::summary_text(audio_ns, run_ns, resumed_from_ns);
    let line = summary.drop_last();
    let none = Seq::<char>::empty();
    chunking::lemma_summary_is_one_line(audio_ns, run_ns, resumed_from_ns);
    assert(seq!['\n'] + summary == none + seq!['\n'] + summary);
    text::lemma_lines_cons(none, summary);
    assert(summary == line + seq!['\n'] + none);
    text::lemma_lines_cons(line, none);
    assert(text::lines_of(none) == Seq::<Seq<char>>::empty());
    let last = text::without_return(line);
    let lines = text::lines_of(seq!['\n'] + summary);
    assert(lines == seq![none, last]);
    assert(line_says(none) is None);
    assert(line[0] == '-');
    assert(line_says(last) is None) by {
        if last.len() > 0 {
            assert(last[0] == '-');
            assert(text::trim_start_of(last) == last);
            text::lemma_trim_end_begins(last);
        }
    }
    let first = lines.drop_last();
    assert(first == seq![none]);
    assert(first.last() == none);
    assert(first.drop_last() == Seq::<Seq<char>>::empty());
    assert(utterances_of(first.drop_last(), speaker) == Seq::<UtteranceView>::empty());
    assert(utterances_of(first, speaker) == Seq::<UtteranceView>::empty());
}

/// A finished transcript, of however many chunks, reads back as what was said:
/// every segment's words, in order, each at the second it began, and nothing of
/// the footer.
pub proof fn law_finished_transcript_reads_back(
    chunks: Seq<Seq<SegmentView>>,
    audio_ns: int,
    run_ns: int,
    resumed_from_ns: int,
    speaker: Seq<char>,
)
    requires
        forall|i: int, j: int|
            0 <= i < chunks.len() && 0 <= j < chunks[i].len() ==> readable(
                #[trigger] chunks[i][j],
            ),
    ensures
        utterances_of(
            text::lines_of(finished_text(chunks, audio_ns, run_ns, resumed_from_ns)),
            speaker,
        ) == chunks_read_back(chunks, speaker),
{
    let said = chunk_texts(chunks);
    let footer = seq!['\n'] + chunking::summary_text(audio_ns, run_ns, resumed_from_ns);
    lemma_chunks_read_back(chunks, speaker);
    lemma_footer_says_nothing(audio_ns, run_ns, resumed_from_ns, speaker);
    text::lemma_lines_add(said, footer);
    lemma_utterances_add(text::lines_of(said), text::lines_of(footer), speaker);
    assert(chunks_read_back(chunks, speaker) + Seq::<UtteranceView>::empty() == chunks_read_back(
        chunks,
        speaker,
    ));
}

// ---------------------------------------------------------------------------
// Turns
// ---------------------------------------------------------------------------

/// Where the line of each utterance stands among the lines of a conversation.
pub open spec fn line_places(utterances: Seq<UtteranceView>) -> Seq<int>
    decreases utterances.len(),
{
    if utterances.len() == 0 {
        Seq::empty()
    } else {
        line_places(utterances.drop_last()).push(body_lines(utterances).len() - 1)
    }
}

/// An empty line stands before an utterance exactly where its speaker is another
/// than that of the utterance right before it; but for those the lines are the
/// utterances' own, one each and in order. So visible turns are the turns there
/// were.
pub proof fn law_a_blank_line_at_each_change_of_speaker(utterances: Seq<UtteranceView>)
    ensures
        exists|at: Seq<int>|
            #![trigger at.len()]
            {
                let lines = body_lines(utterances);
                &&& at.len() == utterances.len()
                &&& utterances.len() == 0 ==> lines.len() == 0
                &&& utterances.len() > 0 ==> at[0] == 0 && lines.len() == at[at.len() - 1] + 1
                &&& forall|i: int|
                    0 <= i < utterances.len() ==> lines[#[trigger] at[i]] == utterances[i].line()
                &&& forall|i: int|
                    0 < i < utterances.len() ==> {
                        if utterances[i - 1].speaker == utterances[i].speaker {
                            #[trigger] at[i] == at[i - 1] + 1
                        } else {
                            at[i] == at[i - 1] + 2 && lines[at[i] - 1] == Seq::<char>::empty()
                        }
                    }
            },
{
    lemma_line_places(utterances);
    assert(line_places(utterances).len() == utterances.len());
}

proof fn lemma_line_places(utterances: Seq<UtteranceView>)
    ensures
        ({
            let at = line_places(utterances);
            let lines = body_lines(utterances);
            &&& at.len() == utterances.len()
            &&& utterances.len() == 0 ==> lines.len() == 0
            &&& utterances.len() > 0 ==> at[0] == 0 && lines.len() == at[at.len() - 1] + 1
            &&& forall|i: int|
                0 <= i < utterances.len() ==> 0 <= #[trigger] at[i] < lines.len() && lines[at[i]]
                    == utterances[i].line()
            &&& forall|i: int|
                0 < i < utterances.len() ==> {
                    if utterances[i - 1].speaker == utterances[i].speaker {
                        #[trigger] at[i] == at[i - 1] + 1
                    } else {
                        at[i] == at[i - 1] + 2 && lines[at[i] - 1] == Seq::<char>::empty()
                    }
                }
        }),
    decreases utterances.len(),
{
    if utterances.len() > 0 {
        let front = utterances.drop_last();
        let before = body_lines(front);
        let from = line_places(front);
        let at = line_places(utterances);
        let lines = body_lines(utterances);
        lemma_line_places(front);
        assert forall|i: int| 0 <= i < utterances.len() implies 0 <= #[trigger] at[i] < lines.len()
            && lines[at[i]] == utterances[i].line() by {
            if i < front.len() {
                assert(at[i] == from[i]);
                assert(lines[at[i]] == before[from[i]]);
                assert(front[i] == utterances[i]);
            }
        }
        assert forall|i: int| 0 < i < utterances.len() implies {
            if utterances[i - 1].speaker == utterances[i].speaker {
                #[trigger] at[i] == at[i - 1] + 1
            } else {
                at[i] == at[i - 1] + 2 && lines[at[i] - 1] == Seq::<char>::empty()
            }
        } by {
            assert(at[i - 1] == from[i - 1]);
            if i < front.len() {
                assert(at[i] == from[i]);
                assert(front[i] == utterances[i] && front[i - 1] == utterances[i - 1]);
                if utterances[i - 1].speaker != utterances[i].speaker {
                    assert(lines[at[i] - 1] == before[from[i] - 1]);
                }
            } else {
                assert(from[i - 1] == from[from.len() - 1]);
            }
        }
    }
}

/// A conversation with a header opens with it and an empty line, and is otherwise
/// what it is without; each of its lines is ended.
pub proof fn law_header_comes_first(utterances: Seq<UtteranceView>, header: &str)
    ensures
        conversation_text(utterances, Some(header)) == header@ + "\n\n"@ + conversation_text(
            utterances,
            None,
        ),
        utterances.len() > 0 ==> conversation_text(utterances, None).last() == '\n',
        utterances.len() == 0 ==> conversation_text(utterances, None).len() == 0,
{
    reveal_strlit("\n");
    reveal_strlit("\n\n");
    let body = body_lines(utterances);
    let top = seq![header@, Seq::<char>::empty()];
    lemma_line_places(utterances);
    assert(text::joined(top, "\n"@) == header@ + "\n"@) by {
        assert(top.drop_last() == seq![header@]);
        assert(text::joined(seq![header@], "\n"@) == header@);
        assert(header@ + "\n"@ + Seq::<char>::empty() == header@ + "\n"@);
    }
    assert("\n\n"@ == "\n"@ + "\n"@);
    if body.len() == 0 {
        assert(top + body == top);
        assert(header@ + "\n"@ + "\n"@ + Seq::<char>::empty() == header@ + ("\n"@ + "\n"@)
            + Seq::<char>::empty());
    } else {
        text::lemma_joined_add(top, body, "\n"@);
        let said = text::joined(body, "\n"@);
        assert(header@ + "\n"@ + "\n"@ + said + "\n"@ == header@ + ("\n"@ + "\n"@) + (said
            + "\n"@));
    }
}

/// A line that begins with `[HH:MM:SS]` says what stands behind that, at that time;
/// one that does not begin with a bracket says nothing.
pub proof fn law_a_line_says_its_words_at_its_time(
    hours: nat,
    minutes: nat,
    seconds: nat,
    words: Seq<char>,
    other: Seq<char>,
)
    requires
        hours < 100,
        minutes < 100,
        seconds < 100,
        !text::blank(words),
        text::trimmed(other).len() > 0 ==> text::trimmed(other)[0] != '[',
    ensures
        line_says(
            seq![
                '[',
                text::digit(hours / 10),
                text::digit(hours % 10),
                ':',
                text::digit(minutes / 10),
                text::digit(minutes % 10),
                ':',
                text::digit(seconds / 10),
                text::digit(seconds % 10),
                ']',
            ] + words,
        ) == Some((hours * 3600 + minutes * 60 + seconds, text::trimmed(words))),
        line_says(other) is None,
{
    let stamp = seq![
        '[',
        text::digit(hours / 10),
        text::digit(hours % 10),
        ':',
        text::digit(minutes / 10),
        text::digit(minutes % 10),
        ':',
        text::digit(seconds / 10),
        text::digit(seconds % 10),
        ']',
    ];
    lemma_digit(hours / 10);
    lemma_digit(hours % 10);
    lemma_digit(minutes / 10);
    lemma_digit(minutes % 10);
    lemma_digit(seconds / 10);
    lemma_digit(seconds % 10);
    let line = stamp + words;
    assert(text::trim_start_of(line) == line);
    text::lemma_trim_end_add(stamp, words);
    text::lemma_trim_blank(words);
    let kept = text::trim_end_of(words);
    let s = text::trimmed(line);
    assert(s == stamp + kept);
    assert(s.skip(10) == kept);
    text::lemma_trim_of_trim_end(words);
    text::lemma_trim_blank(kept);
    assert(stamp_seconds(s) == hours * 3600 + minutes * 60 + seconds);
}

proof fn lemma_utterances_picked(lines: Seq<Seq<char>>, speaker: Seq<char>)
    ensures
        ({
            let chosen = picking::positions(lines.len(), |i: int| line_says(lines[i]) is Some);
            let read = utterances_of(lines, speaker);
            &&& read.len() == chosen.len()
            &&& forall|k: int|
                0 <= k < chosen.len() ==> {
                    let (seconds, said) = line_says(lines[#[trigger] chosen[k]])->0;
                    read[k].at_ns == seconds * 1_000_000_000 && read[k].speaker == speaker
                        && read[k].text == said
                }
        }),
    decreases lines.len(),
{
    if lines.len() > 0 {
        let front = lines.drop_last();
        let n = front.len();
        let wanted = |i: int| line_says(lines[i]) is Some;
        lemma_utterances_picked(front, speaker);
        picking::lemma_positions_same(n, |i: int| line_says(front[i]) is Some, wanted);
        picking::lemma_positions(n, wanted);
        let before = picking::positions(n, wanted);
        let chosen = picking::positions(lines.len(), wanted);
        let read = utterances_of(lines, speaker);
        assert forall|k: int| 0 <= k < chosen.len() implies {
            let (seconds, said) = line_says(lines[#[trigger] chosen[k]])->0;
            read[k].at_ns == seconds * 1_000_000_000 && read[k].speaker == speaker && read[k].text
                == said
        } by {
            if k < before.len() {
                assert(chosen[k] == before[k]);
                assert(front[before[k]] == lines[before[k]]);
            }
        }
    }
}

/// Every line of a transcript that has a time and words is read, in order, whatever
/// stands next to it, and no other is.
pub proof fn law_every_spoken_line_is_read(lines: Seq<Seq<char>>, speaker: Seq<char>)
    ensures
        exists|chosen: Seq<int>|
            #![trigger chosen.len()]
            {
                let read = utterances_of(lines, speaker);
                &&& picking::exactly(
                    chosen,
                    lines.len() as int,
                    |i: int| line_says(lines[i]) is Some,
                )
                &&& read.len() == chosen.len()
                &&& forall|k: int|
                    0 <= k < chosen.len() ==> {
                        let (seconds, said) = line_says(lines[#[trigger] chosen[k]])->0;
                        read[k].at_ns == seconds * 1_000_000_000 && read[k].speaker == speaker
                            && read[k].text == said
                    }
            },
{
    let wanted = |i: int| line_says(lines[i]) is Some;
    lemma_utterances_picked(lines, speaker);
    picking::lemma_positions(lines.len(), wanted);
    let chosen = picking::positions(lines.len(), wanted);
    assert(chosen.len() == utterances_of(lines, speaker).len());
}

} // verus!
