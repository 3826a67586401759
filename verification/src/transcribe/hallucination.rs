//! Hallucination and silence control.
//!
//! Whisper was trained on YouTube captions, so over silence or background noise
//! it does not stay quiet: it emits the most likely thing to follow, which for
//! Vietnamese audio is a channel outro. Three layers deal with it, and they are
//! deliberately independent:
//!
//! 1. Decode parameters (see `params`) stop the loop from forming.
//! 2. [`is_hallucination`] drops the known canned phrases.
//! 3. [`drop_hallucinations`] collapses the repeat runs that slip past 1 and 2.
//!
//! Text produced for a stretch where nobody was speaking goes too, by
//! [`silent_spans`] and [`drop_segments_in_silence`].

use vstd::prelude::*;
use vstd::string::*;

use crate::chunking::split;
use crate::patterns;
use crate::picking;
use crate::text;
use crate::transcribe::segment;
use crate::transcribe::segment::{SegmentView, TranscriptSegment};

verus! {

/// Stock phrases Whisper falls back on when there is nothing to transcribe.
///
/// Matched case-insensitively against the *whole* segment, after stripping
/// punctuation, so a segment is only dropped when it is entirely boilerplate;
/// the same words spoken inside a real sentence survive. An apostrophe is
/// punctuation, so where a phrase has one, a space stands for it. Where a phrase
/// ends an outro (a channel's name, or where to leave a comment), the words that
/// lead in to it are those of such outros, not any.
pub const HALLUCINATION_PATTERNS: [&'static str; 11] = [
    r"^h[ãa]y subscribe cho k[êe]nh\b.*",
    r"^((((c[áa]c )?b[ạa]n )?(h[ãa]y|nh[ớo]|đ[ừu]ng qu[êe]n) )?((like|share|subscribe|đăng k[ýy]|theo d[õo]i|[ủu]ng h[ộo]|chia s[ẻe]|v[àa]) )+(cho )?|(xin )?ch[àa]o m[ừu]ng (c[áa]c )?b[ạa]n (đ[ãa] )?(quay tr[ởo] l[ạa]i |đ[ếe]n )?v[ớo]i |(xin )?c[ảa]m [ơo]n (c[áa]c )?b[ạa]n đ[ãa] (theo d[õo]i|[ủu]ng h[ộo]|xem) )?(video |k[êe]nh (youtube )?)?(c[ủu]a )?ghi[eề]n m[ìi] g[õo]\b.*",
    r"^đăng k[ýy] k[êe]nh\b.*",
    r"^c[ảa]m [ơo]n c[áa]c b[ạa]n đ[ãa] (theo d[õo]i|xem|l[ắa]ng nghe)\b.*",
    r"^h[ẹe]n g[ặa]p l[ạa]i c[áa]c b[ạa]n\b.*",
    r"^c[áa]c b[ạa]n c[óo] th[ểe] nh[ậa]n th[êe]m nhi[ềe]u th[ôo]ng tin\b.*",
    r"^((n[ếe]u (c[áa]c )?b[ạa]n c[óo] (b[ấa]t k[ỳy] )?(c[âa]u h[ỏo]i|th[ắa]c m[ắa]c|[ýy] ki[ếe]n) ((g[ìi]|n[àa]o) )?(th[ìi] )?)?(((c[áa]c )?b[ạa]n )?(h[ãa]y|nh[ớo]|đ[ừu]ng qu[êe]n) )?(đ[ểe] l[ạa]i|chia s[ẻe]|comment|b[ìi]nh lu[ậa]n|vi[ếe]t|cho (ch[úu]ng )?(m[ìi]nh|t[ôo]i) bi[ếe]t) ((nh[ữu]ng )?(c[âa]u h[ỏo]i|[ýy] ki[ếe]n|suy ngh[ĩi]|c[ảa]m ngh[ĩi]|c[ảa]m nh[ậa]n|b[ìi]nh lu[ậa]n|th[ắa]c m[ắa]c) )?(c[ủu]a ((c[áa]c )?b[ạa]n|m[ìi]nh) )?(cho (ch[úu]ng )?(m[ìi]nh|t[ôo]i) (bi[ếe]t )?)?(([ởo] )?(b[êe]n )?d[ưu][ớo]i |ngay )?)?trong ph[ầa]n b[ìi]nh lu[ậa]n\s*$",
    r"^ch[úu]c c[áa]c b[ạa]n (xem )?(video )?vui v[ẻe]\b.*",
    r"^thanks? (you )?for watching\b.*",
    r"^(please )?(don t forget to )?subscribe\b.*",
    r"^(subtitles?|amara)\b.*",
];

/// Word count from which on a verbatim back-to-back repeat is a decode loop
/// rather than something a person said twice.
pub const REPEAT_MIN_WORDS: usize = 4;

/// How close two identical sentences must be to be treated as one held line:
/// one second.
pub const REPEAT_ADJACENCY_NS: i64 = 1_000_000_000;

/// A span of silence at least this long, two seconds, is long enough that
/// anything "transcribed" inside it was invented.
pub const HALLUCINATION_SILENCE_NS: i64 = 2_000_000_000;

// ---------------------------------------------------------------------------
// Canned phrases
// ---------------------------------------------------------------------------

/// The punctuation ignored when matching the canned phrases.
pub open spec fn punctuation(c: char) -> bool {
    ||| c == '.'
    ||| c == ','
    ||| c == '!'
    ||| c == '?'
    ||| c == '…'
    ||| c == '-'
    ||| c == '–'
    ||| c == '—'
    ||| c == '"'
    ||| c == '\''
    ||| c == '('
    ||| c == ')'
    ||| c == '['
    ||| c == ']'
}

fn is_punctuation(c: char) -> (r: bool)
    ensures
        r == punctuation(c),
{
    c == '.' || c == ',' || c == '!' || c == '?' || c == '…' || c == '-' || c == '–' || c == '—'
        || c == '"' || c == '\'' || c == '(' || c == ')' || c == '[' || c == ']'
}

/// `s` with every run of characters that `class` picks replaced by one space.
pub open spec fn squeezed(s: Seq<char>, class: spec_fn(char) -> bool) -> Seq<char>
    decreases s.len(),
{
    if s.len() == 0 {
        s
    } else if !class(s.last()) {
        squeezed(s.drop_last(), class).push(s.last())
    } else if s.len() >= 2 && class(s[s.len() - 2]) {
        squeezed(s.drop_last(), class)
    } else {
        squeezed(s.drop_last(), class).push(' ')
    }
}

/// A segment's words, one space apart: punctuation and runs of white space
/// become single spaces, and none is left at the ends.
pub open spec fn normalized(s: Seq<char>) -> Seq<char> {
    text::trimmed(
        squeezed(squeezed(s, |c: char| punctuation(c)), |c: char| text::white(c)),
    )
}

fn squeeze_punctuation(s: &str) -> (r: String)
    ensures
        r@ == squeezed(s@, |c: char| punctuation(c)),
{
    let ghost class = |c: char| punctuation(c);
    let c: Vec<char> = text::chars_of(s);
    let mut r: String = String::new();
    let mut inside: bool = false;
    for i in 0..c.len()
        invariant
            c@ == s@,
            class == (|c: char| punctuation(c)),
            inside == (i > 0 && punctuation(s@[i - 1])),
            r@ == squeezed(s@.take(i as int), class),
    {
        assert(s@.take(i + 1).drop_last() == s@.take(i as int));
        let here: bool = is_punctuation(c[i]);
        if !here {
            r.push(c[i]);
        } else if !inside {
            r.push(' ');
        }
        inside = here;
    }
    assert(s@.take(s@.len() as int) == s@);
    r
}

fn squeeze_white(s: &str) -> (r: String)
    ensures
        r@ == squeezed(s@, |c: char| text::white(c)),
{
    let ghost class = |c: char| text::white(c);
    let c: Vec<char> = text::chars_of(s);
    let mut r: String = String::new();
    let mut inside: bool = false;
    for i in 0..c.len()
        invariant
            c@ == s@,
            class == (|c: char| text::white(c)),
            inside == (i > 0 && text::white(s@[i - 1])),
            r@ == squeezed(s@.take(i as int), class),
    {
        assert(s@.take(i + 1).drop_last() == s@.take(i as int));
        let here: bool = text::is_white(c[i]);
        if !here {
            r.push(c[i]);
        } else if !inside {
            r.push(' ');
        }
        inside = here;
    }
    assert(s@.take(s@.len() as int) == s@);
    r
}

/// A segment's words, one space apart.
pub fn normalize(s: &str) -> (r: String)
    ensures
        r@ == normalized(s@),
{
    let without_punctuation: String = squeeze_punctuation(s);
    text::trim(squeeze_white(without_punctuation.as_str()).as_str())
}

/// A pattern made to match, in any case, a whole text or nothing.
pub open spec fn anchored(pattern: Seq<char>) -> Seq<char> {
    "(?is)^(?:"@ + pattern + ")$"@
}

/// The patterns of the canned phrases, each matching a whole segment.
pub open spec fn canned_patterns() -> Seq<Seq<char>> {
    Seq::new(HALLUCINATION_PATTERNS@.len(), |i: int| anchored(HALLUCINATION_PATTERNS@[i]@))
}

fn anchored_patterns() -> (r: Vec<String>)
    ensures
        text::views(r@) == canned_patterns(),
{
    let mut r: Vec<String> = Vec::new();
    let mut i: usize = 0;
    while i < 11
        invariant
            i <= 11,
            HALLUCINATION_PATTERNS@.len() == 11,
            text::views(r@) == canned_patterns().take(i as int),
        decreases 11 - i,
    {
        let mut pattern: String = "(?is)^(?:".to_owned();
        pattern.append(HALLUCINATION_PATTERNS[i]);
        pattern.append(")$");
        let ghost before = text::views(r@);
        r.push(pattern);
        assert(text::views(r@) == before.push(anchored(HALLUCINATION_PATTERNS@[i as int]@)));
        i += 1;
        assert(text::views(r@) == canned_patterns().take(i as int));
    }
    assert(canned_patterns().take(11) == canned_patterns());
    r
}

/// The verdict on a segment, from its words and from what matching them against
/// the canned phrases gave.
pub open spec fn verdict(words: Seq<char>, matched: Option<bool>) -> bool {
    words.len() == 0 || matched == Some(true)
}

/// Whether a segment is one of Whisper's canned silence fillers, or says nothing
/// at all.
pub open spec fn hallucinated(s: Seq<char>) -> bool {
    verdict(normalized(s), patterns::any_pattern_matches(canned_patterns(), normalized(s)))
}

/// The verdict on a segment, from its words and from what matching them against
/// the canned phrases gave. Where there is nothing there to keep, the phrases do
/// not matter.
pub fn judge(words: &str, matched: Option<bool>) -> (r: bool)
    ensures
        r == verdict(words@, matched),
{
    if words.is_empty() {
        return true;
    }
    match matched {
        Some(m) => m,
        None => false,
    }
}

/// True if a segment is one of Whisper's canned silence fillers.
///
/// Empty (or punctuation-only) text counts as a hallucination too: there is
/// nothing there to keep.
pub fn is_hallucination(text: &str) -> (r: bool)
    ensures
        r == hallucinated(text@),
{
    let words: String = normalize(text);
    let phrases: Vec<String> = anchored_patterns();
    let matched: Option<bool> = patterns::matches_any(&phrases, words.as_str());
    judge(words.as_str(), matched)
}

proof fn lemma_squeezed_blank(s: Seq<char>, class: spec_fn(char) -> bool)
    requires
        forall|i: int| 0 <= i < s.len() ==> class(#[trigger] s[i]) || text::white(s[i]),
    ensures
        text::blank(squeezed(s, class)),
    decreases s.len(),
{
    if s.len() > 0 {
        assert forall|i: int| 0 <= i < s.drop_last().len() implies class(
            #[trigger] s.drop_last()[i],
        ) || text::white(s.drop_last()[i]) by {
            assert(s.drop_last()[i] == s[i]);
        }
        lemma_squeezed_blank(s.drop_last(), class);
        assert(class(s.last()) || text::white(s.last()));
    }
}

/// Text with nothing in it but punctuation and white space counts as a
/// hallucination, whatever the canned phrases are.
pub proof fn law_empty_is_hallucination(s: Seq<char>)
    requires
        forall|i: int| 0 <= i < s.len() ==> punctuation(#[trigger] s[i]) || text::white(s[i]),
    ensures
        hallucinated(s),
{
    let p = |c: char| punctuation(c);
    let w = |c: char| text::white(c);
    lemma_squeezed_blank(s, p);
    lemma_squeezed_blank(squeezed(s, p), w);
    text::lemma_trim_blank(squeezed(squeezed(s, p), w));
}

// ---------------------------------------------------------------------------
// Repeats
// ---------------------------------------------------------------------------

/// Whether a verbatim back-to-back repeat of a text is a decode loop.
pub open spec fn sentence(s: Seq<char>) -> bool {
    text::word_count_of(s) >= REPEAT_MIN_WORDS
}

/// Whether a verbatim back-to-back repeat of this text is a decode loop.
///
/// Short utterances are left alone: "ừ", "vâng", "okay" really are said twice
/// in a row, and a run of them is speech rather than a loop.
pub fn is_sentence(s: &str) -> (r: bool)
    ensures
        r == sentence(s@),
{
    text::word_count(s) >= REPEAT_MIN_WORDS
}

/// Whether `b` says over again the sentence that `a` said.
pub open spec fn repeats(a: SegmentView, b: SegmentView) -> bool {
    text::trimmed(a.text) == text::trimmed(b.text) && sentence(text::trimmed(b.text))
}

/// `a` held until the end of `b` where `b` follows at once, and as it was
/// otherwise.
pub open spec fn held(a: SegmentView, b: SegmentView) -> SegmentView {
    if b.start_ns - a.end_ns <= REPEAT_ADJACENCY_NS && b.end_ns > a.end_ns {
        SegmentView { start_ns: a.start_ns, end_ns: b.end_ns, text: a.text }
    } else {
        a
    }
}

/// What is kept once one more segment has been looked at: nothing new for a
/// canned one, the last one held longer for a repeat of it, and the segment
/// itself otherwise.
pub open spec fn keeping(kept: Seq<SegmentView>, segment: SegmentView, canned: bool) -> Seq<
    SegmentView,
> {
    if canned {
        kept
    } else if kept.len() > 0 && repeats(kept.last(), segment) {
        kept.drop_last().push(held(kept.last(), segment))
    } else {
        kept.push(segment)
    }
}

/// The segments that are kept, `canned` telling which of them say nothing.
pub open spec fn kept_of(segments: Seq<SegmentView>, canned: Seq<bool>) -> Seq<SegmentView>
    decreases segments.len(),
{
    if segments.len() == 0 {
        Seq::empty()
    } else {
        keeping(
            kept_of(segments.drop_last(), canned),
            segments.last(),
            canned[segments.len() - 1],
        )
    }
}

/// Which of the segments say nothing.
pub open spec fn canned_of(segments: Seq<SegmentView>) -> Seq<bool> {
    Seq::new(segments.len(), |i: int| hallucinated(segments[i].text))
}

/// Leave out the segments marked as canned and collapse the repeat loops.
///
/// A *sentence* repeated back-to-back is dropped: a speaker does not say the
/// same eight words verbatim three windows running, but a model that has locked
/// onto its own output does. Only a repeat that butts up against the surviving
/// copy stretches it; a duplicate a minute later is silence in between, and
/// claiming the speaker held that line the whole time is worse than leaving the
/// gap.
pub fn drop_marked(segments: Vec<TranscriptSegment>, canned: &Vec<bool>) -> (r: Vec<
    TranscriptSegment,
>)
    requires
        canned@.len() == segments@.len(),
    ensures
        segment::segment_views(r@) == kept_of(segment::segment_views(segments@), canned@),
{
    let ghost all = segment::segment_views(segments@);
    let mut kept: Vec<TranscriptSegment> = Vec::new();
    assert(segment::segment_views(kept@) == kept_of(all.take(0), canned@));
    for i in 0..segments.len()
        invariant
            canned@.len() == segments@.len(),
            all == segment::segment_views(segments@),
            segment::segment_views(kept@) == kept_of(all.take(i as int), canned@),
    {
        let ghost before = segment::segment_views(kept@);
        let ghost next = all[i as int];
        assert(all.take(i + 1).drop_last() == all.take(i as int));
        assert(all.take(i + 1).last() == next);
        if !canned[i] {
            let seg: &TranscriptSegment = &segments[i];
            let said: String = text::trim(seg.text.as_str());
            let n: usize = kept.len();
            let repeated: bool = n > 0 && text::same(
                text::trim(kept[n - 1].text.as_str()).as_str(),
                said.as_str(),
            ) && is_sentence(said.as_str());
            assert(repeated == (before.len() > 0 && repeats(before.last(), next)));
            if repeated {
                let last: &TranscriptSegment = &kept[n - 1];
                if seg.start_ns as i128 - last.end_ns as i128 <= REPEAT_ADJACENCY_NS as i128
                    && seg.end_ns > last.end_ns {
                    let longer = TranscriptSegment {
                        start_ns: last.start_ns,
                        end_ns: seg.end_ns,
                        text: last.text.clone(),
                    };
                    assert(longer@ == held(before.last(), next));
                    kept.set(n - 1, longer);
                }
                assert(segment::segment_views(kept@) == before.drop_last().push(
                    held(before.last(), next),
                ));
            } else {
                kept.push(seg.duplicate());
                assert(segment::segment_views(kept@) == before.push(next));
            }
        }
    }
    assert(all.take(segments@.len() as int) == all);
    kept
}

/// Strip canned filler and collapse the repeat loops it causes.
pub fn drop_hallucinations(segments: Vec<TranscriptSegment>) -> (r: Vec<TranscriptSegment>)
    ensures
        segment::segment_views(r@) == kept_of(
            segment::segment_views(segments@),
            canned_of(segment::segment_views(segments@)),
        ),
{
    let ghost all = segment::segment_views(segments@);
    let mut canned: Vec<bool> = Vec::new();
    for i in 0..segments.len()
        invariant
            all == segment::segment_views(segments@),
            canned@ == canned_of(all).take(i as int),
    {
        canned.push(is_hallucination(segments[i].text.as_str()));
        assert(canned@ == canned_of(all).take(i + 1));
    }
    assert(canned_of(all).take(all.len() as int) == canned_of(all));
    drop_marked(segments, &canned)
}

/// Whether no segment says over again, white space around it aside, four words or
/// more that the one before it says.
pub open spec fn no_repeats(segments: Seq<SegmentView>) -> bool {
    forall|i: int|
        #![trigger segments[i]]
        0 < i < segments.len() ==> !(text::trimmed(segments[i - 1].text) == text::trimmed(
            segments[i].text,
        ) && text::word_count_of(text::trimmed(segments[i].text)) >= 4)
}

/// Whether `kept` is `segment`, perhaps held longer.
pub open spec fn stands_for(kept: SegmentView, segment: SegmentView) -> bool {
    &&& kept.text == segment.text
    &&& kept.start_ns == segment.start_ns
    &&& kept.end_ns >= segment.end_ns
}

/// Whether `kept` is, perhaps held longer, one of those `segments` that are not
/// canned.
pub open spec fn comes_from(kept: SegmentView, segments: Seq<SegmentView>, canned: Seq<bool>) -> bool {
    exists|i: int|
        0 <= i < segments.len() && !canned[i] && stands_for(kept, #[trigger] segments[i])
}

proof fn lemma_kept(segments: Seq<SegmentView>, canned: Seq<bool>)
    requires
        canned.len() >= segments.len(),
    ensures
        kept_of(segments, canned).len() <= segments.len(),
        no_repeats(kept_of(segments, canned)),
        forall|k: int|
            0 <= k < kept_of(segments, canned).len() ==> comes_from(
                #[trigger] kept_of(segments, canned)[k],
                segments,
                canned,
            ),
    decreases segments.len(),
{
    if segments.len() > 0 {
        let earlier = segments.drop_last();
        let before = kept_of(earlier, canned);
        let now = kept_of(segments, canned);
        lemma_kept(earlier, canned);
        assert forall|k: int| 0 <= k < now.len() implies comes_from(
            #[trigger] now[k],
            segments,
            canned,
        ) by {
            if k < before.len() {
                assert(comes_from(before[k], earlier, canned));
                let i = choose|i: int|
                    0 <= i < earlier.len() && !canned[i] && stands_for(
                        before[k],
                        #[trigger] earlier[i],
                    );
                assert(segments[i] == earlier[i]);
                assert(stands_for(now[k], segments[i]));
            } else {
                assert(stands_for(now[k], segments[segments.len() - 1]));
            }
        }
        assert forall|i: int| #![trigger now[i]] 0 < i < now.len() implies !repeats(
            now[i - 1],
            now[i],
        ) by {
            if i < before.len() {
                assert(!repeats(before[i - 1], before[i]));
            }
        }
    }
}

/// Which of the segments each one that is kept was, in order.
pub open spec fn origins_of(segments: Seq<SegmentView>, canned: Seq<bool>) -> Seq<int>
    decreases segments.len(),
{
    if segments.len() == 0 {
        Seq::empty()
    } else {
        let earlier = segments.drop_last();
        let before = kept_of(earlier, canned);
        if canned[segments.len() - 1] || (before.len() > 0 && repeats(
            before.last(),
            segments.last(),
        )) {
            origins_of(earlier, canned)
        } else {
            origins_of(earlier, canned).push(segments.len() - 1)
        }
    }
}

/// Whether segment `i` was dropped because it repeats the `k`th that is kept: it
/// comes after that one and before the next, and says its four words or more over
/// again.
pub open spec fn dropped_repeat(
    segments: Seq<SegmentView>,
    canned: Seq<bool>,
    origins: Seq<int>,
    k: int,
    i: int,
) -> bool {
    &&& 0 <= k < origins.len()
    &&& origins[k] < i < segments.len()
    &&& k + 1 < origins.len() ==> i < origins[k + 1]
    &&& !canned[i]
    &&& text::trimmed(segments[origins[k]].text) == text::trimmed(segments[i].text)
    &&& text::word_count_of(text::trimmed(segments[i].text)) >= 4
}

/// Where a line ends that was the segment `origin` and has been held over each
/// segment of `chain` in turn.
pub open spec fn held_until(segments: Seq<SegmentView>, origin: int, chain: Seq<int>) -> int {
    if chain.len() == 0 {
        segments[origin].end_ns
    } else {
        segments[chain.last()].end_ns
    }
}

/// Whether the `k`th that is kept may be held over the segments of `chain`, one
/// after another: each of them is a dropped repeat of it, starts no later than a
/// second after the line's end at that point, and ends later than that.
pub open spec fn held_over(
    segments: Seq<SegmentView>,
    canned: Seq<bool>,
    origins: Seq<int>,
    k: int,
    chain: Seq<int>,
) -> bool {
    &&& forall|a: int, b: int| 0 <= a < b < chain.len() ==> chain[a] < chain[b]
    &&& forall|j: int|
        0 <= j < chain.len() ==> dropped_repeat(segments, canned, origins, k, #[trigger] chain[j])
    &&& forall|j: int|
        0 <= j < chain.len() ==> {
            let repeat = segments[#[trigger] chain[j]];
            let end_ns = held_until(segments, origins[k], chain.take(j));
            repeat.start_ns - end_ns <= 1_000_000_000 && end_ns < repeat.end_ns
        }
}

/// Whether `kept`, the `k`th that is kept, is the segment it was, and ends where
/// that ended or, held over dropped repeats that follow at once, where the last of
/// those did: no earlier than any that begins within a second of its end.
pub open spec fn kept_as_said(
    kept: SegmentView,
    segments: Seq<SegmentView>,
    canned: Seq<bool>,
    origins: Seq<int>,
    k: int,
) -> bool {
    let origin = segments[origins[k]];
    &&& 0 <= origins[k] < segments.len()
    &&& !canned[origins[k]]
    &&& kept.text == origin.text
    &&& kept.start_ns == origin.start_ns
    &&& kept.end_ns >= origin.end_ns
    &&& forall|i: int| #[trigger]
        dropped_repeat(segments, canned, origins, k, i) && segments[i].start_ns - origin.end_ns
            <= 1_000_000_000 ==> kept.end_ns >= segments[i].end_ns
    &&& exists|chain: Seq<int>| #[trigger]
        held_over(segments, canned, origins, k, chain) && kept.end_ns == held_until(
            segments,
            origins[k],
            chain,
        )
}

/// Whether segment `i` is canned, kept, or dropped because it repeats one that is
/// kept.
pub open spec fn accounted_for(
    segments: Seq<SegmentView>,
    canned: Seq<bool>,
    origins: Seq<int>,
    i: int,
) -> bool {
    ||| canned[i]
    ||| origins.contains(i)
    ||| exists|k: int| #[trigger] dropped_repeat(segments, canned, origins, k, i)
}

proof fn lemma_held_over(
    earlier: Seq<SegmentView>,
    segments: Seq<SegmentView>,
    canned: Seq<bool>,
    from: Seq<int>,
    origins: Seq<int>,
    k: int,
    chain: Seq<int>,
)
    requires
        earlier == segments.drop_last(),
        segments.len() > 0,
        0 <= k < from.len() <= origins.len(),
        origins[k] == from[k],
        0 <= from[k] < earlier.len(),
        held_over(earlier, canned, from, k, chain),
        forall|i: int| #[trigger]
            dropped_repeat(earlier, canned, from, k, i) ==> dropped_repeat(
                segments,
                canned,
                origins,
                k,
                i,
            ),
    ensures
        held_over(segments, canned, origins, k, chain),
        held_until(segments, origins[k], chain) == held_until(earlier, from[k], chain),
        forall|j: int| 0 <= j < chain.len() ==> #[trigger] chain[j] < earlier.len(),
{
    assert forall|j: int| 0 <= j < chain.len() implies 0 <= #[trigger] chain[j] < earlier.len() by {
        assert(dropped_repeat(earlier, canned, from, k, chain[j]));
    }
    assert forall|j: int| 0 <= j < chain.len() implies {
        let repeat = segments[#[trigger] chain[j]];
        let end_ns = held_until(segments, origins[k], chain.take(j));
        repeat.start_ns - end_ns <= REPEAT_ADJACENCY_NS && end_ns < repeat.end_ns
    } by {
        assert(segments[chain[j]] == earlier[chain[j]]);
        if j > 0 {
            assert(chain.take(j).last() == chain[j - 1]);
            assert(segments[chain[j - 1]] == earlier[chain[j - 1]]);
        }
    }
    if chain.len() > 0 {
        assert(chain.last() == chain[chain.len() - 1]);
    }
}

proof fn lemma_held_longer(
    segments: Seq<SegmentView>,
    canned: Seq<bool>,
    origins: Seq<int>,
    k: int,
    chain: Seq<int>,
    n: int,
)
    requires
        held_over(segments, canned, origins, k, chain),
        forall|j: int| 0 <= j < chain.len() ==> #[trigger] chain[j] < n,
        dropped_repeat(segments, canned, origins, k, n),
        segments[n].start_ns - held_until(segments, origins[k], chain) <= REPEAT_ADJACENCY_NS,
        held_until(segments, origins[k], chain) < segments[n].end_ns,
    ensures
        held_over(segments, canned, origins, k, chain.push(n)),
        held_until(segments, origins[k], chain.push(n)) == segments[n].end_ns,
{
    let longer = chain.push(n);
    assert forall|j: int| 0 <= j < longer.len() implies dropped_repeat(
        segments,
        canned,
        origins,
        k,
        #[trigger] longer[j],
    ) by {
        if j < chain.len() {
            assert(longer[j] == chain[j]);
        }
    }
    assert forall|j: int| 0 <= j < longer.len() implies {
        let repeat = segments[#[trigger] longer[j]];
        let end_ns = held_until(segments, origins[k], longer.take(j));
        repeat.start_ns - end_ns <= REPEAT_ADJACENCY_NS && end_ns < repeat.end_ns
    } by {
        if j < chain.len() {
            assert(longer[j] == chain[j]);
            assert(longer.take(j) == chain.take(j));
        } else {
            assert(longer.take(j) == chain);
        }
    }
}

#[verifier::spinoff_prover]
#[verifier::rlimit(80)]
proof fn lemma_origins(segments: Seq<SegmentView>, canned: Seq<bool>)
    requires
        canned.len() >= segments.len(),
    ensures
        ({
            let kept = kept_of(segments, canned);
            let origins = origins_of(segments, canned);
            &&& origins.len() == kept.len()
            &&& forall|a: int, b: int| 0 <= a < b < origins.len() ==> origins[a] < origins[b]
            &&& forall|k: int|
                0 <= k < kept.len() ==> kept_as_said(
                    #[trigger] kept[k],
                    segments,
                    canned,
                    origins,
                    k,
                )
            &&& forall|i: int|
                0 <= i < segments.len() ==> #[trigger] accounted_for(segments, canned, origins, i)
        }),
    decreases segments.len(),
{
    if segments.len() > 0 {
        let n = segments.len() - 1;
        let earlier = segments.drop_last();
        let before = kept_of(earlier, canned);
        let from = origins_of(earlier, canned);
        let kept = kept_of(segments, canned);
        let origins = origins_of(segments, canned);
        lemma_origins(earlier, canned);
        assert forall|k: int| 0 <= k < before.len() implies 0 <= #[trigger] from[k] < n by {
            assert(kept_as_said(before[k], earlier, canned, from, k));
        }
        assert forall|k: int, i: int| #[trigger]
            dropped_repeat(earlier, canned, from, k, i) implies dropped_repeat(
            segments,
            canned,
            origins,
            k,
            i,
        ) by {
            assert(origins[k] == from[k]);
            assert(0 <= from[k] < n);
        }
        assert forall|k: int, i: int|
            0 <= k < before.len() && i < n && #[trigger] dropped_repeat(
                segments,
                canned,
                origins,
                k,
                i,
            ) implies dropped_repeat(earlier, canned, from, k, i) by {
            assert(origins[k] == from[k]);
            assert(0 <= from[k] < n);
        }
        let again = !canned[n] && before.len() > 0 && repeats(before.last(), segments.last());
        let last = before.len() - 1;
        if again {
            assert(kept_as_said(before[last], earlier, canned, from, last));
            assert(dropped_repeat(segments, canned, origins, last, n));
        }
        assert forall|k: int| 0 <= k < kept.len() implies kept_as_said(
            #[trigger] kept[k],
            segments,
            canned,
            origins,
            k,
        ) by {
            if k < before.len() {
                assert(kept_as_said(before[k], earlier, canned, from, k));
                assert(segments[from[k]] == earlier[from[k]]);
                let chain = choose|chain: Seq<int>| #[trigger]
                    held_over(earlier, canned, from, k, chain) && before[k].end_ns == held_until(
                        earlier,
                        from[k],
                        chain,
                    );
                lemma_held_over(earlier, segments, canned, from, origins, k, chain);
                if kept[k].end_ns != before[k].end_ns {
                    lemma_held_longer(segments, canned, origins, k, chain, n);
                }
            } else {
                let chain = Seq::<int>::empty();
                assert(held_over(segments, canned, origins, k, chain));
                assert(kept[k].end_ns == held_until(segments, origins[k], chain));
            }
        }
        assert forall|i: int| 0 <= i < segments.len() implies #[trigger] accounted_for(
            segments,
            canned,
            origins,
            i,
        ) by {
            if i < n {
                assert(accounted_for(earlier, canned, from, i));
                if !canned[i] {
                    if from.contains(i) {
                        let k = from.index_of(i);
                        assert(origins[k] == i);
                    } else {
                        let k = choose|k: int| #[trigger]
                            dropped_repeat(earlier, canned, from, k, i);
                        assert(dropped_repeat(segments, canned, origins, k, i));
                    }
                }
            } else if !canned[n] && !again {
                assert(origins[origins.len() - 1] == n);
            }
        }
    }
}

/// What is kept never says a sentence twice in a row, is never canned filler,
/// and each line of it is one that was there, at the time it was there. The lines
/// stand in the order they came in; one ends later than it did only where it was
/// held over repeats of it that were dropped, each of which starts no later than a
/// second after the line's end at that point; and nothing is dropped but what is
/// canned or such a repeat.
pub proof fn law_kept(segments: Seq<SegmentView>)
    ensures
        ({
            let canned = canned_of(segments);
            let kept = kept_of(segments, canned);
            let origins = origins_of(segments, canned);
            &&& origins.len() == kept.len()
            &&& forall|a: int, b: int| 0 <= a < b < origins.len() ==> origins[a] < origins[b]
            &&& forall|k: int|
                0 <= k < kept.len() ==> kept_as_said(
                    #[trigger] kept[k],
                    segments,
                    canned,
                    origins,
                    k,
                )
            &&& forall|i: int|
                0 <= i < segments.len() ==> #[trigger] accounted_for(segments, canned, origins, i)
        }),
        kept_of(segments, canned_of(segments)).len() <= segments.len(),
        no_repeats(kept_of(segments, canned_of(segments))),
        forall|k: int|
            0 <= k < kept_of(segments, canned_of(segments)).len() ==> {
                &&& !hallucinated((#[trigger] kept_of(segments, canned_of(segments))[k]).text)
                &&& comes_from(
                    kept_of(segments, canned_of(segments))[k],
                    segments,
                    canned_of(segments),
                )
            },
{
    let canned = canned_of(segments);
    let kept = kept_of(segments, canned);
    lemma_kept(segments, canned);
    lemma_origins(segments, canned);
    assert forall|k: int| 0 <= k < kept.len() implies !hallucinated((#[trigger] kept[k]).text) by {
        assert(comes_from(kept[k], segments, canned));
        let i = choose|i: int|
            0 <= i < segments.len() && !canned[i] && stands_for(kept[k], #[trigger] segments[i]);
        assert(canned[i] == hallucinated(segments[i].text));
    }
}

proof fn lemma_kept_as_it_is(segments: Seq<SegmentView>, canned: Seq<bool>)
    requires
        canned.len() >= segments.len(),
        no_repeats(segments),
        forall|i: int| 0 <= i < segments.len() ==> !#[trigger] canned[i],
    ensures
        kept_of(segments, canned) == segments,
    decreases segments.len(),
{
    if segments.len() > 0 {
        let earlier = segments.drop_last();
        assert forall|i: int| #![trigger earlier[i]] 0 < i < earlier.len() implies !repeats(
            earlier[i - 1],
            earlier[i],
        ) by {
            assert(!repeats(segments[i - 1], segments[i]));
        }
        lemma_kept_as_it_is(earlier, canned);
        assert(!canned[segments.len() - 1]);
        if earlier.len() > 0 {
            assert(!repeats(segments[segments.len() - 2], segments[segments.len() - 1]));
        }
        assert(earlier.push(segments.last()) == segments);
    }
}

/// Filtering what has been filtered changes nothing.
pub proof fn law_filtering_twice(segments: Seq<SegmentView>)
    ensures
        ({
            let once = kept_of(segments, canned_of(segments));
            kept_of(once, canned_of(once)) == once
        }),
{
    law_kept(segments);
    let once = kept_of(segments, canned_of(segments));
    lemma_kept_as_it_is(once, canned_of(once));
}

// ---------------------------------------------------------------------------
// Silence
// ---------------------------------------------------------------------------

/// Samples in one frame of the silence search: a tenth of a second, and one at
/// least.
pub open spec fn frame_len(sample_rate: u32) -> nat {
    if sample_rate >= 10 {
        (sample_rate / 10) as nat
    } else {
        1
    }
}

/// Whether the frame `index` of `audio` is silent: its mean amplitude is below a
/// fiftieth of full scale.
pub open spec fn quiet(audio: Seq<i16>, frame: nat, index: int) -> bool {
    split::energy(audio, index * frame, frame) * 50 < 32768 * frame
}

/// Where the run of silent frames begins that ends before frame `n`.
pub open spec fn run_start(audio: Seq<i16>, frame: nat, n: nat) -> nat
    decreases n,
{
    if n > 0 && quiet(audio, frame, n - 1) {
        run_start(audio, frame, (n - 1) as nat)
    } else {
        n
    }
}

/// When sample `frames * frame` is heard, in nanoseconds.
pub open spec fn heard_at(frames: int, frame: nat, sample_rate: u32) -> int {
    frames * frame * 1_000_000_000 / sample_rate as int
}

/// Whether the frames `begin..end` last at least `min_len_ns`.
pub open spec fn lasts(begin: int, end: int, frame: nat, sample_rate: u32, min_len_ns: i64) -> bool {
    (end - begin) * frame * 1_000_000_000 >= min_len_ns * sample_rate
}

/// `spans` and, where the frames `begin..end` are any and last long enough, the
/// span they make.
pub open spec fn with_span(
    spans: Seq<(int, int)>,
    begin: int,
    end: int,
    frame: nat,
    sample_rate: u32,
    min_len_ns: i64,
) -> Seq<(int, int)> {
    if begin < end && lasts(begin, end, frame, sample_rate, min_len_ns) {
        spans.push((heard_at(begin, frame, sample_rate), heard_at(end, frame, sample_rate)))
    } else {
        spans
    }
}

/// The long runs of silence that a louder frame among the first `n` has ended.
pub open spec fn ended_spans(
    audio: Seq<i16>,
    frame: nat,
    n: nat,
    sample_rate: u32,
    min_len_ns: i64,
) -> Seq<(int, int)>
    decreases n,
{
    if n == 0 {
        Seq::empty()
    } else {
        let before = ended_spans(audio, frame, (n - 1) as nat, sample_rate, min_len_ns);
        if quiet(audio, frame, n - 1) {
            before
        } else {
            with_span(
                before,
                run_start(audio, frame, (n - 1) as nat) as int,
                n - 1,
                frame,
                sample_rate,
                min_len_ns,
            )
        }
    }
}

/// The runs of silence that last at least `min_len_ns`, the one that reaches the
/// end among them. Without a sample rate there is no telling how long a run is,
/// and none is reported.
pub open spec fn silences(audio: Seq<i16>, sample_rate: u32, min_len_ns: i64) -> Seq<(int, int)> {
    let frame = frame_len(sample_rate);
    let n = audio.len() / frame;
    if sample_rate == 0 {
        Seq::empty()
    } else {
        with_span(
            ended_spans(audio, frame, n, sample_rate, min_len_ns),
            run_start(audio, frame, n) as int,
            n as int,
            frame,
            sample_rate,
            min_len_ns,
        )
    }
}

/// What spans of time are, begin and end.
pub open spec fn span_views(spans: Seq<(i128, i128)>) -> Seq<(int, int)> {
    Seq::new(spans.len(), |i: int| (spans[i].0 as int, spans[i].1 as int))
}

fn push_span(
    spans: &mut Vec<(i128, i128)>,
    begin: usize,
    end: usize,
    frame: usize,
    sample_rate: u32,
    min_len_ns: i64,
)
    requires
        begin < end,
        end * frame <= usize::MAX,
        sample_rate > 0,
    ensures
        span_views(final(spans)@) == with_span(
            span_views(old(spans)@),
            begin as int,
            end as int,
            frame as nat,
            sample_rate,
            min_len_ns,
        ),
{
    let ghost before = spans@;
    assert(0 <= begin * frame <= end * frame <= usize::MAX) by (nonlinear_arith)
        requires
            0 <= begin < end,
            0 <= frame,
            end * frame <= usize::MAX,
    ;
    let first: i128 = (begin * frame) as i128 * 1_000_000_000;
    let last: i128 = (end * frame) as i128 * 1_000_000_000;
    assert(i64::MIN * 0x1_0000_0000 <= min_len_ns * sample_rate <= i64::MAX * 0x1_0000_0000)
        by (nonlinear_arith)
        requires
            i64::MIN <= min_len_ns <= i64::MAX,
            0 <= sample_rate <= 0x1_0000_0000,
    ;
    assert((end - begin) * frame * 1_000_000_000 == last - first) by (nonlinear_arith)
        requires
            first == begin * frame * 1_000_000_000,
            last == end * frame * 1_000_000_000,
    ;
    if last - first >= min_len_ns as i128 * sample_rate as i128 {
        spans.push((first / sample_rate as i128, last / sample_rate as i128));
        assert(span_views(spans@) == span_views(before).push(
            (
                heard_at(begin as int, frame as nat, sample_rate),
                heard_at(end as int, frame as nat, sample_rate),
            ),
        ));
    }
}

/// Spans of near-silence at least `min_len_ns` long, in nanoseconds from the
/// start of `audio` (mono, `sample_rate` samples a second).
///
/// Deriving the spans from the chunk audio already held in memory keeps the
/// check independent of anything the model reports. A silent run reaching the
/// end counts: that is where an invented outro stands.
pub fn silent_spans(audio: &[i16], sample_rate: u32, min_len_ns: i64) -> (r: Vec<(i128, i128)>)
    ensures
        span_views(r@) == silences(audio@, sample_rate, min_len_ns),
{
    let mut spans: Vec<(i128, i128)> = Vec::new();
    assert(span_views(spans@) == Seq::<(int, int)>::empty());
    if sample_rate == 0 {
        return spans;
    }
    let frame: usize = if sample_rate >= 10 {
        (sample_rate / 10) as usize
    } else {
        1
    };
    let count: usize = audio.len() / frame;
    let mut begin: Option<usize> = None;
    let mut index: usize = 0;
    while index < count
        invariant
            sample_rate > 0,
            frame == frame_len(sample_rate),
            0 < frame <= 429_496_729,
            count == audio@.len() / frame as nat,
            audio@.len() <= usize::MAX,
            index <= count,
            span_views(spans@) == ended_spans(
                audio@,
                frame as nat,
                index as nat,
                sample_rate,
                min_len_ns,
            ),
            match begin {
                Some(b) => b < index && run_start(audio@, frame as nat, index as nat) == b,
                None => run_start(audio@, frame as nat, index as nat) == index,
            },
        decreases count - index,
    {
        assert(index * frame + frame <= audio@.len()) by (nonlinear_arith)
            requires
                index + 1 <= count,
                count == audio@.len() / frame as nat,
                frame > 0,
        ;
        let loud: u64 = split::measure(audio, index * frame, frame);
        proof {
            split::lemma_energy_bound(audio@, index * frame, frame as nat);
        }
        if loud * 50 < 32768 * frame as u64 {
            assert(quiet(audio@, frame as nat, index as int));
            if begin.is_none() {
                begin = Some(index);
            }
        } else {
            assert(!quiet(audio@, frame as nat, index as int));
            if let Some(b) = begin {
                push_span(&mut spans, b, index, frame, sample_rate, min_len_ns);
            }
            begin = None;
        }
        index += 1;
    }
    if let Some(b) = begin {
        assert(count * frame <= audio@.len()) by (nonlinear_arith)
            requires
                count == audio@.len() / frame as nat,
                frame > 0,
        ;
        push_span(&mut spans, b, count, frame, sample_rate, min_len_ns);
    }
    spans
}

/// Whether the frames `begin..end` are a whole run of silence among the first
/// `n` frames: silent throughout, and with louder audio or none on either side.
pub open spec fn whole_run(audio: Seq<i16>, frame: nat, n: nat, begin: int, end: int) -> bool {
    &&& 0 <= begin < end <= n
    &&& forall|i: int| begin <= i < end ==> quiet(audio, frame, i)
    &&& begin > 0 ==> !quiet(audio, frame, begin - 1)
    &&& end < n ==> !quiet(audio, frame, end)
}

proof fn lemma_run_start(audio: Seq<i16>, frame: nat, n: nat)
    ensures
        run_start(audio, frame, n) <= n,
        forall|i: int| run_start(audio, frame, n) <= i < n ==> quiet(audio, frame, i),
        run_start(audio, frame, n) > 0 ==> !quiet(audio, frame, run_start(audio, frame, n) - 1),
    decreases n,
{
    if n > 0 && quiet(audio, frame, n - 1) {
        lemma_run_start(audio, frame, (n - 1) as nat);
    }
}

/// Whether `span` is what a whole run of silence that lasts long enough makes.
pub open spec fn span_of_run(
    span: (int, int),
    audio: Seq<i16>,
    frame: nat,
    n: nat,
    sample_rate: u32,
    min_len_ns: i64,
) -> bool {
    exists|begin: int, end: int|
        #[trigger] whole_run(audio, frame, n, begin, end) && lasts(
            begin,
            end,
            frame,
            sample_rate,
            min_len_ns,
        ) && span == (heard_at(begin, frame, sample_rate), heard_at(end, frame, sample_rate))
}

proof fn lemma_ended_spans(
    audio: Seq<i16>,
    frame: nat,
    n: nat,
    total: nat,
    sample_rate: u32,
    min_len_ns: i64,
)
    requires
        n <= total,
    ensures
        ({
            let spans = ended_spans(audio, frame, n, sample_rate, min_len_ns);
            &&& forall|k: int|
                0 <= k < spans.len() ==> span_of_run(
                    #[trigger] spans[k],
                    audio,
                    frame,
                    total,
                    sample_rate,
                    min_len_ns,
                )
            &&& forall|begin: int, end: int| #[trigger]
                whole_run(audio, frame, total, begin, end) && end < n && lasts(
                    begin,
                    end,
                    frame,
                    sample_rate,
                    min_len_ns,
                ) ==> spans.contains(
                    (heard_at(begin, frame, sample_rate), heard_at(end, frame, sample_rate)),
                )
        }),
    decreases n,
{
    if n > 0 {
        let m = (n - 1) as nat;
        lemma_ended_spans(audio, frame, m, total, sample_rate, min_len_ns);
        lemma_run_start(audio, frame, m);
        let before = ended_spans(audio, frame, m, sample_rate, min_len_ns);
        let spans = ended_spans(audio, frame, n, sample_rate, min_len_ns);
        let b = run_start(audio, frame, m) as int;
        if !quiet(audio, frame, m as int) && b < m {
            assert(whole_run(audio, frame, total, b, m as int));
        }
        assert forall|k: int| 0 <= k < spans.len() implies span_of_run(
            #[trigger] spans[k],
            audio,
            frame,
            total,
            sample_rate,
            min_len_ns,
        ) by {
            if k < before.len() {
                assert(spans[k] == before[k]);
            }
        }
        assert forall|begin: int, end: int| #[trigger]
            whole_run(audio, frame, total, begin, end) && end < n && lasts(
                begin,
                end,
                frame,
                sample_rate,
                min_len_ns,
            ) implies spans.contains(
            (heard_at(begin, frame, sample_rate), heard_at(end, frame, sample_rate)),
        ) by {
            let span = (heard_at(begin, frame, sample_rate), heard_at(end, frame, sample_rate));
            if end < m {
                assert(before.contains(span));
                let k = before.index_of(span);
                assert(spans[k] == span);
            } else {
                assert(quiet(audio, frame, begin));
                assert(b <= begin) by {
                    if begin < b {
                        assert(quiet(audio, frame, b - 1));
                    }
                }
                assert(begin <= b) by {
                    if b < begin {
                        assert(quiet(audio, frame, begin - 1));
                    }
                }
                assert(spans == before.push(span));
                assert(spans[before.len() as int] == span);
            }
        }
    }
}

/// Whether spans come in order, each after the one before it has ended.
pub open spec fn in_order_and_apart(spans: Seq<(int, int)>) -> bool {
    &&& forall|k: int| 0 <= k < spans.len() ==> (#[trigger] spans[k]).0 < spans[k].1
    &&& forall|i: int, j: int|
        0 <= i < j < spans.len() ==> (#[trigger] spans[i]).1 < (#[trigger] spans[j]).0
}

proof fn lemma_heard_later(a: int, b: int, sample_rate: u32)
    requires
        sample_rate > 0,
        0 <= a < b,
    ensures
        heard_at(a, frame_len(sample_rate), sample_rate) < heard_at(
            b,
            frame_len(sample_rate),
            sample_rate,
        ),
{
    let frame = frame_len(sample_rate) as int;
    let rate = sample_rate as int;
    assert(frame * 20 >= rate);
    let x = a * frame * 1_000_000_000;
    let y = b * frame * 1_000_000_000;
    assert(y >= x + rate) by (nonlinear_arith)
        requires
            x == a * frame * 1_000_000_000,
            y == b * frame * 1_000_000_000,
            a + 1 <= b,
            frame * 20 >= rate,
            rate > 0,
    ;
    assert(x / rate < y / rate) by (nonlinear_arith)
        requires
            y >= x + rate,
            rate > 0,
    ;
}

proof fn lemma_ended_in_order(
    audio: Seq<i16>,
    n: nat,
    sample_rate: u32,
    min_len_ns: i64,
)
    requires
        sample_rate > 0,
    ensures
        ({
            let frame = frame_len(sample_rate);
            let spans = ended_spans(audio, frame, n, sample_rate, min_len_ns);
            &&& in_order_and_apart(spans)
            &&& forall|k: int|
                0 <= k < spans.len() ==> (#[trigger] spans[k]).1 < heard_at(
                    run_start(audio, frame, n) as int,
                    frame,
                    sample_rate,
                )
        }),
    decreases n,
{
    if n > 0 {
        let frame = frame_len(sample_rate);
        let m = (n - 1) as nat;
        lemma_ended_in_order(audio, m, sample_rate, min_len_ns);
        lemma_run_start(audio, frame, m);
        let b = run_start(audio, frame, m) as int;
        lemma_heard_later(m as int, n as int, sample_rate);
        if b < m {
            lemma_heard_later(b, m as int, sample_rate);
        }
    }
}

/// The spans reported are the long silences, all of them and nothing else: a
/// span is a stretch that is silent throughout, with louder audio or none on
/// either side, and that lasts at least as long as asked for. They come in order,
/// and apart from each other.
pub proof fn law_silences(audio: Seq<i16>, sample_rate: u32, min_len_ns: i64)
    requires
        sample_rate > 0,
    ensures
        ({
            let frame = frame_len(sample_rate);
            let n = audio.len() / frame;
            let spans = silences(audio, sample_rate, min_len_ns);
            &&& in_order_and_apart(spans)
            &&& forall|k: int|
                0 <= k < spans.len() ==> span_of_run(
                    #[trigger] spans[k],
                    audio,
                    frame,
                    n,
                    sample_rate,
                    min_len_ns,
                )
            &&& forall|begin: int, end: int| #[trigger]
                whole_run(audio, frame, n, begin, end) && lasts(
                    begin,
                    end,
                    frame,
                    sample_rate,
                    min_len_ns,
                ) ==> spans.contains(
                    (heard_at(begin, frame, sample_rate), heard_at(end, frame, sample_rate)),
                )
        }),
{
    let frame = frame_len(sample_rate);
    let n = audio.len() / frame;
    lemma_ended_spans(audio, frame, n, n, sample_rate, min_len_ns);
    lemma_ended_in_order(audio, n, sample_rate, min_len_ns);
    lemma_run_start(audio, frame, n);
    if run_start(audio, frame, n) < n {
        lemma_heard_later(run_start(audio, frame, n) as int, n as int, sample_rate);
    }
    let before = ended_spans(audio, frame, n, sample_rate, min_len_ns);
    let spans = silences(audio, sample_rate, min_len_ns);
    let b = run_start(audio, frame, n) as int;
    if b < n {
        assert(whole_run(audio, frame, n, b, n as int));
    }
    assert forall|k: int| 0 <= k < spans.len() implies span_of_run(
        #[trigger] spans[k],
        audio,
        frame,
        n,
        sample_rate,
        min_len_ns,
    ) by {
        if k < before.len() {
            assert(spans[k] == before[k]);
        }
    }
    assert forall|begin: int, end: int| #[trigger]
        whole_run(audio, frame, n, begin, end) && lasts(
            begin,
            end,
            frame,
            sample_rate,
            min_len_ns,
        ) implies spans.contains(
        (heard_at(begin, frame, sample_rate), heard_at(end, frame, sample_rate)),
    ) by {
        let span = (heard_at(begin, frame, sample_rate), heard_at(end, frame, sample_rate));
        if end < n {
            assert(before.contains(span));
            let k = before.index_of(span);
            assert(spans[k] == span);
        } else {
            assert(quiet(audio, frame, begin));
            assert(b <= begin) by {
                if begin < b {
                    assert(quiet(audio, frame, b - 1));
                }
            }
            assert(begin <= b) by {
                if b < begin {
                    assert(quiet(audio, frame, begin - 1));
                }
            }
            assert(spans == before.push(span));
            assert(spans[before.len() as int] == span);
        }
    }
}

/// Whether a segment lies entirely inside one of the silent spans, which are
/// counted from `offset_ns` on.
pub open spec fn in_silence(segment: SegmentView, spans: Seq<(int, int)>, offset_ns: int) -> bool {
    exists|k: int|
        0 <= k < spans.len() && (#[trigger] spans[k]).0 <= segment.start_ns - offset_ns
            && segment.end_ns - offset_ns <= spans[k].1
}

/// The segments that do not lie entirely inside a silent span.
pub open spec fn outside_silence(
    segments: Seq<SegmentView>,
    spans: Seq<(int, int)>,
    offset_ns: int,
) -> Seq<SegmentView> {
    segments.filter(|s: SegmentView| !in_silence(s, spans, offset_ns))
}

fn lies_in_silence(segment: &TranscriptSegment, spans: &Vec<(i128, i128)>, offset_ns: i64) -> (r:
    bool)
    ensures
        r == in_silence(segment@, span_views(spans@), offset_ns as int),
{
    let start: i128 = segment.start_ns as i128 - offset_ns as i128;
    let end: i128 = segment.end_ns as i128 - offset_ns as i128;
    for k in 0..spans.len()
        invariant
            start == segment@.start_ns - offset_ns,
            end == segment@.end_ns - offset_ns,
            forall|j: int|
                0 <= j < k ==> !((#[trigger] span_views(spans@)[j]).0 <= start && end
                    <= span_views(spans@)[j].1),
    {
        if start >= spans[k].0 && end <= spans[k].1 {
            assert(span_views(spans@)[k as int].0 <= start);
            return true;
        }
    }
    false
}

/// Drop segments that lie entirely inside a silent span.
///
/// Text the model produced for a stretch where nobody was speaking is not a
/// transcription of anything. Segments that merely *overlap* a pause are kept: a
/// speaker trailing off into silence is real speech.
///
/// `offset_ns` is the chunk's position on the recording's timeline, since
/// `segments` carry absolute timestamps while `spans` are chunk-relative.
pub fn drop_segments_in_silence(
    segments: Vec<TranscriptSegment>,
    spans: &Vec<(i128, i128)>,
    offset_ns: i64,
) -> (r: Vec<TranscriptSegment>)
    ensures
        segment::segment_views(r@) == outside_silence(
            segment::segment_views(segments@),
            span_views(spans@),
            offset_ns as int,
        ),
{
    let ghost all = segment::segment_views(segments@);
    let ghost keep = |s: SegmentView| !in_silence(s, span_views(spans@), offset_ns as int);
    let mut kept: Vec<TranscriptSegment> = Vec::new();
    assert(segment::segment_views(kept@) == all.take(0).filter(keep)) by {
        reveal(Seq::filter);
    }
    for i in 0..segments.len()
        invariant
            all == segment::segment_views(segments@),
            keep == (|s: SegmentView| !in_silence(s, span_views(spans@), offset_ns as int)),
            segment::segment_views(kept@) == all.take(i as int).filter(keep),
    {
        let ghost before = segment::segment_views(kept@);
        proof {
            assert(all.take(i + 1) == all.take(i as int).push(all[i as int]));
            all.take(i as int).lemma_filter_push(all[i as int], keep);
        }
        if !lies_in_silence(&segments[i], spans, offset_ns) {
            kept.push(segments[i].duplicate());
            assert(segment::segment_views(kept@) == before.push(all[i as int]));
        }
    }
    assert(all.take(all.len() as int) == all);
    kept
}

// ---------------------------------------------------------------------------
// What silence is
// ---------------------------------------------------------------------------

/// A frame is silent exactly where the absolute values of its samples are, on the
/// mean, below 0.02 of full scale, which is 32768.
pub proof fn law_silence_is_a_fiftieth_of_full_scale(audio: Seq<i16>, frame: nat, index: int)
    requires
        frame > 0,
        0 <= index,
        index * frame + frame <= audio.len(),
    ensures
        quiet(audio, frame, index) <==> split::sum_of_sizes(
            audio.subrange(index * frame, index * frame + frame),
        ) * 50 < 32768 * frame,
{
    assert(0 <= index * frame) by (nonlinear_arith)
        requires
            0 <= index,
            frame > 0,
    ;
    split::lemma_energy_is_sum(audio, index * frame, frame);
}

proof fn lemma_loud_frame(audio: Seq<i16>, frame: nat, index: int)
    requires
        frame > 0,
        0 <= index,
        index * frame + frame <= audio.len(),
    ensures
        (forall|k: int|
            index * frame <= k < index * frame + frame ==> (#[trigger] audio[k] <= -656 || audio[k]
                >= 656)) ==> !quiet(audio, frame, index),
        (forall|k: int|
            index * frame <= k < index * frame + frame ==> -655 <= #[trigger] audio[k] <= 655)
            ==> quiet(audio, frame, index),
{
    let from = index * frame;
    let samples = audio.subrange(from, from + frame);
    law_silence_is_a_fiftieth_of_full_scale(audio, frame, index);
    split::lemma_sum_bounds(samples, 656);
    split::lemma_sum_bounds(samples, 655);
    assert(0 <= from) by (nonlinear_arith)
        requires
            0 <= index,
            frame > 0,
            from == index * frame,
    ;
    assert(forall|k: int| 0 <= k < frame ==> #[trigger] samples[k] == audio[from + k]);
}

proof fn lemma_heard_no_earlier(a: int, b: int, sample_rate: u32)
    requires
        sample_rate > 0,
        0 <= a <= b,
    ensures
        heard_at(a, frame_len(sample_rate), sample_rate) <= heard_at(
            b,
            frame_len(sample_rate),
            sample_rate,
        ),
{
    if a < b {
        lemma_heard_later(a, b, sample_rate);
    }
}

/// Speech is no silence: a tenth of a second in which every sample is, in absolute
/// value, at least 656, a fiftieth of full scale, lies in no span that is reported.
/// The tenth `index` of a second is that from `index * frame` samples on, `frame`
/// being a tenth of the rate.
pub proof fn law_speech_is_no_silence(
    audio: Seq<i16>,
    sample_rate: u32,
    min_len_ns: i64,
    index: int,
    k: int,
)
    requires
        sample_rate >= 10,
        0 <= index,
        index * (sample_rate / 10) + sample_rate / 10 <= audio.len(),
        forall|i: int|
            index * (sample_rate / 10) <= i < index * (sample_rate / 10) + sample_rate / 10 ==> (
            #[trigger] audio[i] <= -656 || audio[i] >= 656),
        0 <= k < silences(audio, sample_rate, min_len_ns).len(),
    ensures
        silences(audio, sample_rate, min_len_ns)[k].1 <= index * (sample_rate / 10) * 1_000_000_000
            / sample_rate as int || silences(audio, sample_rate, min_len_ns)[k].0 >= (index + 1) * (
        sample_rate / 10) * 1_000_000_000 / sample_rate as int,
{
    let frame = frame_len(sample_rate);
    let n = audio.len() / frame;
    let span = silences(audio, sample_rate, min_len_ns)[k];
    lemma_loud_frame(audio, frame, index);
    law_silences(audio, sample_rate, min_len_ns);
    let (begin, end) = choose|begin: int, end: int|
        #[trigger] whole_run(audio, frame, n, begin, end) && lasts(
            begin,
            end,
            frame,
            sample_rate,
            min_len_ns,
        ) && span == (heard_at(begin, frame, sample_rate), heard_at(end, frame, sample_rate));
    if begin <= index < end {
        assert(quiet(audio, frame, index));
    } else if index < begin {
        lemma_heard_no_earlier(index + 1, begin, sample_rate);
    } else {
        lemma_heard_no_earlier(end, index, sample_rate);
    }
}

/// Where the run of silent frames ends that reaches up to frame `m`, among the
/// first `n`.
spec fn run_end(audio: Seq<i16>, frame: nat, m: int, n: int) -> int
    decreases n - m,
{
    if m < n && quiet(audio, frame, m) {
        run_end(audio, frame, m + 1, n)
    } else {
        m
    }
}

proof fn lemma_run_end(audio: Seq<i16>, frame: nat, m: int, n: int)
    requires
        m <= n,
    ensures
        m <= run_end(audio, frame, m, n) <= n,
        forall|i: int| m <= i < run_end(audio, frame, m, n) ==> quiet(audio, frame, i),
        run_end(audio, frame, m, n) < n ==> !quiet(audio, frame, run_end(audio, frame, m, n)),
    decreases n - m,
{
    if m < n && quiet(audio, frame, m) {
        lemma_run_end(audio, frame, m + 1, n);
    }
}

proof fn lemma_run_found(
    audio: Seq<i16>,
    sample_rate: u32,
    min_len_ns: i64,
    begin: int,
    end: int,
)
    requires
        sample_rate > 0,
        0 <= begin < end <= audio.len() / frame_len(sample_rate),
        forall|i: int| begin <= i < end ==> quiet(audio, frame_len(sample_rate), i),
        (end - begin) * frame_len(sample_rate) * 1_000_000_000 >= min_len_ns * sample_rate,
    ensures
        exists|k: int|
            0 <= k < silences(audio, sample_rate, min_len_ns).len() && (#[trigger] silences(
                audio,
                sample_rate,
                min_len_ns,
            )[k]).0 <= heard_at(begin, frame_len(sample_rate), sample_rate) && heard_at(
                end,
                frame_len(sample_rate),
                sample_rate,
            ) <= silences(audio, sample_rate, min_len_ns)[k].1,
{
    let frame = frame_len(sample_rate);
    let n = audio.len() / frame;
    let first = run_start(audio, frame, end as nat) as int;
    let last = run_end(audio, frame, end, n as int);
    lemma_run_start(audio, frame, end as nat);
    lemma_run_end(audio, frame, end, n as int);
    assert(first <= begin) by {
        if begin < first {
            assert(quiet(audio, frame, first - 1));
        }
    }
    assert(whole_run(audio, frame, n, first, last)) by {
        assert forall|i: int| first <= i < last implies quiet(audio, frame, i) by {}
    }
    assert((last - first) * frame * 1_000_000_000 >= (end - begin) * frame * 1_000_000_000)
        by (nonlinear_arith)
        requires
            first <= begin,
            end <= last,
            frame >= 0,
    ;
    law_silences(audio, sample_rate, min_len_ns);
    let span = (heard_at(first, frame, sample_rate), heard_at(last, frame, sample_rate));
    assert(lasts(first, last, frame, sample_rate, min_len_ns));
    assert(silences(audio, sample_rate, min_len_ns).contains(span));
    let k = silences(audio, sample_rate, min_len_ns).index_of(span);
    assert(silences(audio, sample_rate, min_len_ns)[k] == span);
    lemma_heard_no_earlier(first, begin, sample_rate);
    lemma_heard_no_earlier(end, last, sample_rate);
}

/// A long pause is found: where every sample of the tenths of a second `begin` to
/// `end` is, in absolute value, at most 655, below a fiftieth of full scale, and
/// they last as long as asked for, a span that is reported covers them.
pub proof fn law_pause_is_silence(
    audio: Seq<i16>,
    sample_rate: u32,
    min_len_ns: i64,
    begin: int,
    end: int,
)
    requires
        sample_rate >= 10,
        0 <= begin < end,
        end * (sample_rate / 10) <= audio.len(),
        forall|i: int|
            begin * (sample_rate / 10) <= i < end * (sample_rate / 10) ==> -655 <= #[trigger] audio[i]
                <= 655,
        (end - begin) * (sample_rate / 10) * 1_000_000_000 >= min_len_ns * sample_rate,
    ensures
        exists|k: int|
            0 <= k < silences(audio, sample_rate, min_len_ns).len() && (#[trigger] silences(
                audio,
                sample_rate,
                min_len_ns,
            )[k]).0 <= begin * (sample_rate / 10) * 1_000_000_000 / sample_rate as int && end * (
            sample_rate / 10) * 1_000_000_000 / sample_rate as int <= silences(
                audio,
                sample_rate,
                min_len_ns,
            )[k].1,
{
    let frame = frame_len(sample_rate);
    assert forall|i: int| begin <= i < end implies quiet(audio, frame, i) by {
        assert(begin * frame <= i * frame && i * frame + frame <= end * frame && 0 <= i * frame)
            by (nonlinear_arith)
            requires
                0 <= begin <= i < end,
                frame > 0,
        ;
        lemma_loud_frame(audio, frame, i);
    }
    assert(end <= audio.len() / frame) by (nonlinear_arith)
        requires
            end * frame <= audio.len(),
            frame > 0,
    ;
    lemma_run_found(audio, sample_rate, min_len_ns, begin, end);
}

/// Every span that is reported lasts at least as long as asked for.
pub proof fn law_spans_are_long(audio: Seq<i16>, sample_rate: u32, min_len_ns: i64, k: int)
    requires
        sample_rate > 0,
        0 <= k < silences(audio, sample_rate, min_len_ns).len(),
    ensures
        silences(audio, sample_rate, min_len_ns)[k].1 - silences(
            audio,
            sample_rate,
            min_len_ns,
        )[k].0 >= min_len_ns,
{
    let frame = frame_len(sample_rate);
    let n = audio.len() / frame;
    let span = silences(audio, sample_rate, min_len_ns)[k];
    law_silences(audio, sample_rate, min_len_ns);
    let (begin, end) = choose|begin: int, end: int|
        #[trigger] whole_run(audio, frame, n, begin, end) && lasts(
            begin,
            end,
            frame,
            sample_rate,
            min_len_ns,
        ) && span == (heard_at(begin, frame, sample_rate), heard_at(end, frame, sample_rate));
    let x = begin * frame * 1_000_000_000;
    let y = end * frame * 1_000_000_000;
    let rate = sample_rate as int;
    assert(y - x >= min_len_ns * rate) by (nonlinear_arith)
        requires
            x == begin * frame * 1_000_000_000,
            y == end * frame * 1_000_000_000,
            (end - begin) * frame * 1_000_000_000 >= min_len_ns * rate,
    ;
    assert(y / rate - x / rate >= min_len_ns) by (nonlinear_arith)
        requires
            y - x >= min_len_ns * rate,
            rate > 0,
    ;
}

/// Exactly those segments are dropped that begin no earlier and end no later than
/// some silence; the rest stand as they did, in order. A segment that merely
/// overlaps a pause is kept.
pub proof fn law_only_what_lies_in_silence_goes(
    segments: Seq<SegmentView>,
    spans: Seq<(int, int)>,
    offset_ns: int,
)
    ensures
        exists|chosen: Seq<int>|
            #![trigger chosen.len()]
            picking::exactly(
                chosen,
                segments.len() as int,
                |i: int|
                    forall|k: int|
                        0 <= k < spans.len() ==> segments[i].start_ns < offset_ns + (
                        #[trigger] spans[k]).0 || segments[i].end_ns > offset_ns + spans[k].1,
            ) && outside_silence(segments, spans, offset_ns).len() == chosen.len() && forall|k: int|
                0 <= k < chosen.len() ==> outside_silence(segments, spans, offset_ns)[k]
                    == segments[#[trigger] chosen[k]],
{
    let keep = |s: SegmentView| !in_silence(s, spans, offset_ns);
    let wanted = |i: int|
        forall|k: int|
            0 <= k < spans.len() ==> segments[i].start_ns < offset_ns + (#[trigger] spans[k]).0
                || segments[i].end_ns > offset_ns + spans[k].1;
    let chosen = picking::positions(segments.len(), wanted);
    picking::lemma_filter_picks(segments, keep);
    picking::lemma_positions_same(segments.len(), |i: int| keep(segments[i]), wanted);
    picking::lemma_positions(segments.len(), wanted);
    assert(chosen.len() == outside_silence(segments, spans, offset_ns).len());
}

/// Audio in which every sample is loud has no silences.
pub proof fn lemma_loud_audio_has_no_silence(audio: Seq<i16>, sample_rate: u32, min_len_ns: i64)
    requires
        forall|i: int| 0 <= i < audio.len() ==> (#[trigger] audio[i] <= -656 || audio[i] >= 656),
    ensures
        silences(audio, sample_rate, min_len_ns).len() == 0,
{
    let spans = silences(audio, sample_rate, min_len_ns);
    if sample_rate > 0 && spans.len() > 0 {
        let frame = frame_len(sample_rate);
        let n = audio.len() / frame;
        law_silences(audio, sample_rate, min_len_ns);
        let span = spans[0];
        let (begin, end) = choose|begin: int, end: int|
            #[trigger] whole_run(audio, frame, n, begin, end) && lasts(
                begin,
                end,
                frame,
                sample_rate,
                min_len_ns,
            ) && span == (heard_at(begin, frame, sample_rate), heard_at(end, frame, sample_rate));
        assert(quiet(audio, frame, begin));
        assert(begin * frame + frame <= audio.len() && 0 <= begin * frame) by (nonlinear_arith)
            requires
                0 <= begin < n,
                n == audio.len() / frame,
                frame > 0,
        ;
        lemma_loud_frame(audio, frame, begin);
    }
}

/// Without silences nothing lies in one.
pub proof fn lemma_nothing_to_drop(
    segments: Seq<SegmentView>,
    spans: Seq<(int, int)>,
    offset_ns: int,
)
    requires
        spans.len() == 0,
    ensures
        outside_silence(segments, spans, offset_ns) == segments,
    decreases segments.len(),
{
    reveal(Seq::filter);
    if segments.len() > 0 {
        lemma_nothing_to_drop(segments.drop_last(), spans, offset_ns);
        assert(segments.drop_last().push(segments.last()) == segments);
    }
}

// ---------------------------------------------------------------------------
// What the words of a segment are
// ---------------------------------------------------------------------------

/// Whether a character only separates words: white space, or punctuation.
pub open spec fn separates(c: char) -> bool {
    text::white(c) || punctuation(c)
}

proof fn lemma_squeezed_add(a: Seq<char>, b: Seq<char>, class: spec_fn(char) -> bool)
    requires
        a.len() == 0 || b.len() == 0 || !(class(a.last()) && class(b[0])),
    ensures
        squeezed(a + b, class) == squeezed(a, class) + squeezed(b, class),
    decreases b.len(),
{
    if b.len() == 0 {
        assert(a + b == a);
        assert(squeezed(a, class) + squeezed(b, class) == squeezed(a, class));
    } else {
        let s = a + b;
        assert(s.drop_last() == a + b.drop_last());
        assert(s.last() == b.last());
        if b.len() > 1 {
            assert(b.drop_last()[0] == b[0]);
            assert(s[s.len() - 2] == b[b.len() - 2]);
        } else if a.len() > 0 {
            assert(s[s.len() - 2] == a.last());
        }
        lemma_squeezed_add(a, b.drop_last(), class);
        let x = squeezed(a, class);
        let y = squeezed(b.drop_last(), class);
        assert((x + y).push(b.last()) == x + y.push(b.last()));
        assert((x + y).push(' ') == x + y.push(' '));
    }
}

proof fn lemma_squeezed_none(s: Seq<char>, class: spec_fn(char) -> bool)
    requires
        forall|i: int| 0 <= i < s.len() ==> !class(#[trigger] s[i]),
    ensures
        squeezed(s, class) == s,
    decreases s.len(),
{
    if s.len() > 0 {
        assert forall|i: int| 0 <= i < s.drop_last().len() implies !class(
            #[trigger] s.drop_last()[i],
        ) by {
            assert(s.drop_last()[i] == s[i]);
        }
        lemma_squeezed_none(s.drop_last(), class);
        assert(!class(s[s.len() - 1]));
        assert(s.drop_last().push(s.last()) == s);
    }
}

proof fn lemma_squeezed_all(s: Seq<char>, class: spec_fn(char) -> bool)
    requires
        s.len() > 0,
        forall|i: int| 0 <= i < s.len() ==> class(#[trigger] s[i]),
    ensures
        squeezed(s, class) == seq![' '],
    decreases s.len(),
{
    assert(class(s[s.len() - 1]));
    if s.len() > 1 {
        assert forall|i: int| 0 <= i < s.drop_last().len() implies class(
            #[trigger] s.drop_last()[i],
        ) by {
            assert(s.drop_last()[i] == s[i]);
        }
        lemma_squeezed_all(s.drop_last(), class);
        assert(class(s[s.len() - 2]));
    } else {
        assert(s.drop_last() == Seq::<char>::empty());
        assert(squeezed(s.drop_last(), class) == Seq::<char>::empty());
        assert(squeezed(s, class) == squeezed(s.drop_last(), class).push(' '));
        assert(Seq::<char>::empty().push(' ') == seq![' ']);
    }
}

proof fn lemma_squeezed_len(s: Seq<char>, class: spec_fn(char) -> bool)
    ensures
        s.len() > 0 ==> squeezed(s, class).len() > 0,
        s.len() > 0 && !class(s[0]) ==> squeezed(s, class)[0] == s[0],
        forall|i: int|
            0 <= i < squeezed(s, class).len() ==> (#[trigger] squeezed(s, class)[i] == ' '
                || s.contains(squeezed(s, class)[i])),
    decreases s.len(),
{
    if s.len() > 0 {
        let front = s.drop_last();
        lemma_squeezed_len(front, class);
        let now = squeezed(s, class);
        let before = squeezed(front, class);
        assert forall|i: int| 0 <= i < now.len() implies (#[trigger] now[i] == ' ' || s.contains(
            now[i],
        )) by {
            if i < before.len() {
                assert(now[i] == before[i]);
                if now[i] != ' ' {
                    assert(front.contains(before[i]));
                    let k = front.index_of(before[i]);
                    assert(s[k] == before[i]);
                }
            } else {
                assert(s[s.len() - 1] == s.last());
            }
        }
        if s.len() == 1 {
            assert(front == Seq::<char>::empty());
        } else {
            assert(front[0] == s[0]);
        }
    }
}

/// What separates words comes down to one space.
proof fn lemma_gap(gap: Seq<char>)
    requires
        gap.len() > 0,
        forall|i: int| 0 <= i < gap.len() ==> separates(#[trigger] gap[i]),
    ensures
        squeezed(squeezed(gap, |c: char| punctuation(c)), |c: char| text::white(c)) == seq![' '],
        squeezed(gap, |c: char| punctuation(c)).len() > 0,
        text::blank(squeezed(gap, |c: char| punctuation(c))),
{
    let p = |c: char| punctuation(c);
    let w = |c: char| text::white(c);
    let once = squeezed(gap, p);
    lemma_squeezed_len(gap, p);
    lemma_squeezed_blank(gap, p);
    lemma_squeezed_all(once, w);
}

/// The words of a segment are the runs of characters between what separates words,
/// each of them as it was and in order, one space apart: one word alone is itself,
/// what separates words goes where no word stands before it, and behind a word it
/// is one space if any word follows and nothing if none does.
pub proof fn law_words_are_kept_one_space_apart(word: Seq<char>, gap: Seq<char>, rest: Seq<char>)
    requires
        word.len() > 0,
        forall|i: int| 0 <= i < word.len() ==> !separates(#[trigger] word[i]),
        gap.len() > 0,
        forall|i: int| 0 <= i < gap.len() ==> separates(#[trigger] gap[i]),
        rest.len() > 0 ==> !separates(rest[0]),
    ensures
        normalized(word) == word,
        normalized(gap + rest) == normalized(rest),
        normalized(word + gap + rest) == (if rest.len() == 0 {
            word
        } else {
            word + seq![' '] + normalized(rest)
        }),
        normalized(Seq::<char>::empty()).len() == 0,
{
    let p = |c: char| punctuation(c);
    let w = |c: char| text::white(c);
    let space = seq![' '];
    assert(!separates(word[0]) && !separates(word[word.len() - 1]));
    assert forall|i: int| 0 <= i < word.len() implies !p(#[trigger] word[i]) && !w(word[i]) by {
        assert(!separates(word[i]));
    }
    lemma_squeezed_none(word, p);
    lemma_squeezed_none(word, w);
    text::lemma_trim_tight(word);
    lemma_gap(gap);
    let rest_p = squeezed(rest, p);
    let rest_w = squeezed(rest_p, w);
    lemma_squeezed_len(rest, p);
    lemma_squeezed_len(rest_p, w);
    // What stands before the rest.
    lemma_squeezed_add(gap, rest, p);
    let gap_p = squeezed(gap, p);
    if rest.len() > 0 {
        assert(rest_p[0] == rest[0]);
        assert(rest_w[0] == rest[0]);
    }
    lemma_squeezed_add(gap_p, rest_p, w);
    assert(squeezed(squeezed(gap + rest, p), w) == space + rest_w);
    assert((space + rest_w).skip(1) == rest_w);
    assert(text::trim_start_of(space + rest_w) == text::trim_start_of(rest_w));
    // A word before that.
    assert(word + gap + rest == word + (gap + rest));
    lemma_squeezed_add(word, gap + rest, p);
    let later_p = squeezed(gap + rest, p);
    lemma_squeezed_add(word, later_p, w);
    let all = word + (space + rest_w);
    assert(squeezed(squeezed(word + gap + rest, p), w) == all);
    assert(all[0] == word[0]);
    assert(text::trim_start_of(all) == all);
    if rest.len() == 0 {
        assert(rest_p == Seq::<char>::empty());
        assert(rest_w == Seq::<char>::empty());
        assert(all == word + space);
        assert((word + space).drop_last() == word);
        assert((word + space).last() == ' ');
        assert(text::trim_end_of(word + space) == text::trim_end_of(word));
        assert(text::trim_end_of(word) == word);
        assert(text::trim_start_of(rest_w) == rest_w);
    } else {
        assert(!text::blank(rest_w));
        assert(all == (word + space) + rest_w);
        text::lemma_trim_end_add(word + space, rest_w);
        assert(text::trim_start_of(rest_w) == rest_w);
    }
}

/// The verdict on a segment goes by its words alone: two segments with the same
/// words are both canned or neither is.
pub proof fn law_same_words_same_verdict(a: Seq<char>, b: Seq<char>)
    requires
        normalized(a) == normalized(b),
    ensures
        hallucinated(a) == hallucinated(b),
        normalized(a).len() > 0 ==> hallucinated(a) == (patterns::any_pattern_matches(
            Seq::new(
                11,
                |i: int| "(?is)^(?:"@ + HALLUCINATION_PATTERNS@[i]@ + ")$"@,
            ),
            normalized(a),
        ) == Some(true)),
{
    assert(canned_patterns() == Seq::new(
        11,
        |i: int| "(?is)^(?:"@ + HALLUCINATION_PATTERNS@[i]@ + ")$"@,
    ));
}

/// The punctuation that is ignored is that of sentences: the full stop, comma,
/// exclamation and question mark, ellipsis, hyphen and dashes, quotes, and round and
/// square brackets. No letter and no digit is.
pub proof fn law_punctuation(c: char)
    ensures
        separates('.') && separates(',') && separates('!') && separates('?') && separates('…'),
        separates('-') && separates('–') && separates('—'),
        separates('"') && separates('\''),
        separates('(') && separates(')') && separates('[') && separates(']'),
        'a' <= c <= 'z' || 'A' <= c <= 'Z' || '0' <= c <= '9' ==> !separates(c),
        c as u32 > 0x3000 ==> !separates(c),
{
}

} // verus!
