//! Chunked, streamed-to-disk, resumable transcription.
//!
//! This drives every engine and every entry point: a file is never transcribed
//! in one unstoppable pass.
//!
//! * **Chunked**: about 5 minutes at a time, cut at the quietest nearby moment.
//! * **Streamed to disk**: each finished chunk is appended and fsynced, so the
//!   transcript is readable in another editor while the run is still going.
//! * **Checkpointed / resumable**: see [`checkpoint`]. A crash costs at most the
//!   chunk in flight.
//! * **Stoppable**: cancellation is checked between chunks.
//!
//! [`ChunkRun`] takes the decisions of a run; decoding, the engine and the disk
//! are asked by whoever drives it, in this order:
//!
//! 1. [`ChunkRun::opening_text`] is shown;
//! 2. [`ChunkRun::next`]: decode, stop, or finish;
//! 3. [`ChunkRun::cut`]: how much of the decoded audio is this chunk;
//! 4. the engine, and [`ChunkRun::chunk_text`] on its segments;
//! 5. append the text and flush it to the disk;
//! 6. [`ChunkRun::commit`], save the checkpoint, and show the text that
//!    [`text_to_show`] says;
//! 7. on finishing, append [`ChunkRun::footer`], show it, and clear the checkpoint.

pub mod checkpoint;
pub mod decode;
pub mod recovery;
pub mod split;

use vstd::prelude::*;
use vstd::slice::slice_subrange;
use vstd::string::*;

use crate::paths::FilePath;
use crate::picking;
use crate::state::CancelFlag;
use crate::text;
use crate::transcribe::hallucination;
use crate::transcribe::models;
use crate::transcribe::segment;
use crate::transcribe::segment::{SegmentView, TranscriptSegment};
use crate::{NANOS_PER_SAMPLE, SAMPLE_RATE};

use checkpoint::{Checkpoint, CheckpointView, ResumePlan};

verus! {

/// Work in 5-minute chunks: long enough that per-chunk model overhead is noise,
/// short enough that a crash costs at most a few minutes of recomputation.
pub const DEFAULT_CHUNK_NS: i64 = 300_000_000_000;

/// Extra audio decoded past the nominal chunk end, searched for a quiet spot to
/// cut on so chunk boundaries rarely land in the middle of a word: 20 seconds.
pub const SPLIT_SEARCH_NS: i64 = 20_000_000_000;

/// Ignore a trailing sliver of audio rather than feeding a near-empty chunk to
/// the model: a fifth of a second.
pub const MIN_TAIL_NS: i64 = 200_000_000;

/// The samples in that sliver.
pub const MIN_TAIL_SAMPLES: usize = 3_200;

/// Why a run ended without a whole transcript.
#[derive(Debug, Clone, PartialEq, Eq)]
pub enum TranscribeError {
    /// Cancellation is not a failure: progress is kept in the checkpoint and the
    /// transcript on disk is a complete prefix.
    Cancelled,
    Other(String),
}

impl TranscribeError {
    /// What the user is told.
    pub open spec fn words(self) -> Seq<char> {
        match self {
            TranscribeError::Cancelled => "transcription cancelled"@,
            TranscribeError::Other(message) => message@,
        }
    }

    /// What the user is told.
    pub fn message(&self) -> (r: String)
        ensures
            r@ == self.words(),
    {
        match self {
            TranscribeError::Cancelled => "transcription cancelled".to_owned(),
            TranscribeError::Other(message) => message.clone(),
        }
    }
}

/// How far a run has come.
#[derive(Debug, Clone, Copy, PartialEq, Eq, Structural)]
pub struct Progress {
    pub chunks_done: usize,
    pub done_ns: i64,
    pub total_ns: Option<i64>,
}

/// Everything a run reports as it goes. Every method has a default so a caller
/// that only wants text does not have to stub the rest.
pub trait ChunkObserver {
    fn on_status(&self, _message: &str) {
    }

    /// Fires once per chunk as it is appended to the file, plus once at startup
    /// with the resumed prefix so a continued file reads as one transcript
    /// rather than starting mid-meeting.
    fn on_text(&self, _text: &str) {
    }

    /// Fires *within* a chunk, per decode window. These are a preview: the audio
    /// they describe has not been written to disk yet, and a run stopped
    /// mid-chunk must discard them.
    fn on_segment(&self, _segment: &TranscriptSegment) {
    }

    fn on_progress(&self, _progress: Progress) {
    }
}

/// A no-op observer, for headless runs and tests.
#[derive(Debug, Clone, Copy, PartialEq, Eq, Structural)]
pub struct SilentObserver;

impl ChunkObserver for SilentObserver {

}

/// What a caller may choose about a run.
#[derive(Debug, PartialEq, Eq)]
pub struct ChunkOptions {
    pub chunk_ns: i64,
    /// Where the transcript goes. `None` resolves it from the checkpoint, which
    /// is what makes a resumed run append to the file it started.
    pub output_path: Option<FilePath>,
    pub cancel: Option<CancelFlag>,
}

impl Default for ChunkOptions {
    fn default() -> (r: Self)
        ensures
            r.chunk_ns == DEFAULT_CHUNK_NS,
            r.output_path is None,
            r.cancel is None,
    {
        ChunkOptions { chunk_ns: DEFAULT_CHUNK_NS, output_path: None, cancel: None }
    }
}

// ---------------------------------------------------------------------------
// The run
// ---------------------------------------------------------------------------

/// Whether what is done reaches the end of a recording of known length, but for
/// a sliver.
pub open spec fn reaches_end(next_start_ns: int, duration_ns: Option<i64>) -> bool {
    match duration_ns {
        Some(total) => next_start_ns >= total - MIN_TAIL_NS,
        None => false,
    }
}

/// How much audio is decoded at a time.
pub open spec fn decode_len(chunk_ns: int) -> int {
    if chunk_ns + SPLIT_SEARCH_NS <= i64::MAX {
        chunk_ns + SPLIT_SEARCH_NS
    } else {
        i64::MAX as int
    }
}

/// The sample at which a chunk ends by its length alone.
pub open spec fn nominal_end(chunk_ns: int) -> int {
    if chunk_ns > 0 {
        chunk_ns / NANOS_PER_SAMPLE as int
    } else {
        0
    }
}

/// How much of the decoded audio is the next chunk, or nothing where only a
/// sliver was left: up to the quiet spot after the nominal end, and all of it
/// where the recording ends before that.
pub open spec fn cut_of(audio: Seq<i16>, chunk_ns: int) -> Option<nat> {
    if audio.len() <= MIN_TAIL_SAMPLES {
        None
    } else if audio.len() > nominal_end(chunk_ns) {
        Some(split::split_index(audio, nominal_end(chunk_ns)) as nat)
    } else {
        Some(audio.len())
    }
}

/// The text that a chunk adds to the transcript: the segments the engine found
/// in it, but for those that lie in its silences.
pub open spec fn text_of_chunk(chunk: Seq<i16>, segments: Seq<SegmentView>, start_ns: int) -> Seq<
    char,
> {
    segment::text_of_segments(
        hallucination::outside_silence(
            segments,
            hallucination::silences(
                chunk,
                SAMPLE_RATE,
                hallucination::HALLUCINATION_SILENCE_NS,
            ),
            start_ns,
        ),
    )
}

/// The state once a chunk of `cut` samples is done and the transcript holds
/// `size` bytes.
pub open spec fn committed(state: CheckpointView, cut: int, size: nat) -> CheckpointView {
    CheckpointView {
        next_start_ns: state.next_start_ns + cut * NANOS_PER_SAMPLE,
        chunks_done: state.chunks_done + 1,
        text_bytes: size,
        ..state
    }
}

/// Whether no more is to come: all the audio that was decoded has been used up,
/// and nothing is known of any further.
pub open spec fn was_last(
    next_start_ns: int,
    cut: int,
    decoded: int,
    duration_ns: Option<i64>,
) -> bool {
    cut >= decoded && (duration_ns is None || reaches_end(next_start_ns, duration_ns))
}

/// What is shown of a text that has been written: the text, where there is any.
pub open spec fn showable<T>(text: Seq<T>) -> Option<Seq<T>> {
    if text.len() > 0 {
        Some(text)
    } else {
        None
    }
}

/// What is shown as a run begins, of what reading the transcript gave: the text of
/// earlier runs, where there have been such.
pub open spec fn opening<T>(chunks_done: nat, transcript: Option<Seq<T>>) -> Option<Seq<T>> {
    match transcript {
        Some(text) => if chunks_done > 0 {
            showable(text)
        } else {
            None
        },
        None => None,
    }
}

/// A chunk is never empty and never more than what was decoded, so a run always
/// moves on.
pub proof fn law_chunks_move_on(audio: Seq<i16>, chunk_ns: int)
    ensures
        match cut_of(audio, chunk_ns) {
            Some(cut) => 0 < cut <= audio.len(),
            None => audio.len() <= MIN_TAIL_SAMPLES,
        },
{
    split::lemma_split_index(audio, nominal_end(chunk_ns));
}

/// What a run does next.
#[derive(Debug, Clone, Copy, PartialEq, Eq, Structural)]
pub enum NextStep {
    /// The recording's end is reached: close the transcript.
    Finish,
    /// Stop; everything done so far is kept.
    Cancelled,
    /// Decode this stretch of the recording.
    Decode { start_ns: i64, len_ns: i64 },
}

/// One run over one recording.
#[derive(Debug, Clone, PartialEq, Eq)]
pub struct ChunkRun {
    pub chunk_ns: i64,
    pub duration_ns: Option<i64>,
    pub resumed_from_ns: i64,
    pub state: Checkpoint,
}

impl ChunkRun {
    /// A run that starts where `plan` says, over a recording of `duration_ns`,
    /// where that is known.
    pub fn begin(plan: ResumePlan, chunk_ns: i64, duration_ns: Option<i64>) -> (r: Self)
        ensures
            r.chunk_ns == chunk_ns,
            r.duration_ns == duration_ns,
            r.resumed_from_ns == plan@.state.next_start_ns,
            r.state@ == plan@.state,
    {
        let state: Checkpoint = match plan {
            ResumePlan::Resume { state } => state,
            ResumePlan::Restart { state } => state,
        };
        ChunkRun { chunk_ns, duration_ns, resumed_from_ns: state.next_start_ns, state }
    }

    /// How far the run has come.
    pub fn progress(&self) -> (r: Progress)
        ensures
            r.chunks_done == self.state.chunks_done,
            r.done_ns == self.state.next_start_ns,
            r.total_ns == self.duration_ns,
    {
        Progress {
            chunks_done: self.state.chunks_done,
            done_ns: self.state.next_start_ns,
            total_ns: self.duration_ns,
        }
    }

    /// What to show as the run begins, of what reading the transcript gave: the
    /// text that it goes on from, so that a continued file reads as one transcript
    /// rather than starting mid-meeting.
    pub fn opening_text<'a>(&self, transcript: Option<&'a str>) -> (r: Option<&'a str>)
        ensures
            models::str_view(r) == opening(self.state@.chunks_done, models::str_view(transcript)),
    {
        match transcript {
            Some(text) if self.state.chunks_done > 0 => text_to_show(text),
            _ => None,
        }
    }

    /// How far the run has come as it begins, where that is anywhere.
    pub fn opening_progress(&self) -> (r: Option<Progress>)
        ensures
            match r {
                Some(progress) => self.state.chunks_done > 0 && progress == (Progress {
                    chunks_done: self.state.chunks_done,
                    done_ns: self.state.next_start_ns,
                    total_ns: self.duration_ns,
                }),
                None => self.state.chunks_done == 0,
            },
    {
        if self.state.chunks_done > 0 {
            Some(self.progress())
        } else {
            None
        }
    }

    fn at_end(&self) -> (r: bool)
        ensures
            r == reaches_end(self.state@.next_start_ns, self.duration_ns),
    {
        match self.duration_ns {
            Some(total) => self.state.next_start_ns as i128 >= total as i128 - MIN_TAIL_NS as i128,
            None => false,
        }
    }

    /// What to do next. The end comes first: a run that is whole is finished
    /// even where it was asked to stop; and stopping comes before any decoding.
    pub fn next(&self, cancelled: bool) -> (r: NextStep)
        ensures
            r == (if reaches_end(self.state@.next_start_ns, self.duration_ns) {
                NextStep::Finish
            } else if cancelled {
                NextStep::Cancelled
            } else {
                NextStep::Decode {
                    start_ns: self.state.next_start_ns,
                    len_ns: decode_len(self.chunk_ns as int) as i64,
                }
            }),
    {
        if self.at_end() {
            return NextStep::Finish;
        }
        if cancelled {
            return NextStep::Cancelled;
        }
        let len_ns: i64 = if self.chunk_ns <= i64::MAX - SPLIT_SEARCH_NS {
            self.chunk_ns + SPLIT_SEARCH_NS
        } else {
            i64::MAX
        };
        NextStep::Decode { start_ns: self.state.next_start_ns, len_ns }
    }

    /// How many samples of the decoded `audio` are the next chunk; `None` where
    /// only a sliver was left, and the run is finished.
    pub fn cut(&self, audio: &[i16]) -> (r: Option<usize>)
        ensures
            match r {
                Some(cut) => cut_of(audio@, self.chunk_ns as int) == Some(cut as nat),
                None => cut_of(audio@, self.chunk_ns as int) is None,
            },
    {
        let n: usize = audio.len();
        if n <= MIN_TAIL_SAMPLES {
            return None;
        }
        let nominal: u64 = if self.chunk_ns > 0 {
            (self.chunk_ns / NANOS_PER_SAMPLE) as u64
        } else {
            0
        };
        if n as u64 > nominal {
            proof {
                split::lemma_split_index(audio@, nominal as int);
            }
            Some(split::find_split_index(audio, nominal as usize))
        } else {
            Some(n)
        }
    }

    /// The text that the chunk, the first `cut` samples of `audio`, adds to the
    /// transcript, from the segments an engine found in it. Text made up for a
    /// stretch where nobody spoke is left out, whichever engine it came from.
    pub fn chunk_text(&self, audio: &[i16], cut: usize, segments: Vec<TranscriptSegment>) -> (r:
        String)
        requires
            cut <= audio@.len(),
        ensures
            r@ == text_of_chunk(
                audio@.take(cut as int),
                segment::segment_views(segments@),
                self.state@.next_start_ns,
            ),
    {
        let chunk: &[i16] = slice_subrange(audio, 0, cut);
        assert(chunk@ == audio@.take(cut as int));
        let spans: Vec<(i128, i128)> = hallucination::silent_spans(
            chunk,
            SAMPLE_RATE,
            hallucination::HALLUCINATION_SILENCE_NS,
        );
        let kept: Vec<TranscriptSegment> = hallucination::drop_segments_in_silence(
            segments,
            &spans,
            self.state.next_start_ns,
        );
        segment::segments_to_text(&kept)
    }

    /// Account for a chunk of `cut` samples, of `decoded` that were decoded,
    /// once its text is on disk and the transcript holds `size` bytes. The
    /// checkpoint is to be saved with the new state. Says whether this was the
    /// last chunk.
    ///
    /// Order matters: the text hits the disk first, and only a chunk the
    /// checkpoint has accounted for is treated as done. A crash in between
    /// leaves a tail past `text_bytes`, which the next run truncates and redoes;
    /// never a silently missing stretch of the meeting.
    pub fn commit(&mut self, cut: usize, decoded: usize, size: u64) -> (r: bool)
        requires
            old(self).state.next_start_ns + cut * NANOS_PER_SAMPLE <= i64::MAX,
            old(self).state.chunks_done < usize::MAX,
        ensures
            final(self).state@ == committed(old(self).state@, cut as int, size as nat),
            final(self).chunk_ns == old(self).chunk_ns,
            final(self).duration_ns == old(self).duration_ns,
            final(self).resumed_from_ns == old(self).resumed_from_ns,
            r == was_last(
                final(self).state@.next_start_ns,
                cut as int,
                decoded as int,
                old(self).duration_ns,
            ),
    {
        let heard: i128 = cut as i128 * NANOS_PER_SAMPLE as i128;
        self.state.next_start_ns = (self.state.next_start_ns as i128 + heard) as i64;
        self.state.chunks_done += 1;
        self.state.text_bytes = size;
        cut >= decoded && (self.duration_ns.is_none() || self.at_end())
    }

    /// What closes the transcript, `run_ns` after the run began.
    ///
    /// Only a run that reached the end writes it, and only after the last chunk
    /// is on disk, so its presence means "this transcript is whole", and a
    /// cancelled run leaves a file the next run can still resume into.
    pub fn footer(&self, run_ns: i64) -> (r: String)
        ensures
            r@ == seq!['\n'] + summary_text(
                match self.duration_ns {
                    Some(total) => total as int,
                    None => self.state@.next_start_ns,
                },
                run_ns as int,
                self.resumed_from_ns as int,
            ),
    {
        let audio_ns: i64 = match self.duration_ns {
            Some(total) => total,
            None => self.state.next_start_ns,
        };
        let mut r: String = String::new();
        r.push('\n');
        r.append(summary_line(audio_ns, run_ns, self.resumed_from_ns).as_str());
        r
    }
}

/// What to show of a text that has been written: nothing where it is empty.
pub fn text_to_show<'a>(text: &'a str) -> (r: Option<&'a str>)
    ensures
        models::str_view(r) == showable(text@),
{
    if text.is_empty() {
        None
    } else {
        Some(text)
    }
}

// ---------------------------------------------------------------------------
// The footer
// ---------------------------------------------------------------------------

/// Wall-clock durations, read at a glance: `45s`, `4m32s`, `3h12m`.
pub open spec fn elapsed_text(ns: int) -> Seq<char> {
    let total = segment::whole_seconds(ns);
    if total < 60 {
        text::decimal_of(total) + "s"@
    } else if total < 3600 {
        text::decimal_of(total / 60) + "m"@ + text::pad2_of(total % 60) + "s"@
    } else {
        text::decimal_of(total / 3600) + "h"@ + text::pad2_of((total % 3600) / 60) + "m"@
    }
}

/// What the footer says, part by part.
pub open spec fn summary_parts(audio_ns: int, run_ns: int, resumed_from_ns: int) -> Seq<Seq<char>> {
    let covered = if audio_ns > 0 {
        seq![segment::hms(segment::whole_seconds(audio_ns)) + " of audio"@]
    } else {
        Seq::empty()
    };
    if resumed_from_ns > 0 {
        covered.push(
            "transcribed in "@ + elapsed_text(run_ns) + " this run (resumed from "@ + segment::hms(
                segment::whole_seconds(resumed_from_ns),
            ) + ")"@,
        )
    } else {
        covered.push("transcribed in "@ + elapsed_text(run_ns))
    }
}

/// The footer closing a finished transcript.
pub open spec fn summary_text(audio_ns: int, run_ns: int, resumed_from_ns: int) -> Seq<char> {
    "----- Complete: "@ + text::joined(
        summary_parts(audio_ns, run_ns, resumed_from_ns),
        " · "@,
    ) + " -----\n"@
}

proof fn lemma_clock_on_one_line(total: nat)
    ensures
        text::free_of(segment::hms(total), '\n'),
{
    text::lemma_number_on_one_line(total / 3600);
    text::lemma_number_on_one_line((total % 3600) / 60);
    text::lemma_number_on_one_line(total % 60);
}

proof fn lemma_elapsed_on_one_line(ns: int)
    ensures
        text::free_of(elapsed_text(ns), '\n'),
{
    let total = segment::whole_seconds(ns);
    reveal_strlit("s");
    reveal_strlit("m");
    reveal_strlit("h");
    text::lemma_number_on_one_line(total);
    text::lemma_number_on_one_line(total / 60);
    text::lemma_number_on_one_line(total % 60);
    text::lemma_number_on_one_line(total / 3600);
    text::lemma_number_on_one_line((total % 3600) / 60);
}

/// The footer is one line, which is ended, and it begins with a dash.
pub proof fn lemma_summary_is_one_line(audio_ns: int, run_ns: int, resumed_from_ns: int)
    ensures
        ({
            let summary = summary_text(audio_ns, run_ns, resumed_from_ns);
            &&& summary.len() > 1
            &&& summary[0] == '-'
            &&& summary.last() == '\n'
            &&& text::free_of(summary.drop_last(), '\n')
        }),
{
    reveal_strlit("----- Complete: ");
    reveal_strlit(" of audio");
    reveal_strlit("transcribed in ");
    reveal_strlit(" this run (resumed from ");
    reveal_strlit(")");
    reveal_strlit(" · ");
    reveal_strlit(" -----");
    reveal_strlit(" -----\n");
    let parts = summary_parts(audio_ns, run_ns, resumed_from_ns);
    lemma_clock_on_one_line(segment::whole_seconds(audio_ns));
    lemma_clock_on_one_line(segment::whole_seconds(resumed_from_ns));
    lemma_elapsed_on_one_line(run_ns);
    let covered = segment::hms(segment::whole_seconds(audio_ns)) + " of audio"@;
    text::lemma_free_add(segment::hms(segment::whole_seconds(audio_ns)), " of audio"@, '\n');
    let took = "transcribed in "@ + elapsed_text(run_ns);
    text::lemma_free_add("transcribed in "@, elapsed_text(run_ns), '\n');
    let from = segment::hms(segment::whole_seconds(resumed_from_ns));
    text::lemma_free_add(took, " this run (resumed from "@, '\n');
    text::lemma_free_add(took + " this run (resumed from "@, from, '\n');
    text::lemma_free_add(took + " this run (resumed from "@ + from, ")"@, '\n');
    let last = parts.last();
    assert(text::free_of(last, '\n'));
    let said = text::joined(parts, " · "@);
    if parts.len() > 1 {
        assert(parts.drop_last() == seq![covered]);
        assert(text::joined(seq![covered], " · "@) == covered);
        text::lemma_free_add(covered, " · "@, '\n');
        text::lemma_free_add(covered + " · "@, last, '\n');
    }
    assert(text::free_of(said, '\n'));
    text::lemma_free_add("----- Complete: "@, said, '\n');
    text::lemma_free_add("----- Complete: "@ + said, " -----"@, '\n');
    assert(" -----\n"@ == " -----"@.push('\n'));
    assert(summary_text(audio_ns, run_ns, resumed_from_ns).drop_last() == "----- Complete: "@ + said
        + " -----"@);
}

/// `HH:MM:SS`, as the segment timestamps in the transcript body.
fn format_clock(ns: i64) -> (r: String)
    ensures
        r@ == segment::hms(segment::whole_seconds(ns as int)),
{
    segment::format_timestamp(ns)
}

/// Wall-clock durations, read at a glance: `45s`, `4m32s`, `3h12m`.
pub fn format_elapsed(ns: i64) -> (r: String)
    ensures
        r@ == elapsed_text(ns as int),
{
    let total: u64 = segment::seconds_in(ns);
    if total < 60 {
        let mut r: String = text::decimal(total);
        r.append("s");
        r
    } else if total < 3600 {
        let mut r: String = text::decimal(total / 60);
        r.append("m");
        r.append(text::pad2(total % 60).as_str());
        r.append("s");
        r
    } else {
        let mut r: String = text::decimal(total / 3600);
        r.append("h");
        r.append(text::pad2((total % 3600) / 60).as_str());
        r.append("m");
        r
    }
}

/// The footer closing a finished transcript.
///
/// Records how much audio it covers and how long the machine took, which is the
/// question anyone asks after leaving a long recording to run. Only the time
/// spent in *this* run is knowable (earlier runs' wall time is not carried in
/// the checkpoint), so a resumed file says so rather than reporting a total it
/// cannot vouch for.
pub fn summary_line(audio_ns: i64, run_ns: i64, resumed_from_ns: i64) -> (r: String)
    ensures
        r@ == summary_text(audio_ns as int, run_ns as int, resumed_from_ns as int),
{
    let mut parts: Vec<String> = Vec::new();
    if audio_ns > 0 {
        let mut covered: String = format_clock(audio_ns);
        covered.append(" of audio");
        parts.push(covered);
    }
    let ghost before = text::views(parts@);
    assert(before == (if audio_ns > 0 {
        seq![segment::hms(segment::whole_seconds(audio_ns as int)) + " of audio"@]
    } else {
        Seq::empty()
    }));
    let mut took: String = "transcribed in ".to_owned();
    took.append(format_elapsed(run_ns).as_str());
    if resumed_from_ns > 0 {
        took.append(" this run (resumed from ");
        took.append(format_clock(resumed_from_ns).as_str());
        took.append(")");
    }
    let ghost said = took@;
    parts.push(took);
    assert(text::views(parts@) == before.push(said));
    let mut r: String = "----- Complete: ".to_owned();
    r.append(text::join(&parts, " · ").as_str());
    r.append(" -----\n");
    r
}

/// Whether a preview segment should be shown to the user.
///
/// The live preview goes straight to the UI without passing through the
/// post-chunk filtering, so it needs the canned-phrase check applied here too;
/// otherwise an invented outro flashes on screen before being dropped from the
/// text that lands on disk.
pub fn preview_is_worth_showing(text: &str) -> (r: bool)
    ensures
        r == !hallucination::hallucinated(text@),
{
    !hallucination::is_hallucination(text)
}

// ---------------------------------------------------------------------------
// What a run is for
// ---------------------------------------------------------------------------

/// A duration is read at a glance: seconds below a minute, minutes and seconds
/// below an hour, hours and minutes from then on.
pub proof fn law_durations_read_at_a_glance(hours: nat, minutes: nat, seconds: nat)
    requires
        minutes < 60,
        seconds < 60,
    ensures
        hours == 0 && minutes == 0 ==> elapsed_text(
            seconds as int * 1_000_000_000,
        ) == text::decimal_of(
            seconds,
        ) + "s"@,
        hours == 0 && minutes > 0 ==> elapsed_text(
            (minutes * 60 + seconds) as int * 1_000_000_000,
        )
            == text::decimal_of(minutes) + "m"@ + text::pad2_of(seconds) + "s"@,
        hours > 0 ==> elapsed_text(
            (hours * 3600 + minutes * 60 + seconds) as int * 1_000_000_000,
        )
            == text::decimal_of(hours) + "h"@ + text::pad2_of(minutes) + "m"@,
{
    let total = hours * 3600 + minutes * 60 + seconds;
    assert(segment::whole_seconds(total as int * 1_000_000_000) == total);
}

/// A chunk takes the samples of its length, 16000 a second, and then up to the
/// quiet spot that is searched for behind that; all of them where there are no more
/// than that; and none where only a fifth of a second or less is left.
pub proof fn law_chunks_have_their_length(audio: Seq<i16>, chunk_ns: int)
    requires
        0 <= chunk_ns,
    ensures
        audio.len() <= 3200 ==> cut_of(audio, chunk_ns) is None,
        audio.len() > 3200 && audio.len() * 62_500 <= chunk_ns ==> cut_of(audio, chunk_ns) == Some(
            audio.len(),
        ),
        audio.len() > 3200 && audio.len() * 62_500 > chunk_ns ==> (cut_of(
            audio,
            chunk_ns,
        ) matches Some(cut) && chunk_ns < cut * 62_500 && cut <= audio.len()),
        audio.len() > 3200 && (audio.len() - 1600) * 62_500 >= chunk_ns ==> exists|from: int|
            from * 62_500 <= chunk_ns < (from + 1) * 62_500 && cut_of(audio, chunk_ns) == Some(
                #[trigger] split::split_index(audio, from) as nat,
            ),
{
    split::lemma_split_index(audio, nominal_end(chunk_ns));
    let from = nominal_end(chunk_ns);
    assert(from * 62_500 <= chunk_ns < (from + 1) * 62_500);
    assert(split::split_index(audio, from) >= 0);
}

/// A run is at its end where no more than a fifth of a second is left of a
/// recording whose length is known; else it decodes a chunk's length and twenty
/// seconds more.
pub proof fn law_where_a_run_ends(next_start_ns: int, total_ns: i64, chunk_ns: int)
    ensures
        reaches_end(next_start_ns, Some(total_ns)) <==> total_ns - next_start_ns <= 200_000_000,
        !reaches_end(next_start_ns, None),
        chunk_ns + 20_000_000_000 <= i64::MAX ==> decode_len(chunk_ns) == chunk_ns + 20_000_000_000,
{
}

/// A chunk without silence keeps every line that was found in it: where every
/// sample is, in absolute value, at least a fiftieth of full scale, the text is that
/// of all its segments.
pub proof fn law_speech_is_written(chunk: Seq<i16>, segments: Seq<SegmentView>, start_ns: int)
    requires
        forall|i: int| 0 <= i < chunk.len() ==> (#[trigger] chunk[i] <= -656 || chunk[i] >= 656),
    ensures
        text_of_chunk(chunk, segments, start_ns) == segment::text_of_segments(segments),
{
    let spans = hallucination::silences(
        chunk,
        SAMPLE_RATE,
        hallucination::HALLUCINATION_SILENCE_NS,
    );
    hallucination::lemma_loud_audio_has_no_silence(
        chunk,
        SAMPLE_RATE,
        hallucination::HALLUCINATION_SILENCE_NS,
    );
    hallucination::lemma_nothing_to_drop(segments, spans, start_ns);
}

/// What is said in a pause is left out: where every sample of a chunk, from one
/// tenth of a second to another at least twenty later, is below a fiftieth of full
/// scale, a segment that lies within is not among those that are written.
pub proof fn law_what_is_said_in_a_pause_is_left_out(
    chunk: Seq<i16>,
    segments: Seq<SegmentView>,
    start_ns: int,
    begin: int,
    end: int,
)
    requires
        0 <= begin,
        begin + 20 <= end,
        end * 1600 <= chunk.len(),
        forall|i: int| begin * 1600 <= i < end * 1600 ==> -655 <= #[trigger] chunk[i] <= 655,
    ensures
        exists|kept: Seq<SegmentView>|
            text_of_chunk(chunk, segments, start_ns) == #[trigger] segment::text_of_segments(kept)
                && forall|k: int|
                0 <= k < kept.len() ==> segments.contains(#[trigger] kept[k]) && !(kept[k].start_ns
                    - start_ns >= begin * 100_000_000 && kept[k].end_ns - start_ns <= end
                    * 100_000_000),
{
    let spans = hallucination::silences(
        chunk,
        SAMPLE_RATE,
        hallucination::HALLUCINATION_SILENCE_NS,
    );
    hallucination::law_pause_is_silence(
        chunk,
        SAMPLE_RATE,
        hallucination::HALLUCINATION_SILENCE_NS,
        begin,
        end,
    );
    assert(begin * 1600 * 1_000_000_000 / 16_000 == begin * 100_000_000);
    assert(end * 1600 * 1_000_000_000 / 16_000 == end * 100_000_000);
    let j = choose|j: int|
        0 <= j < spans.len() && (#[trigger] spans[j]).0 <= begin * 100_000_000 && end * 100_000_000
            <= spans[j].1;
    let kept = hallucination::outside_silence(segments, spans, start_ns);
    assert forall|k: int| 0 <= k < kept.len() implies segments.contains(#[trigger] kept[k]) && !(
    kept[k].start_ns - start_ns >= begin * 100_000_000 && kept[k].end_ns - start_ns <= end
        * 100_000_000) by {
        let keep = |s: SegmentView| !hallucination::in_silence(s, spans, start_ns);
        assert(kept.contains(kept[k]));
        segments.lemma_filter_contains_rev(keep, kept[k]);
        segments.lemma_filter_pred(keep, k);
        if kept[k].start_ns - start_ns >= begin * 100_000_000 && kept[k].end_ns - start_ns <= end
            * 100_000_000 {
            assert(spans[j].0 <= kept[k].start_ns - start_ns);
        }
    }
    assert(text_of_chunk(chunk, segments, start_ns) == segment::text_of_segments(kept));
}

/// The footer says how much audio it covers, where that is any, and how long this
/// run took; and where the run went on from an earlier one, that and from where.
pub proof fn law_footer_tells_what_was_done(audio_ns: int, run_ns: int, resumed_from_ns: int)
    ensures
        ({
            let covered = segment::hms(segment::whole_seconds(audio_ns)) + " of audio · "@;
            let took = "transcribed in "@ + elapsed_text(run_ns);
            let from = " this run (resumed from "@ + segment::hms(
                segment::whole_seconds(resumed_from_ns),
            ) + ")"@;
            summary_text(audio_ns, run_ns, resumed_from_ns) == "----- Complete: "@ + (if audio_ns
                >= 1 {
                covered
            } else {
                Seq::empty()
            }) + took + (if resumed_from_ns >= 1 {
                from
            } else {
                Seq::empty()
            }) + " -----\n"@
        }),
{
    reveal_strlit(" of audio");
    reveal_strlit(" · ");
    reveal_strlit(" of audio · ");
    assert(" of audio · "@ == " of audio"@ + " · "@);
    let parts = summary_parts(audio_ns, run_ns, resumed_from_ns);
    let clock = segment::hms(segment::whole_seconds(audio_ns));
    let took = "transcribed in "@ + elapsed_text(run_ns);
    let from = " this run (resumed from "@ + segment::hms(segment::whole_seconds(resumed_from_ns))
        + ")"@;
    let last = parts.last();
    let later = if resumed_from_ns >= 1 {
        from
    } else {
        Seq::empty()
    };
    assert(last == took + later);
    if audio_ns >= 1 {
        assert(parts.drop_last() == seq![clock + " of audio"@]);
        assert(text::joined(seq![clock + " of audio"@], " · "@) == clock + " of audio"@);
        assert(text::joined(parts, " · "@) == clock + " of audio"@ + " · "@ + last);
        assert(clock + " of audio"@ + " · "@ + last == clock + (" of audio"@ + " · "@) + last);
        assert("----- Complete: "@ + (clock + " of audio · "@ + (took + later)) + " -----\n"@
            == "----- Complete: "@ + (clock + " of audio · "@) + took + later + " -----\n"@);
    } else {
        assert(parts.len() == 1);
        assert(text::joined(parts, " · "@) == last);
        assert("----- Complete: "@ + (took + later) + " -----\n"@ == "----- Complete: "@
            + Seq::<char>::empty() + took + later + " -----\n"@);
    }
}

/// Only a long pause drops text: a segment that is not written lies within twenty
/// tenths of a second or more, one after another, in each of which the absolute
/// values of the 1600 samples are, on the mean, below a fiftieth of full scale.
pub proof fn law_only_a_long_pause_drops_text(
    chunk: Seq<i16>,
    segments: Seq<SegmentView>,
    start_ns: int,
)
    ensures
        exists|kept: Seq<SegmentView>|
            text_of_chunk(chunk, segments, start_ns) == #[trigger] segment::text_of_segments(kept)
                && forall|i: int|
                0 <= i < segments.len() ==> kept.contains(#[trigger] segments[i]) || exists|
                    begin: int,
                    end: int,
                |
                    #[trigger] pauses(chunk, begin, end) && begin * 100_000_000 <= segments[i].start_ns
                        - start_ns && segments[i].end_ns - start_ns <= end * 100_000_000,
{
    let min = hallucination::HALLUCINATION_SILENCE_NS;
    let spans = hallucination::silences(chunk, SAMPLE_RATE, min);
    let kept = hallucination::outside_silence(segments, spans, start_ns);
    let keep = |s: SegmentView| !hallucination::in_silence(s, spans, start_ns);
    hallucination::law_silences(chunk, SAMPLE_RATE, min);
    assert forall|i: int| 0 <= i < segments.len() implies kept.contains(#[trigger] segments[i])
        || exists|begin: int, end: int|
        #[trigger] pauses(chunk, begin, end) && begin * 100_000_000 <= segments[i].start_ns - start_ns
            && segments[i].end_ns - start_ns <= end * 100_000_000 by {
        let s = segments[i];
        if keep(s) {
            picking::lemma_filter_picks(segments, keep);
            let wanted = |i: int| keep(segments[i]);
            picking::lemma_positions(segments.len(), wanted);
            let chosen = picking::positions(segments.len(), wanted);
            assert(wanted(i));
            let k = chosen.index_of(i);
            assert(kept[k] == segments[chosen[k]]);
        } else {
            let k = choose|k: int|
                0 <= k < spans.len() && (#[trigger] spans[k]).0 <= s.start_ns - start_ns && s.end_ns
                    - start_ns <= spans[k].1;
            let n = chunk.len() / 1600;
            let (begin, end) = choose|begin: int, end: int|
                #[trigger] hallucination::whole_run(chunk, 1600, n, begin, end)
                    && hallucination::lasts(begin, end, 1600, SAMPLE_RATE, min) && spans[k] == (
                    hallucination::heard_at(begin, 1600, SAMPLE_RATE),
                    hallucination::heard_at(end, 1600, SAMPLE_RATE),
                );
            assert(begin * 1600 * 1_000_000_000 / 16_000 == begin * 100_000_000);
            assert(end * 1600 * 1_000_000_000 / 16_000 == end * 100_000_000);
            assert forall|f: int| begin <= f < end implies split::sum_of_sizes(
                #[trigger] chunk.subrange(f * 1600, f * 1600 + 1600),
            ) * 50 < 32768 * 1600 by {
                assert(hallucination::quiet(chunk, 1600, f));
                hallucination::law_silence_is_a_fiftieth_of_full_scale(chunk, 1600, f);
            }
            assert(pauses(chunk, begin, end));
        }
    }
    assert(text_of_chunk(chunk, segments, start_ns) == segment::text_of_segments(kept));
}

/// Whether the tenths of a second `begin` to `end` of a chunk are a long pause:
/// twenty at least, and in each the absolute values of the 1600 samples are, on the
/// mean, below a fiftieth of full scale.
pub open spec fn pauses(chunk: Seq<i16>, begin: int, end: int) -> bool {
    &&& 0 <= begin
    &&& begin + 20 <= end
    &&& end * 1600 <= chunk.len()
    &&& forall|f: int|
        begin <= f < end ==> split::sum_of_sizes(
            #[trigger] chunk.subrange(f * 1600, f * 1600 + 1600),
        ) * 50 < 32768 * 1600
}

} // verus!
