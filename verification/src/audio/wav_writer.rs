//! Appending mono 16 kHz audio to a WAV, pinned to wall-clock time.
//!
//! The single most load-bearing piece of the recording path. The naive thing,
//! writing every buffer end to end, quietly desynchronises the two tracks. The
//! microphone runs on its device's clock, the system mix on the system's,
//! neither is exactly 16000 Hz, and either side can drop a buffer when the
//! machine is busy transcribing. Each of those shifts everything after it, and
//! the drift shows up as the "Me" and "Meeting" lines sliding apart over a long
//! meeting: exactly the thing the merged transcript depends on.
//!
//! So *position, not arrival order*, decides where audio lands: each block is
//! written where the wall clock says it belongs, with silence padding a gap and
//! frames dropped from a block that would run ahead. Both tracks share one `t0`,
//! so both stay locked to the same timeline and therefore to each other.
//!
//! Here stands where each block goes and what the header says; the file is
//! written by whoever holds it.

use vstd::prelude::*;
use vstd::slice::slice_subrange;

use crate::chunking::decode;
use crate::{NANOS_PER_SAMPLE, SAMPLE_RATE};

verus! {

/// How many frames a track may drift from wall-clock time before the writer
/// corrects it: a tenth of a second. Small enough that the two transcripts stay
/// aligned to well within a spoken word, large enough that ordinary callback
/// jitter isn't constantly "corrected".
pub const RESYNC_TOLERANCE: i64 = 1_600;

/// The length of the header in front of the samples, in bytes.
pub const WAV_HEADER_LEN: usize = 44;

// ---------------------------------------------------------------------------
// Bytes
// ---------------------------------------------------------------------------

/// The four bytes of a number, the lowest first.
pub open spec fn le4(n: nat) -> Seq<u8> {
    seq![
        (n % 256) as u8,
        (n / 256 % 256) as u8,
        (n / 65536 % 256) as u8,
        (n / 16777216 % 256) as u8,
    ]
}

/// The two bytes of a number, the lower first.
pub open spec fn le2(n: nat) -> Seq<u8> {
    seq![(n % 256) as u8, (n / 256 % 256) as u8]
}

/// A 44-byte canonical PCM WAV header for mono 16-bit samples, with `data_len`
/// bytes of them to follow.
pub open spec fn header_of(data_len: u32) -> Seq<u8> {
    // "RIFF", the length of what follows, "WAVE"
    seq![82u8, 73, 70, 70] + le4(((36 + data_len) % 0x1_0000_0000) as nat)
        + seq![87u8, 65, 86, 69]
    // "fmt ", 16 bytes of it: PCM, one channel, the rate, bytes per second,
    // bytes per frame, bits per sample
         + seq![102u8, 109, 116, 32] + le4(16) + le2(1) + le2(1) + le4(SAMPLE_RATE as nat) + le4(
        (SAMPLE_RATE * 2) as nat,
    ) + le2(2) + le2(16)
    // "data", and its length
         + seq![100u8, 97, 116, 97] + le4(data_len as nat)
}

fn push4(bytes: &mut Vec<u8>, n: u32)
    ensures
        final(bytes)@ == old(bytes)@ + le4(n as nat),
{
    bytes.push((n % 256) as u8);
    bytes.push((n / 256 % 256) as u8);
    bytes.push((n / 65536 % 256) as u8);
    bytes.push((n / 16777216 % 256) as u8);
    assert(bytes@ == old(bytes)@ + le4(n as nat));
}

fn push2(bytes: &mut Vec<u8>, n: u16)
    ensures
        final(bytes)@ == old(bytes)@ + le2(n as nat),
{
    bytes.push((n % 256) as u8);
    bytes.push((n / 256 % 256) as u8);
    assert(bytes@ == old(bytes)@ + le2(n as nat));
}

fn push_tag(bytes: &mut Vec<u8>, a: u8, b: u8, c: u8, d: u8)
    ensures
        final(bytes)@ == old(bytes)@ + seq![a, b, c, d],
{
    bytes.push(a);
    bytes.push(b);
    bytes.push(c);
    bytes.push(d);
    assert(bytes@ == old(bytes)@ + seq![a, b, c, d]);
}

/// A 44-byte canonical PCM WAV header for mono 16-bit at [`SAMPLE_RATE`]. A
/// length too great for the format's 32 bits wraps around; most players cope.
pub fn wav_header(data_len: u32) -> (r: Vec<u8>)
    ensures
        r@ == header_of(data_len),
        r@.len() == WAV_HEADER_LEN,
{
    let total: u32 = ((36u64 + data_len as u64) % 0x1_0000_0000u64) as u32;
    let mut r: Vec<u8> = Vec::new();
    push_tag(&mut r, 82, 73, 70, 70);
    push4(&mut r, total);
    push_tag(&mut r, 87, 65, 86, 69);
    push_tag(&mut r, 102, 109, 116, 32);
    push4(&mut r, 16);
    push2(&mut r, 1);
    push2(&mut r, 1);
    push4(&mut r, SAMPLE_RATE);
    push4(&mut r, SAMPLE_RATE * 2);
    push2(&mut r, 2);
    push2(&mut r, 16);
    push_tag(&mut r, 100, 97, 116, 97);
    push4(&mut r, data_len);
    assert(r@ == header_of(data_len));
    r
}

/// A sample as a number without a sign, as its two bytes hold it.
pub open spec fn unsigned(sample: i16) -> nat {
    if sample < 0 {
        (sample + 65536) as nat
    } else {
        sample as nat
    }
}

/// Raw little-endian signed 16-bit PCM.
pub open spec fn pcm_of(samples: Seq<i16>) -> Seq<u8> {
    Seq::new(
        2 * samples.len(),
        |i: int|
            if i % 2 == 0 {
                (unsigned(samples[i / 2]) % 256) as u8
            } else {
                (unsigned(samples[i / 2]) / 256) as u8
            },
    )
}

/// Samples as raw little-endian signed 16-bit PCM.
pub fn pcm_bytes(samples: &[i16]) -> (r: Vec<u8>)
    ensures
        r@ == pcm_of(samples@),
{
    let mut r: Vec<u8> = Vec::new();
    for i in 0..samples.len()
        invariant
            r@ == pcm_of(samples@.take(i as int)),
    {
        let ghost before = r@;
        let n: u32 = if samples[i] < 0 {
            (samples[i] as i32 + 65536) as u32
        } else {
            samples[i] as u32
        };
        r.push((n % 256) as u8);
        r.push((n / 256) as u8);
        let ghost now = pcm_of(samples@.take(i + 1));
        assert forall|k: int| 0 <= k < now.len() implies r@[k] == now[k] by {
            if k < 2 * i {
                assert(before[k] == now[k]);
            }
        }
        assert(r@ == now);
    }
    assert(samples@.take(samples@.len() as int) == samples@);
    r
}

/// What is written as PCM reads back as the samples it was.
pub proof fn law_pcm_reads_back(samples: Seq<i16>)
    ensures
        pcm_of(samples).len() / 2 == samples.len(),
        forall|i: int|
            0 <= i < samples.len() ==> decode::le16(
                #[trigger] pcm_of(samples)[2 * i],
                pcm_of(samples)[2 * i + 1],
            ) == samples[i],
{
    assert forall|i: int| 0 <= i < samples.len() implies decode::le16(
        #[trigger] pcm_of(samples)[2 * i],
        pcm_of(samples)[2 * i + 1],
    ) == samples[i] by {
        let n = unsigned(samples[i]);
        assert((2 * i) / 2 == i && (2 * i) % 2 == 0);
        assert((2 * i + 1) / 2 == i && (2 * i + 1) % 2 == 1);
        assert(pcm_of(samples)[2 * i] == (n % 256) as u8);
        assert(pcm_of(samples)[2 * i + 1] == (n / 256) as u8);
        assert(n < 65536);
        assert(n == n % 256 + 256 * (n / 256));
    }
}

// ---------------------------------------------------------------------------
// Placing blocks
// ---------------------------------------------------------------------------

/// The frame at which audio captured at `started_at` belongs, on a timeline that
/// begins at `t0`.
pub open spec fn expected_frame(t0: int, started_at: int) -> int {
    if started_at > t0 {
        (started_at - t0) / NANOS_PER_SAMPLE as int
    } else {
        0
    }
}

/// Where a block goes: behind `silence` frames of silence, without its first
/// `skip` frames. Nothing of it is kept where `skip` is all of it.
#[derive(Debug, Clone, Copy, PartialEq, Eq, Structural)]
pub struct Placement {
    pub silence: u64,
    pub skip: usize,
}

/// Where a block of `len` frames goes that belongs at frame `expected` of a
/// track with `frames` frames in it.
pub open spec fn placement(frames: int, expected: int, len: int) -> (int, int) {
    let gap = expected - frames;
    if gap > RESYNC_TOLERANCE {
        (gap, 0)
    } else if gap < -RESYNC_TOLERANCE {
        (
            0,
            if -gap < len {
                -gap
            } else {
                len
            },
        )
    } else {
        (0, 0)
    }
}

/// The loudest of some levels, and `low` where none is louder.
pub open spec fn loudest(levels: Seq<u32>, low: u32) -> u32
    decreases levels.len(),
{
    if levels.len() == 0 {
        low
    } else {
        let rest = loudest(levels.drop_last(), low);
        if levels.last() > rest {
            levels.last()
        } else {
            rest
        }
    }
}

/// A 16-bit PCM mono WAV being written incrementally.
///
/// Levels are numbers that order as loudness does, zero being silence.
#[derive(Debug, Clone, PartialEq, Eq)]
pub struct MonoWavWriter {
    closed: bool,
    /// The instant that becomes 00:00:00 in this track. `None` until both sides
    /// are actually running.
    t0: Option<i64>,
    frames: u64,
    peak: u32,
    drift_frames: i64,
}

/// What a track is.
pub struct WriterView {
    pub closed: bool,
    pub t0: Option<int>,
    pub frames: nat,
    pub peak: u32,
    pub drift: int,
}

impl View for MonoWavWriter {
    type V = WriterView;

    closed spec fn view(&self) -> WriterView {
        WriterView {
            closed: self.closed,
            t0: match self.t0 {
                Some(t) => Some(t as int),
                None => None,
            },
            frames: self.frames as nat,
            peak: self.peak,
            drift: self.drift_frames as int,
        }
    }
}

impl WriterView {
    /// Whether the frames fit the format, and the silence in the track is part
    /// of it.
    pub open spec fn wf(self) -> bool {
        self.frames <= i64::MAX && self.drift <= self.frames
    }

    /// Whether `count` more frames can be counted.
    pub open spec fn has_room(self, count: nat) -> bool {
        self.frames + count <= 0x7000_0000_0000_0000 && self.drift - count >= i64::MIN && count
            <= 0x0800_0000_0000_0000
    }

    /// Where a block of `len` frames goes that was captured at `started_at`,
    /// where it goes anywhere at all: not before there is a timeline, nor after
    /// the track is closed.
    pub open spec fn place(self, started_at: int, len: nat) -> Option<(int, int)> {
        match self.t0 {
            Some(t0) => if self.closed {
                None
            } else {
                Some(placement(self.frames as int, expected_frame(t0, started_at), len as int))
            },
            None => None,
        }
    }

    /// The track once a block with these levels, captured at `started_at`, has
    /// been taken in.
    pub open spec fn appended(self, levels: Seq<u32>, started_at: int) -> WriterView {
        let heard = WriterView { peak: loudest(levels, self.peak), ..self };
        match self.place(started_at, levels.len()) {
            Some((silence, skip)) => WriterView {
                frames: (self.frames + silence + levels.len() - skip) as nat,
                drift: self.drift + silence - skip,
                ..heard
            },
            None => heard,
        }
    }
}

impl MonoWavWriter {
    /// A track with nothing in it, behind a header that says so.
    pub fn create() -> (r: (Self, Vec<u8>))
        ensures
            r.0@.wf(),
            !r.0@.closed,
            r.0@.t0 is None,
            r.0@.frames == 0,
            r.0@.peak == 0,
            r.0@.drift == 0,
            r.1@ == header_of(0),
    {
        (
            MonoWavWriter { closed: false, t0: None, frames: 0, peak: 0, drift_frames: 0 },
            wav_header(0),
        )
    }

    /// Declare the instant that becomes 00:00:00 in this track.
    ///
    /// Set once both sides are actually running, never at construction: a
    /// first-run permission prompt can hold a backend open for as long as the
    /// user takes to click it, and a `t0` chosen before that would bake the whole
    /// wait into the file as silence.
    pub fn set_origin(&mut self, t0: i64)
        ensures
            final(self)@ == (WriterView { t0: Some(t0 as int), ..old(self)@ }),
    {
        self.t0 = Some(t0);
    }

    /// Whether `count` more frames can be counted.
    pub fn fits(&self, count: usize) -> (r: bool)
        requires
            self@.wf(),
        ensures
            r == self@.has_room(count as nat),
    {
        self.frames as i128 + count as i128 <= 0x7000_0000_0000_0000 && self.drift_frames as i128
            - count as i128 >= i64::MIN as i128 && count as i128 <= 0x0800_0000_0000_0000
    }

    /// Take in one block of samples with these levels. `started_at` is when its
    /// first sample was captured. Says where the block goes, if anywhere.
    ///
    /// Late, or a buffer went missing: the timeline is held open with silence so
    /// what follows keeps its true offset. Running ahead of the clock: the
    /// overlap is dropped rather than pushing every later word further out of
    /// place.
    pub fn append(&mut self, levels: &[u32], started_at: i64) -> (r: Option<Placement>)
        requires
            old(self)@.wf(),
            old(self)@.has_room(levels@.len()),
        ensures
            final(self)@.wf(),
            final(self)@ == old(self)@.appended(levels@, started_at as int),
            match r {
                Some(p) => old(self)@.place(started_at as int, levels@.len()) == Some(
                    (p.silence as int, p.skip as int),
                ),
                None => old(self)@.place(started_at as int, levels@.len()) is None,
            },
    {
        let len: usize = levels.len();
        let mut peak: u32 = self.peak;
        for i in 0..len
            invariant
                len == levels@.len(),
                peak == loudest(levels@.take(i as int), old(self).peak),
        {
            assert(levels@.take(i + 1).drop_last() == levels@.take(i as int));
            if levels[i] > peak {
                peak = levels[i];
            }
        }
        assert(levels@.take(len as int) == levels@);
        self.peak = peak;
        let t0: i64 = match self.t0 {
            Some(t0) => t0,
            // Pre-roll: audio from a backend that started before the other side
            // was ready. It predates the shared timeline, so it has no position
            // on it.
            None => return None,
        };
        if self.closed {
            return None;
        }
        let expected: i128 = if started_at > t0 {
            (started_at as i128 - t0 as i128) / NANOS_PER_SAMPLE as i128
        } else {
            0
        };
        let gap: i128 = expected - self.frames as i128;
        let placed: Placement = if gap > RESYNC_TOLERANCE as i128 {
            Placement { silence: gap as u64, skip: 0 }
        } else if gap < -(RESYNC_TOLERANCE as i128) {
            let skip: usize = if -gap < len as i128 {
                (-gap) as usize
            } else {
                len
            };
            Placement { silence: 0, skip }
        } else {
            Placement { silence: 0, skip: 0 }
        };
        self.frames = self.frames + placed.silence + (len - placed.skip) as u64;
        self.drift_frames = (self.drift_frames as i128 + placed.silence as i128
            - placed.skip as i128) as i64;
        Some(placed)
    }

    /// Finish the track. Says how many frames it has, and the first time what
    /// its header is to be replaced with, which speaks of the real length.
    pub fn close(&mut self) -> (r: (u64, Option<Vec<u8>>))
        requires
            old(self)@.wf(),
        ensures
            final(self)@ == (WriterView { closed: true, ..old(self)@ }),
            r.0 == old(self)@.frames,
            match r.1 {
                Some(header) => !old(self)@.closed && header@ == header_of(
                    (old(self)@.frames * 2 % 0x1_0000_0000) as u32,
                ),
                None => old(self)@.closed,
            },
    {
        if self.closed {
            return (self.frames, None);
        }
        self.closed = true;
        let data_len: u32 = (self.frames * 2 % 0x1_0000_0000u64) as u32;
        (self.frames, Some(wav_header(data_len)))
    }

    /// How many frames the track has.
    pub fn frames(&self) -> (r: u64)
        ensures
            r == self@.frames,
    {
        self.frames
    }

    /// How long the track is, in nanoseconds.
    pub fn seconds(&self) -> (r: i128)
        ensures
            r == self@.frames * NANOS_PER_SAMPLE,
    {
        self.frames as i128 * NANOS_PER_SAMPLE as i128
    }

    /// Signed silence/trim applied so far, in nanoseconds, as a health signal for
    /// the UI.
    pub fn drift_seconds(&self) -> (r: i128)
        ensures
            r == self@.drift * NANOS_PER_SAMPLE,
    {
        self.drift_frames as i128 * NANOS_PER_SAMPLE as i128
    }

    /// Loudest level since the last call; drives the level meter.
    pub fn take_peak(&mut self) -> (r: u32)
        ensures
            r == old(self)@.peak,
            final(self)@ == (WriterView { peak: 0, ..old(self)@ }),
    {
        let peak: u32 = self.peak;
        self.peak = 0;
        peak
    }
}

// ---------------------------------------------------------------------------
// What a track holds
// ---------------------------------------------------------------------------

/// How many frames of silence are written at a time: a long stall could otherwise
/// ask for a great deal of memory in one go.
pub const SILENCE_BATCH: u64 = 16_384;

/// `frames` frames of silence.
pub open spec fn silence_of(frames: nat) -> Seq<i16> {
    Seq::new(frames, |i: int| 0i16)
}

/// What a block puts at the end of a track: `silence` frames of silence, then the
/// block without its first `skip` frames.
pub open spec fn placed_samples(silence: nat, skip: nat, block: Seq<i16>) -> Seq<i16> {
    silence_of(silence) + block.skip(skip as int)
}

/// The samples of a track once a block, captured at `started_at`, has been taken
/// in.
pub open spec fn samples_after(
    track: WriterView,
    samples: Seq<i16>,
    started_at: int,
    block: Seq<i16>,
) -> Seq<i16> {
    match track.place(started_at, block.len()) {
        Some((silence, skip)) => samples + placed_samples(silence as nat, skip as nat, block),
        None => samples,
    }
}

proof fn lemma_pcm_add(a: Seq<i16>, b: Seq<i16>)
    ensures
        pcm_of(a + b) == pcm_of(a) + pcm_of(b),
{
    let both = pcm_of(a + b);
    let parts = pcm_of(a) + pcm_of(b);
    assert forall|i: int| 0 <= i < both.len() implies both[i] == parts[i] by {
        if i < 2 * a.len() {
            assert((a + b)[i / 2] == a[i / 2]);
        } else {
            let k = i - 2 * a.len();
            assert(i / 2 == a.len() + k / 2 && i % 2 == k % 2);
            assert((a + b)[i / 2] == b[k / 2]);
            assert(parts[i] == pcm_of(b)[k]);
        }
    }
    assert(both == parts);
}

/// A track holds what it was given: once a block has been taken in it has as many
/// samples as frames are counted, those it had are where they were, the gap before
/// the block is silence, and every sample of the block that is kept stands as far
/// behind the block's first as it was captured. On disk the block only adds bytes
/// at the end.
pub proof fn law_track_holds_its_blocks(
    track: WriterView,
    samples: Seq<i16>,
    levels: Seq<u32>,
    started_at: int,
    block: Seq<i16>,
)
    requires
        samples.len() == track.frames,
        levels.len() == block.len(),
    ensures
        ({
            let after = samples_after(track, samples, started_at, block);
            &&& after.len() == track.appended(levels, started_at).frames
            &&& after.take(samples.len() as int) == samples
            &&& match track.place(started_at, block.len()) {
                Some((silence, skip)) => {
                    &&& forall|i: int|
                        samples.len() <= i < samples.len() + silence ==> #[trigger] after[i] == 0
                    &&& forall|i: int|
                        skip <= i < block.len() ==> after[landed(track, started_at, block.len())
                            + i] == #[trigger] block[i]
                    &&& pcm_of(after) == pcm_of(samples) + pcm_of(
                        placed_samples(silence as nat, skip as nat, block),
                    )
                },
                None => after == samples,
            }
        }),
{
    let after = samples_after(track, samples, started_at, block);
    if let Some((silence, skip)) = track.place(started_at, block.len()) {
        let added = placed_samples(silence as nat, skip as nat, block);
        lemma_pcm_add(samples, added);
        assert(after.take(samples.len() as int) == samples);
        assert forall|i: int| skip <= i < block.len() implies after[landed(
            track,
            started_at,
            block.len(),
        ) + i] == #[trigger] block[i] by {
            assert(added[silence + i - skip] == block.skip(skip)[i - skip]);
        }
    } else {
        assert(after.take(samples.len() as int) == samples);
    }
}

/// The bytes that a block adds to a track, on their way to the file, piece by
/// piece.
#[derive(Debug, Clone, Copy, PartialEq, Eq, Structural)]
pub struct Pieces {
    silence: u64,
    skip: usize,
    over: bool,
}

impl Placement {
    /// The bytes that a block placed here adds to a track.
    pub fn pieces(&self) -> (r: Pieces)
        ensures
            r.skipped() == self.skip,
            forall|block: Seq<i16>| #[trigger]
                r.rest(block) == pcm_of(
                    placed_samples(self.silence as nat, self.skip as nat, block),
                ),
    {
        Pieces { silence: self.silence, skip: self.skip, over: false }
    }
}

impl Pieces {
    /// How many frames at the beginning of the block are left out.
    pub closed spec fn skipped(self) -> nat {
        self.skip as nat
    }

    /// The bytes that are still to be written, for a block with these samples.
    pub closed spec fn rest(self, block: Seq<i16>) -> Seq<u8> {
        if self.over {
            Seq::empty()
        } else {
            pcm_of(placed_samples(self.silence as nat, self.skip as nat, block))
        }
    }

    /// The next bytes to write, for a block with these samples; `None` once all of
    /// them are written. Silence comes in pieces of bounded length.
    pub fn next(&mut self, block: &[i16]) -> (r: Option<Vec<u8>>)
        requires
            old(self).skipped() <= block@.len(),
        ensures
            final(self).skipped() == old(self).skipped(),
            match r {
                Some(bytes) => {
                    &&& bytes@.len() > 0
                    &&& bytes@.len() <= 2 * SILENCE_BATCH || bytes@.len() <= 2 * block@.len()
                    &&& old(self).rest(block@) == bytes@ + final(self).rest(block@)
                },
                None => old(self).rest(block@).len() == 0 && *final(self) == *old(self),
            },
    {
        let ghost tail = block@.skip(self.skip as int);
        if self.over {
            return None;
        }
        if self.silence > 0 {
            let now: u64 = if self.silence < SILENCE_BATCH {
                self.silence
            } else {
                SILENCE_BATCH
            };
            let mut bytes: Vec<u8> = Vec::new();
            for i in 0..2 * now
                invariant
                    bytes@ == Seq::new(i as nat, |k: int| 0u8),
            {
                bytes.push(0);
                assert(bytes@ == Seq::new((i + 1) as nat, |k: int| 0u8));
            }
            self.silence = self.silence - now;
            proof {
                let first = silence_of(now as nat);
                let more = placed_samples(self.silence as nat, self.skip as nat, block@);
                assert(placed_samples(old(self).silence as nat, self.skip as nat, block@) == first
                    + more);
                lemma_pcm_add(first, more);
                assert(bytes@ == pcm_of(first));
            }
            return Some(bytes);
        }
        assert(placed_samples(0, self.skip as nat, block@) == tail);
        if self.skip < block.len() {
            let bytes: Vec<u8> = pcm_bytes(slice_subrange(block, self.skip, block.len()));
            assert(block@.subrange(self.skip as int, block@.len() as int) == tail);
            self.over = true;
            assert(bytes@ + Seq::<u8>::empty() == bytes@);
            return Some(bytes);
        }
        None
    }
}

/// Whether anything is kept of a block.
pub open spec fn kept(track: WriterView, started_at: int, len: nat) -> bool {
    match track.place(started_at, len) {
        Some((silence, skip)) => skip < len,
        None => false,
    }
}

/// Where the first frame of a block stands in the track, or would stand if it
/// had been kept.
pub open spec fn landed(track: WriterView, started_at: int, len: nat) -> int {
    let (silence, skip) = track.place(started_at, len)->0;
    track.frames + silence - skip
}

/// Every block of which anything is kept lands within the tolerance of where the
/// wall clock says it belongs.
pub proof fn law_blocks_land_where_they_belong(track: WriterView, started_at: int, len: nat)
    requires
        kept(track, started_at, len),
    ensures
        -RESYNC_TOLERANCE <= landed(track, started_at, len) - expected_frame(
            track.t0->0,
            started_at,
        ) <= RESYNC_TOLERANCE,
{
}

/// Two tracks that share one origin stay aligned: blocks captured at the same
/// instant, of which anything is kept, land within twice the tolerance of each
/// other, however differently their callbacks arrived before.
pub proof fn law_tracks_stay_aligned(
    mic: WriterView,
    system: WriterView,
    started_at: int,
    mic_len: nat,
    system_len: nat,
)
    requires
        system.t0 == mic.t0,
        kept(mic, started_at, mic_len),
        kept(system, started_at, system_len),
    ensures
        -2 * RESYNC_TOLERANCE <= landed(mic, started_at, mic_len) - landed(
            system,
            started_at,
            system_len,
        ) <= 2 * RESYNC_TOLERANCE,
{
    law_blocks_land_where_they_belong(mic, started_at, mic_len);
    law_blocks_land_where_they_belong(system, started_at, system_len);
}

/// Audio from before there is a timeline, and audio after the track is closed,
/// moves the meter and nothing else.
pub proof fn law_no_place_no_change(track: WriterView, levels: Seq<u32>, started_at: int)
    requires
        track.t0 is None || track.closed,
    ensures
        track.appended(levels, started_at).frames == track.frames,
        track.appended(levels, started_at).drift == track.drift,
        track.appended(levels, started_at).peak >= track.peak,
    decreases levels.len(),
{
    if levels.len() > 0 {
        law_no_place_no_change(track, levels.drop_last(), started_at);
    }
}

// ---------------------------------------------------------------------------
// When a track is put right
// ---------------------------------------------------------------------------

/// A moment has the frame that is being heard then, 16000 a second from the
/// track's origin on; what was captured before that belongs at the beginning.
pub proof fn law_moments_have_their_frames(t0: int, started_at: int)
    ensures
        started_at >= t0 ==> expected_frame(t0, started_at) * 62_500 <= started_at - t0 < (
        expected_frame(t0, started_at) + 1) * 62_500,
        started_at <= t0 ==> expected_frame(t0, started_at) == 0,
{
}

/// A block that is no more than a tenth of a second, 1600 frames, off is left
/// alone. One that comes later than that stands where it belongs, behind silence;
/// of one that comes earlier the overlap is dropped, so that what is left stands
/// where it belongs.
pub proof fn law_when_a_block_is_moved(frames: int, expected: int, len: int)
    requires
        len >= 0,
    ensures
        -1600 <= expected - frames <= 1600 ==> placement(frames, expected, len) == (0int, 0int),
        expected - frames > 1600 ==> placement(frames, expected, len) == (expected - frames, 0int),
        expected - frames < -1600 && frames - expected <= len ==> placement(frames, expected, len)
            == (0int, frames - expected),
        expected - frames < -1600 && frames - expected > len ==> placement(frames, expected, len)
            == (0int, len),
{
}

/// The peak is the loudest of all levels since it was read last.
pub proof fn law_peak_is_the_loudest(levels: Seq<u32>, low: u32)
    ensures
        loudest(levels, low) >= low,
        forall|i: int| 0 <= i < levels.len() ==> loudest(levels, low) >= #[trigger] levels[i],
        loudest(levels, low) == low || levels.contains(loudest(levels, low)),
    decreases levels.len(),
{
    if levels.len() > 0 {
        let front = levels.drop_last();
        law_peak_is_the_loudest(front, low);
        assert forall|i: int| 0 <= i < levels.len() implies loudest(levels, low)
            >= #[trigger] levels[i] by {
            if i < front.len() {
                assert(levels[i] == front[i]);
            }
        }
        if front.contains(loudest(front, low)) {
            let k = front.index_of(loudest(front, low));
            assert(levels[k] == loudest(front, low));
        }
        assert(levels[levels.len() - 1] == levels.last());
    }
}

/// A sample is written as two bytes, the lower one first, that are worth it.
pub proof fn law_samples_are_two_bytes(samples: Seq<i16>, i: int)
    requires
        0 <= i < samples.len(),
    ensures
        pcm_of(samples).len() == 2 * samples.len(),
        (pcm_of(samples)[2 * i] + 256 * pcm_of(samples)[2 * i + 1] - samples[i]) % 65_536 == 0,
{
    let n = unsigned(samples[i]);
    assert((2 * i) / 2 == i && (2 * i) % 2 == 0);
    assert((2 * i + 1) / 2 == i && (2 * i + 1) % 2 == 1);
    assert(pcm_of(samples)[2 * i] == (n % 256) as u8);
    assert(pcm_of(samples)[2 * i + 1] == (n / 256) as u8);
    assert(n == n % 256 + 256 * (n / 256));
}

/// The drift is the silence that was put in, less what was dropped.
pub proof fn law_drift_is_what_was_put_right(track: WriterView, levels: Seq<u32>, started_at: int)
    ensures
        track.place(started_at, levels.len()) matches Some((silence, skip)) ==> track.appended(
            levels,
            started_at,
        ).drift == track.drift + silence - skip && track.appended(levels, started_at).frames
            == track.frames + silence + levels.len() - skip,
{
}

} // verus!
