//! Choosing where to cut a chunk.

use vstd::prelude::*;

verus! {

/// Samples in one frame of the quiet-spot search: a tenth of a second.
pub const SPLIT_FRAME: usize = 1600;

/// How loud a sample is.
pub open spec fn loudness(sample: i16) -> nat {
    if sample < 0 {
        (-sample) as nat
    } else {
        sample as nat
    }
}

/// How loud `count` samples are together, from sample `from` on. Divided by
/// `count` this is their mean amplitude.
pub open spec fn energy(audio: Seq<i16>, from: int, count: nat) -> nat
    decreases count,
{
    if count == 0 {
        0
    } else {
        energy(audio, from, (count - 1) as nat) + loudness(audio[from + count - 1])
    }
}

/// How loud frame `index` of `audio` is, the frames being counted from sample
/// `from` on.
pub open spec fn frame_energy(audio: Seq<i16>, from: int, index: int) -> nat {
    energy(audio, from + index * SPLIT_FRAME, SPLIT_FRAME as nat)
}

/// The first of the quietest among the first `frames` frames.
pub open spec fn quietest_frame(audio: Seq<i16>, from: int, frames: nat) -> int
    decreases frames,
{
    if frames <= 1 {
        0
    } else {
        let best = quietest_frame(audio, from, (frames - 1) as nat);
        if frame_energy(audio, from, frames - 1) < frame_energy(audio, from, best) {
            frames - 1
        } else {
            best
        }
    }
}

/// Where to cut: the middle of the quietest frame at or after `search_from`, or
/// the end where not even one frame is left to search.
pub open spec fn split_index(audio: Seq<i16>, search_from: int) -> int {
    let frames = (audio.len() - search_from) / SPLIT_FRAME as int;
    if search_from >= audio.len() || frames == 0 {
        audio.len() as int
    } else {
        search_from + quietest_frame(audio, search_from, frames as nat) * SPLIT_FRAME + SPLIT_FRAME
            / 2
    }
}

/// The frame chosen is one of those searched, none of them is quieter, and every
/// one before it is louder.
pub proof fn lemma_quietest_frame(audio: Seq<i16>, from: int, frames: nat)
    requires
        frames > 0,
    ensures
        0 <= quietest_frame(audio, from, frames) < frames,
        forall|i: int|
            #![trigger frame_energy(audio, from, i)]
            0 <= i < frames ==> frame_energy(audio, from, quietest_frame(audio, from, frames))
                <= frame_energy(audio, from, i),
        forall|i: int|
            #![trigger frame_energy(audio, from, i)]
            0 <= i < quietest_frame(audio, from, frames) ==> frame_energy(
                audio,
                from,
                quietest_frame(audio, from, frames),
            ) < frame_energy(audio, from, i),
    decreases frames,
{
    if frames > 1 {
        lemma_quietest_frame(audio, from, (frames - 1) as nat);
    }
}

/// A cut lies after the point the search starts from and inside the audio, so
/// that no chunk is empty and none reaches past what was decoded.
pub proof fn lemma_split_index(audio: Seq<i16>, search_from: int)
    requires
        0 <= search_from,
    ensures
        search_from < audio.len() ==> search_from < split_index(audio, search_from) <= audio.len(),
        search_from >= audio.len() ==> split_index(audio, search_from) == audio.len(),
{
    let frames = (audio.len() - search_from) / SPLIT_FRAME as int;
    if search_from < audio.len() && frames > 0 {
        lemma_quietest_frame(audio, search_from, frames as nat);
        let q = quietest_frame(audio, search_from, frames as nat);
        assert(q * SPLIT_FRAME + SPLIT_FRAME <= frames * SPLIT_FRAME) by (nonlinear_arith)
            requires
                q + 1 <= frames,
                SPLIT_FRAME >= 0,
        ;
        assert(frames * SPLIT_FRAME <= audio.len() - search_from) by (nonlinear_arith)
            requires
                frames == (audio.len() - search_from) / SPLIT_FRAME as int,
                SPLIT_FRAME > 0,
        ;
        assert(0 <= q * SPLIT_FRAME) by (nonlinear_arith)
            requires
                0 <= q,
                SPLIT_FRAME > 0,
        ;
    }
}

/// No `count` samples are louder than full scale.
pub proof fn lemma_energy_bound(audio: Seq<i16>, from: int, count: nat)
    ensures
        energy(audio, from, count) <= count * 32768,
    decreases count,
{
    if count > 0 {
        lemma_energy_bound(audio, from, (count - 1) as nat);
    }
}

/// How loud `count` samples are together, from sample `from` on.
pub fn measure(audio: &[i16], from: usize, count: usize) -> (r: u64)
    requires
        from + count <= audio@.len(),
        count <= u32::MAX,
    ensures
        r == energy(audio@, from as int, count as nat),
{
    let mut sum: u64 = 0;
    let mut i: usize = 0;
    while i < count
        invariant
            from + count <= audio@.len(),
            audio@.len() == audio.len(),
            count <= u32::MAX,
            i <= count,
            sum == energy(audio@, from as int, i as nat),
        decreases count - i,
    {
        proof {
            lemma_energy_bound(audio@, from as int, i as nat);
        }
        let sample: i16 = audio[from + i];
        let loud: u64 = if sample < 0 {
            (-(sample as i32)) as u64
        } else {
            sample as u64
        };
        sum += loud;
        i += 1;
    }
    sum
}

/// Index of the middle of the quietest short frame at/after `search_from`.
///
/// Cutting there instead of at a fixed offset keeps chunk boundaries out of the
/// middle of words most of the time, which matters because the two sides of a
/// cut are transcribed independently, so a word split across it is lost from
/// both. Of equally quiet frames the first is taken: with a long stretch of true
/// silence that keeps the chunk shorter rather than dragging the boundary to the
/// far end.
pub fn find_split_index(audio: &[i16], search_from: usize) -> (r: usize)
    ensures
        r == split_index(audio@, search_from as int),
{
    let n: usize = audio.len();
    if search_from >= n {
        return n;
    }
    let frames: usize = (n - search_from) / SPLIT_FRAME;
    if frames == 0 {
        return n;
    }
    let mut quietest: usize = 0;
    assert(search_from + 0 * SPLIT_FRAME == search_from);
    let mut lowest: u64 = measure(audio, search_from, SPLIT_FRAME);
    let mut index: usize = 1;
    while index < frames
        invariant
            n == audio@.len(),
            n <= usize::MAX,
            search_from < n,
            frames == (n - search_from) / SPLIT_FRAME as int,
            1 <= index <= frames,
            quietest < index,
            quietest == quietest_frame(audio@, search_from as int, index as nat),
            lowest == frame_energy(audio@, search_from as int, quietest as int),
        decreases frames - index,
    {
        assert(index * SPLIT_FRAME + SPLIT_FRAME <= n - search_from) by (nonlinear_arith)
            requires
                index + 1 <= frames,
                frames == (n - search_from) / SPLIT_FRAME as int,
                SPLIT_FRAME == 1600,
        ;
        let loud: u64 = measure(audio, search_from + index * SPLIT_FRAME, SPLIT_FRAME);
        if loud < lowest {
            lowest = loud;
            quietest = index;
        }
        index += 1;
    }
    proof {
        lemma_split_index(audio@, search_from as int);
    }
    assert(0 <= quietest * SPLIT_FRAME <= n - search_from - SPLIT_FRAME / 2) by {
        assert(split_index(audio@, search_from as int) == search_from + quietest * SPLIT_FRAME
            + SPLIT_FRAME / 2);
    }
    search_from + quietest * SPLIT_FRAME + SPLIT_FRAME / 2
}

// ---------------------------------------------------------------------------
// What the cut is for
// ---------------------------------------------------------------------------

/// The absolute values of some samples, all of them together.
pub open spec fn sum_of_sizes(samples: Seq<i16>) -> int {
    samples.fold_left(
        0int,
        |sum: int, sample: i16|
            sum + if sample < 0 {
                -(sample as int)
            } else {
                sample as int
            },
    )
}

/// How loud samples are together is the sum of their absolute values.
pub proof fn lemma_energy_is_sum(audio: Seq<i16>, from: int, count: nat)
    requires
        0 <= from,
        from + count <= audio.len(),
    ensures
        energy(audio, from, count) == sum_of_sizes(audio.subrange(from, from + count)),
    decreases count,
{
    if count > 0 {
        let samples = audio.subrange(from, from + count);
        lemma_energy_is_sum(audio, from, (count - 1) as nat);
        assert(samples.drop_last() == audio.subrange(from, from + count - 1));
        assert(samples.last() == audio[from + count - 1]);
    }
}

/// Samples that are at most `m` in absolute value sum up to no more than `m` for
/// each of them, and samples that are at least `m` to no less.
pub proof fn lemma_sum_bounds(samples: Seq<i16>, m: int)
    ensures
        (forall|k: int| 0 <= k < samples.len() ==> -m <= #[trigger] samples[k] <= m)
            ==> sum_of_sizes(samples) <= samples.len() * m,
        (forall|k: int|
            0 <= k < samples.len() ==> (#[trigger] samples[k] <= -m || samples[k] >= m))
            ==> sum_of_sizes(samples) >= samples.len() * m,
    decreases samples.len(),
{
    if samples.len() > 0 {
        let front = samples.drop_last();
        lemma_sum_bounds(front, m);
        assert(forall|k: int| 0 <= k < front.len() ==> #[trigger] front[k] == samples[k]);
        let last = samples[samples.len() - 1];
        assert(samples.len() * m == front.len() * m + m) by (nonlinear_arith)
            requires
                samples.len() == front.len() + 1,
        ;
        assert(sum_of_sizes(samples) == sum_of_sizes(front) + if last < 0 {
            -(last as int)
        } else {
            last as int
        });
    }
}

/// The cut lies in the middle of a tenth of a second that no other from the
/// search's start on is quieter than, and none before it as quiet: quiet by the
/// absolute values of all its 1600 samples. Where not even that much is left, the
/// cut is the end.
pub proof fn law_cut_is_in_the_quietest_frame(audio: Seq<i16>, search_from: int)
    requires
        0 <= search_from,
    ensures
        audio.len() - search_from < 1600 ==> split_index(audio, search_from) == audio.len(),
        audio.len() - search_from >= 1600 ==> exists|q: int|
            {
                let quiet = #[trigger] audio.subrange(
                    search_from + 1600 * q,
                    search_from + 1600 * q + 1600,
                );
                &&& 0 <= q
                &&& search_from + 1600 * q + 1600 <= audio.len()
                &&& split_index(audio, search_from) == search_from + 1600 * q + 800
                &&& forall|i: int|
                    0 <= i && search_from + 1600 * i + 1600 <= audio.len() ==> {
                        let other = #[trigger] audio.subrange(
                            search_from + 1600 * i,
                            search_from + 1600 * i + 1600,
                        );
                        &&& sum_of_sizes(quiet) <= sum_of_sizes(other)
                        &&& i < q ==> sum_of_sizes(quiet) < sum_of_sizes(other)
                    }
            },
{
    let frames = (audio.len() - search_from) / 1600;
    if audio.len() - search_from >= 1600 {
        let q = quietest_frame(audio, search_from, frames as nat);
        lemma_quietest_frame(audio, search_from, frames as nat);
        lemma_energy_is_sum(audio, search_from + 1600 * q, 1600);
        assert forall|i: int| 0 <= i && search_from + 1600 * i + 1600 <= audio.len() implies {
            let quiet = audio.subrange(search_from + 1600 * q, search_from + 1600 * q + 1600);
            let other = #[trigger] audio.subrange(
                search_from + 1600 * i,
                search_from + 1600 * i + 1600,
            );
            &&& sum_of_sizes(quiet) <= sum_of_sizes(other)
            &&& i < q ==> sum_of_sizes(quiet) < sum_of_sizes(other)
        } by {
            assert(i < frames);
            lemma_energy_is_sum(audio, search_from + 1600 * i, 1600);
            assert(frame_energy(audio, search_from, q) <= frame_energy(audio, search_from, i));
        }
        assert(audio.subrange(
            search_from + 1600 * q,
            search_from + 1600 * q + 1600,
        ).len() == 1600);
    }
}

/// The cut never lies in a tenth of a second that is louder, on the mean, than the
/// loudest sample of another one that was searched: a pause is found, however short
/// a look at any one sample may make the speech around it seem as quiet.
pub proof fn law_cut_avoids_speech(audio: Seq<i16>, search_from: int, i: int, j: int, m: int)
    requires
        0 <= search_from,
        0 <= i,
        search_from + 1600 * i + 1600 <= audio.len(),
        0 <= j,
        search_from + 1600 * j + 1600 <= audio.len(),
        forall|k: int|
            search_from + 1600 * i <= k < search_from + 1600 * i + 1600 ==> -m <= #[trigger] audio[k]
                <= m,
        sum_of_sizes(
            audio.subrange(search_from + 1600 * j, search_from + 1600 * j + 1600),
        ) > 1600 * m,
    ensures
        !(search_from + 1600 * j <= split_index(audio, search_from) < search_from + 1600 * j + 1600),
{
    law_cut_is_in_the_quietest_frame(audio, search_from);
    let pause = audio.subrange(search_from + 1600 * i, search_from + 1600 * i + 1600);
    let speech = audio.subrange(search_from + 1600 * j, search_from + 1600 * j + 1600);
    assert(forall|k: int| 0 <= k < pause.len() ==> -m <= #[trigger] pause[k] <= m);
    lemma_sum_bounds(pause, m);
}

} // verus!
