//! Live recording of a meeting: the microphone and the machine's own output.
//!
//! A meeting has two sides and the machine hears them on two different paths.
//! Your voice arrives through the microphone. Everyone else arrives as
//! *playback*: the meeting program decodes the far end and sends it to the
//! speakers, where an ordinary input device can't reach it.
//!
//! So the two sides are captured separately and kept separately:
//!
//! ```text
//! microphone  -> mic WAV     -> transcript labelled "Me"
//! system mix  -> system WAV  -> transcript labelled "Meeting"
//! ```
//!
//! Keeping them apart is what makes the merged transcript able to say who spoke,
//! and it also avoids the microphone's echo of the speakers being transcribed
//! twice. The cost is that the two streams are driven by independent clocks and
//! independent callbacks, which is what `wav_writer` exists to deal with.

pub mod devices;
pub mod mic;
pub mod recorder;
pub mod resampler;
pub mod system;
pub mod wav_writer;

use vstd::prelude::*;

verus! {

/// Where frame `index` of interleaved samples begins.
pub open spec fn frame_begin(index: int, channels: int) -> int {
    index * channels
}

/// Where frame `index` of `len` interleaved samples ends: at the next frame, or
/// where the samples do.
pub open spec fn frame_end(index: int, channels: int, len: int) -> int {
    if (index + 1) * channels < len {
        (index + 1) * channels
    } else {
        len
    }
}

/// How many channels a frame has: one at least.
pub open spec fn channel_count(channels: usize) -> int {
    if channels > 1 {
        channels as int
    } else {
        1
    }
}

/// The views of a sequence of frames.
pub open spec fn frame_views<T>(frames: Seq<Vec<T>>) -> Seq<Seq<T>> {
    Seq::new(frames.len(), |i: int| frames[i]@)
}

/// The frames of interleaved samples, a partial one at the end among them.
pub open spec fn frames<T>(interleaved: Seq<T>, channels: int) -> Seq<Seq<T>> {
    Seq::new(
        ((interleaved.len() + channels - 1) / channels) as nat,
        |i: int|
            interleaved.subrange(
                frame_begin(i, channels),
                frame_end(i, channels, interleaved.len() as int),
            ),
    )
}

/// The frames of interleaved samples: the samples of all channels that sound
/// together. The mean of each is the mono signal. A backend can hand over a
/// partial frame at the end of a stream, and that one is as long as it is:
/// dividing by the declared channel count would quietly attenuate it.
pub fn frames_of<T: Copy>(interleaved: &[T], channels: usize) -> (r: Vec<Vec<T>>)
    ensures
        frame_views(r@) == frames(interleaved@, channel_count(channels)),
{
    let count: usize = if channels > 1 {
        channels
    } else {
        1
    };
    let ghost width = count as int;
    let len: usize = interleaved.len();
    let mut r: Vec<Vec<T>> = Vec::new();
    let mut from: usize = 0;
    assert(frame_views(r@) == frames(interleaved@, width).take(0));
    assert(frame_begin(0, width) == 0);
    assert(len == 0 ==> (len + width - 1) / width == 0) by (nonlinear_arith)
        requires
            width > 0,
    ;
    while from < len
        invariant
            count > 0,
            width == count,
            len == interleaved@.len(),
            from <= len,
            from < len ==> from == frame_begin(r@.len() as int, width),
            from == len ==> r@.len() == frames(interleaved@, width).len(),
            r@.len() <= frames(interleaved@, width).len(),
            frame_views(r@) == frames(interleaved@, width).take(r@.len() as int),
        decreases len - from,
    {
        let ghost k = r@.len() as int;
        let to: usize = if len - from > count {
            from + count
        } else {
            len
        };
        proof {
            assert((k + 1) * width == k * width + width) by (nonlinear_arith);
            assert(to == frame_end(k, width, len as int));
            lemma_frame_count(len as int, width, k);
        }
        let mut frame: Vec<T> = Vec::new();
        let mut i: usize = from;
        while i < to
            invariant
                from <= i <= to <= len,
                len == interleaved@.len(),
                frame@ == interleaved@.subrange(from as int, i as int),
            decreases to - i,
        {
            frame.push(interleaved[i]);
            i += 1;
            assert(frame@ == interleaved@.subrange(from as int, i as int));
        }
        let ghost before = frame_views(r@);
        let ghost made = frame@;
        r.push(frame);
        assert(frame_views(r@) == before.push(made));
        assert(made == frames(interleaved@, width)[k]);
        assert(frame_views(r@) == frames(interleaved@, width).take(k + 1));
        from = to;
    }
    assert(frames(interleaved@, width).take(r@.len() as int) == frames(interleaved@, width));
    r
}

/// A frame that begins inside is one of the frames, and the last of them where
/// no other begins inside after it.
proof fn lemma_frame_count(len: int, width: int, k: int)
    requires
        width > 0,
        0 <= k,
        k * width < len,
    ensures
        k + 1 <= (len + width - 1) / width,
        (k + 1) * width >= len ==> k + 1 == (len + width - 1) / width,
{
    let x = len + width - 1;
    assert(k + 1 <= x / width && ((k + 1) * width >= len ==> k + 1 == x / width))
        by (nonlinear_arith)
        requires
            width > 0,
            0 <= k,
            k * width < len,
            x == len + width - 1,
    ;
}

/// How many samples every one of some planes has.
pub open spec fn shortest<T>(planes: Seq<Vec<T>>) -> nat
    decreases planes.len(),
{
    if planes.len() == 0 {
        0
    } else if planes.len() == 1 || planes.last()@.len() < shortest(planes.drop_last()) {
        planes.last()@.len()
    } else {
        shortest(planes.drop_last())
    }
}

/// The samples of all planes that sound together as frame `index`.
pub open spec fn column<T>(planes: Seq<Vec<T>>, index: int) -> Seq<T> {
    Seq::new(planes.len(), |c: int| planes[c]@[index])
}

/// The frames of samples that come one channel after another, as many as every
/// channel has: the samples of all channels that sound together. The mean of each
/// is the mono signal. `None` where there is no such frame.
pub fn planar_frames<T: Copy>(planes: &Vec<Vec<T>>) -> (r: Option<Vec<Vec<T>>>)
    ensures
        match r {
            Some(made) => shortest(planes@) > 0 && frame_views(made@) == Seq::new(
                shortest(planes@),
                |i: int| column(planes@, i),
            ),
            None => shortest(planes@) == 0,
        },
{
    let count: usize = planes.len();
    let mut len: usize = 0;
    for c in 0..count
        invariant
            count == planes@.len(),
            len == shortest(planes@.take(c as int)),
            forall|k: int| 0 <= k < c ==> len <= (#[trigger] planes@[k])@.len(),
    {
        assert(planes@.take(c + 1).drop_last() == planes@.take(c as int));
        if c == 0 || planes[c].len() < len {
            len = planes[c].len();
        }
    }
    assert(planes@.take(count as int) == planes@);
    if len == 0 {
        return None;
    }
    let ghost all = Seq::new(len as nat, |i: int| column(planes@, i));
    let mut made: Vec<Vec<T>> = Vec::new();
    assert(frame_views(made@) == all.take(0));
    for i in 0..len
        invariant
            count == planes@.len(),
            all == Seq::new(len as nat, |i: int| column(planes@, i)),
            forall|k: int| 0 <= k < count ==> len <= (#[trigger] planes@[k])@.len(),
            frame_views(made@) == all.take(i as int),
    {
        let mut frame: Vec<T> = Vec::new();
        for c in 0..count
            invariant
                count == planes@.len(),
                i < len,
                forall|k: int| 0 <= k < count ==> len <= (#[trigger] planes@[k])@.len(),
                frame@ == column(planes@, i as int).take(c as int),
        {
            assert(len <= planes@[c as int]@.len());
            frame.push(planes[c][i]);
            assert(frame@ == column(planes@, i as int).take(c + 1));
        }
        assert(frame@ == column(planes@, i as int));
        let ghost before = frame_views(made@);
        let ghost last = frame@;
        made.push(frame);
        assert(frame_views(made@) == before.push(last));
        assert(frame_views(made@) == all.take(i + 1));
    }
    assert(all.take(len as int) == all);
    Some(made)
}

/// All of some frames, one after another.
pub open spec fn flat<T>(frames: Seq<Seq<T>>) -> Seq<T>
    decreases frames.len(),
{
    if frames.len() == 0 {
        Seq::empty()
    } else {
        flat(frames.drop_last()) + frames.last()
    }
}

/// No sample is lost or moved: the frames, one after another, are the samples that
/// came in. Each frame has a sample of every channel, but for the last, which has
/// one at least.
pub proof fn law_frames_are_the_samples<T>(interleaved: Seq<T>, channels: int)
    requires
        channels > 0,
    ensures
        flat(frames(interleaved, channels)) == interleaved,
        forall|i: int|
            0 <= i < frames(interleaved, channels).len() - 1 ==> (#[trigger] frames(
                interleaved,
                channels,
            )[i]).len() == channels,
        frames(interleaved, channels).len() > 0 ==> 1 <= frames(
            interleaved,
            channels,
        ).last().len() <= channels,
{
    let all = frames(interleaved, channels);
    let len = interleaved.len() as int;
    let n = all.len() as int;
    assert(len > 0 ==> n >= 1 && (n - 1) * channels < len <= n * channels) by (nonlinear_arith)
        requires
            channels > 0,
            n == (len + channels - 1) / channels,
            len >= 0,
    ;
    assert(len == 0 ==> n == 0) by (nonlinear_arith)
        requires
            channels > 0,
            n == (len + channels - 1) / channels,
            len >= 0,
    ;
    if n > 0 {
        assert((n - 1 + 1) * channels == n * channels);
        assert(0 <= (n - 1) * channels) by (nonlinear_arith)
            requires
                channels > 0,
                n >= 1,
        ;
        assert(n * channels == (n - 1) * channels + channels) by (nonlinear_arith);
        assert forall|i: int| 0 <= i < n - 1 implies (#[trigger] all[i]).len() == channels by {
            assert((i + 1) * channels <= (n - 1) * channels && 0 <= i * channels && (i + 1)
                * channels == i * channels + channels) by (nonlinear_arith)
                requires
                    0 <= i < n - 1,
                    channels > 0,
            ;
        }
        lemma_flat_frames(interleaved, channels, n);
        assert(all.take(n) == all);
        assert(interleaved.take(len) == interleaved);
    } else {
        assert(flat(all) == interleaved);
    }
}

proof fn lemma_flat_frames<T>(interleaved: Seq<T>, channels: int, k: int)
    requires
        channels > 0,
        0 <= k <= frames(interleaved, channels).len(),
        k > 0 ==> (k - 1) * channels < interleaved.len(),
    ensures
        flat(frames(interleaved, channels).take(k)) == interleaved.take(
            if k * channels < interleaved.len() {
                k * channels
            } else {
                interleaved.len() as int
            },
        ),
    decreases k,
{
    let all = frames(interleaved, channels);
    let len = interleaved.len() as int;
    if k > 0 {
        assert((k - 2) * channels < (k - 1) * channels && (k - 1) * channels + channels == k
            * channels && 0 <= (k - 1) * channels) by (nonlinear_arith)
            requires
                k >= 1,
                channels > 0,
        ;
        lemma_flat_frames(interleaved, channels, k - 1);
        assert(all.take(k).drop_last() == all.take(k - 1));
        assert(all.take(k).last() == all[k - 1]);
        let from = (k - 1) * channels;
        let to = frame_end(k - 1, channels, len);
        assert(all[k - 1] == interleaved.subrange(from, to));
        assert(interleaved.take(from) + interleaved.subrange(from, to) == interleaved.take(to));
    } else {
        assert(0 * channels == 0);
        assert(all.take(0) == Seq::<Seq<T>>::empty());
        assert(interleaved.take(0) == Seq::<T>::empty());
        if !(0 < len) {
            assert(interleaved.take(len) == Seq::<T>::empty());
        }
    }
}

/// As many frames are made of planes as the shortest of them has samples.
pub proof fn law_shortest_plane<T>(planes: Seq<Vec<T>>)
    requires
        planes.len() > 0,
    ensures
        forall|c: int| 0 <= c < planes.len() ==> shortest(planes) <= (#[trigger] planes[c])@.len(),
        exists|c: int| 0 <= c < planes.len() && shortest(planes) == (#[trigger] planes[c])@.len(),
    decreases planes.len(),
{
    let front = planes.drop_last();
    let last = planes.len() - 1;
    if planes.len() == 1 {
        assert(shortest(planes) == planes[0]@.len());
    } else {
        law_shortest_plane(front);
        assert forall|c: int| 0 <= c < planes.len() implies shortest(planes) <= (
        #[trigger] planes[c])@.len() by {
            if c < last {
                assert(planes[c] == front[c]);
            }
        }
        let k = choose|c: int| 0 <= c < front.len() && shortest(front) == (#[trigger] front[c])@.len();
        assert(planes[k] == front[k]);
        assert(planes[last] == planes.last());
    }
}

} // verus!
