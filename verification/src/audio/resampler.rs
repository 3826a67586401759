//! Rate conversion that keeps its filter warm across callbacks.
//!
//! Resampling each block in isolation leaves a discontinuity at every boundary:
//! a faint buzz at the block rate, which is exactly the kind of artefact Whisper
//! turns into invented words. This is a streaming polyphase resampler: it keeps
//! exactly the input that later output still needs, so there is no boundary to
//! smooth over.
//!
//! Which input samples make an output sample, and which filter tap each of them
//! meets, is decided here, for samples of any kind; multiplying and summing them
//! is left to whoever holds the taps.

use vstd::arithmetic::div_mod::*;
use vstd::prelude::*;

use crate::SAMPLE_RATE;

verus! {

/// Length of the anti-aliasing filter, in output-phase units: 16 on either side.
/// That gives a 97-tap filter for the common 48 kHz -> 16 kHz case: sharp enough
/// to keep aliases well down, cheap enough to run in an audio callback.
pub const FILTER_PHASES: u64 = 32;

/// Whether `d` divides `n`.
pub open spec fn divides(d: nat, n: nat) -> bool {
    d > 0 && n % d == 0
}

/// Whether `d` is the greatest number that divides both `a` and `b`.
pub open spec fn greatest_divisor(d: nat, a: nat, b: nat) -> bool {
    &&& divides(d, a)
    &&& divides(d, b)
    &&& forall|e: nat| #[trigger] divides(e, a) && divides(e, b) ==> e <= d
}

proof fn lemma_divides_step(d: nat, a: nat, b: nat)
    requires
        b > 0,
    ensures
        divides(d, a) && divides(d, b) <==> divides(d, b) && divides(d, a % b),
{
    if divides(d, b) {
        let q = (a / b) as int;
        lemma_fundamental_div_mod(a as int, b as int);
        lemma_fundamental_div_mod(b as int, d as int);
        let k = (b / d) as int;
        assert(b as int == d * k);
        assert(b * q == d * (k * q)) by (nonlinear_arith)
            requires
                b as int == d * k,
        ;
        assert(a as int == d * (k * q) + a % b);
        lemma_mod_multiples_vanish(k * q, (a % b) as int, d as int);
        assert(a as int % d as int == (a % b) as int % d as int);
    }
}

/// The greatest number that divides both, and 1 where both are zero.
pub fn gcd(a: usize, b: usize) -> (r: usize)
    ensures
        a > 0 || b > 0 ==> greatest_divisor(r as nat, a as nat, b as nat),
        a == 0 && b == 0 ==> r == 1,
    decreases b,
{
    if b == 0 {
        if a > 1 {
            proof {
                assert forall|e: nat| #[trigger] divides(e, a as nat) && divides(e, 0) implies e
                    <= a by {
                    lemma_fundamental_div_mod(a as int, e as int);
                    assert(e <= a) by (nonlinear_arith)
                        requires
                            a > 0,
                            a as int == e * (a as int / e as int),
                            e > 0,
                    ;
                }
            }
            a
        } else {
            proof {
                assert forall|e: nat| #[trigger] divides(e, a as nat) && divides(e, 0) && a > 0
                    implies e <= 1 by {
                    lemma_fundamental_div_mod(a as int, e as int);
                    assert(e <= a) by (nonlinear_arith)
                        requires
                            a > 0,
                            a as int == e * (a as int / e as int),
                            e > 0,
                    ;
                }
            }
            1
        }
    } else {
        let r: usize = gcd(b, a % b);
        proof {
            lemma_divides_step(r as nat, a as nat, b as nat);
            assert forall|e: nat| #[trigger] divides(e, a as nat) && divides(e, b as nat) implies e
                <= r by {
                lemma_divides_step(e, a as nat, b as nat);
            }
        }
        r
    }
}

// ---------------------------------------------------------------------------
// Which input makes which output
// ---------------------------------------------------------------------------

/// The newest input that output `n` draws on.
pub open spec fn newest(n: nat, up: nat, down: nat) -> nat {
    n * down / up
}

/// The oldest input that output `n` draws on, with a filter of `taps` taps.
pub open spec fn oldest(n: nat, up: nat, down: nat, taps: nat) -> nat {
    if n * down + 1 <= taps {
        0
    } else {
        ((n * down + 1 - taps + up - 1) / up as int) as nat
    }
}

/// How many outputs can be made of `len` inputs: those whose newest input is one
/// of them.
pub open spec fn ready(len: nat, up: nat, down: nat) -> nat {
    ((len * up + down - 1) / down as int) as nat
}

/// What one output sample is made of: `samples[i]` meets the tap
/// `first_tap - i * step`.
pub struct Window<T> {
    pub samples: Vec<T>,
    pub first_tap: u64,
    pub step: u64,
}

/// What one output sample is made of.
#[verifier::ext_equal]
pub struct WindowView<T> {
    pub samples: Seq<T>,
    pub first_tap: nat,
    pub step: nat,
}

impl<T> View for Window<T> {
    type V = WindowView<T>;

    open spec fn view(&self) -> WindowView<T> {
        WindowView {
            samples: self.samples@,
            first_tap: self.first_tap as nat,
            step: self.step as nat,
        }
    }
}

/// What output `n` is made of, of all the input there is.
pub open spec fn window_at<T>(input: Seq<T>, n: nat, up: nat, down: nat, taps: nat) -> WindowView<T> {
    let first = oldest(n, up, down, taps);
    WindowView {
        samples: input.subrange(first as int, newest(n, up, down) as int + 1),
        first_tap: (n * down - first * up) as nat,
        step: up,
    }
}

/// What the outputs `from..to` are made of.
pub open spec fn windows<T>(
    input: Seq<T>,
    from: nat,
    to: nat,
    up: nat,
    down: nat,
    taps: nat,
) -> Seq<WindowView<T>> {
    Seq::new((to - from) as nat, |i: int| window_at(input, (from + i) as nat, up, down, taps))
}

/// The views of a sequence of windows.
pub open spec fn window_views<T>(v: Seq<Window<T>>) -> Seq<WindowView<T>> {
    Seq::new(v.len(), |i: int| v[i]@)
}

proof fn lemma_ready(n: nat, len: nat, up: nat, down: nat)
    requires
        up > 0,
        down > 0,
    ensures
        n < ready(len, up, down) <==> n * down < len * up,
        n < ready(len, up, down) <==> newest(n, up, down) < len,
{
    let x = (len * up + down - 1) as int;
    let y = (n * down) as int;
    lemma_fundamental_div_mod(x, down as int);
    assert(n < (x / (down as int)) <==> n * down < len * up) by (nonlinear_arith)
        requires
            down > 0,
            x == len * up + down - 1,
            x == down * (x / down as int) + x % down as int,
            0 <= x % (down as int) < down,
            n >= 0,
    ;
    lemma_fundamental_div_mod(y, up as int);
    assert((y / (up as int)) < len <==> y < len * up) by (nonlinear_arith)
        requires
            up > 0,
            y == up * (y / up as int) + y % up as int,
            0 <= y % (up as int) < up,
    ;
}

/// The window of an output is whole: it holds every input whose tap is one of
/// the filter's, and no other.
pub proof fn law_window_is_whole(n: nat, k: int, up: nat, down: nat, taps: nat)
    requires
        up > 0,
        down > 0,
        taps > 0,
    ensures
        oldest(n, up, down, taps) <= k <= newest(n, up, down) <==> k >= 0 && 0 <= n * down - k * up
            < taps,
{
    let y = (n * down) as int;
    let q = y / up as int;
    lemma_fundamental_div_mod(y, up as int);
    assert(k <= q <==> k * up <= y) by (nonlinear_arith)
        requires
            up > 0,
            y == up * q + y % up as int,
            0 <= y % (up as int) < up,
    ;
    if y + 1 > taps {
        let x = y + 1 - taps + up - 1;
        lemma_fundamental_div_mod(x, up as int);
        assert(x / up as int <= k <==> y - k * up < taps) by (nonlinear_arith)
            requires
                up > 0,
                x == y + up - taps,
                x == up * (x / up as int) + x % up as int,
                0 <= x % (up as int) < up,
        ;
        assert(x / up as int >= 0) by (nonlinear_arith)
            requires
                x >= 0,
                up > 0,
        ;
    } else {
        assert(k >= 0 ==> y - k * up < taps) by (nonlinear_arith)
            requires
                y + 1 <= taps,
                up > 0,
        ;
    }
}

proof fn lemma_window_bounds(n: nat, up: nat, down: nat, taps: nat)
    requires
        up > 0,
        down > 0,
        taps > up,
    ensures
        oldest(n, up, down, taps) <= newest(n, up, down),
        oldest(n, up, down, taps) * up <= n * down,
        n * down - oldest(n, up, down, taps) * up < taps,
        oldest(n, up, down, taps) <= oldest(n + 1, up, down, taps),
{
    let k = newest(n, up, down) as int;
    let y = (n * down) as int;
    lemma_fundamental_div_mod(y, up as int);
    assert(0 <= y - k * up < up && k >= 0) by (nonlinear_arith)
        requires
            k == y / up as int,
            y == up * k + y % up as int,
            0 <= y % (up as int) < up,
            y >= 0,
            up > 0,
    ;
    law_window_is_whole(n, k, up, down, taps);
    law_window_is_whole(n, oldest(n, up, down, taps) as int, up, down, taps);
    assert((n + 1) * down == n * down + down) by (nonlinear_arith);
    if (n + 1) * down + 1 > taps && n * down + 1 > taps {
        lemma_div_is_ordered(
            n * down + 1 - taps + up - 1,
            (n + 1) * down + 1 - taps + up - 1,
            up as int,
        );
    }
}

// ---------------------------------------------------------------------------
// The resampler
// ---------------------------------------------------------------------------

/// Rational resampler from an arbitrary input rate to [`SAMPLE_RATE`].
pub struct Resampler<T> {
    up: u64,
    down: u64,
    taps: u64,
    /// Input samples still needed by future outputs. `buf[0]` is input index
    /// `input_base`.
    buf: Vec<T>,
    input_base: u64,
    next_out: u64,
    /// All the input there has been.
    heard: Ghost<Seq<T>>,
}

/// What a block becomes.
pub enum Resampled<T> {
    /// The input is already at [`SAMPLE_RATE`].
    Same(Vec<T>),
    /// What each output sample is made of.
    Windows(Vec<Window<T>>),
}

impl<T: Copy> Resampler<T> {
    /// How many outputs are made of how many inputs: `up` of `down`.
    pub closed spec fn rates(self) -> (nat, nat) {
        (self.up as nat, self.down as nat)
    }

    /// How many taps the filter has.
    pub closed spec fn filter_len(self) -> nat {
        self.taps as nat
    }

    /// All the input there has been.
    pub closed spec fn input(self) -> Seq<T> {
        self.heard@
    }

    /// Whether the input is already at the rate wanted.
    pub open spec fn same_rate(self) -> bool {
        self.rates() == (1nat, 1nat)
    }

    /// How many outputs there have been.
    pub open spec fn outputs(self) -> nat {
        ready(self.input().len(), self.rates().0, self.rates().1)
    }

    /// Whether the resampler holds exactly what later outputs need.
    pub closed spec fn wf(self) -> bool {
        &&& self.up > 0
        &&& self.down > 0
        &&& self.taps == FILTER_PHASES * (if self.up > self.down {
            self.up
        } else {
            self.down
        }) + 1
        &&& self.down <= u32::MAX
        &&& self.up <= SAMPLE_RATE
        &&& !self.same_rate() ==> {
            &&& self.input_base <= self.heard@.len()
            &&& self.buf@ == self.heard@.skip(self.input_base as int)
            &&& self.next_out == self.outputs()
            &&& self.input_base <= oldest(
                self.next_out as nat,
                self.up as nat,
                self.down as nat,
                self.taps as nat,
            )
        }
    }

    /// Whether `count` more samples can be counted.
    pub open spec fn has_room(self, count: nat) -> bool {
        self.same_rate() || (self.input().len() + count) * self.rates().0 + self.rates().1
            < u64::MAX
    }

    /// Whether `count` more samples can be counted. They can for longer than any
    /// meeting: at 44.1 kHz for tens of thousands of years.
    pub fn fits(&self, count: usize) -> (r: bool)
        requires
            self.wf(),
        ensures
            r == self.has_room(count as nat),
    {
        if self.is_passthrough() {
            return true;
        }
        let held: usize = self.buf.len();
        assert(held == self.heard@.len() - self.input_base);
        let total: u128 = self.input_base as u128 + held as u128 + count as u128;
        assert(total * self.up <= 0x3_0000_0000_0000_0000 * 16_000) by (nonlinear_arith)
            requires
                0 <= total <= 0x3_0000_0000_0000_0000,
                0 <= self.up <= 16_000,
        ;
        total * self.up as u128 + (self.down as u128) < u64::MAX as u128
    }

    /// A resampler for input at `src_rate`, which has heard nothing yet.
    pub fn new(src_rate: u32) -> (r: Self)
        requires
            src_rate > 0,
        ensures
            r.wf(),
            r.input() == Seq::<T>::empty(),
            r.rates().0 > 0,
            r.rates().1 > 0,
            r.rates().0 * src_rate == r.rates().1 * SAMPLE_RATE,
            exists|g: nat| #[trigger] greatest_divisor(g, src_rate as nat, SAMPLE_RATE as nat)
                && r.rates().0 * g == SAMPLE_RATE && r.rates().1 * g == src_rate,
            r.filter_len() == FILTER_PHASES * (if r.rates().0 > r.rates().1 {
                r.rates().0
            } else {
                r.rates().1
            }) + 1,
    {
        let divisor: usize = gcd(src_rate as usize, SAMPLE_RATE as usize);
        let up: u64 = SAMPLE_RATE as u64 / divisor as u64;
        let down: u64 = src_rate as u64 / divisor as u64;
        proof {
            let g = divisor as int;
            lemma_fundamental_div_mod(SAMPLE_RATE as int, g);
            lemma_fundamental_div_mod(src_rate as int, g);
            assert(up > 0 && down > 0 && up <= SAMPLE_RATE && down <= src_rate) by (nonlinear_arith)
                requires
                    g > 0,
                    SAMPLE_RATE as int == g * up,
                    src_rate as int == g * down,
                    SAMPLE_RATE > 0,
                    src_rate > 0,
            ;
            assert(up * src_rate == down * SAMPLE_RATE) by (nonlinear_arith)
                requires
                    SAMPLE_RATE as int == g * up,
                    src_rate as int == g * down,
            ;
            assert(up * g == SAMPLE_RATE && down * g == src_rate) by (nonlinear_arith)
                requires
                    SAMPLE_RATE as int == g * up,
                    src_rate as int == g * down,
            ;
            assert(greatest_divisor(divisor as nat, src_rate as nat, SAMPLE_RATE as nat));
            assert(ready(0, up as nat, down as nat) == 0) by {
                assert((down - 1) / down as int == 0) by (nonlinear_arith)
                    requires
                        down > 0,
                ;
                assert(0 * up == 0);
            }
            assert(0 * down == 0);
        }
        let most: u64 = if up > down {
            up
        } else {
            down
        };
        let r = Resampler {
            up,
            down,
            taps: FILTER_PHASES * most + 1,
            buf: Vec::new(),
            input_base: 0,
            next_out: 0,
            heard: Ghost(Seq::empty()),
        };
        assert(r.buf@ == r.heard@.skip(0));
        r
    }

    /// How many outputs are made of how many inputs: `up` of `down`.
    pub fn ratio(&self) -> (r: (u64, u64))
        ensures
            r.0 == self.rates().0,
            r.1 == self.rates().1,
    {
        (self.up, self.down)
    }

    /// How many taps the filter has.
    pub fn taps_len(&self) -> (r: u64)
        ensures
            r == self.filter_len(),
    {
        self.taps
    }

    /// True when the input is already at [`SAMPLE_RATE`] and blocks pass through.
    pub fn is_passthrough(&self) -> (r: bool)
        ensures
            r == self.same_rate(),
    {
        self.up == 1 && self.down == 1
    }

    /// Resample one block, continuing seamlessly from the previous call.
    pub fn process(&mut self, block: &[T]) -> (r: Resampled<T>)
        requires
            old(self).wf(),
            old(self).has_room(block@.len()),
        ensures
            final(self).wf(),
            final(self).rates() == old(self).rates(),
            final(self).filter_len() == old(self).filter_len(),
            final(self).input() == old(self).input() + block@,
            match r {
                Resampled::Same(same) => old(self).same_rate() && same@ == block@,
                Resampled::Windows(made) => !old(self).same_rate() && window_views(made@)
                    == windows(
                    old(self).input() + block@,
                    old(self).outputs(),
                    final(self).outputs(),
                    old(self).rates().0,
                    old(self).rates().1,
                    old(self).filter_len(),
                ),
            },
    {
        let count: usize = block.len();
        if self.is_passthrough() {
            let mut same: Vec<T> = Vec::new();
            for i in 0..count
                invariant
                    count == block@.len(),
                    same@ == block@.take(i as int),
            {
                same.push(block[i]);
                assert(same@ == block@.take(i + 1));
            }
            assert(block@.take(count as int) == block@);
            self.heard = Ghost(self.heard@ + block@);
            return Resampled::Same(same);
        }
        let ghost all = self.heard@ + block@;
        let ghost up = self.up as nat;
        let ghost down = self.down as nat;
        let ghost taps = self.taps as nat;
        let ghost first = self.next_out as nat;
        let ghost base = self.input_base;
        for i in 0..count
            invariant
                count == block@.len(),
                base == self.input_base,
                base <= self.heard@.len(),
                all == self.heard@ + block@,
                self.buf@ == (self.heard@ + block@.take(i as int)).skip(base as int),
                self.up == up,
                self.down == down,
                self.taps == taps,
                self.next_out == first,
                self.heard@ == old(self).heard@,
        {
            self.buf.push(block[i]);
            assert(self.buf@ == (self.heard@ + block@.take(i + 1)).skip(base as int));
        }
        assert(block@.take(count as int) == block@);
        assert(self.buf@ == all.skip(base as int));
        self.heard = Ghost(all);
        let held: usize = self.buf.len();
        proof {
            assert(all.len() <= all.len() * up) by (nonlinear_arith)
                requires
                    up > 0,
            ;
        }
        let end: u64 = self.input_base + held as u64;
        assert(end == all.len());
        let mut made: Vec<Window<T>> = Vec::new();
        let mut n: u64 = self.next_out;
        proof {
            lemma_more_ready(old(self).heard@.len(), all.len(), up, down);
            lemma_offset_fits(n as nat, all.len(), up, down);
            lemma_ready(n as nat, all.len(), up, down);
            assert(window_views(made@) == windows(all, first, n as nat, up, down, taps));
        }
        while n * self.down / self.up < end
            invariant
                self.up == up,
                self.down == down,
                self.taps == taps,
                up > 0,
                down > 0,
                taps > up,
                self.buf@ == all.skip(base as int),
                self.input_base == base,
                base <= all.len(),
                held == self.buf@.len(),
                end == all.len(),
                all.len() * up + down < u64::MAX,
                first <= n <= ready(all.len(), up, down),
                n * down <= all.len() * up + down,
                base <= oldest(n as nat, up, down, taps),
                self.heard@ == all,
                window_views(made@) == windows(all, first, n as nat, up, down, taps),
            decreases ready(all.len(), up, down) - n,
        {
            proof {
                lemma_ready(n as nat, all.len(), up, down);
                lemma_window_bounds(n as nat, up, down, taps);
                lemma_offset_fits((n + 1) as nat, all.len(), up, down);
            }
            let offset: u64 = n * self.down;
            let last: u64 = offset / self.up;
            let start: u64 = self.oldest_needed(offset, Ghost(n as nat));
            let from: usize = (start - self.input_base) as usize;
            let to: usize = (last - self.input_base) as usize;
            let samples: Vec<T> = self.copy(from, to);
            assert(samples@ == all.subrange(start as int, last + 1));
            assert(start * up <= offset);
            let window = Window { samples, first_tap: offset - start * self.up, step: self.up };
            let ghost before = window_views(made@);
            assert(window@ == window_at(all, n as nat, up, down, taps));
            made.push(window);
            assert(window_views(made@) == before.push(window_at(all, n as nat, up, down, taps)));
            n += 1;
            assert(window_views(made@) == windows(all, first, n as nat, up, down, taps));
        }
        proof {
            lemma_ready(n as nat, all.len(), up, down);
        }
        assert(n == ready(all.len(), up, down));
        self.next_out = n;
        let keep_from: u64 = self.oldest_needed(n * self.down, Ghost(n as nat));
        if keep_from > self.input_base {
            let drop: usize = if keep_from - self.input_base < held as u64 {
                (keep_from - self.input_base) as usize
            } else {
                held
            };
            let rest: Vec<T> = self.buf.split_off(drop);
            self.buf = rest;
            self.input_base = self.input_base + drop as u64;
            assert(self.buf@ == all.skip(self.input_base as int));
        }
        Resampled::Windows(made)
    }

    fn oldest_needed(&self, offset: u64, Ghost(n): Ghost<nat>) -> (r: u64)
        requires
            self.up > 0,
            self.taps > self.up,
            offset < u64::MAX,
            offset == n * self.down,
        ensures
            r == oldest(n, self.up as nat, self.down as nat, self.taps as nat),
    {
        if offset + 1 <= self.taps {
            0
        } else {
            (offset + 1 - self.taps + (self.up - 1)) / self.up
        }
    }

    fn copy(&self, from: usize, to: usize) -> (r: Vec<T>)
        requires
            from <= to < self.buf@.len(),
        ensures
            r@ == self.buf@.subrange(from as int, to + 1),
    {
        let held: usize = self.buf.len();
        let mut r: Vec<T> = Vec::new();
        for k in from..to + 1
            invariant
                from <= k,
                to < held,
                held == self.buf@.len(),
                r@ == self.buf@.subrange(from as int, k as int),
        {
            r.push(self.buf[k]);
            assert(r@ == self.buf@.subrange(from as int, k + 1));
        }
        r
    }
}

proof fn lemma_offset_fits(n: nat, len: nat, up: nat, down: nat)
    requires
        up > 0,
        down > 0,
        n <= ready(len, up, down),
    ensures
        n * down <= len * up + down,
{
    if n > 0 {
        lemma_ready((n - 1) as nat, len, up, down);
        assert((n - 1) * down == n * down - down) by (nonlinear_arith);
    } else {
        assert(0 * down == 0);
        assert(0 <= len * up) by (nonlinear_arith);
    }
}

proof fn lemma_more_ready(a: nat, b: nat, up: nat, down: nat)
    requires
        a <= b,
        up > 0,
        down > 0,
    ensures
        ready(a, up, down) <= ready(b, up, down),
{
    assert(a * up <= b * up) by (nonlinear_arith)
        requires
            a <= b,
    ;
    lemma_div_is_ordered(a * up + down - 1, b * up + down - 1, down as int);
}

/// The outputs of two blocks, one after the other, are those of both blocks at
/// once.
proof fn lemma_two_blocks<T>(
    input: Seq<T>,
    a: Seq<T>,
    b: Seq<T>,
    up: nat,
    down: nat,
    taps: nat,
)
    requires
        up > 0,
        down > 0,
        taps > up,
    ensures
        ({
            let none = ready(input.len(), up, down);
            let one = ready((input + a).len(), up, down);
            let both = ready((input + a + b).len(), up, down);
            windows(input + a, none, one, up, down, taps) + windows(
                input + a + b,
                one,
                both,
                up,
                down,
                taps,
            ) == windows(input + (a + b), none, both, up, down, taps)
        }),
{
    let none = ready(input.len(), up, down);
    let one = ready((input + a).len(), up, down);
    let both = ready((input + a + b).len(), up, down);
    lemma_more_ready(input.len(), (input + a).len(), up, down);
    lemma_more_ready((input + a).len(), (input + a + b).len(), up, down);
    assert(input + a + b == input + (a + b));
    let first = windows(input + a, none, one, up, down, taps);
    let second = windows(input + a + b, one, both, up, down, taps);
    let whole = windows(input + (a + b), none, both, up, down, taps);
    assert forall|i: int| 0 <= i < whole.len() implies (first + second)[i] == whole[i] by {
        if i < first.len() {
            let n = (none + i) as nat;
            lemma_ready(n, (input + a).len(), up, down);
            lemma_window_bounds(n, up, down, taps);
            assert((input + a).subrange(
                oldest(n, up, down, taps) as int,
                newest(n, up, down) as int + 1,
            ) == (input + (a + b)).subrange(
                oldest(n, up, down, taps) as int,
                newest(n, up, down) as int + 1,
            ));
        }
    }
    assert(first + second == whole);
}

/// All the blocks there have been, one after another.
pub open spec fn all_blocks<T>(blocks: Seq<Seq<T>>) -> Seq<T>
    decreases blocks.len(),
{
    if blocks.len() == 0 {
        Seq::empty()
    } else {
        all_blocks(blocks.drop_last()) + blocks.last()
    }
}

/// What the outputs are made of where a fresh resampler is handed `blocks`, one
/// after another: those of each block behind those of the blocks before it.
pub open spec fn windows_by_block<T>(blocks: Seq<Seq<T>>, up: nat, down: nat, taps: nat) -> Seq<
    WindowView<T>,
>
    decreases blocks.len(),
{
    if blocks.len() == 0 {
        Seq::empty()
    } else {
        windows_by_block(blocks.drop_last(), up, down, taps) + windows(
            all_blocks(blocks),
            ready(all_blocks(blocks.drop_last()).len(), up, down),
            ready(all_blocks(blocks).len(), up, down),
            up,
            down,
            taps,
        )
    }
}

/// How many samples `len` samples at `src_rate` last for at [`SAMPLE_RATE`], a
/// part of one counted as one.
pub open spec fn output_count(len: nat, src_rate: u32) -> int {
    (len * SAMPLE_RATE + src_rate - 1) / src_rate as int
}

proof fn lemma_nothing_ready(up: nat, down: nat)
    requires
        down > 0,
    ensures
        ready(0, up, down) == 0,
{
    assert(0 * up == 0);
    assert((down - 1) / down as int == 0) by (nonlinear_arith)
        requires
            down > 0,
    ;
}

proof fn lemma_output_count(len: nat, src_rate: u32, up: nat, down: nat)
    requires
        up > 0,
        down > 0,
        src_rate > 0,
        up * src_rate == down * SAMPLE_RATE,
    ensures
        ready(len, up, down) == output_count(len, src_rate),
{
    let rate = src_rate as nat;
    let wanted = SAMPLE_RATE as nat;
    let a = ready(len, up, down);
    let b = ready(len, wanted, rate);
    assert(len * wanted + rate - 1 >= 0 && (len * wanted + rate - 1) / rate as int >= 0)
        by (nonlinear_arith)
        requires
            rate > 0,
    ;
    let n = if a < b {
        a
    } else {
        b
    };
    lemma_ready(n, len, up, down);
    lemma_ready(n, len, wanted, rate);
    assert(n * down < len * up <==> n * rate < len * wanted) by (nonlinear_arith)
        requires
            up > 0,
            down > 0,
            rate > 0,
            wanted > 0,
            up * rate == down * wanted,
    ;
    assert(a == b);
}

/// A signal split across callbacks resamples as the same signal in one go, however
/// many blocks it comes in and however long each is: the outputs are made of the
/// same samples and meet the same taps. There are as many as the signal lasts for
/// at [`SAMPLE_RATE`]: as many as there is input, where that is its rate and blocks
/// pass through.
pub proof fn law_block_size_does_not_matter<T>(
    blocks: Seq<Seq<T>>,
    src_rate: u32,
    up: nat,
    down: nat,
    taps: nat,
)
    requires
        src_rate > 0,
        up > 0,
        down > 0,
        up * src_rate == down * SAMPLE_RATE,
        taps > up,
    ensures
        windows_by_block(blocks, up, down, taps) == windows_by_block(
            seq![all_blocks(blocks)],
            up,
            down,
            taps,
        ),
        windows_by_block(blocks, up, down, taps).len() == output_count(
            all_blocks(blocks).len(),
            src_rate,
        ),
        src_rate == SAMPLE_RATE ==> output_count(all_blocks(blocks).len(), src_rate) == all_blocks(
            blocks,
        ).len(),
{
    let whole = seq![all_blocks(blocks)];
    lemma_blocks_at_once(blocks, up, down, taps);
    lemma_blocks_at_once(whole, up, down, taps);
    assert(all_blocks(whole) == all_blocks(blocks)) by {
        assert(whole.drop_last() == Seq::<Seq<T>>::empty());
        assert(all_blocks(whole.drop_last()) == Seq::<T>::empty());
        assert(Seq::<T>::empty() + all_blocks(blocks) == all_blocks(blocks));
    }
    lemma_output_count(all_blocks(blocks).len(), src_rate, up, down);
}

proof fn lemma_blocks_at_once<T>(blocks: Seq<Seq<T>>, up: nat, down: nat, taps: nat)
    requires
        up > 0,
        down > 0,
        taps > up,
    ensures
        windows_by_block(blocks, up, down, taps) == windows(
            all_blocks(blocks),
            0,
            ready(all_blocks(blocks).len(), up, down),
            up,
            down,
            taps,
        ),
    decreases blocks.len(),
{
    let none = Seq::<T>::empty();
    lemma_nothing_ready(up, down);
    if blocks.len() == 0 {
        assert(windows(none, 0, 0, up, down, taps) == Seq::<WindowView<T>>::empty());
    } else {
        let front = all_blocks(blocks.drop_last());
        let last = blocks.last();
        lemma_blocks_at_once(blocks.drop_last(), up, down, taps);
        lemma_two_blocks(none, front, last, up, down, taps);
        assert(none + front == front);
        assert(none + (front + last) == front + last);
    }
}

/// Sample by sample and tap by tap: output `n` sums up each input `k` times the tap
/// `n * down - k * up`, wherever the filter has such a tap, and nothing else.
pub proof fn law_each_sample_meets_its_tap<T>(
    input: Seq<T>,
    n: nat,
    k: int,
    up: nat,
    down: nat,
    taps: nat,
)
    requires
        up > 0,
        down > 0,
        taps > up,
        n * down < input.len() * up,
    ensures
        ({
            let window = window_at(input, n, up, down, taps);
            &&& window.step == up
            &&& window.samples.len() > 0
            &&& 0 <= k && 0 <= n * down - k * up < taps ==> exists|i: int|
                0 <= i < window.samples.len() && #[trigger] window.samples[i] == input[k]
                    && window.first_tap - i * window.step == n * down - k * up
            &&& 0 <= k < window.samples.len() ==> exists|j: int|
                0 <= j < input.len() && window.samples[k] == #[trigger] input[j] && window.first_tap
                    - k * window.step == n * down - j * up && 0 <= n * down - j * up < taps
        }),
{
    let window = window_at(input, n, up, down, taps);
    let first = oldest(n, up, down, taps) as int;
    let last = newest(n, up, down) as int;
    lemma_ready(n, input.len(), up, down);
    lemma_window_bounds(n, up, down, taps);
    law_window_is_whole(n, k, up, down, taps);
    if 0 <= k && 0 <= n * down - k * up < taps {
        let i = k - first;
        assert(window.samples[i] == input[k]);
        assert(first * up + i * up == k * up) by (nonlinear_arith)
            requires
                i == k - first,
        ;
    }
    if 0 <= k < window.samples.len() {
        let j = first + k;
        law_window_is_whole(n, j, up, down, taps);
        assert(window.samples[k] == input[j]);
        assert(first * up + k * up == j * up) by (nonlinear_arith)
            requires
                j == first + k,
        ;
    }
}

} // verus!
