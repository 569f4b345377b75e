//! `HylRandom`: a Xoroshiro128+ generator seeded through SplitMix64, with
//! unbiased bounded draws (Lemire's rejection threshold), byte filling,
//! choices and a Fisher-Yates shuffle.
//!
//! Every draw is stated over the generator's state `(seed, s0, s1)`: `step`
//! is one Xoroshiro128+ transition, `output` the value that a state yields,
//! and `advanced(st, n)` the state after `n` transitions.
use vstd::prelude::*;

verus! {

/// The state of a generator: the seed it was made from and the two words of
/// the Xoroshiro128+ state.
pub type RngState = (u64, u64, u64);

/// The SplitMix64 increment (the golden ratio in 64-bit fixed point).
pub const SPLITMIX_GAMMA: u64 = 0x9E37_79B9_7F4A_7C15;

/// First SplitMix64 mixing multiplier.
pub const SPLITMIX_MUL1: u64 = 0xBF58_476D_1CE4_E5B9;

/// Second SplitMix64 mixing multiplier.
pub const SPLITMIX_MUL2: u64 = 0x94D0_49BB_1331_11EB;

/// The number of draws after which a rejecting loop keeps its last draw.
/// No run of a program reaches it: it stands where the loop would otherwise
/// have no bound.
pub const MAX_DRAWS: u64 = 0xFFFF_FFFF_FFFF_FFFF;

/// `x` modulo 2^64 as an integer of 64 bits.
pub open spec fn wrap64(x: int) -> u64 {
    (x % 0x1_0000_0000_0000_0000) as u64
}

/// Rotation of `x` left by `k` bits, `0 < k < 64`.
pub open spec fn rotl(x: u64, k: u64) -> u64 {
    (x << k) | (x >> ((64 - k) as u64))
}

/// The value that a state yields: the wrapping sum of its two words.
pub open spec fn output(st: RngState) -> u64 {
    wrap64(st.1 + st.2)
}

/// One Xoroshiro128+ transition (rotations 55 and 36, shift 14).
pub open spec fn step(st: RngState) -> RngState {
    let second = st.2 ^ st.1;
    (st.0, rotl(st.1, 55) ^ second ^ (second << 14u64), rotl(second, 36))
}

/// The state after `n` transitions.
pub open spec fn advanced(st: RngState, n: nat) -> RngState
    decreases n,
{
    if n == 0 {
        st
    } else {
        step(advanced(st, (n - 1) as nat))
    }
}

/// The `n`-th draw (counted from zero) of a generator in state `st`.
pub open spec fn draw(st: RngState, n: nat) -> u64 {
    output(advanced(st, n))
}

/// The SplitMix64 counter after one use.
pub open spec fn splitmix_next(seed: u64) -> u64 {
    wrap64(seed + SPLITMIX_GAMMA)
}

/// The SplitMix64 output for a counter before its use.
pub open spec fn splitmix_output(seed: u64) -> u64 {
    let z0 = splitmix_next(seed);
    let z1 = wrap64((z0 ^ (z0 >> 30u64)) * SPLITMIX_MUL1);
    let z2 = wrap64((z1 ^ (z1 >> 27u64)) * SPLITMIX_MUL2);
    z2 ^ (z2 >> 31u64)
}

/// The state of a generator made from `seed`.
pub open spec fn seeded(seed: u64) -> RngState {
    (seed, splitmix_output(seed), splitmix_output(splitmix_next(seed)))
}

/// Draws that fall below it are rejected, so that a draw modulo `bound` is
/// unbiased: `2^64 mod bound`.
pub open spec fn rejection_threshold(bound: u64) -> u64 {
    ((0x1_0000_0000_0000_0000 - bound) % (bound as int)) as u64
}

/// The index of the draw that a bounded draw keeps: the first one from `n`
/// on that is at least `threshold`, or the last one allowed.
pub open spec fn first_at_least(st: RngState, threshold: u64, n: nat) -> nat
    decreases MAX_DRAWS - n,
{
    if n + 1 >= MAX_DRAWS || draw(st, n) >= threshold {
        n
    } else {
        first_at_least(st, threshold, n + 1)
    }
}

/// A draw in `[0, bound)` and the state after it; `(0, st)` when `bound` is 0.
pub open spec fn bounded_draw(st: RngState, bound: u64) -> (u64, RngState) {
    if bound == 0 {
        (0, st)
    } else {
        let k = first_at_least(st, rejection_threshold(bound), 0);
        ((draw(st, k) % bound) as u64, advanced(st, k + 1))
    }
}

/// The index of the first draw from `n` on whose top bits (`draw >> shift`)
/// differ from `excluded`, or the last one allowed.
pub open spec fn first_not_equal(st: RngState, shift: u64, excluded: u64, n: nat) -> nat
    decreases MAX_DRAWS - n,
{
    if n + 1 >= MAX_DRAWS || (draw(st, n) >> shift) != excluded {
        n
    } else {
        first_not_equal(st, shift, excluded, n + 1)
    }
}

/// The top bits `draw >> shift` of the first draw whose top bits are not
/// `excluded`, and the state after it: a value in `[0, excluded)` when
/// `excluded` is the largest value of the top bits.
pub open spec fn draw_top_bits_below(st: RngState, shift: u64, excluded: u64) -> (u64, RngState) {
    let k = first_not_equal(st, shift, excluded, 0);
    let v = draw(st, k) >> shift;
    (if v != excluded { v } else { 0 }, advanced(st, k + 1))
}

/// `n` successive bounded draws, and the state after them.
pub open spec fn bounded_draws(st: RngState, bound: u64, n: nat) -> (Seq<u64>, RngState)
    decreases n,
{
    if n == 0 {
        (Seq::empty(), st)
    } else {
        let (prev, st1) = bounded_draws(st, bound, (n - 1) as nat);
        let (v, st2) = bounded_draw(st1, bound);
        (prev.push(v), st2)
    }
}

/// Byte `k` (`0 <= k < 8`) of the little-endian encoding of `x`.
pub open spec fn le_byte(x: u64, k: int) -> u8 {
    (x >> ((8 * k) as u64)) as u8
}

/// The bytes that filling a buffer of `len` bytes writes: the little-endian
/// bytes of the successive draws, cut to `len`.
pub open spec fn random_bytes(st: RngState, len: nat) -> Seq<u8> {
    Seq::new(len, |j: int| le_byte(draw(st, (j / 8) as nat), j % 8))
}

/// The Fisher-Yates passes over positions `i, i - 1, ..., 1`: each swaps
/// position `i` with a position drawn in `[0, i]`.
pub open spec fn shuffled<T>(st: RngState, s: Seq<T>, i: nat) -> (RngState, Seq<T>)
    decreases i,
{
    if i == 0 {
        (st, s)
    } else {
        let (j, st2) = bounded_draw(st, (i + 1) as u64);
        shuffled(st2, s.update(i as int, s[j as int]).update(j as int, s[i as int]), (i - 1) as nat)
    }
}

/// The highest position that a shuffle of `n` items swaps.
pub open spec fn shuffle_top(n: nat) -> nat {
    if n == 0 { 0 } else { (n - 1) as nat }
}

/// The generator state that the alternative PCG-style step leaves, and the
/// value that it yields.
pub open spec fn pcg_step(st: RngState) -> (RngState, u64) {
    let first = st.1;
    let second = st.2;
    let inc = (st.0 << 1u64) | 1u64;
    let s0 = wrap64(wrap64(first * 0x2360_ed05_1fc6_5da4u64) + inc);
    let s1 = wrap64(wrap64(second * 0x4385_df64_9fcc_f645u64) + (inc ^ 0x5851_f42d_4c95_7f2du64));
    let xorshifted = ((first ^ second) >> 18u64) ^ first;
    let rot = second >> 59u64;
    ((st.0, s0, s1), (xorshifted >> rot) | (xorshifted << ((64 - rot) as u64 & 63u64)))
}

/// A pseudo-random generator (Xoroshiro128+).
pub struct HylRandom {
    seed: u64,
    s0: u64,
    s1: u64,
}

impl View for HylRandom {
    type V = RngState;

    closed spec fn view(&self) -> RngState {
        (self.seed, self.s0, self.s1)
    }
}

#[verifier::external_type_specification]
#[verifier::external_body]
pub struct ExSystemTime(std::time::SystemTime);

/// `std::time::SystemTime::now`: the current wall-clock time. Nothing is
/// claimed of it.
#[verifier::external_body]
fn clock_now() -> std::time::SystemTime {
    std::time::SystemTime::now()
}

/// `SystemTime::duration_since(UNIX_EPOCH)`: the time elapsed since the Unix
/// epoch, `None` when `t` is earlier than the epoch. Nothing is claimed of
/// it.
#[verifier::external_body]
fn elapsed_since_unix_epoch(t: std::time::SystemTime) -> Option<std::time::Duration> {
    t.duration_since(std::time::UNIX_EPOCH).ok()
}

/// `Duration::as_millis`: the whole milliseconds of a duration. Nothing is
/// claimed of it.
#[verifier::external_body]
fn whole_millis(d: std::time::Duration) -> u128 {
    d.as_millis()
}

/// `<[T]>::swap`: exchanges two elements of a slice.
#[verifier::external_body]
fn swap_in_slice<T>(values: &mut [T], i: usize, j: usize)
    requires
        i < old(values)@.len(),
        j < old(values)@.len(),
    ensures
        final(values)@ == old(values)@.update(i as int, old(values)@[j as int]).update(
            j as int,
            old(values)@[i as int],
        ),
{
    values.swap(i, j)
}

/// Rotation left by `k` bits, `0 < k < 64`.
fn rotate_left(x: u64, k: u64) -> (r: u64)
    requires
        0 < k < 64,
    ensures
        r == rotl(x, k),
{
    (x << k) | (x >> (64 - k))
}

impl HylRandom {
    /// A generator seeded with the current time in milliseconds since the
    /// Unix epoch (cut to 64 bits); `None` when the clock reads earlier than
    /// the epoch.
    pub fn new() -> (r: Option<Self>)
        ensures
            r matches Some(g) ==> g@ == seeded(g@.0),
    {
        match elapsed_since_unix_epoch(clock_now()) {
            Some(elapsed) => {
                let millis = whole_millis(elapsed);
                Some(Self::from_seed(#[verifier::truncate] (millis as u64)))
            },
            None => None,
        }
    }

    /// A generator whose two state words are the first two SplitMix64
    /// outputs for `seed`.
    pub fn from_seed(seed: u64) -> (r: Self)
        ensures
            r@ == seeded(seed),
    {
        let mut counter = seed;
        let s0 = Self::splitmix(&mut counter);
        let s1 = Self::splitmix(&mut counter);
        Self { seed, s0, s1 }
    }

    /// A generator with the given state: `s0` is the low half of `s`, `s1`
    /// the high half.
    pub fn from_state(seed: u64, s: u128) -> (r: Self)
        ensures
            r@ == (seed, (s % 0x1_0000_0000_0000_0000) as u64, (s / 0x1_0000_0000_0000_0000) as u64),
    {
        let s0 = s as u64;
        let s1 = (s >> 64u32) as u64;
        assert(s0 == s % 0x1_0000_0000_0000_0000 && s1 == s / 0x1_0000_0000_0000_0000) by (bit_vector)
            requires
                s0 == s as u64,
                s1 == (s >> 64u32) as u64,
        ;
        Self { seed, s0, s1 }
    }

    /// The value that the next draw returns, without drawing it.
    pub fn peek_sample(&self) -> (r: u64)
        ensures
            r == output(self@),
    {
        self.s0.wrapping_add(self.s1)
    }

    /// One Xoroshiro128+ draw.
    fn internal_sample(&mut self) -> (r: u64)
        ensures
            r == output(old(self)@),
            final(self)@ == step(old(self)@),
    {
        let mut second = self.s1;
        let result = self.s0.wrapping_add(second);
        second = second ^ self.s0;
        self.s0 = rotate_left(self.s0, 55) ^ second ^ (second << 14u64);
        self.s1 = rotate_left(second, 36);
        result
    }

    /// The PCG-style alternative step, which mixes in the stored seed.
    fn internal_sample_pcg(&mut self) -> (r: u64)
        ensures
            (final(self)@, r) == pcg_step(old(self)@),
    {
        let first = self.s0;
        let second = self.s1;
        let inc = (self.seed << 1u64) | 1u64;
        self.s0 = self.s0.wrapping_mul(0x2360_ed05_1fc6_5da4u64).wrapping_add(inc);
        self.s1 = self.s1.wrapping_mul(0x4385_df64_9fcc_f645u64).wrapping_add(
            inc ^ 0x5851_f42d_4c95_7f2du64,
        );
        let xorshifted = ((first ^ second) >> 18u64) ^ first;
        let rot = second >> 59u64;
        assert(rot < 32 && ((64u64 - rot) as u64 & 63u64) < 64) by (bit_vector)
            requires
                rot == second >> 59u64,
        ;
        (xorshifted >> rot) | (xorshifted << ((64 - rot) & 63u64))
    }

    /// One SplitMix64 output; advances the counter.
    fn splitmix(seed: &mut u64) -> (z: u64)
        ensures
            *final(seed) == splitmix_next(*old(seed)),
            z == splitmix_output(*old(seed)),
    {
        *seed = (*seed).wrapping_add(SPLITMIX_GAMMA);
        let mut z = *seed;
        z = (z ^ (z >> 30u64)).wrapping_mul(SPLITMIX_MUL1);
        z = (z ^ (z >> 27u64)).wrapping_mul(SPLITMIX_MUL2);
        z ^ (z >> 31u64)
    }

    /// An unbiased draw in `[0, bound)`; 0 when `bound` is 0.
    fn next_below(&mut self, bound: u64) -> (r: u64)
        ensures
            (r, final(self)@) == bounded_draw(old(self)@, bound),
            bound > 0 ==> r < bound,
    {
        if bound == 0 {
            return 0;
        }
        let threshold = 0u64.wrapping_sub(bound) % bound;
        assert(threshold == rejection_threshold(bound));
        let ghost st0 = self@;
        let mut tries: u64 = 0;
        loop
            invariant
                bound > 0,
                threshold == rejection_threshold(bound),
                tries < MAX_DRAWS,
                st0 == old(self)@,
                self@ == advanced(st0, tries as nat),
                first_at_least(st0, threshold, 0) == first_at_least(st0, threshold, tries as nat),
                bounded_draw(st0, bound) == ((draw(st0, first_at_least(st0, threshold, 0)) % bound) as u64,
                    advanced(st0, first_at_least(st0, threshold, 0) + 1)),
            decreases MAX_DRAWS - tries,
        {
            let r = self.internal_sample();
            assert(self@ == advanced(st0, (tries + 1) as nat));
            assert(r == draw(st0, tries as nat));
            if r >= threshold || tries + 1 >= MAX_DRAWS {
                assert(first_at_least(st0, threshold, tries as nat) == tries);
                return r % bound;
            }
            assert(first_at_least(st0, threshold, tries as nat) == first_at_least(
                st0,
                threshold,
                (tries + 1) as nat,
            ));
            tries = tries + 1;
        }
    }

    /// An unbiased draw in `[0, bound)` for a `usize` bound; 0 when `bound` is 0.
    fn next_below_usize(&mut self, bound: usize) -> (r: usize)
        ensures
            r == bounded_draw(old(self)@, bound as u64).0,
            final(self)@ == bounded_draw(old(self)@, bound as u64).1,
            bound > 0 ==> r < bound,
    {
        self.next_below(bound as u64) as usize
    }

    /// Draws until the top bits `draw >> shift` differ from `excluded`.
    fn next_top_bits_below(&mut self, shift: u64, excluded: u64) -> (r: u64)
        requires
            shift < 64,
        ensures
            (r, final(self)@) == draw_top_bits_below(old(self)@, shift, excluded),
    {
        let ghost st0 = self@;
        let mut tries: u64 = 0;
        loop
            invariant
                shift < 64,
                tries < MAX_DRAWS,
                st0 == old(self)@,
                self@ == advanced(st0, tries as nat),
                first_not_equal(st0, shift, excluded, 0) == first_not_equal(st0, shift, excluded, tries as nat),
            decreases MAX_DRAWS - tries,
        {
            let sample = self.internal_sample();
            assert(self@ == advanced(st0, (tries + 1) as nat));
            assert(sample == draw(st0, tries as nat));
            let v = sample >> shift;
            if v != excluded || tries + 1 >= MAX_DRAWS {
                assert(first_not_equal(st0, shift, excluded, tries as nat) == tries);
                return if v != excluded { v } else { 0 };
            }
            assert(first_not_equal(st0, shift, excluded, tries as nat) == first_not_equal(
                st0,
                shift,
                excluded,
                (tries + 1) as nat,
            ));
            tries = tries + 1;
        }
    }

    /// A draw of the top bits: `next_u64() >> 56`.
    pub fn next_u8(&mut self) -> (r: u8)
        ensures
            r == output(old(self)@) >> 56u64,
            final(self)@ == step(old(self)@),
    {
        let x = self.internal_sample();
        assert((x >> 56u64) as u8 == x >> 56u64) by (bit_vector);
        (x >> 56u64) as u8
    }

    /// A draw of the top bits: `next_u64() >> 48`.
    pub fn next_u16(&mut self) -> (r: u16)
        ensures
            r == output(old(self)@) >> 48u64,
            final(self)@ == step(old(self)@),
    {
        let x = self.internal_sample();
        assert((x >> 48u64) as u16 == x >> 48u64) by (bit_vector);
        (x >> 48u64) as u16
    }

    /// A draw of the top bits: `next_u64() >> 32`.
    pub fn next_u32(&mut self) -> (r: u32)
        ensures
            r == output(old(self)@) >> 32u64,
            final(self)@ == step(old(self)@),
    {
        let x = self.internal_sample();
        assert((x >> 32u64) as u32 == x >> 32u64) by (bit_vector);
        (x >> 32u64) as u32
    }

    /// A draw in `[0, max_value)` reduced by plain modulo; 0 when `max_value`
    /// is 0, and then nothing is drawn.
    pub fn next_u8_max(&mut self, max_value: u8) -> (r: u8)
        ensures
            max_value == 0 ==> r == 0 && final(self)@ == old(self)@,
            max_value > 0 ==> r == output(old(self)@) as int % (max_value as int) && final(self)@ == step(
                old(self)@,
            ),
            max_value > 0 ==> r < max_value,
    {
        if max_value == 0 {
            return 0;
        }
        (self.internal_sample() % max_value as u64) as u8
    }

    /// A draw in `[min_value, max_value)` reduced by plain modulo;
    /// `min_value` when the two are equal, and then nothing is drawn.
    pub fn next_u8_range(&mut self, min_value: u8, max_value: u8) -> (r: u8)
        requires
            min_value <= max_value,
        ensures
            min_value == max_value ==> r == min_value && final(self)@ == old(self)@,
            min_value < max_value ==> r == min_value + output(old(self)@) as int % ((max_value - min_value) as int)
                && final(self)@ == step(old(self)@),
            min_value < max_value ==> min_value <= r < max_value,
    {
        if min_value == max_value {
            return min_value;
        }
        min_value + (self.internal_sample() % (max_value - min_value) as u64) as u8
    }

    /// An unbiased draw in `[0, max_value)`; 0 when `max_value` is 0, and then
    /// nothing is drawn.
    pub fn next_u16_max(&mut self, max_value: u16) -> (r: u16)
        ensures
            r == bounded_draw(old(self)@, max_value as u64).0,
            final(self)@ == bounded_draw(old(self)@, max_value as u64).1,
            max_value > 0 ==> r < max_value,
    {
        if max_value == 0 {
            return 0;
        }
        self.next_below(max_value as u64) as u16
    }

    /// An unbiased draw in `[min_value, max_value)`; `min_value` when the two
    /// are equal, and then nothing is drawn.
    pub fn next_u16_range(&mut self, min_value: u16, max_value: u16) -> (r: u16)
        requires
            min_value <= max_value,
        ensures
            r == min_value + bounded_draw(old(self)@, (max_value - min_value) as u64).0,
            final(self)@ == bounded_draw(old(self)@, (max_value - min_value) as u64).1,
            min_value < max_value ==> min_value <= r < max_value,
    {
        if min_value == max_value {
            return min_value;
        }
        min_value + self.next_below((max_value - min_value) as u64) as u16
    }

    /// An unbiased draw in `[0, max_value)`; 0 when `max_value` is 0, and then
    /// nothing is drawn.
    pub fn next_u32_max(&mut self, max_value: u32) -> (r: u32)
        ensures
            r == bounded_draw(old(self)@, max_value as u64).0,
            final(self)@ == bounded_draw(old(self)@, max_value as u64).1,
            max_value > 0 ==> r < max_value,
    {
        if max_value == 0 {
            return 0;
        }
        self.next_below(max_value as u64) as u32
    }

    /// An unbiased draw in `[min_value, max_value)`; `min_value` when the two
    /// are equal, and then nothing is drawn.
    pub fn next_u32_range(&mut self, min_value: u32, max_value: u32) -> (r: u32)
        requires
            min_value <= max_value,
        ensures
            r == min_value + bounded_draw(old(self)@, (max_value - min_value) as u64).0,
            final(self)@ == bounded_draw(old(self)@, (max_value - min_value) as u64).1,
            min_value < max_value ==> min_value <= r < max_value,
    {
        if min_value == max_value {
            return min_value;
        }
        min_value + self.next_below((max_value - min_value) as u64) as u32
    }

    /// A full 64-bit draw.
    pub fn next_u64(&mut self) -> (r: u64)
        ensures
            r == output(old(self)@),
            final(self)@ == step(old(self)@),
    {
        self.internal_sample()
    }

    /// An unbiased draw in `[0, max_value)`; 0 when `max_value` is 0, and then
    /// nothing is drawn.
    pub fn next_u64_max(&mut self, max_value: u64) -> (r: u64)
        ensures
            r == bounded_draw(old(self)@, max_value).0,
            final(self)@ == bounded_draw(old(self)@, max_value).1,
            max_value > 0 ==> r < max_value,
    {
        if max_value == 0 {
            return 0;
        }
        self.next_below(max_value)
    }

    /// An unbiased draw in `[min_value, max_value)`; `min_value` when the two
    /// are equal, and then nothing is drawn.
    pub fn next_u64_range(&mut self, min_value: u64, max_value: u64) -> (r: u64)
        requires
            min_value <= max_value,
        ensures
            r == min_value + bounded_draw(old(self)@, (max_value - min_value) as u64).0,
            final(self)@ == bounded_draw(old(self)@, (max_value - min_value) as u64).1,
            min_value < max_value ==> min_value <= r < max_value,
    {
        if min_value == max_value {
            return min_value;
        }
        min_value + self.next_below((max_value - min_value) as u64) as u64
    }

    /// A draw in `[0, i8::MAX)`: the top bits `next_u64() >> 57`, drawn again
    /// while they equal `i8::MAX`.
    pub fn next_i8(&mut self) -> (r: i8)
        ensures
            r == draw_top_bits_below(old(self)@, 57u64, 127u64).0,
            final(self)@ == draw_top_bits_below(old(self)@, 57u64, 127u64).1,
            0 <= r < i8::MAX,
    {
        let v = self.next_top_bits_below(57u64, 127u64);
        proof {
            let ghost x = draw(old(self)@, first_not_equal(old(self)@, 57u64, 127u64, 0));
            assert(x >> 57u64 <= 127u64) by (bit_vector);
        }
        v as i8
    }

    /// An unbiased draw in `[0, max_value)`; 0 when `max_value` is 0, and then
    /// nothing is drawn.
    pub fn next_i8_max(&mut self, max_value: i8) -> (r: i8)
        requires
            max_value >= 0,
        ensures
            r == bounded_draw(old(self)@, max_value as u64).0,
            final(self)@ == bounded_draw(old(self)@, max_value as u64).1,
            max_value > 0 ==> 0 <= r < max_value,
    {
        if max_value == 0 {
            return 0;
        }
        self.next_below(max_value as u64) as i8
    }

    /// An unbiased draw in `[min_value, max_value)`; `min_value` when the two
    /// are equal, and then nothing is drawn. The width is taken in a wider
    /// type, so any `min_value <= max_value` is admitted.
    pub fn next_i8_range(&mut self, min_value: i8, max_value: i8) -> (r: i8)
        requires
            min_value <= max_value,
        ensures
            r == min_value + bounded_draw(old(self)@, (max_value - min_value) as u64).0,
            final(self)@ == bounded_draw(old(self)@, (max_value - min_value) as u64).1,
            min_value < max_value ==> min_value <= r < max_value,
    {
        if min_value == max_value {
            return min_value;
        }
        let width = (max_value as i64 - min_value as i64) as u64;
        let d = self.next_below(width);
        (min_value as i64 + d as i64) as i8
    }

    /// A draw in `[0, i16::MAX)`: the top bits `next_u64() >> 49`, drawn again
    /// while they equal `i16::MAX`.
    pub fn next_i16(&mut self) -> (r: i16)
        ensures
            r == draw_top_bits_below(old(self)@, 49u64, 0x7FFFu64).0,
            final(self)@ == draw_top_bits_below(old(self)@, 49u64, 0x7FFFu64).1,
            0 <= r < i16::MAX,
    {
        let v = self.next_top_bits_below(49u64, 0x7FFFu64);
        proof {
            let ghost x = draw(old(self)@, first_not_equal(old(self)@, 49u64, 0x7FFFu64, 0));
            assert(x >> 49u64 <= 0x7FFFu64) by (bit_vector);
        }
        v as i16
    }

    /// An unbiased draw in `[0, max_value)`; 0 when `max_value` is 0, and then
    /// nothing is drawn.
    pub fn next_i16_max(&mut self, max_value: i16) -> (r: i16)
        requires
            max_value >= 0,
        ensures
            r == bounded_draw(old(self)@, max_value as u64).0,
            final(self)@ == bounded_draw(old(self)@, max_value as u64).1,
            max_value > 0 ==> 0 <= r < max_value,
    {
        if max_value == 0 {
            return 0;
        }
        self.next_below(max_value as u64) as i16
    }

    /// An unbiased draw in `[min_value, max_value)`; `min_value` when the two
    /// are equal, and then nothing is drawn. The width is taken in a wider
    /// type, so any `min_value <= max_value` is admitted.
    pub fn next_i16_range(&mut self, min_value: i16, max_value: i16) -> (r: i16)
        requires
            min_value <= max_value,
        ensures
            r == min_value + bounded_draw(old(self)@, (max_value - min_value) as u64).0,
            final(self)@ == bounded_draw(old(self)@, (max_value - min_value) as u64).1,
            min_value < max_value ==> min_value <= r < max_value,
    {
        if min_value == max_value {
            return min_value;
        }
        let width = (max_value as i64 - min_value as i64) as u64;
        let d = self.next_below(width);
        (min_value as i64 + d as i64) as i16
    }

    /// A draw in `[0, i32::MAX)`: the top bits `next_u64() >> 33`, drawn again
    /// while they equal `i32::MAX`.
    pub fn next_i32(&mut self) -> (r: i32)
        ensures
            r == draw_top_bits_below(old(self)@, 33u64, 0x7FFF_FFFFu64).0,
            final(self)@ == draw_top_bits_below(old(self)@, 33u64, 0x7FFF_FFFFu64).1,
            0 <= r < i32::MAX,
    {
        let v = self.next_top_bits_below(33u64, 0x7FFF_FFFFu64);
        proof {
            let ghost x = draw(old(self)@, first_not_equal(old(self)@, 33u64, 0x7FFF_FFFFu64, 0));
            assert(x >> 33u64 <= 0x7FFF_FFFFu64) by (bit_vector);
        }
        v as i32
    }

    /// An unbiased draw in `[0, max_value)`; 0 when `max_value` is 0, and then
    /// nothing is drawn.
    pub fn next_i32_max(&mut self, max_value: i32) -> (r: i32)
        requires
            max_value >= 0,
        ensures
            r == bounded_draw(old(self)@, max_value as u64).0,
            final(self)@ == bounded_draw(old(self)@, max_value as u64).1,
            max_value > 0 ==> 0 <= r < max_value,
    {
        if max_value == 0 {
            return 0;
        }
        self.next_below(max_value as u64) as i32
    }

    /// An unbiased draw in `[min_value, max_value)`; `min_value` when the two
    /// are equal, and then nothing is drawn. The width is taken in a wider
    /// type, so any `min_value <= max_value` is admitted.
    pub fn next_i32_range(&mut self, min_value: i32, max_value: i32) -> (r: i32)
        requires
            min_value <= max_value,
        ensures
            r == min_value + bounded_draw(old(self)@, (max_value - min_value) as u64).0,
            final(self)@ == bounded_draw(old(self)@, (max_value - min_value) as u64).1,
            min_value < max_value ==> min_value <= r < max_value,
    {
        if min_value == max_value {
            return min_value;
        }
        let width = (max_value as i64 - min_value as i64) as u64;
        let d = self.next_below(width);
        (min_value as i64 + d as i64) as i32
    }

    /// A draw in `[0, i64::MAX)`: the top bits `next_u64() >> 1`, drawn again
    /// while they equal `i64::MAX`.
    pub fn next_i64(&mut self) -> (r: i64)
        ensures
            r == draw_top_bits_below(old(self)@, 1u64, 0x7FFF_FFFF_FFFF_FFFFu64).0,
            final(self)@ == draw_top_bits_below(old(self)@, 1u64, 0x7FFF_FFFF_FFFF_FFFFu64).1,
            0 <= r < i64::MAX,
    {
        let v = self.next_top_bits_below(1u64, 0x7FFF_FFFF_FFFF_FFFFu64);
        proof {
            let ghost x = draw(old(self)@, first_not_equal(old(self)@, 1u64, 0x7FFF_FFFF_FFFF_FFFFu64, 0));
            assert(x >> 1u64 <= 0x7FFF_FFFF_FFFF_FFFFu64) by (bit_vector);
        }
        v as i64
    }

    /// An unbiased draw in `[0, max_value)`; 0 when `max_value` is 0, and then
    /// nothing is drawn.
    pub fn next_i64_max(&mut self, max_value: i64) -> (r: i64)
        requires
            max_value >= 0,
        ensures
            r == bounded_draw(old(self)@, max_value as u64).0,
            final(self)@ == bounded_draw(old(self)@, max_value as u64).1,
            max_value > 0 ==> 0 <= r < max_value,
    {
        if max_value == 0 {
            return 0;
        }
        self.next_below(max_value as u64) as i64
    }

    /// An unbiased draw in `[min_value, max_value)`; `min_value` when the two
    /// are equal, and then nothing is drawn. The width is taken in a wider
    /// type, so any `min_value <= max_value` is admitted.
    pub fn next_i64_range(&mut self, min_value: i64, max_value: i64) -> (r: i64)
        requires
            min_value <= max_value,
        ensures
            r == min_value + bounded_draw(old(self)@, (max_value - min_value) as u64).0,
            final(self)@ == bounded_draw(old(self)@, (max_value - min_value) as u64).1,
            min_value < max_value ==> min_value <= r < max_value,
    {
        if min_value == max_value {
            return min_value;
        }
        let width = (max_value as i128 - min_value as i128) as u64;
        let d = self.next_below(width);
        (min_value as i128 + d as i128) as i64
    }

    /// A reference to an element of `choices` at a drawn position.
    pub fn choice<'a, T>(&mut self, choices: &'a [T]) -> (r: &'a T)
        requires
            choices@.len() > 0,
        ensures
            *r == choices@[bounded_draw(old(self)@, choices@.len() as u64).0 as int],
            final(self)@ == bounded_draw(old(self)@, choices@.len() as u64).1,
    {
        let i = self.next_below_usize(choices.len());
        &choices[i]
    }

    /// Fills `destination` with elements of `choices` at successive drawn
    /// positions.
    pub fn get_items<T: Copy>(&mut self, choices: &[T], destination: &mut [T])
        requires
            choices@.len() > 0,
        ensures
            final(destination)@.len() == old(destination)@.len(),
            forall|k: int|
                0 <= k < old(destination)@.len() ==> final(destination)@[k] == choices@[bounded_draws(
                    old(self)@,
                    choices@.len() as u64,
                    old(destination)@.len(),
                ).0[k] as int],
            final(self)@ == bounded_draws(old(self)@, choices@.len() as u64, old(destination)@.len()).1,
    {
        let ghost st0 = self@;
        let ghost bound = choices@.len() as u64;
        let n = destination.len();
        let mut i: usize = 0;
        while i < n
            invariant
                choices@.len() > 0,
                bound == choices@.len() as u64,
                i <= n,
                n == destination@.len(),
                self@ == bounded_draws(st0, bound, i as nat).1,
                forall|k: int|
                    0 <= k < i ==> destination@[k] == choices@[bounded_draws(st0, bound, i as nat).0[k] as int],
            decreases n - i,
        {
            proof {
                lemma_bounded_draws_step(st0, bound, i as nat);
            }
            let item = *self.choice(choices);
            destination[i] = item;
            i = i + 1;
        }
        proof {
            lemma_bounded_draws_len(st0, bound, n as nat);
        }
    }

    /// A vector of `length` clones of elements of `choices` at successive
    /// drawn positions.
    pub fn get_items_vec<T: Clone>(&mut self, choices: &[T], length: usize) -> (r: Vec<T>)
        requires
            choices@.len() > 0,
        ensures
            r@.len() == length,
            forall|k: int|
                0 <= k < length ==> cloned(
                    choices@[bounded_draws(old(self)@, choices@.len() as u64, length as nat).0[k] as int],
                    r@[k],
                ),
            final(self)@ == bounded_draws(old(self)@, choices@.len() as u64, length as nat).1,
    {
        let ghost st0 = self@;
        let ghost bound = choices@.len() as u64;
        let mut out: Vec<T> = Vec::new();
        let mut i: usize = 0;
        while i < length
            invariant
                choices@.len() > 0,
                bound == choices@.len() as u64,
                i <= length,
                out@.len() == i,
                self@ == bounded_draws(st0, bound, i as nat).1,
                forall|k: int|
                    0 <= k < i ==> cloned(choices@[bounded_draws(st0, bound, i as nat).0[k] as int], out@[k]),
            decreases length - i,
        {
            proof {
                lemma_bounded_draws_step(st0, bound, i as nat);
            }
            let item = self.choice(choices).clone();
            out.push(item);
            i = i + 1;
        }
        proof {
            lemma_bounded_draws_len(st0, bound, length as nat);
        }
        out
    }

    /// Fills `buffer` with the little-endian bytes of successive draws; the
    /// last draw gives only as many of its low bytes as the buffer has room
    /// for.
    pub fn next_bytes(&mut self, buffer: &mut [u8])
        ensures
            final(buffer)@ == random_bytes(old(self)@, old(buffer)@.len()),
            final(self)@ == advanced(old(self)@, (old(buffer)@.len() + 7) as nat / 8),
    {
        let ghost st0 = self@;
        let n = buffer.len();
        let mut i: usize = 0;
        while n - i >= 8
            invariant
                i <= n,
                i % 8 == 0,
                n == buffer@.len(),
                self@ == advanced(st0, (i / 8) as nat),
                forall|j: int| 0 <= j < i ==> buffer@[j] == le_byte(draw(st0, (j / 8) as nat), j % 8),
            decreases n - i,
        {
            let rnd = self.internal_sample();
            assert(self@ == advanced(st0, (i / 8 + 1) as nat));
            let mut k: usize = 0;
            while k < 8
                invariant
                    i <= n,
                    n - i >= 8,
                    i % 8 == 0,
                    k <= 8,
                    n == buffer@.len(),
                    rnd == draw(st0, (i / 8) as nat),
                    forall|j: int| 0 <= j < i + k ==> buffer@[j] == le_byte(draw(st0, (j / 8) as nat), j % 8),
                decreases 8 - k,
            {
                buffer[i + k] = (rnd >> (8 * k) as u64) as u8;
                k = k + 1;
            }
            i = i + 8;
        }
        if i < n {
            let rnd = self.internal_sample();
            assert(self@ == advanced(st0, (i / 8 + 1) as nat));
            let base = i;
            while i < n
                invariant
                    base <= i <= n,
                    n - base < 8,
                    base % 8 == 0,
                    n == buffer@.len(),
                    rnd == draw(st0, (base / 8) as nat),
                    forall|j: int| 0 <= j < i ==> buffer@[j] == le_byte(draw(st0, (j / 8) as nat), j % 8),
                decreases n - i,
            {
                buffer[i] = (rnd >> (8 * (i - base)) as u64) as u8;
                i = i + 1;
            }
        }
        assert(buffer@ =~= random_bytes(st0, n as nat));
    }

    /// An in-place Fisher-Yates shuffle: for `i` from the last position down
    /// to 1, swaps position `i` with a position drawn in `[0, i]`.
    pub fn shuffle<T>(&mut self, values: &mut [T])
        ensures
            (final(self)@, final(values)@) == shuffled(old(self)@, old(values)@, shuffle_top(old(values)@.len())),
    {
        let n = values.len();
        let mut i: usize = if n == 0 { 0 } else { n - 1 };
        let ghost target = shuffled(self@, values@, i as nat);
        while i >= 1
            invariant
                i < n || i == 0,
                n == values@.len(),
                shuffled(self@, values@, i as nat) == target,
            decreases i,
        {
            let ghost before = values@;
            let j = self.next_below_usize(i + 1);
            swap_in_slice(values, i, j);
            assert(values@ == before.update(i as int, before[j as int]).update(j as int, before[i as int]));
            i = i - 1;
        }
    }

    /// Runs the Xoroshiro128+ transition `i32::MAX` times, with the rotations
    /// written out, and discards the outputs.
    pub fn lots_of_samples(&mut self)
        ensures
            final(self)@ == advanced(old(self)@, 0x7FFF_FFFF),
    {
        let ghost st0 = self@;
        let mut n: i32 = 0;
        while n < i32::MAX
            invariant
                0 <= n <= i32::MAX,
                self@ == advanced(st0, n as nat),
            decreases i32::MAX - n,
        {
            let first = self.s0;
            let mut second = self.s1;
            let _result = first.wrapping_add(second);
            second = second ^ first;
            self.s0 = ((first << 55u64) | (first >> 9u64)) ^ second ^ (second << 14u64);
            self.s1 = (second << 36u64) | (second >> 28u64);
            assert(self@ == advanced(st0, (n + 1) as nat));
            n = n + 1;
        }
    }
}

impl Default for HylRandom {
    /// A generator seeded with the current time, as `new`; seeded with 0 when
    /// the clock reads earlier than the Unix epoch.
    fn default() -> (r: Self)
        ensures
            r@ == seeded(r@.0),
    {
        match Self::new() {
            Some(g) => g,
            None => Self::from_seed(0),
        }
    }
}

/// One more bounded draw extends the sequence of draws by one and keeps the
/// earlier ones.
proof fn lemma_bounded_draws_step(st: RngState, bound: u64, i: nat)
    ensures
        bounded_draws(st, bound, i).0.len() == i,
        bounded_draws(st, bound, i + 1).0 == bounded_draws(st, bound, i).0.push(
            bounded_draw(bounded_draws(st, bound, i).1, bound).0,
        ),
        bounded_draws(st, bound, i + 1).1 == bounded_draw(bounded_draws(st, bound, i).1, bound).1,
{
    lemma_bounded_draws_len(st, bound, i);
}

/// `n` bounded draws give `n` values.
proof fn lemma_bounded_draws_len(st: RngState, bound: u64, n: nat)
    ensures
        bounded_draws(st, bound, n).0.len() == n,
    decreases n,
{
    if n > 0 {
        lemma_bounded_draws_len(st, bound, (n - 1) as nat);
    }
}

/// A shuffle only reorders: it keeps the length and the multiset of the
/// elements.
pub proof fn lemma_shuffle_permutes<T>(st: RngState, s: Seq<T>, i: nat)
    requires
        i < s.len() || i == 0,
    ensures
        shuffled(st, s, i).1.len() == s.len(),
        shuffled(st, s, i).1.to_multiset() == s.to_multiset(),
    decreases i,
{
    if i > 0 {
        let (j, st2) = bounded_draw(st, (i + 1) as u64);
        assert(j < i + 1);
        let s1 = s.update(i as int, s[j as int]);
        let s2 = s1.update(j as int, s[i as int]);
        assert(s2.to_multiset() =~= s.to_multiset()) by {
            broadcast use vstd::multiset::group_multiset_properties;
            vstd::seq_lib::to_multiset_update(s, i as int, s[j as int]);
            vstd::seq_lib::to_multiset_update(s1, j as int, s[i as int]);
            vstd::seq_lib::to_multiset_contains(s, s[i as int]);
            assert(s.contains(s[i as int]));
            assert(s1[j as int] == s[j as int]);
            let m = s.to_multiset();
            let a = s[i as int];
            let b = s[j as int];
            assert(m.count(a) >= 1);
            assert forall|x: T| #[trigger] s2.to_multiset().count(x) == m.count(x) by {
                assert(s2.to_multiset() == m.insert(b).remove(a).insert(a).remove(b));
            }
        }
        lemma_shuffle_permutes(st2, s2, (i - 1) as nat);
    }
}

/// `peek_sample` announces the value of the next draw.
pub proof fn lemma_peek_is_next_draw(st: RngState)
    ensures
        output(st) == draw(st, 0),
        advanced(st, 1) == step(st),
{
    assert(advanced(st, 0) == st);
}

} // verus!
