//! The integer side of the gradient noise: the lattice hash, the periods of
//! periodic noise, the corner hashes of a lattice cell and the bit patterns
//! of the gradients. The interpolation between the corners works on floats
//! and lives with the application.
use vstd::prelude::*;
use vstd::arithmetic::power2::{pow2, lemma_pow2_adds, lemma_pow2_pos, lemma2_to64};
use vstd::arithmetic::div_mod::{lemma_fundamental_div_mod_converse, lemma_mod_multiples_vanish};

verus! {

/// Octaves of fractal noise.
pub const FRACTAL_OCTAVES: i32 = 8;

/// Offset added to lattice coordinates before hashing.
pub const OFFSET: i32 = 228125273;

/// Multiplier that spreads the seed.
pub const SEED_PRIME: i32 = 525124619;

/// First hash prime for x.
pub const X_PRIME1: i32 = 863909317;

/// First hash prime for y.
pub const Y_PRIME1: i32 = 1987438051;

/// Second hash prime for x.
pub const X_PRIME2: i32 = 1299341299;

/// Second hash prime for y.
pub const Y_PRIME2: i32 = 580423463;

/// Mask that clears the exponent bits of a gradient hash.
pub const GRAD_AND_MASK: i32 = -0x7F9F_E7F9;

/// Mask that sets the exponent bits of a gradient hash to those of 0.5.
pub const GRAD_OR_MASK: i32 = 0x3F0F_C3F0;

/// Shift that aligns the second copy of the gradient exponent.
pub const GRAD_SHIFT1: i32 = 10;

/// Shift that removes the error of the periodic multiply.
pub const PERIOD_SHIFT: i32 = 18;

/// Wrapping `i32` addition.
pub open spec fn wadd(x: i32, y: i32) -> i32 {
    vstd::wrapping::i32_specs::wrapping_add(x, y)
}

/// Wrapping `i32` multiplication.
pub open spec fn wmul(x: i32, y: i32) -> i32 {
    vstd::wrapping::i32_specs::wrapping_mul(x, y)
}

/// The lattice hash of `(x, y)`: `y` shifted apart from `x`, then
/// alternating multiplies, shifted adds and shifted xors.
pub open spec fn lattice_hash(x: i32, y: i32) -> i32 {
    let h0 = x ^ (y << 6i32);
    let h1 = wadd(h0, h0 >> 5i32);
    let h2 = wmul(h1, X_PRIME1);
    let h3 = h2 ^ (h2 >> 4i32);
    let h4 = wadd(h3, h3 >> 2i32);
    let h5 = h4 ^ (h4 >> 16i32);
    wmul(h5, X_PRIME2)
}

/// Hashes a lattice point.
pub fn hash(x: i32, y: i32) -> (r: i32)
    ensures
        r == lattice_hash(x, y),
{
    let mut h = x ^ (y << 6i32);
    h = h.wrapping_add(h >> 5i32);
    h = h.wrapping_mul(X_PRIME1);
    h = h ^ (h >> 4i32);
    h = h.wrapping_add(h >> 2i32);
    h = h ^ (h >> 16i32);
    h.wrapping_mul(X_PRIME2)
}

/// The bits of an `i32` read as a `u32`.
pub open spec fn bits_u32(x: i32) -> int {
    if x < 0 { x + 0x1_0000_0000 } else { x as int }
}

/// The `i32` whose bits are those of the `u32` value `v`.
pub open spec fn signed_of_bits(v: int) -> int {
    if v >= 0x8000_0000 { v - 0x1_0000_0000 } else { v }
}

/// The multiplier for a period: `0` for no period, `-1` (all bits set) for a
/// period of at most 1, else `u32::MAX / period + 1`, read as an `i32`, so
/// that a product with it wraps to zero once per period.
pub open spec fn period_factor(period: i32) -> i32 {
    if period == 0 {
        0
    } else if period <= 1 {
        -1i32
    } else {
        signed_of_bits(0xFFFF_FFFFint / (period as int) + 1) as i32
    }
}

/// The period that a factor stands for: `u32::MAX / factor + 1` with the
/// factor read as a `u32`; 0 for the zero factor.
pub open spec fn factor_period(factor: i32) -> int {
    if factor == 0 {
        0
    } else {
        0xFFFF_FFFFint / bits_u32(factor) + 1
    }
}

/// A factor that `period_factor` can give: 0, or at least 3 read as a `u32`.
pub open spec fn is_factor(factor: i32) -> bool {
    factor == 0 || bits_u32(factor) >= 3
}

/// The periods of periodic noise along x, y and z, kept as multipliers.
pub struct NoisePeriod {
    pub(crate) xf: i32,
    pub(crate) yf: i32,
    zf: i32,
}

impl NoisePeriod {
    #[verifier::type_invariant]
    spec fn factors_valid(self) -> bool {
        is_factor(self.xf) && is_factor(self.yf) && is_factor(self.zf)
    }

    /// The multiplier along x.
    pub closed spec fn x_factor(self) -> i32 {
        self.xf
    }

    /// The multiplier along y.
    pub closed spec fn y_factor(self) -> i32 {
        self.yf
    }

    /// The multiplier along z.
    pub closed spec fn z_factor(self) -> i32 {
        self.zf
    }

    /// Periods given in lattice cells; 0 means no period along that axis.
    pub fn new(x_period: i32, y_period: i32, z_period: i32) -> (r: Self)
        ensures
            r.x_factor() == period_factor(x_period),
            r.y_factor() == period_factor(y_period),
            r.z_factor() == period_factor(z_period),
    {
        Self {
            xf: Self::get_factor(x_period),
            yf: Self::get_factor(y_period),
            zf: Self::get_factor(z_period),
        }
    }

    /// No period along any axis.
    pub fn null() -> (r: Self)
        ensures
            r.x_factor() == 0 && r.y_factor() == 0 && r.z_factor() == 0,
    {
        Self::new(0, 0, 0)
    }

    /// The multiplier for one period.
    fn get_factor(period: i32) -> (r: i32)
        ensures
            r == period_factor(period),
            is_factor(r),
    {
        if period == 0 {
            return 0;
        }
        if period <= 1 {
            return -1;
        }
        let mut factor: u32 = u32::MAX / (period as u32);
        assert(2 <= factor <= 0x7FFF_FFFF) by (nonlinear_arith)
            requires factor == 0xFFFF_FFFFint / (period as int), 2 <= period <= 0x7FFF_FFFF;
        factor = factor + 1;
        let r = #[verifier::truncate] (factor as i32);
        assert(r == signed_of_bits(factor as int)) by (bit_vector)
            requires r == factor as i32;
        r
    }

    /// The period along x; 0 when there is none.
    pub fn x_period(&self) -> (r: i32)
        ensures
            r == factor_period(self.x_factor()),
    {
        proof {
            use_type_invariant(self);
        }
        if self.xf == 0 {
            0
        } else {
            Self::period_of_factor(self.xf)
        }
    }

    /// The period along y. It is 0 whenever there is no period along z,
    /// whatever the factor along y.
    pub fn y_period(&self) -> (r: i32)
        requires
            self.z_factor() != 0 ==> self.y_factor() != 0,
        ensures
            r == if self.z_factor() == 0 { 0 } else { factor_period(self.y_factor()) },
    {
        proof {
            use_type_invariant(self);
        }
        if self.zf == 0 {
            0
        } else {
            Self::period_of_factor(self.yf)
        }
    }

    /// The period along z; 0 when there is none.
    pub fn z_period(&self) -> (r: i32)
        ensures
            r == factor_period(self.z_factor()),
    {
        proof {
            use_type_invariant(self);
        }
        if self.zf == 0 {
            0
        } else {
            Self::period_of_factor(self.zf)
        }
    }

    /// Whether there is no period along x.
    pub fn is_null(&self) -> (r: bool)
        ensures
            r == (self.x_factor() == 0),
    {
        self.xf == 0
    }

    /// `u32::MAX / factor + 1` for a non-zero factor.
    fn period_of_factor(factor: i32) -> (r: i32)
        requires
            factor != 0,
            is_factor(factor),
        ensures
            r == factor_period(factor),
    {
        let f = factor as u32;
        assert(f as int == bits_u32(factor)) by (bit_vector)
            requires f == factor as u32;
        let q = u32::MAX / f;
        assert(q <= 0x5555_5555) by (nonlinear_arith)
            requires q == 0xFFFF_FFFFint / (f as int), f >= 3;
        (q + 1) as i32
    }
}

/// For periods from 2 to 65536 the factor gives the period back.
pub proof fn lemma_period_roundtrip(period: i32)
    requires
        2 <= period <= 0x1_0000,
    ensures
        factor_period(period_factor(period)) == period,
{
    let p = period as int;
    let m = 0xFFFF_FFFFint;
    let q = m / p;
    let r = m % p;
    let f = q + 1;
    assert(m == q * p + r && 0 <= r < p) by (nonlinear_arith)
        requires p > 0, q == m / p, r == m % p;
    assert(q >= p - 1) by (nonlinear_arith)
        requires m == q * p + r, 0 <= r < p, 2 <= p <= 0x1_0000, m == 0xFFFF_FFFF;
    assert(q <= 0x7FFF_FFFF) by (nonlinear_arith)
        requires m == q * p + r, 0 <= r, 2 <= p, m == 0xFFFF_FFFF;
    assert(f * (p - 1) <= m && m < f * p) by (nonlinear_arith)
        requires m == q * p + r, 0 <= r < p, q >= p - 1, f == q + 1;
    assert(m / f == p - 1) by (nonlinear_arith)
        requires f * (p - 1) <= m, m < f * p, f > 0;
    assert(bits_u32(period_factor(period)) == f);
}

/// `X_PRIME1 + Y_PRIME1`, wrapped: the step of the first field to the
/// opposite corner of a cell.
pub const X_PLUS_Y_PRIME1: i32 = -1443619928;

/// `X_PRIME2 + Y_PRIME2`: the step of the second field to the opposite
/// corner of a cell.
pub const X_PLUS_Y_PRIME2: i32 = 1879764762;

/// The hashes at the four corners of a lattice cell, lower-left first.
pub struct CornerHashes {
    pub ll: i32,
    pub lr: i32,
    pub ul: i32,
    pub ur: i32,
}

/// The corner hashes of non-periodic noise for the cell whose lower-left
/// corner is `(ix, iy)`: products of two linear fields `p1` and `p2`, offset
/// and seeded, each stepped by its primes to the other corners.
pub open spec fn cell_hashes(ix: i32, iy: i32, seed: i32) -> (i32, i32, i32, i32) {
    let x1 = wadd(ix, OFFSET);
    let y1 = wadd(iy, OFFSET);
    let x2 = wadd(x1, wmul(SEED_PRIME, seed));
    let p1 = wadd(wmul(x2, X_PRIME1), wmul(y1, Y_PRIME1));
    let p2 = wadd(wmul(x2, X_PRIME2), wmul(y1, Y_PRIME2));
    (
        wmul(p1, p2),
        wmul(wadd(p1, X_PRIME1), wadd(p2, X_PRIME2)),
        wmul(wadd(p1, Y_PRIME1), wadd(p2, Y_PRIME2)),
        wmul(wadd(p1, X_PLUS_Y_PRIME1), wadd(p2, X_PLUS_Y_PRIME2)),
    )
}

/// The seed of periodic noise, spread by `SEED_PRIME << PERIOD_SHIFT`.
pub open spec fn periodic_seed(seed: i32) -> i32 {
    wmul(seed, SEED_PRIME << PERIOD_SHIFT)
}

/// The corner hashes of periodic noise: each coordinate is seeded, multiplied
/// by its period factor (which wraps to zero once per period), shifted down
/// by `PERIOD_SHIFT` and the pairs are hashed.
pub open spec fn periodic_cell_hashes(ix: i32, iy: i32, xf: i32, yf: i32, seed: i32) -> (i32, i32, i32, i32) {
    let sd = periodic_seed(seed);
    let x1 = wadd(ix, sd);
    let y1 = wadd(iy, sd);
    let left = wmul(x1, xf);
    let lower = wmul(y1, yf);
    let right = wadd(left, xf);
    let upper = wadd(lower, yf);
    let l = left >> PERIOD_SHIFT;
    let d = lower >> PERIOD_SHIFT;
    let r = right >> PERIOD_SHIFT;
    let u = upper >> PERIOD_SHIFT;
    (lattice_hash(l, d), lattice_hash(r, d), lattice_hash(l, u), lattice_hash(r, u))
}

/// `wadd` is the sum up to a multiple of 2^32.
proof fn lemma_wadd_carry(a: i32, b: i32) -> (c: int)
    ensures
        wadd(a, b) == a + b + 0x1_0000_0000 * c,
{
    if a + b > i32::MAX {
        -1
    } else if a + b < i32::MIN {
        1
    } else {
        0
    }
}

/// Products that differ by a multiple of 2^32 wrap to the same `i32`.
proof fn lemma_wmul_congruent(x: i32, y: i32, f: i32, t: int)
    requires
        (x - y) * f == 0x1_0000_0000 * t,
    ensures
        wmul(x, f) == wmul(y, f),
{
    let m = 0x1_0000_0000int;
    assert(x * f == m * t + y * f) by (nonlinear_arith)
        requires (x - y) * f == m * t;
    lemma_mod_multiples_vanish(t, y * f, m);
}

/// For a period `2^k` the factor is `2^(32 - k)` up to a multiple of 2^32,
/// so the period times the factor is a multiple of 2^32.
proof fn lemma_power_of_two_factor(k: nat) -> (g: int)
    requires
        1 <= k <= 30,
    ensures
        pow2(k) <= 0x4000_0000,
        (pow2(k) as int) * (period_factor(pow2(k) as i32) as int) == 0x1_0000_0000 * g,
{
    let m = 0x1_0000_0000int;
    lemma2_to64();
    lemma_pow2_adds(k, (32 - k) as nat);
    lemma_pow2_pos(k);
    lemma_pow2_pos((32 - k) as nat);
    let p = pow2(k) as int;
    let q = pow2((32 - k) as nat) as int;
    assert(p * q == m);
    lemma_pow2_adds(2, (30 - k) as nat);
    lemma_pow2_pos((30 - k) as nat);
    assert(q == 4 * pow2((30 - k) as nat));
    assert(p <= 0x4000_0000) by (nonlinear_arith)
        requires p * q == 0x1_0000_0000int, q >= 4, p > 0;
    assert(m - 1 == (q - 1) * p + (p - 1)) by (nonlinear_arith)
        requires p * q == m;
    lemma_fundamental_div_mod_converse(m - 1, p, q - 1, p - 1);
    let f = period_factor(p as i32);
    assert(f as int == signed_of_bits(q));
    if q >= 0x8000_0000 {
        assert(p * (f as int) == m * (1 - p)) by (nonlinear_arith)
            requires f as int == q - m, p * q == m;
        1 - p
    } else {
        assert(p * (f as int) == m * 1) by (nonlinear_arith)
            requires f as int == q, p * q == m;
        1
    }
}

/// Periodic noise repeats: moving a cell by a power-of-two period `2^kx`
/// along x, or `2^ky` along y (each from 2 to 2^30), leaves the four corner
/// hashes of the cell unchanged.
pub proof fn lemma_periodic_hashes_repeat(ix: i32, iy: i32, kx: nat, ky: nat, seed: i32)
    requires
        1 <= kx <= 30,
        1 <= ky <= 30,
    ensures
        ({
            let px = pow2(kx) as i32;
            let py = pow2(ky) as i32;
            let xf = period_factor(px);
            let yf = period_factor(py);
            &&& periodic_cell_hashes(wadd(ix, px), iy, xf, yf, seed) == periodic_cell_hashes(ix, iy, xf, yf, seed)
            &&& periodic_cell_hashes(ix, wadd(iy, py), xf, yf, seed) == periodic_cell_hashes(ix, iy, xf, yf, seed)
        }),
{
    let m = 0x1_0000_0000int;
    let gx = lemma_power_of_two_factor(kx);
    let gy = lemma_power_of_two_factor(ky);
    let px = pow2(kx) as i32;
    let py = pow2(ky) as i32;
    let xf = period_factor(px);
    let yf = period_factor(py);
    let sd = periodic_seed(seed);
    let x0 = wadd(ix, sd);
    let ix2 = wadd(ix, px);
    let x1 = wadd(ix2, sd);
    let c0 = lemma_wadd_carry(ix, px);
    let c1 = lemma_wadd_carry(ix2, sd);
    let c2 = lemma_wadd_carry(ix, sd);
    assert((x1 - x0) * xf == m * (gx + (c0 + c1 - c2) * xf)) by (nonlinear_arith)
        requires
            x1 - x0 == px + m * (c0 + c1 - c2),
            px * xf == m * gx;
    lemma_wmul_congruent(x1, x0, xf, gx + (c0 + c1 - c2) * xf);
    let y0 = wadd(iy, sd);
    let iy2 = wadd(iy, py);
    let y1 = wadd(iy2, sd);
    let d0 = lemma_wadd_carry(iy, py);
    let d1 = lemma_wadd_carry(iy2, sd);
    let d2 = lemma_wadd_carry(iy, sd);
    assert((y1 - y0) * yf == m * (gy + (d0 + d1 - d2) * yf)) by (nonlinear_arith)
        requires
            y1 - y0 == py + m * (d0 + d1 - d2),
            py * yf == m * gy;
    lemma_wmul_congruent(y1, y0, yf, gy + (d0 + d1 - d2) * yf);
}

impl CornerHashes {
    /// The four hashes as a tuple, lower-left, lower-right, upper-left,
    /// upper-right.
    pub open spec fn as_tuple(self) -> (i32, i32, i32, i32) {
        (self.ll, self.lr, self.ul, self.ur)
    }

    /// The corner hashes of the non-periodic noise cell at `(ix, iy)`.
    pub fn of_cell(ix: i32, iy: i32, seed: i32) -> (r: Self)
        ensures
            r.as_tuple() == cell_hashes(ix, iy, seed),
    {
        assert(X_PLUS_Y_PRIME1 == wadd(X_PRIME1, Y_PRIME1));
        assert(X_PLUS_Y_PRIME2 == wadd(X_PRIME2, Y_PRIME2));
        let mut x = ix.wrapping_add(OFFSET);
        let y = iy.wrapping_add(OFFSET);
        x = x.wrapping_add(SEED_PRIME.wrapping_mul(seed));
        let p1 = x.wrapping_mul(X_PRIME1).wrapping_add(y.wrapping_mul(Y_PRIME1));
        let p2 = x.wrapping_mul(X_PRIME2).wrapping_add(y.wrapping_mul(Y_PRIME2));
        CornerHashes {
            ll: p1.wrapping_mul(p2),
            lr: p1.wrapping_add(X_PRIME1).wrapping_mul(p2.wrapping_add(X_PRIME2)),
            ul: p1.wrapping_add(Y_PRIME1).wrapping_mul(p2.wrapping_add(Y_PRIME2)),
            ur: p1.wrapping_add(X_PLUS_Y_PRIME1).wrapping_mul(p2.wrapping_add(X_PLUS_Y_PRIME2)),
        }
    }

    /// The corner hashes of the periodic noise cell at `(ix, iy)`.
    pub fn of_periodic_cell(ix: i32, iy: i32, period: &NoisePeriod, seed: i32) -> (r: Self)
        ensures
            r.as_tuple() == periodic_cell_hashes(ix, iy, period.x_factor(), period.y_factor(), seed),
    {
        let sd = seed.wrapping_mul(SEED_PRIME << PERIOD_SHIFT);
        let x = ix.wrapping_add(sd);
        let y = iy.wrapping_add(sd);
        let mut left = x.wrapping_mul(period.xf);
        let mut lower = y.wrapping_mul(period.yf);
        let mut right = left.wrapping_add(period.xf);
        let mut upper = lower.wrapping_add(period.yf);
        left = left >> PERIOD_SHIFT;
        lower = lower >> PERIOD_SHIFT;
        right = right >> PERIOD_SHIFT;
        upper = upper >> PERIOD_SHIFT;
        CornerHashes {
            ll: hash(left, lower),
            lr: hash(right, lower),
            ul: hash(left, upper),
            ur: hash(right, upper),
        }
    }

    /// The hashes reseeded for a second, independent noise field: each is
    /// multiplied by `X_PRIME1`.
    pub fn reseeded(&self) -> (r: Self)
        ensures
            r.as_tuple() == (wmul(self.ll, X_PRIME1), wmul(self.lr, X_PRIME1), wmul(self.ul, X_PRIME1), wmul(self.ur, X_PRIME1)),
    {
        CornerHashes {
            ll: self.ll.wrapping_mul(X_PRIME1),
            lr: self.lr.wrapping_mul(X_PRIME1),
            ul: self.ul.wrapping_mul(X_PRIME1),
            ur: self.ur.wrapping_mul(X_PRIME1),
        }
    }
}

/// The bits of the gradient that a hash stands for: the x bits keep the
/// random bits of the hash outside `GRAD_AND_MASK` and set the exponent to
/// that of 0.5; the y bits are the x bits shifted by `GRAD_SHIFT1`, which
/// aligns the second copy of the exponent.
pub open spec fn gradient_bit_patterns(hash: i32) -> (u32, u32) {
    let x_hash = (hash & GRAD_AND_MASK) | GRAD_OR_MASK;
    let y_hash = x_hash << GRAD_SHIFT1;
    (bits_u32(x_hash) as u32, bits_u32(y_hash) as u32)
}

/// The IEEE-754 bit patterns of the two components of the gradient of a
/// corner hash; each reads as a float of magnitude in `[0.5, 1)`.
pub fn gradient_bits(hash: i32) -> (r: (u32, u32))
    ensures
        r == gradient_bit_patterns(hash),
        (r.0 >> 23u32) & 0xFFu32 == 126,
        (r.1 >> 23u32) & 0xFFu32 == 126,
{
    let x_hash = (hash & GRAD_AND_MASK) | GRAD_OR_MASK;
    let y_hash = x_hash << GRAD_SHIFT1;
    let gx = x_hash as u32;
    let gy = y_hash as u32;
    assert(gx as int == bits_u32(x_hash) && gy as int == bits_u32(y_hash)) by (bit_vector)
        requires gx == x_hash as u32, gy == y_hash as u32;
    assert((gx >> 23u32) & 0xFFu32 == 126 && (gy >> 23u32) & 0xFFu32 == 126) by (bit_vector)
        requires
            x_hash == (hash & -0x7F9F_E7F9i32) | 0x3F0F_C3F0i32,
            y_hash == x_hash << 10i32,
            gx == x_hash as u32,
            gy == y_hash as u32,
    ;
    (gx, gy)
}

} // verus!
