use vstd::prelude::*;

use vstd::arithmetic::power::{
    pow, lemma_pow1, lemma_pow_adds, lemma_pow_distributes, lemma_pow_multiplies,
    lemma_pow_positive, lemma_pow_strictly_increases,
};
use vstd::arithmetic::power2::{pow2, lemma2_to64};
use vstd::arithmetic::mul::{
    lemma_mul_inequality, lemma_mul_inequality_converse, lemma_mul_left_inequality,
};

verus! {

/// The derived, immutable parameter bundle that drives one generation run.
///
/// The coin probability is the exact rational
/// `coin_numerator / coin_denominator`.
#[derive(Clone, Copy, PartialEq, Eq, Structural, Debug)]
pub struct MazeConfig {
    pub width: usize,
    pub height: usize,
    pub room_size_min: usize,
    pub room_size_max: usize,
    pub room_count: usize,
    pub safe_room_count: usize,
    pub coin_numerator: u32,
    pub coin_denominator: u32,
}

/// A raw dimension clamped to the floor of 12 that keeps the room-size
/// formulas well-defined.
pub open spec fn clamped_dim(n: usize) -> int {
    if n < 12 {
        12
    } else {
        n as int
    }
}

impl MazeConfig {
    /// The smaller of the two grid dimensions.
    pub open spec fn min_dim(self) -> int {
        vstd::math::min(self.width as int, self.height as int)
    }

    /// The advisory validity predicate over a config: room sizes are ordered
    /// and positive, the grid comfortably fits the largest room, and the
    /// room counts are consistent.
    pub open spec fn valid(self) -> bool {
        &&& self.room_size_min <= self.room_size_max
        &&& self.room_size_min > 0
        &&& self.min_dim() >= vstd::math::max(self.room_size_max as int + 2, 10)
        &&& self.room_count > 0
        &&& self.safe_room_count <= self.room_count
    }

    /// What generation needs of a config so that every random draw has a
    /// non-empty range and no arithmetic overflows: every room size leaves
    /// space for the border margin on both sides, the safe-room count does
    /// not exceed the room count, the grid fits in memory, and the coin
    /// probability has a positive denominator.
    pub open spec fn generable(self) -> bool {
        &&& 1 <= self.room_size_min <= self.room_size_max
        &&& self.room_size_max + 3 <= self.width
        &&& self.room_size_max + 3 <= self.height
        &&& self.safe_room_count <= self.room_count
        &&& self.width * self.height <= usize::MAX
        &&& 1 <= self.coin_denominator
    }

    /// Decides the advisory validity predicate.
    pub fn check(&self) -> (ok: bool)
        ensures
            ok == self.valid(),
    {
        if self.room_size_max > usize::MAX - 2 {
            return false;
        }
        let mind = if self.width < self.height {
            self.width
        } else {
            self.height
        };
        let floor = if self.room_size_max + 2 > 10 {
            self.room_size_max + 2
        } else {
            10
        };
        self.room_size_min <= self.room_size_max && self.room_size_min > 0 && mind >= floor
            && self.room_count > 0 && self.safe_room_count <= self.room_count
    }
}

/// The largest `r` with `2^r <= m`: the floor of the base-2 logarithm.
#[verifier::loop_isolation(false)]
pub fn floor_log2(m: usize) -> (r: usize)
    requires
        1 <= m,
    ensures
        pow2(r as nat) <= m < pow2((r + 1) as nat),
{
    let mut r: usize = 0;
    let mut p: usize = 1;
    proof {
        lemma2_to64();
    }
    while p <= m / 2
        invariant
            1 <= p <= m,
            p == pow2(r as nat),
        decreases m - p,
    {
        proof {
            lemma_lt_pow2(r as nat);
            assert(m == 2 * (m / 2) + m % 2) by (nonlinear_arith);
            vstd::arithmetic::power2::lemma_pow2_unfold((r + 1) as nat);
        }
        p = p * 2;
        r = r + 1;
    }
    proof {
        assert(m == 2 * (m / 2) + m % 2) by (nonlinear_arith);
        vstd::arithmetic::power2::lemma_pow2_unfold((r + 1) as nat);
    }
    r
}

/// Every exponent is smaller than two to its power.
proof fn lemma_lt_pow2(e: nat)
    ensures
        e < pow2(e),
    decreases e,
{
    if e == 0 {
        lemma2_to64();
    } else {
        lemma_lt_pow2((e - 1) as nat);
        vstd::arithmetic::power2::lemma_pow2_unfold(e);
        vstd::arithmetic::power2::lemma_pow2_pos((e - 1) as nat);
    }
}

/// Power is monotonic in the base, for bases at least one.
proof fn lemma_pow_base_le(a: int, b: int, e: nat)
    requires
        1 <= a <= b,
    ensures
        pow(a, e) <= pow(b, e),
    decreases e,
{
    reveal(pow);
    if e > 0 {
        lemma_pow_base_le(a, b, (e - 1) as nat);
        lemma_pow_positive(a, (e - 1) as nat);
        lemma_pow_positive(b, (e - 1) as nat);
        lemma_mul_left_inequality(a, pow(a, (e - 1) as nat), pow(b, (e - 1) as nat));
        lemma_mul_inequality(a, b, pow(b, (e - 1) as nat));
    }
}

/// For dimensions up to `2^16`, any base of 4096 or more overshoots the
/// seventh power of the dimension when raised to the tenth power.
proof fn lemma_root10_bound(m: int, c: int)
    requires
        1 <= m <= 0x10000,
        c >= 4096,
    ensures
        pow(m, 7) < pow(c, 10),
{
    lemma_pow_base_le(m, 0x10000, 7);
    lemma2_to64();
    lemma_pow_positive(2, 16);
    lemma_pow_positive(2, 12);
    assert(pow(2, 16) == 0x10000);
    assert(pow(2, 12) == 0x1000);
    lemma_pow_multiplies(2, 16, 7);
    lemma_pow_multiplies(2, 12, 10);
    assert(pow(0x10000, 7) == pow(2, 112));
    assert(pow(0x1000, 10) == pow(2, 120));
    lemma_pow_strictly_increases(2, 112, 120);
    lemma_pow_base_le(0x1000, c, 10);
}

/// A handful of concrete powers, computed by repeated squaring.
proof fn lemma_concrete_pows()
    ensures
        pow(3, 10) == 59049,
        pow(2, 7) == 128,
        pow(10, 3) == 1000,
        pow(5, 7) == 78125,
        pow(6, 7) == 279936,
{
    lemma_pow1(3);
    lemma_pow_adds(3, 1, 1);
    assert(pow(3, 2) == 9);
    lemma_pow_adds(3, 2, 2);
    assert(pow(3, 4) == 81);
    lemma_pow_adds(3, 4, 1);
    assert(pow(3, 5) == 243);
    lemma_pow_adds(3, 5, 5);
    assert(pow(3, 10) == 59049);
    lemma_pow1(2);
    lemma_pow_adds(2, 1, 1);
    assert(pow(2, 2) == 4);
    lemma_pow_adds(2, 2, 1);
    assert(pow(2, 3) == 8);
    lemma_pow_adds(2, 3, 3);
    assert(pow(2, 6) == 64);
    lemma_pow_adds(2, 6, 1);
    assert(pow(2, 7) == 128);
    lemma_pow1(10);
    lemma_pow_adds(10, 1, 1);
    assert(pow(10, 2) == 100);
    lemma_pow_adds(10, 2, 1);
    assert(pow(10, 3) == 1000);
    lemma_pow1(5);
    lemma_pow_adds(5, 1, 1);
    assert(pow(5, 2) == 25);
    lemma_pow_adds(5, 2, 1);
    assert(pow(5, 3) == 125);
    lemma_pow_adds(5, 3, 3);
    assert(pow(5, 6) == 15625);
    lemma_pow_adds(5, 6, 1);
    assert(pow(5, 7) == 78125);
    lemma_pow1(6);
    lemma_pow_adds(6, 1, 1);
    assert(pow(6, 2) == 36);
    lemma_pow_adds(6, 2, 1);
    assert(pow(6, 3) == 216);
    lemma_pow_adds(6, 3, 3);
    assert(pow(6, 6) == 46656);
    lemma_pow_adds(6, 6, 1);
    assert(pow(6, 7) == 279936);
}

/// For exponents of at least 3, the tenth power of the exponent stays below
/// two to seven times the exponent.
proof fn lemma_pow10_le_pow27(l: nat)
    requires
        l >= 3,
    ensures
        pow(l as int, 10) <= pow(2, 7 * l),
    decreases l,
{
    lemma_concrete_pows();
    if l == 3 {
        lemma2_to64();
        lemma_pow_positive(2, 21);
        assert(pow(2, 21) == 0x200000);
    } else {
        lemma_pow10_le_pow27((l - 1) as nat);
        let li = l as int;
        lemma_pow_base_le(3 * li, 4 * (li - 1), 10);
        lemma_pow_distributes(3, li, 10);
        lemma_pow_distributes(4, li - 1, 10);
        lemma_pow1(4);
        lemma_pow_adds(4, 1, 1);
        assert(pow(4, 2) == 16);
        lemma_pow_adds(4, 2, 2);
        assert(pow(4, 4) == 256);
        lemma_pow_adds(4, 4, 1);
        assert(pow(4, 5) == 1024);
        lemma_pow_adds(4, 5, 5);
        assert(pow(4, 10) == 1048576);
        lemma_pow_nonneg(li - 1, 10);
        lemma_pow_nonneg(2, (7 * l - 7) as nat);
        // 59049 * l^10 <= 1048576 * (l-1)^10 <= 1048576 * 2^(7l-7)
        lemma_mul_left_inequality(1048576, pow(li - 1, 10), pow(2, (7 * l - 7) as nat));
        // 1048576 * 2^(7l-7) <= 59049 * 128 * 2^(7l-7)
        lemma_mul_inequality(1048576, (59049 * 128) as int, pow(2, (7 * l - 7) as nat));
        // cancel 59049
        assert(59049 * pow(li, 10) <= 59049 * (128 * pow(2, (7 * l - 7) as nat)));
        lemma_mul_inequality_converse(
            pow(li, 10),
            128 * pow(2, (7 * l - 7) as nat),
            59049,
        );
        lemma_pow_adds(2, 7, (7 * l - 7) as nat);
    }
}

/// For dimensions of at least 12, the tenth power of the dimension less two
/// already exceeds the seventh power of the dimension.
proof fn lemma_m2_pow10_exceeds(m: int)
    requires
        12 <= m,
    ensures
        pow(m - 2, 10) > pow(m, 7),
{
    lemma_concrete_pows();
    let t = m - 2;
    // 5m <= 6t since m >= 12
    lemma_pow_base_le(5 * m, 6 * t, 7);
    lemma_pow_distributes(5, m, 7);
    lemma_pow_distributes(6, t, 7);
    lemma_pow_positive(t, 7);
    // 78125 * m^7 <= 279936 * t^7 <= 4 * 78125 * t^7, so m^7 <= 4 * t^7
    lemma_mul_inequality(279936, (4 * 78125) as int, pow(t, 7));
    assert(78125 * pow(m, 7) <= 78125 * (4 * pow(t, 7)));
    lemma_mul_inequality_converse(pow(m, 7), 4 * pow(t, 7), 78125);
    // t^10 = t^3 * t^7 >= 1000 * t^7 > 4 * t^7
    lemma_pow_adds(t, 3, 7);
    lemma_pow_base_le(10, t, 3);
    lemma_mul_inequality(1000, pow(t, 3), pow(t, 7));
    vstd::arithmetic::mul::lemma_mul_strict_inequality(4, 1000, pow(t, 7));
}

/// The floor of `log2` never exceeds the floor of the `7/10` power, for
/// dimensions of at least 12.
proof fn lemma_log_le_root(m: int, rmin: nat, rmax: nat)
    requires
        12 <= m,
        rmin >= 3,
        pow2(rmin) <= m,
        pow(m, 7) < pow((rmax + 1) as int, 10),
    ensures
        rmin <= rmax,
{
    lemma_pow10_le_pow27(rmin);
    lemma_pow_multiplies(2, rmin, 7);
    lemma_pow_positive(2, rmin);
    lemma_pow_base_le(pow(2, rmin), m, 7);
    assert(pow(rmin as int, 10) <= pow(m, 7));
    if rmin > rmax {
        lemma_pow_base_le((rmax + 1) as int, rmin as int, 10);
        assert(false);
    }
}

/// The floor of the `7/10` power keeps a three-cell distance from the
/// dimension itself, for dimensions of at least 12.
proof fn lemma_root_margin(m: int, rmax: nat)
    requires
        12 <= m,
        pow(rmax as int, 10) <= pow(m, 7),
    ensures
        rmax + 3 <= m,
{
    if rmax + 2 >= m {
        lemma_m2_pow10_exceeds(m);
        lemma_pow_base_le(m - 2, rmax as int, 10);
        assert(false);
    }
}

/// The tenth power of a small number, computed exactly.
fn pow10_u128(b: u128) -> (r: u128)
    requires
        b <= 0x1000,
    ensures
        r == pow(b as int, 10),
{
    proof {
        lemma_pow1(b as int);
        lemma_pow_adds(b as int, 1, 1);
        lemma_pow_adds(b as int, 2, 2);
        lemma_pow_adds(b as int, 4, 1);
        lemma_pow_adds(b as int, 5, 5);
        lemma_pow_nonneg(b as int, 10);
        assert(b * b <= 0x1000000) by (nonlinear_arith)
            requires
                b <= 0x1000,
        ;
    }
    let b2 = b * b;
    proof {
        assert(b2 * b2 <= 0x1000000000000 && b2 * b2 == pow(b as int, 4)) by (nonlinear_arith)
            requires
                b2 <= 0x1000000 && b2 == pow(b as int, 2) && pow(b as int, 4) == pow(b as int, 2)
                    * pow(b as int, 2),
        ;
    }
    let b4 = b2 * b2;
    proof {
        assert(b4 * b <= 0x1000000000000000 && b4 * b == pow(b as int, 5)) by (nonlinear_arith)
            requires
                b4 <= 0x1000000000000 && b <= 0x1000 && b4 == pow(b as int, 4) && pow(b as int, 5)
                    == pow(b as int, 4) * pow(b as int, 1) && pow(b as int, 1) == b,
        ;
    }
    let b5 = b4 * b;
    proof {
        assert(b5 * b5 <= 0x1000000000000000000000000000000 && b5 * b5 == pow(b as int, 10))
            by (nonlinear_arith)
            requires
                b5 <= 0x1000000000000000 && b5 == pow(b as int, 5) && pow(b as int, 10) == pow(
                    b as int,
                    5,
                ) * pow(b as int, 5),
        ;
    }
    b5 * b5
}

/// The seventh power of a dimension, computed exactly.
fn pow7_u128(b: u128) -> (r: u128)
    requires
        b <= 0x10000,
    ensures
        r == pow(b as int, 7),
{
    proof {
        lemma_pow1(b as int);
        lemma_pow_adds(b as int, 1, 1);
        lemma_pow_adds(b as int, 2, 1);
        lemma_pow_adds(b as int, 3, 3);
        lemma_pow_adds(b as int, 6, 1);
        lemma_pow_nonneg(b as int, 7);
        assert(b * b <= 0x100000000) by (nonlinear_arith)
            requires
                b <= 0x10000,
        ;
    }
    let b2 = b * b;
    proof {
        assert(b2 * b <= 0x1000000000000 && b2 * b == pow(b as int, 3)) by (nonlinear_arith)
            requires
                b2 <= 0x100000000 && b <= 0x10000 && b2 == pow(b as int, 2) && pow(b as int, 3)
                    == pow(b as int, 2) * pow(b as int, 1) && pow(b as int, 1) == b,
        ;
    }
    let b3 = b2 * b;
    proof {
        assert(b3 * b3 <= 0x1000000000000000000000000 && b3 * b3 == pow(b as int, 6))
            by (nonlinear_arith)
            requires
                b3 <= 0x1000000000000 && b3 == pow(b as int, 3) && pow(b as int, 6) == pow(
                    b as int,
                    3,
                ) * pow(b as int, 3),
        ;
    }
    let b6 = b3 * b3;
    proof {
        assert(b6 * b <= 0x10000000000000000000000000000 && b6 * b == pow(b as int, 7))
            by (nonlinear_arith)
            requires
                b6 <= 0x1000000000000000000000000 && b <= 0x10000 && b6 == pow(b as int, 6) && pow(
                    b as int,
                    7,
                ) == pow(b as int, 6) * pow(b as int, 1) && pow(b as int, 1) == b,
        ;
    }
    b6 * b
}

/// A power of a positive base is nonnegative (stated for overflow bounds).
proof fn lemma_pow_nonneg(b: int, e: nat)
    requires
        0 <= b,
    ensures
        0 <= pow(b, e),
    decreases e,
{
    reveal(pow);
    if e > 0 {
        lemma_pow_nonneg(b, (e - 1) as nat);
        vstd::arithmetic::mul::lemma_mul_nonnegative(b, pow(b, (e - 1) as nat));
    }
}

/// The largest `r` with `r^10 <= m^7`: the floor of `m` raised to the
/// fractional power `7/10`.
#[verifier::loop_isolation(false)]
pub fn root10_pow7(m: usize) -> (r: usize)
    requires
        1 <= m <= 0x10000,
    ensures
        pow(r as int, 10) <= pow(m as int, 7) < pow((r + 1) as int, 10),
        1 <= r < 4096,
{
    let target = pow7_u128(m as u128);
    let mut k: usize = 1;
    let mut done = false;
    proof {
        lemma_pow_base_le(1, m as int, 7);
        vstd::arithmetic::power::lemma1_pow(10);
        vstd::arithmetic::power::lemma1_pow(7);
    }
    while !done
        invariant
            1 <= k < 4096,
            pow(k as int, 10) <= pow(m as int, 7),
            target == pow(m as int, 7),
            done ==> pow(m as int, 7) < pow((k + 1) as int, 10),
        decreases 4096 - k + (if done {
            0int
        } else {
            1int
        }),
    {
        let next = pow10_u128((k + 1) as u128);
        if next <= target {
            proof {
                if k + 1 >= 4096 {
                    lemma_root10_bound(m as int, (k + 1) as int);
                    assert(false);
                }
            }
            k = k + 1;
        } else {
            done = true;
        }
    }
    k
}

impl MazeConfig {
/// Derives the full parameter bundle from raw `(width, height)`,
/// deterministically.  Both dimensions are clamped to a floor of 12; the
/// derived fields follow the fixed formulas: `room_size_min` is the floor of
/// `log2` of the smaller dimension, `room_size_max` the floor of that
/// dimension raised to `0.7` (exactly: the largest `r` with `r^10 <= m^7`),
/// `room_count` is `max(3, (width-1)(height-1) / room_size_max^2)`, and
/// `safe_room_count` the floor of `log2(room_count)`.  The preconditions
/// are machine limits only: the smaller clamped dimension feeds an exact
/// u128 seventh-power computation, and the grid buffer of
/// `width * height` cells must be addressable.
pub fn new(width: usize, height: usize) -> (c: MazeConfig)
    requires
        vstd::math::min(clamped_dim(width), clamped_dim(height)) <= 0x10000,
        clamped_dim(width) * clamped_dim(height) <= usize::MAX,
    ensures
        c.valid(),
        c.generable(),
        c.width == clamped_dim(width),
        c.height == clamped_dim(height),
        pow2(c.room_size_min as nat) <= c.min_dim() < pow2((c.room_size_min + 1) as nat),
        pow(c.room_size_max as int, 10) <= pow(c.min_dim(), 7) < pow(
            (c.room_size_max + 1) as int,
            10,
        ),
        1 <= c.room_size_max < 4096,
        c.room_count == vstd::math::max(
            3,
            ((c.width - 1) * (c.height - 1)) / (c.room_size_max * c.room_size_max),
        ),
        pow2(c.safe_room_count as nat) <= c.room_count < pow2((c.safe_room_count + 1) as nat),
        c.coin_numerator == 1,
        c.coin_denominator == 2,
{
    let w = if width < 12 {
        12
    } else {
        width
    };
    let h = if height < 12 {
        12
    } else {
        height
    };
    let m = if w < h {
        w
    } else {
        h
    };
    let room_size_min = floor_log2(m);
    let room_size_max = root10_pow7(m);
    proof {
        assert((w - 1) * (h - 1) <= w * h) by (nonlinear_arith)
            requires
                1 <= w && 1 <= h,
        ;
        assert(1 <= room_size_max * room_size_max <= 4096 * 4096) by (nonlinear_arith)
            requires
                1 <= room_size_max < 4096,
        ;
    }
    let area = (w - 1) * (h - 1);
    let q = area / (room_size_max * room_size_max);
    let room_count = if q < 3 {
        3
    } else {
        q
    };
    let safe_room_count = floor_log2(room_count);
    proof {
        lemma2_to64();
        if room_size_min + 1 <= 3 {
            if room_size_min + 1 < 3 {
                vstd::arithmetic::power2::lemma_pow2_strictly_increases(
                    (room_size_min + 1) as nat,
                    3,
                );
            }
            assert(pow2((room_size_min + 1) as nat) <= 8);
            assert(false);
        }
        lemma_log_le_root(m as int, room_size_min as nat, room_size_max as nat);
        lemma_root_margin(m as int, room_size_max as nat);
        lemma_lt_pow2(safe_room_count as nat);
    }
    MazeConfig {
        width: w,
        height: h,
        room_size_min,
        room_size_max,
        room_count,
        safe_room_count,
        coin_numerator: 1,
        coin_denominator: 2,
    }
}
}

} // verus!

