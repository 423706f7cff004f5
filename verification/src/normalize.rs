use vstd::prelude::*;
use vstd::arithmetic::power2::{pow2, lemma_pow2_adds, lemma_pow2_unfold, lemma_pow2_strictly_increases, lemma2_to64, lemma2_to64_rest, lemma_pow2_pos};
use vstd::arithmetic::div_mod::{lemma_mod_breakdown, lemma_div_denominator, lemma_fundamental_div_mod, lemma_fundamental_div_mod_converse, lemma_div_nonincreasing, lemma_multiply_divide_lt, lemma_div_is_ordered, lemma_div_is_ordered_by_denominator, lemma_div_multiples_vanish, lemma_div_decreases, lemma_mod_bound};
use vstd::arithmetic::mul::{lemma_mul_inequality, lemma_mul_strict_inequality};
use vstd::arithmetic::logarithm::{log, lemma_log0, lemma_log_s};
use crate::array::copy_range;

verus! {

/// The sign bit of a raw scalar: `0` or `1`.
pub open spec fn sign_bit(b: u32) -> int {
    (b as int) / 0x8000_0000
}

/// True iff the scalar's 31 magnitude bits are all zero, i.e. the scalar
/// is a positive or negative zero.
pub open spec fn magnitude_zero(b: u32) -> bool {
    b % 0x8000_0000 == 0
}

/// True iff every scalar of the row is a (signed) zero.
pub open spec fn all_magnitude_zero(row: Seq<u32>) -> bool {
    forall|j: int| 0 <= j < row.len() ==> magnitude_zero(#[trigger] row[j])
}

/// The shape-level facts that unit-length scaling preserves, scalar by
/// scalar: the length is kept, every scalar keeps its sign, zero scalars
/// pass through unchanged, and the all-zero row (whose direction is
/// undefined) is returned exactly as it came. The full value-level
/// contract is `normalize_spec`; this predicate states the coarse facts
/// that callers read off directly.
pub open spec fn normalized_shape_of(out: Seq<u32>, inp: Seq<u32>) -> bool {
    &&& out.len() == inp.len()
    &&& forall|j: int| 0 <= j < inp.len() ==> sign_bit(#[trigger] out[j]) == sign_bit(inp[j])
    &&& forall|j: int| 0 <= j < inp.len() ==> (magnitude_zero(#[trigger] inp[j]) ==> out[j] == inp[j])
    &&& (all_magnitude_zero(inp) ==> out == inp)
}

/// The scalar's low 23 bits: its stored fraction.
pub open spec fn field_mant(b: u32) -> u32 {
    b % 0x80_0000
}

/// The scalar's 8 exponent bits.
pub open spec fn field_exp(b: u32) -> u32 {
    (b / 0x80_0000) % 256
}

/// The scalar's magnitude mantissa: with a zero exponent field the bare
/// fraction, otherwise the fraction with the implicit leading bit. The
/// magnitude equals `spec_mant(b) * 2^(spec_exp(b))`.
pub open spec fn spec_mant(b: u32) -> int {
    if field_exp(b) == 0 {
        field_mant(b) as int
    } else {
        field_mant(b) + 0x80_0000
    }
}

/// The scalar's base-two magnitude exponent.
pub open spec fn spec_exp(b: u32) -> int {
    if field_exp(b) == 0 {
        -149
    } else {
        field_exp(b) - 150
    }
}

/// A scalar's mantissa is zero exactly when its magnitude bits are.
pub proof fn lemma_mant_zero_iff(b: u32)
    ensures
        (spec_mant(b) == 0) == magnitude_zero(b),
{
    lemma_mod_breakdown(b as int, 0x80_0000, 256);
}

/// True iff some scalar of the row has a non-zero magnitude mantissa.
pub open spec fn row_has_nonzero(row: Seq<u32>) -> bool {
    exists|j: int| 0 <= j < row.len() && spec_mant(#[trigger] row[j]) != 0
}

/// The largest doubled exponent among the first `n` scalars with non-zero
/// mantissa, or `-1000` (below every real doubled exponent) with none.
pub open spec fn max_e2(row: Seq<u32>, n: int) -> int
    decreases n,
{
    if n <= 0 {
        -1000
    } else {
        let rest = max_e2(row, n - 1);
        let b = row[n - 1];
        if spec_mant(b) != 0 && 2 * spec_exp(b) > rest {
            2 * spec_exp(b)
        } else {
            rest
        }
    }
}

/// The sum over the first `n` scalars of their squared mantissas, each
/// shifted down to align its doubled exponent with `top`; the shift is
/// clamped to `[0, 120]`, and zero mantissas contribute nothing.
pub open spec fn sum_sq(row: Seq<u32>, n: int, top: int) -> int
    decreases n,
{
    if n <= 0 {
        0
    } else {
        let b = row[n - 1];
        let m = spec_mant(b);
        sum_sq(row, n - 1, top) + if m == 0 {
            0
        } else {
            let diff = top - 2 * spec_exp(b);
            let sh = if diff > 120 {
                120
            } else if diff < 0 {
                0
            } else {
                diff
            };
            (m * m) / (pow2(sh as nat) as int)
        }
    }
}

/// Repeated doubling of `v`, counted in `k`, until `v` reaches `2^60`
/// (the count is capped far above the at most 60 steps ever taken).
pub open spec fn scale_up(v: int, k: int) -> (int, int)
    decreases 130 - k,
{
    if v >= 0x1000_0000_0000_0000 || k >= 130 {
        (v, k)
    } else {
        scale_up(2 * v, k + 1)
    }
}

/// The integer square root, defined inductively over `n`.
pub open spec fn spec_isqrt(n: int) -> int
    decreases n,
{
    if n < 1 {
        0
    } else {
        let r = spec_isqrt(n - 1);
        if (r + 1) * (r + 1) <= n {
            r + 1
        } else {
            r
        }
    }
}

/// `spec_isqrt` brackets its argument between consecutive squares.
pub proof fn lemma_isqrt_bounds(n: int)
    requires
        n >= 0,
    ensures
        spec_isqrt(n) >= 0,
        spec_isqrt(n) * spec_isqrt(n) <= n,
        n < (spec_isqrt(n) + 1) * (spec_isqrt(n) + 1),
    decreases n,
{
    if n >= 1 {
        lemma_isqrt_bounds(n - 1);
        let r = spec_isqrt(n - 1);
        if (r + 1) * (r + 1) <= n {
            assert((r + 1 + 1) * (r + 1 + 1) > (r + 1) * (r + 1)) by (nonlinear_arith)
                requires
                    r >= 0,
            ;
        }
    }
}

/// The bracket between consecutive squares determines the root uniquely.
pub proof fn lemma_isqrt_unique(n: int, r: int)
    requires
        n >= 0,
        r >= 0,
        r * r <= n,
        n < (r + 1) * (r + 1),
    ensures
        r == spec_isqrt(n),
{
    lemma_isqrt_bounds(n);
    let s = spec_isqrt(n);
    if r < s {
        assert((r + 1) * (r + 1) <= s * s) by (nonlinear_arith)
            requires
                0 <= r + 1 <= s,
        ;
    }
    if s < r {
        assert((s + 1) * (s + 1) <= r * r) by (nonlinear_arith)
            requires
                0 <= s + 1 <= r,
        ;
    }
}

/// The bracket between consecutive powers of two determines the base-two
/// logarithm uniquely.
pub proof fn lemma_log2_unique(d: int, h: int)
    requires
        h >= 0,
        pow2(h as nat) <= d < pow2((h + 1) as nat),
    ensures
        log(2, d) == h,
    decreases h,
{
    lemma_pow2_pos(h as nat);
    lemma_pow2_unfold((h + 1) as nat);
    if h == 0 {
        assert(pow2(0) == 1 && pow2(1) == 2) by {
            lemma2_to64();
        }
        lemma_log0(2, d);
    } else {
        lemma_pow2_unfold(h as nat);
        assert(d >= 2) by {
            lemma_pow2_strictly_increases(0, h as nat);
            assert(pow2(0) == 1 && pow2(1) == 2) by {
                lemma2_to64();
            }
        }
        lemma_log_s(2, d);
        lemma_div_is_ordered(pow2(h as nat) as int, d, 2);
        lemma_div_multiples_vanish(pow2((h - 1) as nat) as int, 2);
        lemma_multiply_divide_lt(d, 2, pow2(h as nat) as int);
        lemma_log2_unique(d / 2, h - 1);
    }
}

/// One scalar's re-encoding: its magnitude `m * 2^e`, divided by the row
/// norm `q * 2^eq`, written back as a raw scalar with the sign kept.
/// Mirrors the executable arithmetic exactly: the quotient is taken at a
/// `2^60` fixed-point scale, renormalized to a 24-bit mantissa by its
/// base-two logarithm, and flushed to a signed zero or saturated to the
/// infinity pattern when the biased exponent leaves `(0, 255)`.
pub open spec fn encode_elem(b: u32, q: int, eq: int) -> u32 {
    let m = spec_mant(b);
    let sgn = sign_bit(b);
    if m == 0 {
        b
    } else {
        let d = (m * 0x1000_0000_0000_0000) / q;
        if d == 0 {
            (sgn * 0x8000_0000) as u32
        } else {
            let h = log(2, d);
            let mm = if h >= 23 {
                d / (pow2((h - 23) as nat) as int)
            } else {
                d * (pow2((23 - h) as nat) as int)
            };
            let expf = spec_exp(b) - eq - 60 + h - 23 + 150;
            if expf >= 255 {
                (sgn * 0x8000_0000 + 0x7F80_0000) as u32
            } else if expf <= 0 {
                (sgn * 0x8000_0000) as u32
            } else {
                (sgn * 0x8000_0000 + expf * 0x80_0000 + (mm - 0x80_0000)) as u32
            }
        }
    }
}

/// The functional model of `normalize`: the exact integer algorithm —
/// largest doubled exponent, aligned sum of squared mantissas scaled into
/// the `2^60` window with even exponent parity, integer square root, and
/// per-scalar re-encoding. A row with no non-zero scalar is its own image.
pub open spec fn normalize_spec(row: Seq<u32>) -> Seq<u32> {
    if !row_has_nonzero(row) {
        row
    } else {
        let top = max_e2(row, row.len() as int);
        let acc = sum_sq(row, row.len() as int, top);
        let scaled = scale_up(acc, 0);
        let biased = top + 400 - scaled.1;
        let even = if biased % 2 != 0 {
            (2 * scaled.0, biased - 1)
        } else {
            (scaled.0, biased)
        };
        let eq = even.1 / 2 - 200;
        let q = spec_isqrt(even.0);
        Seq::new(row.len(), |i: int| encode_elem(row[i], q, eq))
    }
}

/// Decode a raw scalar into `(mantissa, exponent)` with the magnitude
/// `mantissa * 2^exponent`. Total: an all-ones exponent field (infinities
/// and quiet payloads) decodes like a top-of-range ordinary scalar, so
/// callers stay panic-free on any input, though numeric accuracy is only
/// meaningful for finite scalars.
fn decode(bits: u32) -> (r: (u32, i32))
    ensures
        r.0 == spec_mant(bits),
        r.1 == spec_exp(bits),
        r.0 < 0x100_0000,
        -149 <= r.1 <= 105,
{
    let mantf = bits % 0x80_0000;
    let expf = (bits / 0x80_0000) % 256;
    if expf == 0 {
        (mantf, -149)
    } else {
        (mantf + 0x80_0000, (expf as i32) - 150)
    }
}

/// `2^e` as a 128-bit integer.
fn pow2_128(e: u32) -> (r: u128)
    requires
        e <= 126,
    ensures
        r == pow2(e as nat),
        r >= 1,
{
    let mut r: u128 = 1;
    let mut i: u32 = 0;
    proof {
        assert(pow2(0) == 1) by {
            lemma2_to64();
        }
    }
    while i < e
        invariant
            i <= e <= 126,
            r == pow2(i as nat),
        decreases e - i,
    {
        proof {
            lemma_pow2_strictly_increases(i as nat, 126);
            assert(pow2(126) == 0x4000_0000_0000_0000_0000_0000_0000_0000) by {
                lemma2_to64_rest();
                lemma_pow2_adds(63, 63);
            }
            lemma_pow2_unfold((i + 1) as nat);
        }
        r = r * 2;
        i = i + 1;
    }
    proof {
        lemma_pow2_pos(e as nat);
    }
    r
}

/// The integer square root of `n`: the unique `q` with
/// `q * q <= n < (q + 1) * (q + 1)`.
fn isqrt128(n: u128) -> (q: u128)
    requires
        n < pow2(126),
    ensures
        q * q <= n,
        n < (q + 1) * (q + 1),
        q < pow2(63),
{
    let mut r: u128 = 0;
    let mut b: u32 = 63;
    proof {
        lemma_pow2_adds(63, 63);
        lemma_pow2_pos(63);
        assert((0 + pow2(63)) * (0 + pow2(63)) > n);
    }
    while b > 0
        invariant
            b <= 63,
            n < pow2(126),
            r * r <= n,
            (r + pow2(b as nat)) * (r + pow2(b as nat)) > n,
            r < pow2(63),
        decreases b,
    {
        b = b - 1;
        proof {
            lemma_pow2_strictly_increases(b as nat, 63);
            lemma2_to64_rest();
        }
        let p = pow2_128(b);
        let t = r + p;
        proof {
            assert(t <= 0xFFFF_FFFF_FFFF_FFFF);
            assert(t * t <= (u128::MAX as int)) by (nonlinear_arith)
                requires
                    0 <= t <= 0xFFFF_FFFF_FFFF_FFFF,
            ;
        }
        if t * t <= n {
            proof {
                lemma_pow2_unfold((b + 1) as nat);
                assert(t + pow2(b as nat) == r + pow2((b + 1) as nat));
                assert(t < pow2(63)) by {
                    if t >= pow2(63) {
                        assert(t * t >= pow2(63) * pow2(63)) by (nonlinear_arith)
                            requires
                                t >= pow2(63),
                                pow2(63) >= 0,
                        ;
                        lemma_pow2_adds(63, 63);
                    }
                }
            }
            r = t;
        } else {
            proof {
                lemma_pow2_unfold((b + 1) as nat);
            }
        }
    }
    proof {
        assert(pow2(0) == 1) by {
            lemma2_to64();
        }
    }
    r
}

/// Scale one row of raw scalars to unit Euclidean length, element by
/// element, entirely in integer arithmetic on the scalars' bit patterns.
/// The result is exactly `normalize_spec(row@)`, the integer algorithm's
/// functional model.
///
/// Policy for the edge cases:
/// - a row whose scalars are all (signed) zeros has no direction; it is
///   returned unchanged rather than divided by zero;
/// - a zero scalar inside a non-zero row stays exactly as it came;
/// - every scalar keeps its sign;
/// - rows holding non-finite scalars come back with well-defined bit
///   patterns of the same shape, but with no claim of numeric accuracy.
pub fn normalize(row: &Vec<u32>) -> (r: Vec<u32>)
    ensures
        r@ == normalize_spec(row@),
        normalized_shape_of(r@, row@),
{
    let n = row.len();

    // Pass 1: the largest doubled exponent among the non-zero scalars.
    let mut any: bool = false;
    let mut maxe2: i32 = 0;
    let mut i: usize = 0;
    while i < n
        invariant
            n == row@.len(),
            0 <= i <= n,
            any == exists|j: int| 0 <= j < i && spec_mant(#[trigger] row@[j]) != 0,
            any ==> -298 <= maxe2 <= 210,
            any ==> exists|j: int| 0 <= j < i && spec_mant(#[trigger] row@[j]) != 0
                && maxe2 == 2 * spec_exp(row@[j]),
            forall|j: int| 0 <= j < i && spec_mant(#[trigger] row@[j]) != 0
                ==> 2 * spec_exp(row@[j]) <= maxe2,
            any ==> maxe2 == max_e2(row@, i as int),
            !any ==> max_e2(row@, i as int) == -1000,
        decreases n - i,
    {
        let (m, e) = decode(row[i]);
        if m != 0 {
            let e2 = 2 * e;
            if !any || e2 > maxe2 {
                maxe2 = e2;
                any = true;
            }
        }
        i += 1;
    }

    if !any {
        // Every scalar is a zero: the direction is undefined, keep the row.
        assert forall|j: int| 0 <= j < n implies magnitude_zero(#[trigger] row@[j]) by {
            lemma_mant_zero_iff(row@[j]);
        }
        let out = copy_range(row, 0, n);
        proof {
            assert(out@ =~= row@);
            assert(!row_has_nonzero(row@));
        }
        return out;
    }

    // Pass 2: sum of squared mantissas, aligned to the largest exponent.
    let mut acc: u128 = 0;
    let mut si: usize = 0;
    while si < n
        invariant
            n == row@.len(),
            0 <= si <= n,
            -298 <= maxe2 <= 210,
            forall|j: int| 0 <= j < n && spec_mant(#[trigger] row@[j]) != 0
                ==> 2 * spec_exp(row@[j]) <= maxe2,
            exists|j: int| 0 <= j < n && spec_mant(#[trigger] row@[j]) != 0
                && maxe2 == 2 * spec_exp(row@[j]),
            acc <= (si as int) * 0x1_0000_0000_0000,
            (exists|j: int| 0 <= j < si && spec_mant(#[trigger] row@[j]) != 0
                && maxe2 == 2 * spec_exp(row@[j])) ==> acc >= 1,
            maxe2 == max_e2(row@, n as int),
            acc == sum_sq(row@, si as int, maxe2 as int),
        decreases n - si,
    {
        let (m, e) = decode(row[si]);
        if m != 0 {
            let diff: i32 = maxe2 - 2 * e;
            let sh: u32 = if diff > 120 {
                120
            } else {
                diff as u32
            };
            proof {
                assert((m as int) * (m as int) < 0x1_0000_0000_0000) by (nonlinear_arith)
                    requires
                        0 <= m < 0x100_0000,
                ;
                assert(m >= 1 ==> (m as int) * (m as int) >= 1) by (nonlinear_arith);
            }
            let sq: u64 = (m as u64) * (m as u64);
            let p = pow2_128(sh);
            let term: u128 = (sq as u128) / p;
            proof {
                lemma_div_nonincreasing(sq as int, p as int);
                if sh == 0 {
                    assert(pow2(0) == 1) by {
                        lemma2_to64();
                    }
                }
                lemma_mul_inequality(si as int + 1, 0x1_0000_0000_0000_0000, 0x1_0000_0000_0000);
            }
            acc = acc + term;
        }
        si += 1;
    }
    proof {
        assert(acc >= 1);
        lemma_mul_inequality(n as int, 0x1_0000_0000_0000_0000, 0x1_0000_0000_0000);
    }

    // Bring the sum into a window where its square root carries enough
    // precision, keeping the exponent's parity even.
    let mut v: u128 = acc;
    let mut sc: u32 = 0;
    proof {
        assert(pow2(0) == 1) by {
            lemma2_to64();
        }
    }
    while v < 0x1000_0000_0000_0000 && sc < 70
        invariant
            1 <= v,
            v <= 0x1_0000_0000_0000_0000_0000_0000_0000,
            sc <= 70,
            pow2(sc as nat) <= v,
            scale_up(acc as int, 0) == scale_up(v as int, sc as int),
        decreases 70 - sc,
    {
        proof {
            lemma_pow2_unfold((sc + 1) as nat);
        }
        v = v * 2;
        sc = sc + 1;
    }
    proof {
        assert(v >= 0x1000_0000_0000_0000) by {
            if sc >= 70 {
                lemma_pow2_strictly_increases(60, sc as nat);
                assert(pow2(60) == 0x1000_0000_0000_0000) by {
                    lemma2_to64_rest();
                }
            }
        }
        assert(scale_up(acc as int, 0) == (v as int, sc as int));
    }
    let biased: i32 = maxe2 + 400 - (sc as i32);
    let biased_u: u32 = biased as u32;
    proof {
        assert(biased >= 32);
        assert(biased_u == biased);
    }
    let (v2, scb): (u128, u32) = if biased_u % 2 == 1 {
        (v * 2, biased_u - 1)
    } else {
        (v, biased_u)
    };
    let half: u32 = scb / 2;
    let eq: i32 = (half as i32) - 200;
    proof {
        assert(v2 < pow2(126)) by {
            lemma2_to64_rest();
            lemma_pow2_adds(63, 63);
        }
    }
    let q = isqrt128(v2);
    proof {
        assert(q >= 0x4000_0000) by {
            if q < 0x4000_0000 {
                assert((q + 1) * (q + 1) <= 0x4000_0000 * 0x4000_0000) by (nonlinear_arith)
                    requires
                        0 <= q,
                        q + 1 <= 0x4000_0000,
                ;
            }
        }
        assert(pow2(63) == 0x8000_0000_0000_0000) by {
            lemma2_to64_rest();
        }
        lemma_isqrt_unique(v2 as int, q as int);
    }

    // Pass 3: divide each scalar's magnitude by the root and re-encode.
    let mut out: Vec<u32> = Vec::new();
    let mut oi: usize = 0;
    while oi < n
        invariant
            n == row@.len(),
            0 <= oi <= n,
            out@.len() == oi,
            0x4000_0000 <= q < 0x8000_0000_0000_0000,
            -185 <= eq <= 105,
            forall|j: int| 0 <= j < oi ==> sign_bit(#[trigger] out@[j]) == sign_bit(row@[j]),
            forall|j: int| 0 <= j < oi ==> (magnitude_zero(#[trigger] row@[j]) ==> out@[j] == row@[j]),
            forall|j: int| 0 <= j < oi ==> #[trigger] out@[j] == encode_elem(row@[j], q as int, eq as int),
        decreases n - oi,
    {
        let bits = row[oi];
        let (m, e) = decode(bits);
        let sgn: u32 = bits / 0x8000_0000;
        if m == 0 {
            proof {
                assert(encode_elem(bits, q as int, eq as int) == bits);
            }
            out.push(bits);
        } else {
            proof {
                lemma_mant_zero_iff(bits);
                lemma_mul_inequality(m as int, 0xFF_FFFF, 0x1000_0000_0000_0000);
                assert((m as int) * 0x1000_0000_0000_0000 <= 0xFF_FFFF * 0x1000_0000_0000_0000);
            }
            let num: u128 = (m as u128) * 0x1000_0000_0000_0000;
            let d: u128 = num / q;
            if d == 0 {
                let z = sgn * 0x8000_0000;
                proof {
                    lemma_fundamental_div_mod_converse(z as int, 0x8000_0000, sgn as int, 0);
                    assert(encode_elem(bits, q as int, eq as int) == z);
                }
                out.push(z);
            } else {
                proof {
                    // d < 2^54: the numerator is below 2^84 and q >= 2^30.
                    lemma_div_is_ordered_by_denominator(num as int, 0x4000_0000, q as int);
                    lemma_multiply_divide_lt(num as int, 0x4000_0000, 0x40_0000_0000_0000);
                    assert(pow2(0) == 1) by {
                        lemma2_to64();
                    }
                    assert(pow2(54) == 0x40_0000_0000_0000) by {
                        lemma2_to64_rest();
                    }
                }
                let mut t: u128 = d;
                let mut h: u32 = 0;
                while t >= 2
                    invariant
                        1 <= d < 0x40_0000_0000_0000,
                        pow2(54) == 0x40_0000_0000_0000,
                        t as int == d as int / pow2(h as nat) as int,
                        t >= 1,
                        pow2(h as nat) <= d,
                        h <= 54,
                    decreases t,
                {
                    proof {
                        lemma_pow2_pos(h as nat);
                        lemma_div_denominator(d as int, pow2(h as nat) as int, 2);
                        lemma_pow2_unfold((h + 1) as nat);
                        lemma_fundamental_div_mod(d as int, pow2(h as nat) as int);
                        lemma_mod_bound(d as int, pow2(h as nat) as int);
                        lemma_mul_inequality(2, t as int, pow2(h as nat) as int);
                        assert(pow2((h + 1) as nat) <= d);
                        assert(h + 1 <= 54) by {
                            if h + 1 > 54 {
                                lemma_pow2_strictly_increases(54, (h + 1) as nat);
                            }
                        }
                        lemma_div_decreases(t as int, 2);
                    }
                    t = t / 2;
                    h = h + 1;
                }
                proof {
                    // t == 1, so 2^h <= d < 2^(h+1).
                    lemma_pow2_pos(h as nat);
                    lemma_fundamental_div_mod(d as int, pow2(h as nat) as int);
                    lemma_mod_bound(d as int, pow2(h as nat) as int);
                    lemma_pow2_unfold((h + 1) as nat);
                    assert(pow2(h as nat) <= d < pow2((h + 1) as nat));
                    lemma_log2_unique(d as int, h as int);
                }
                let mm128: u128;
                if h >= 23 {
                    let p = pow2_128(h - 23);
                    proof {
                        lemma_pow2_adds((h - 23) as nat, 24);
                        lemma_multiply_divide_lt(d as int, p as int, pow2(24) as int);
                        lemma_pow2_adds((h - 23) as nat, 23);
                        lemma_div_multiples_vanish(pow2(23) as int, p as int);
                        lemma_div_is_ordered(pow2(h as nat) as int, d as int, p as int);
                        assert(pow2(23) == 0x80_0000 && pow2(24) == 0x100_0000) by {
                            lemma2_to64();
                        }
                    }
                    mm128 = d / p;
                } else {
                    let p = pow2_128(23 - h);
                    proof {
                        lemma_pow2_adds((h + 1) as nat, (23 - h) as nat);
                        lemma_mul_strict_inequality(d as int, pow2((h + 1) as nat) as int, p as int);
                        lemma_pow2_adds(h as nat, (23 - h) as nat);
                        lemma_mul_inequality(pow2(h as nat) as int, d as int, p as int);
                        assert(pow2(23) == 0x80_0000 && pow2(24) == 0x100_0000) by {
                            lemma2_to64();
                        }
                        assert(pow2((24 + (23 - h)) as nat) <= pow2(47)) by {
                            if 24 + (23 - h) < 47 {
                                lemma_pow2_strictly_increases((24 + (23 - h)) as nat, 47);
                            }
                        }
                    }
                    mm128 = d * p;
                }
                let mm: u32 = mm128 as u32;
                proof {
                    assert(0x80_0000 <= mm < 0x100_0000);
                }
                let ee: i32 = e - eq - 60 + (h as i32) - 23;
                let expf: i32 = ee + 150;
                if expf >= 255 {
                    let inf = sgn * 0x8000_0000 + 0x7F80_0000;
                    proof {
                        lemma_fundamental_div_mod_converse(inf as int, 0x8000_0000, sgn as int, 0x7F80_0000);
                        assert(encode_elem(bits, q as int, eq as int) == inf);
                    }
                    out.push(inf);
                } else if expf <= 0 {
                    let z = sgn * 0x8000_0000;
                    proof {
                        lemma_fundamental_div_mod_converse(z as int, 0x8000_0000, sgn as int, 0);
                        assert(encode_elem(bits, q as int, eq as int) == z);
                    }
                    out.push(z);
                } else {
                    let b_out: u32 = sgn * 0x8000_0000 + (expf as u32) * 0x80_0000 + (mm - 0x80_0000);
                    proof {
                        lemma_fundamental_div_mod_converse(
                            b_out as int,
                            0x8000_0000,
                            sgn as int,
                            (expf as int) * 0x80_0000 + (mm - 0x80_0000),
                        );
                        assert(encode_elem(bits, q as int, eq as int) == b_out);
                    }
                    out.push(b_out);
                }
            }
        }
        oi += 1;
    }
    proof {
        let j0 = choose|j: int| 0 <= j < n && spec_mant(#[trigger] row@[j]) != 0
            && maxe2 == 2 * spec_exp(row@[j]);
        lemma_mant_zero_iff(row@[j0]);
        assert(!all_magnitude_zero(row@));
        // The computed quantities are exactly the functional model's.
        assert(row_has_nonzero(row@));
        let top = max_e2(row@, n as int);
        let sacc = sum_sq(row@, n as int, top);
        assert(maxe2 == top && acc == sacc);
        let scaled = scale_up(sacc, 0);
        assert(scaled == (v as int, sc as int));
        let sbiased = top + 400 - scaled.1;
        assert(sbiased == biased as int);
        let even = if sbiased % 2 != 0 {
            (2 * scaled.0, sbiased - 1)
        } else {
            (scaled.0, sbiased)
        };
        assert(even == (v2 as int, scb as int));
        let meq = even.1 / 2 - 200;
        assert(meq == eq as int);
        assert(q as int == spec_isqrt(even.0));
        assert(normalize_spec(row@) == Seq::new(
            row@.len(),
            |i: int| encode_elem(row@[i], q as int, eq as int),
        ));
        assert(out@ =~= normalize_spec(row@));
    }
    out
}

} // verus!
