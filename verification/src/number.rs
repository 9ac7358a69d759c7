//! Numbers as IEEE-754 binary32 bit patterns.
//!
//! The machine keeps every number as the 32 bits of a single-precision
//! float. What can be decided on the bits alone is decided here, in integer
//! arithmetic: how two numbers compare, and which bits an integer has.

use crate::opcode::Opcode;
use vstd::arithmetic::power2::{
    lemma2_to64, lemma_pow2_adds, lemma_pow2_pos, lemma_pow2_strictly_increases,
    lemma_pow2_unfold, pow2,
};
use vstd::prelude::*;

verus! {

/// The bits of `1.0`.
pub const ONE: u32 = 0x3F80_0000;

/// The bits of `0.0`.
pub const ZERO: u32 = 0;

/// The bit that holds the sign.
pub const SIGN_BIT: u32 = 0x8000_0000;

/// The bits of positive infinity: the largest magnitude that is no NaN.
pub const INFINITY: u32 = 0x7F80_0000;

/// The bits without the sign.
pub open spec fn magnitude(bits: u32) -> int {
    if bits >= SIGN_BIT {
        bits - SIGN_BIT
    } else {
        bits as int
    }
}

/// A NaN has all exponent bits set and a fraction that is not zero.
pub open spec fn is_nan(bits: u32) -> bool {
    magnitude(bits) > INFINITY
}

/// An integer that orders the bit patterns other than NaN as their floats
/// are ordered. Both zeros have rank 0.
pub open spec fn rank(bits: u32) -> int {
    if bits >= SIGN_BIT {
        -magnitude(bits)
    } else {
        magnitude(bits)
    }
}

/// `a < b` as floats: false if either is a NaN.
pub open spec fn less(a: u32, b: u32) -> bool {
    !is_nan(a) && !is_nan(b) && rank(a) < rank(b)
}

/// `a == b` as floats: false if either is a NaN, true of the two zeros.
pub open spec fn equal(a: u32, b: u32) -> bool {
    !is_nan(a) && !is_nan(b) && rank(a) == rank(b)
}

/// What a comparison opcode says of two floats. False of every other opcode.
pub open spec fn holds(op: Opcode, a: u32, b: u32) -> bool {
    match op {
        Opcode::LESS_THAN => less(a, b),
        Opcode::LESS_OR_EQUAL => less(a, b) || equal(a, b),
        Opcode::EQUAL => equal(a, b),
        Opcode::GREATER_OR_EQUAL => less(b, a) || equal(a, b),
        Opcode::GREATER_THAN => less(b, a),
        _ => false,
    }
}

/// The number that a comparison leaves in its result register.
pub open spec fn truth(b: bool) -> u32 {
    if b {
        ONE
    } else {
        ZERO
    }
}

fn rank_of(bits: u32) -> (k: i64)
    ensures
        k == rank(bits),
{
    if bits >= SIGN_BIT {
        let m: u32 = bits - SIGN_BIT;
        let k: i64 = 0 - (m as i64);
        k
    } else {
        bits as i64
    }
}

/// Whether the bits are those of a NaN.
pub fn nan(bits: u32) -> (b: bool)
    ensures
        b == is_nan(bits),
{
    let m: u32 = if bits >= SIGN_BIT {
        bits - SIGN_BIT
    } else {
        bits
    };
    m > INFINITY
}

/// Compares two floats by their bits.
pub fn compare_bits(op: Opcode, a: u32, b: u32) -> (r: bool)
    ensures
        r == holds(op, a, b),
{
    if nan(a) || nan(b) {
        return false;
    }
    let ka: i64 = rank_of(a);
    let kb: i64 = rank_of(b);
    match op {
        Opcode::LESS_THAN => ka < kb,
        Opcode::LESS_OR_EQUAL => ka <= kb,
        Opcode::EQUAL => ka == kb,
        Opcode::GREATER_OR_EQUAL => ka >= kb,
        Opcode::GREATER_THAN => ka > kb,
        _ => false,
    }
}

/// A comparison with a NaN on either side is false, whatever the opcode,
/// and no float is less than itself.
pub proof fn law_nan_compares_false(op: Opcode, a: u32, b: u32)
    ensures
        is_nan(a) || is_nan(b) ==> !holds(op, a, b),
        !less(a, a),
        !is_nan(a) ==> equal(a, a),
{
}

/// Of two floats that are no NaN exactly one of `<`, `==`, `>` holds.
pub proof fn law_trichotomy(a: u32, b: u32)
    requires
        !is_nan(a),
        !is_nan(b),
    ensures
        less(a, b) || equal(a, b) || less(b, a),
        !(less(a, b) && equal(a, b)),
        !(less(a, b) && less(b, a)),
        !(equal(a, b) && less(b, a)),
{
}

} // verus!

verus! {

/// The position of the highest bit that is set: `2^e <= m < 2^(e+1)` for a
/// positive `m`.
pub open spec fn floor_log2(m: nat) -> nat
    decreases m,
{
    if m <= 1 {
        0
    } else {
        1 + floor_log2(m / 2)
    }
}

/// The bits of the float nearest to the positive integer `m`.
///
/// The float has the exponent `e` of the highest set bit of `m` and the 23
/// bits below that bit as its fraction. Where `m` has more bits, those
/// beyond the fraction are rounded off to the nearest, and to the even
/// fraction where they lie in the middle; a fraction that rounds up to
/// 2^23 carries into the exponent.
pub open spec fn bits_of_magnitude(m: nat) -> int {
    let e = floor_log2(m);
    if e <= 23 {
        (e + 127) * 0x80_0000 + (m * pow2((23 - e) as nat) - 0x80_0000)
    } else {
        let unit = pow2((e - 23) as nat);
        let kept = m / unit;
        let rest = m % unit;
        let up: int = if 2 * rest > unit || (2 * rest == unit && kept % 2 == 1) {
            1
        } else {
            0
        };
        (e + 127) * 0x80_0000 + (kept - 0x80_0000) + up
    }
}

/// The bits of the float that an integer converts to: the nearest float,
/// with the sign of the integer; 0 for 0.
pub open spec fn bits_of_int(n: int) -> int {
    if n == 0 {
        0
    } else if n < 0 {
        SIGN_BIT + bits_of_magnitude((-n) as nat)
    } else {
        bits_of_magnitude(n as nat)
    }
}

/// The highest set bit of a positive `m` is bit `floor_log2(m)`.
pub proof fn lemma_floor_log2_bounds(m: nat)
    requires
        m >= 1,
    ensures
        pow2(floor_log2(m)) <= m < 2 * pow2(floor_log2(m)),
    decreases m,
{
    if m <= 1 {
        lemma2_to64();
    } else {
        lemma_floor_log2_bounds(m / 2);
        lemma_pow2_unfold(floor_log2(m));
    }
}

/// The bits of an integer of 32 bits fit in 32 bits.
pub proof fn lemma_bits_of_int_bounds(n: int)
    requires
        -0x8000_0000 <= n < 0x8000_0000,
    ensures
        0 <= bits_of_int(n) <= u32::MAX,
        n > 0 ==> 0x3F80_0000 <= bits_of_int(n) <= 0x4F00_0000,
        n < 0 ==> SIGN_BIT + 0x3F80_0000 <= bits_of_int(n) <= SIGN_BIT + 0x4F00_0000,
{
    if n != 0 {
        let m: nat = if n < 0 {
            (-n) as nat
        } else {
            n as nat
        };
        lemma_magnitude_bounds(m);
    }
}

/// The bits of a positive integer of at most 32 bits lie between those of
/// 1.0 and those of 2^31, and the fraction that is kept has 24 bits.
pub proof fn lemma_magnitude_bounds(m: nat)
    requires
        1 <= m <= 0x8000_0000,
    ensures
        floor_log2(m) <= 31,
        floor_log2(m) <= 23 ==> 0x80_0000 <= m * pow2((23 - floor_log2(m)) as nat) < 0x100_0000,
        floor_log2(m) > 23 ==> 0x80_0000 <= m / pow2((floor_log2(m) - 23) as nat) < 0x100_0000,
        0x3F80_0000 <= bits_of_magnitude(m) <= 0x4F00_0000,
{
    let e = floor_log2(m);
    lemma_floor_log2_bounds(m);
    lemma2_to64();
    if e > 32 {
        lemma_pow2_strictly_increases(32, e);
    }
    assert(e <= 31);
    if e <= 23 {
        let k = (23 - e) as nat;
        lemma_pow2_adds(e, k);
        assert(pow2(e) * pow2(k) == 0x80_0000);
        assert(0x80_0000 <= m * pow2(k) < 0x100_0000) by (nonlinear_arith)
            requires
                pow2(e) <= m < 2 * pow2(e),
                pow2(e) * pow2(k) == 0x80_0000,
                pow2(k) > 0,
        ;
    } else {
        let k = (e - 23) as nat;
        let unit = pow2(k);
        lemma_pow2_adds(23, k);
        assert(0x80_0000 * unit == pow2(e));
        assert(0x80_0000 <= m / unit < 0x100_0000) by (nonlinear_arith)
            requires
                0x80_0000 * unit <= m < 2 * (0x80_0000 * unit),
                unit > 0,
        ;
        if e == 31 {
            assert(m == 0x8000_0000);
            assert(unit == 256);
            assert(m / unit == 0x80_0000);
            assert(m % unit == 0);
        } else {
            assert(e + 127 <= 157);
        }
    }
}

/// The bits of the float that `n` converts to.
pub fn from_int(n: i32) -> (bits: u32)
    ensures
        bits == bits_of_int(n as int),
{
    if n == 0 {
        return 0;
    }
    let m: u64 = if n < 0 {
        (0 - (n as i64)) as u64
    } else {
        n as u64
    };
    proof {
        lemma_magnitude_bounds(m as nat);
        lemma2_to64();
    }
    let mut e: u64 = 0;
    let mut q: u64 = m;
    while q > 1
        invariant
            q >= 1,
            floor_log2(m as nat) == e + floor_log2(q as nat),
            floor_log2(m as nat) <= 31,
            e <= 31,
        decreases q,
    {
        q = q / 2;
        e = e + 1;
    }
    let mut unit: u64 = 1;
    let mut k: u64 = 0;
    let span: u64 = if e <= 23 {
        23 - e
    } else {
        e - 23
    };
    while k < span
        invariant
            k <= span <= 23,
            unit == pow2(k as nat),
            unit <= 0x80_0000,
        decreases span - k,
    {
        proof {
            lemma2_to64();
            lemma_pow2_unfold((k + 1) as nat);
            if k + 1 < 23 {
                lemma_pow2_strictly_increases((k + 1) as nat, 23);
            }
        }
        unit = unit * 2;
        k = k + 1;
    }
    assert(floor_log2(1) == 0);
    assert(e == floor_log2(m as nat));
    let magnitude: u64 = if e <= 23 {
        (e + 127) * 0x80_0000 + (m * unit - 0x80_0000)
    } else {
        let kept = m / unit;
        let rest = m % unit;
        let up: u64 = if 2 * rest > unit || (2 * rest == unit && kept % 2 == 1) {
            1
        } else {
            0
        };
        (e + 127) * 0x80_0000 + (kept - 0x80_0000) + up
    };
    if n < 0 {
        (magnitude + 0x8000_0000) as u32
    } else {
        magnitude as u32
    }
}

} // verus!

verus! {

/// The exponent field of the bits.
pub open spec fn exponent(bits: u32) -> int {
    magnitude(bits) / 0x80_0000
}

/// The fraction field of the bits.
pub open spec fn fraction(bits: u32) -> int {
    magnitude(bits) % 0x80_0000
}

/// The absolute value that the bits denote, counted in units of 2^-149, the
/// smallest positive float. A subnormal float is its fraction; a normal
/// float is its fraction with the implicit bit in front, doubled for each
/// step of the exponent. Infinity counts as 2^128.
pub open spec fn scaled_magnitude(bits: u32) -> int {
    if exponent(bits) == 0 {
        fraction(bits)
    } else {
        (0x80_0000 + fraction(bits)) * pow2((exponent(bits) - 1) as nat)
    }
}

/// The value that the bits denote, counted in units of 2^-149.
pub open spec fn scaled_value(bits: u32) -> int {
    if bits >= SIGN_BIT {
        -scaled_magnitude(bits)
    } else {
        scaled_magnitude(bits)
    }
}

/// Of two floats without sign, the one with the greater bits is the
/// greater.
proof fn lemma_scaled_magnitude_increases(x: u32, y: u32)
    requires
        x < y < SIGN_BIT,
    ensures
        0 <= scaled_magnitude(x) < scaled_magnitude(y),
{
    let ex = (exponent(x)) as nat;
    let ey = (exponent(y)) as nat;
    let fx = fraction(x);
    let fy = fraction(y);
    assert(magnitude(x) == x && magnitude(y) == y);
    assert(x == ex * 0x80_0000 + fx && 0 <= fx < 0x80_0000);
    assert(y == ey * 0x80_0000 + fy && 0 <= fy < 0x80_0000);
    lemma2_to64();
    if ex == ey {
        if ex > 0 {
            let p = pow2((ex - 1) as nat);
            lemma_pow2_pos((ex - 1) as nat);
            assert(0 <= (0x80_0000 + fx) * p < (0x80_0000 + fy) * p) by (nonlinear_arith)
                requires
                    0 <= fx < fy,
                    p > 0,
            ;
        }
    } else {
        assert(ex < ey);
        let py = pow2((ey - 1) as nat);
        let px = pow2(ex);
        lemma_pow2_pos(ex);
        if ex < ey - 1 {
            lemma_pow2_strictly_increases(ex, (ey - 1) as nat);
        }
        assert(px <= py);
        assert(0x80_0000 * px <= (0x80_0000 + fy) * py) by (nonlinear_arith)
            requires
                0 < px <= py,
                0 <= fy,
        ;
        if ex == 0 {
            assert(scaled_magnitude(x) == fx);
        } else {
            let p = pow2((ex - 1) as nat);
            lemma_pow2_pos((ex - 1) as nat);
            lemma_pow2_unfold(ex);
            assert(px == 2 * p);
            assert(0 <= (0x80_0000 + fx) * p < 0x80_0000 * (2 * p)) by (nonlinear_arith)
                requires
                    0 <= fx < 0x80_0000,
                    p > 0,
            ;
        }
    }
}

/// The comparisons are those of the values. Of two floats that are no NaN,
/// one is less than the other exactly where the value that its bits denote
/// is less, and the two are equal exactly where the values are: so the two
/// zeros are equal, and nothing else with different bits is.
pub proof fn law_comparison_is_by_value(a: u32, b: u32)
    requires
        !is_nan(a),
        !is_nan(b),
    ensures
        less(a, b) <==> scaled_value(a) < scaled_value(b),
        equal(a, b) <==> scaled_value(a) == scaled_value(b),
        equal(a, b) <==> a == b || (magnitude(a) == 0 && magnitude(b) == 0),
{
    let x: u32 = magnitude(a) as u32;
    let y: u32 = magnitude(b) as u32;
    assert(magnitude(x) == x && magnitude(y) == y);
    assert(scaled_magnitude(a) == scaled_magnitude(x));
    assert(scaled_magnitude(b) == scaled_magnitude(y));
    if x < y {
        lemma_scaled_magnitude_increases(x, y);
    } else if y < x {
        lemma_scaled_magnitude_increases(y, x);
    }
    if 0 < x {
        lemma_scaled_magnitude_increases(0, x);
    }
    if 0 < y {
        lemma_scaled_magnitude_increases(0, y);
    }
    assert(scaled_magnitude(0) == 0) by {
        assert(exponent(0) == 0 && fraction(0) == 0);
    }
}

/// An integer converts to the float that is nearest to it. The bits of a
/// positive integer `m` of at most 32 bits denote `m` itself where `m` has
/// no more than 24 significant bits. Where it has more, they denote an
/// integer that differs from `m` by at most half the distance between the
/// floats around `m`, and where it differs by exactly half, the last bit of
/// the fraction is zero: a tie goes to the even float.
pub proof fn law_from_int_is_nearest(m: nat)
    requires
        1 <= m <= 0x8000_0000,
    ensures
        ({
            let e = floor_log2(m);
            let bits = bits_of_magnitude(m) as u32;
            let significand = 0x80_0000 + fraction(bits);
            &&& bits == bits_of_magnitude(m)
            &&& e <= 23 ==> exponent(bits) == e + 127 && significand == m * pow2((23 - e) as nat)
            &&& e > 23 ==> {
                let value = significand * pow2((exponent(bits) - 150) as nat);
                let distance = if value >= m {
                    value - m
                } else {
                    m - value
                };
                &&& exponent(bits) >= 150
                &&& 2 * distance <= pow2((e - 23) as nat)
                &&& 2 * distance == pow2((e - 23) as nat) ==> fraction(bits) % 2 == 0
            }
        }),
{
    let e = floor_log2(m);
    lemma_magnitude_bounds(m);
    lemma2_to64();
    let bits = bits_of_magnitude(m) as u32;
    assert(magnitude(bits) == bits);
    if e <= 23 {
        let scaled = m * pow2((23 - e) as nat);
        assert(bits == (e + 127) * 0x80_0000 + (scaled - 0x80_0000));
    } else {
        let k = (e - 23) as nat;
        let unit = pow2(k);
        lemma_pow2_pos(k);
        let kept = m / unit;
        let rest = m % unit;
        let up: int = if 2 * rest > unit || (2 * rest == unit && kept % 2 == 1) {
            1
        } else {
            0
        };
        assert(m == kept * unit + rest && 0 <= rest < unit) by {
            vstd::arithmetic::div_mod::lemma_fundamental_div_mod(m as int, unit as int);
            vstd::arithmetic::div_mod::lemma_mod_bound(m as int, unit as int);
            assert(unit * kept == kept * unit) by (nonlinear_arith);
        }
        assert(bits == (e + 127) * 0x80_0000 + (kept - 0x80_0000) + up);
        if kept + up < 0x100_0000 {
            assert(exponent(bits) == e + 127);
            assert(fraction(bits) == kept + up - 0x80_0000);
            assert(pow2((exponent(bits) - 150) as nat) == unit);
            let value = (kept + up) * unit;
            assert(value - m == up * unit - rest) by (nonlinear_arith)
                requires
                    value == (kept + up) * unit,
                    m == kept * unit + rest,
            ;
            if up == 1 {
                assert(up * unit == unit);
            } else {
                assert(up * unit == 0);
            }
        } else {
            assert(kept == 0xFF_FFFF && up == 1);
            assert(bits == (e + 128) * 0x80_0000);
            assert(exponent(bits) == e + 128);
            assert(fraction(bits) == 0);
            lemma_pow2_unfold((k + 1) as nat);
            assert(pow2((exponent(bits) - 150) as nat) == 2 * unit);
            let value = 0x80_0000 * (2 * unit);
            assert(value - m == unit - rest) by (nonlinear_arith)
                requires
                    value == 0x80_0000 * (2 * unit),
                    m == 0xFF_FFFF * unit + rest,
            ;
        }
    }
}

} // verus!
