//! Signed fixed-point arithmetic with 16 fractional bits, and an integer
//! sine in binary angle units (a full turn is `VUELTA` units).
//!
//! Every executable routine here is proved equal to a spec-level integer
//! function, so the rest of the engine can state its contracts over exact
//! integer arithmetic.

use vstd::prelude::*;

verus! {

use vstd::arithmetic::div_mod::lemma_div_is_ordered;
use vstd::arithmetic::div_mod::lemma_div_multiples_vanish;
use vstd::arithmetic::div_mod::lemma_div_pos_is_pos;
use vstd::arithmetic::div_mod::lemma_fundamental_div_mod;

/// One whole unit: 2^16.
pub const FP: i64 = 65536;

/// A full turn in binary angle units (so one unit is 1/65536 of a turn).
pub const VUELTA: i64 = 65536;

/// Half a turn (180 degrees).
pub const MEDIA_VUELTA: i64 = 32768;

/// A quarter turn (90 degrees).
pub const CUARTO_VUELTA: i64 = 16384;

/// Quotient of two nonnegative integers, floor = truncating here.
pub fn div_pos(a: i64, b: i64) -> (r: i64)
    requires
        0 <= a,
        0 < b,
    ensures
        r == a as int / b as int,
{
    ((a as u64) / (b as u64)) as i64
}

/// Truncating (toward zero) division, defined over the mathematical integers.
pub open spec fn div_trunca(a: int, b: int) -> int {
    if a >= 0 {
        a / b
    } else {
        -((-a) / b)
    }
}

/// Truncating division by a positive divisor.
pub fn div_t(a: i64, b: i64) -> (r: i64)
    requires
        0 < b,
        i64::MIN < a,
    ensures
        r == div_trunca(a as int, b as int),
{
    if a >= 0 {
        div_pos(a, b)
    } else {
        let m = div_pos(-a, b);
        proof {
            lemma_div_pos_is_pos(-a as int, b as int);
            lemma_div_is_ordered(-a as int, -(i64::MIN + 1) as int, b as int);
            lema_div_no_crece(-a as int, b as int);
        }
        -m
    }
}

/// Dividing a nonnegative integer by a positive one never enlarges it.
pub proof fn lema_div_no_crece(x: int, d: int)
    requires
        0 <= x,
        1 <= d,
    ensures
        x / d <= x,
{
    lemma_fundamental_div_mod(x, d);
    if x / d > x {
        vstd::arithmetic::mul::lemma_mul_inequality(x + 1, x / d, d);
        vstd::arithmetic::mul::lemma_mul_is_distributive_add_other_way(d, x, 1);
        vstd::arithmetic::mul::lemma_mul_inequality(1, d, x);
    }
}

/// A truncating division by 2^16 keeps a symmetric bound.
pub proof fn lema_div_trunca_cota(p: int, c: int)
    requires
        -c <= p <= c,
        0 <= c,
    ensures
        -(c / 65536) <= div_trunca(p, 65536) <= c / 65536,
{
    if p >= 0 {
        lemma_div_pos_is_pos(p, 65536);
        lemma_div_is_ordered(p, c, 65536);
    } else {
        lemma_div_pos_is_pos(-p, 65536);
        lemma_div_is_ordered(-p, c, 65536);
    }
}

/// The cell index that contains a fixed-point coordinate: floor(a / 2^16).
/// In spec arithmetic `/` by a positive divisor is already the floor.
pub open spec fn piso_spec(a: int) -> int {
    a / 65536
}

/// Floor of a fixed-point value, as a cell index.
pub fn piso_fp(a: i64) -> (r: i64)
    requires
        -0x4000_0000_0000_0000 < a < 0x4000_0000_0000_0000,
    ensures
        r == piso_spec(a as int),
        r * 65536 <= a < (r + 1) * 65536,
{
    if a >= 0 {
        let r = div_pos(a, FP);
        proof {
            lemma_fundamental_div_mod(a as int, 65536);
        }
        r
    } else {
        let q = div_pos(-a + 65535, FP);
        proof {
            let m = (-a + 65535) as int;
            lemma_div_pos_is_pos(m, 65536);
            lemma_div_is_ordered(m, -(i64::MIN + 1) as int, 65536);
            lemma_fundamental_div_mod(m, 65536);
            // m = 65536 * q + r1 with 0 <= r1 < 65536, so
            // -a = 65536 * q + r1 - 65535, hence 65536 * (q-1) < -a <= 65536 * q.
            lemma_fundamental_div_mod(a as int, 65536);
            // a = 65536 * s + t with 0 <= t < 65536; linear arithmetic pins s == -q.
        }
        -q
    }
}

/// The fractional part of a fixed-point value, in [0, 2^16).
pub open spec fn fraccion_spec(a: int) -> int {
    a - piso_spec(a) * 65536
}

/// Fractional part of a fixed-point coordinate within its cell.
pub fn fraccion_fp(a: i64) -> (r: i64)
    requires
        -0x4000_0000_0000_0000 < a < 0x4000_0000_0000_0000,
    ensures
        r == fraccion_spec(a as int),
        0 <= r < 65536,
{
    let p = piso_fp(a);
    a - p * 65536
}

/// Fixed-point product: (a * b) / 2^16, truncated toward zero.
pub open spec fn mul_fp_spec(a: int, b: int) -> int {
    div_trunca(a * b, 65536)
}

/// Fixed-point multiplication.
pub fn mul_fp(a: i64, b: i64) -> (r: i64)
    requires
        -0x2000_0000_0000_0000 < a * b < 0x2000_0000_0000_0000,
    ensures
        r == mul_fp_spec(a as int, b as int),
{
    let p: i64 = a * b;
    div_t(p, FP)
}

/// Fixed-point multiplication with a wide intermediate product, for
/// factors whose product does not fit the narrow form.
pub fn mul_fp_largo(a: i64, b: i64) -> (r: i64)
    requires
        -0x20_0000_0000_0000 <= a <= 0x20_0000_0000_0000,
        -65536 <= b <= 65536,
    ensures
        r == mul_fp_spec(a as int, b as int),
{
    proof {
        assert(-0x2000_0000_0000_0000_0000 <= a as int * b as int <= 0x2000_0000_0000_0000_0000)
            by (nonlinear_arith)
            requires -0x20_0000_0000_0000 <= a <= 0x20_0000_0000_0000 && -65536 <= b <= 65536;
    }
    let p: i128 = (a as i128) * (b as i128);
    if p >= 0 {
        let q: u128 = (p as u128) / 65536;
        proof {
            lemma_div_pos_is_pos(p as int, 65536);
            lemma_div_is_ordered(p as int, 0x2000_0000_0000_0000_0000, 65536);
        }
        q as i64
    } else {
        let q: u128 = ((-p) as u128) / 65536;
        proof {
            lemma_div_pos_is_pos(-p as int, 65536);
            lemma_div_is_ordered(-p as int, 0x2000_0000_0000_0000_0000, 65536);
        }
        -(q as i64)
    }
}

/// Bhaskara's rational sine approximation on the first half turn,
/// scaled to fixed point. Exact at 0 and at the quarter turn.
pub open spec fn seno_medio_spec(x: int) -> int {
    (1048576 * (x * (32768 - x))) / (5368709120 - 4 * (x * (32768 - x)))
}

/// Sine of a binary angle in [0, VUELTA), scaled to [-FP, FP].
pub open spec fn seno_spec(a: int) -> int {
    if a < 32768 {
        seno_medio_spec(a)
    } else {
        -seno_medio_spec(a - 32768)
    }
}

/// Cosine as the sine shifted by a quarter turn.
pub open spec fn coseno_spec(a: int) -> int {
    if a + 16384 < 65536 {
        seno_spec(a + 16384)
    } else {
        seno_spec(a + 16384 - 65536)
    }
}

/// The product x * (32768 - x) stays within [0, 2^28] on the half turn,
/// and is at least 32767 away from the ends.
proof fn lema_producto_medio(x: int)
    requires
        0 <= x <= 32768,
    ensures
        0 <= x * (32768 - x) <= 268435456,
        1 <= x <= 32767 ==> x * (32768 - x) >= 32767,
{
    assert(0 <= x * (32768 - x) <= 268435456) by (nonlinear_arith)
        requires 0 <= x <= 32768;
    if 1 <= x <= 32767 {
        assert(x * (32768 - x) >= 32767) by (nonlinear_arith)
            requires 1 <= x <= 32767;
    }
}

fn seno_medio(x: i64) -> (r: i64)
    requires
        0 <= x <= 32768,
    ensures
        r == seno_medio_spec(x as int),
        0 <= r <= 65536,
        1 <= x <= 32767 ==> 1 <= r,
{
    proof {
        lema_producto_medio(x as int);
    }
    let p: i64 = x * (32768 - x);
    let num: i64 = 1048576 * p;
    let den: i64 = 5368709120 - 4 * p;
    let r = div_pos(num, den);
    proof {
        lemma_div_pos_is_pos(num as int, den as int);
        // r <= FP because num <= FP * den, i.e. 16p <= 5*2^30 - 4p.
        lemma_div_is_ordered(num as int, 65536 * den as int, den as int);
        lemma_div_multiples_vanish(65536, den as int);
        if 1 <= x <= 32767 {
            // num >= den, so the quotient is at least one.
            lemma_div_is_ordered(den as int, num as int, den as int);
            lemma_div_multiples_vanish(1, den as int);
        }
    }
    r
}

/// Sine of a binary angle, in fixed point.
pub fn seno(a: i64) -> (r: i64)
    requires
        0 <= a < 65536,
    ensures
        r == seno_spec(a as int),
        -65536 <= r <= 65536,
        r == 0 ==> a == 0 || a == 32768,
{
    if a < MEDIA_VUELTA {
        seno_medio(a)
    } else {
        let m = seno_medio(a - MEDIA_VUELTA);
        -m
    }
}

/// Cosine of a binary angle, in fixed point.
pub fn coseno(a: i64) -> (r: i64)
    requires
        0 <= a < 65536,
    ensures
        r == coseno_spec(a as int),
        -65536 <= r <= 65536,
{
    let b = if a + CUARTO_VUELTA < VUELTA {
        a + CUARTO_VUELTA
    } else {
        a + CUARTO_VUELTA - VUELTA
    };
    seno(b)
}

/// Sine and cosine of one angle are never both zero: where the sine
/// vanishes the cosine is a whole unit in magnitude.
pub proof fn lema_seno_coseno_no_cero(a: int)
    requires
        0 <= a < 65536,
    ensures
        seno_spec(a) != 0 || coseno_spec(a) == 65536 || coseno_spec(a) == -65536,
{
    if seno_spec(a) == 0 {
        if a < 32768 {
            lema_seno_positivo(a);
        } else {
            lema_seno_positivo(a - 32768);
        }
        assert(a == 0 || a == 32768);
        assert(seno_medio_spec(16384) == 65536) by {
            assert(16384 * (32768 - 16384) == 268435456) by (nonlinear_arith);
            assert(1048576 * 268435456 == 4294967296 * 65536) by (nonlinear_arith);
            assert(5368709120 - 4 * 268435456 == 4294967296);
            lemma_div_multiples_vanish(65536, 4294967296);
        }
    }
}

/// On the open first half turn the rational sine is at least one unit.
proof fn lema_seno_positivo(x: int)
    requires
        0 <= x < 32768,
    ensures
        1 <= x ==> seno_medio_spec(x) >= 1,
        seno_medio_spec(x) >= 0,
        x == 0 ==> seno_medio_spec(x) == 0,
{
    lema_producto_medio(x);
    let p = x * (32768 - x);
    lemma_div_pos_is_pos(1048576 * p, 5368709120 - 4 * p);
    if 1 <= x {
        lemma_div_is_ordered(5368709120 - 4 * p, 1048576 * p, 5368709120 - 4 * p);
        lemma_div_multiples_vanish(1, 5368709120 - 4 * p);
    }
}

/// Normalisation of an angle that has left [0, VUELTA) by less than a turn.
pub open spec fn ajuste_vuelta(a: int) -> int {
    if a < 0 {
        a + 65536
    } else if a >= 65536 {
        a - 65536
    } else {
        a
    }
}

/// Turn an angle by a delta of less than one turn in magnitude, staying
/// within [0, VUELTA).
pub fn rotar(a: i64, d: i64) -> (r: i64)
    requires
        0 <= a < 65536,
        -65536 < d < 65536,
    ensures
        r == ajuste_vuelta(a + d),
        0 <= r < 65536,
{
    let s = a + d;
    if s < 0 {
        s + VUELTA
    } else if s >= VUELTA {
        s - VUELTA
    } else {
        s
    }
}

} // verus!
