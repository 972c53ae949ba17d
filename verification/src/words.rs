//! Single-precision numbers, carried as their 32-bit words.
//!
//! The geometry of the game is computed in floating point outside this library.
//! What the library decides from such a number it decides from the word that
//! encodes it, and the contracts speak of the number that the word stands for.

use vstd::arithmetic::power2::{lemma_pow2_adds, lemma_pow2_pos, lemma_pow2_strictly_increases, pow2};
use vstd::prelude::*;

verus! {

/// The word of `0.0`.
pub const ZERO: u32 = 0x0000_0000;

/// The word of `1.0`.
pub const ONE: u32 = 0x3f80_0000;

/// The word of `-1.0`.
pub const MINUS_ONE: u32 = 0xbf80_0000;

/// The word of positive infinity; the words of larger magnitude encode no number.
pub const INFINITY: u32 = 0x7f80_0000;

/// The lowest word with the sign bit set.
pub const SIGN: u32 = 0x8000_0000;

/// The exponent and fraction fields of `w`: the word without its sign bit.
pub open spec fn fields(w: u32) -> int {
    if w < SIGN {
        w as int
    } else {
        w - SIGN
    }
}

/// Whether `w` encodes no number.
pub open spec fn is_nan(w: u32) -> bool {
    fields(w) > INFINITY
}

/// The magnitude that the fields `m` encode, in units of `2^-149`, the least
/// positive number of the format. Infinity counts as the number that would come
/// after the largest finite one.
pub open spec fn magnitude(m: int) -> int {
    let exponent = m / 0x80_0000;
    let fraction = m % 0x80_0000;
    if exponent == 0 {
        fraction
    } else {
        (0x80_0000 + fraction) * pow2((exponent - 1) as nat)
    }
}

/// The number that `w` encodes, in units of `2^-149`.
pub open spec fn value(w: u32) -> int {
    if w < SIGN {
        magnitude(fields(w))
    } else {
        -magnitude(fields(w))
    }
}

/// The order of the numbers that two words encode; a word that encodes no number
/// is below nothing and above nothing.
pub open spec fn below(a: u32, b: u32) -> bool {
    !is_nan(a) && !is_nan(b) && value(a) < value(b)
}

/// The word of the absolute value of what `w` encodes.
pub open spec fn absolute(w: u32) -> u32 {
    fields(w) as u32
}

/// The magnitude grows strictly with the fields that encode it.
pub proof fn law_magnitude_is_increasing(m: int, n: int)
    requires
        0 <= m < n,
    ensures
        0 <= magnitude(m) < magnitude(n),
{
    let e = m / 0x80_0000;
    let d = n / 0x80_0000;
    let f = m % 0x80_0000;
    let g = n % 0x80_0000;
    assert(e <= d);
    if d == 0 {
    } else if e == 0 {
        lemma_pow2_pos((d - 1) as nat);
        let p = pow2((d - 1) as nat) as int;
        assert((0x80_0000 + g) * p >= 0x80_0000) by (nonlinear_arith)
            requires
                g >= 0,
                p >= 1,
        ;
    } else {
        let p = pow2((e - 1) as nat) as int;
        let q = pow2((d - 1) as nat) as int;
        lemma_pow2_pos((e - 1) as nat);
        if e == d {
            assert((0x80_0000 + f) * p < (0x80_0000 + g) * p) by (nonlinear_arith)
                requires
                    f < g,
                    p >= 1,
            ;
            assert(0 <= (0x80_0000 + f) * p) by (nonlinear_arith)
                requires
                    0 <= f,
                    p >= 1,
            ;
        } else {
            lemma_pow2_adds((e - 1) as nat, (d - e) as nat);
            let r = pow2((d - e) as nat) as int;
            assert(r >= 2) by {
                lemma_pow2_strictly_increases(0, (d - e) as nat);
                vstd::arithmetic::power2::lemma2_to64();
            }
            assert(q == p * r);
            assert((0x80_0000 + f) * p < (0x80_0000 + g) * q) by (nonlinear_arith)
                requires
                    q == p * r,
                    r >= 2,
                    p >= 1,
                    0 <= f < 0x80_0000,
                    0 <= g,
            ;
            assert(0 <= (0x80_0000 + f) * p) by (nonlinear_arith)
                requires
                    0 <= f,
                    p >= 1,
            ;
        }
    }
}

/// The order of words with one sign follows their fields.
proof fn lemma_magnitude_order(m: int, n: int)
    requires
        0 <= m,
        0 <= n,
    ensures
        magnitude(m) < magnitude(n) <==> m < n,
        0 <= magnitude(m),
        magnitude(m) == 0 <==> m == 0,
{
    if m < n {
        law_magnitude_is_increasing(m, n);
    } else if n < m {
        law_magnitude_is_increasing(n, m);
    }
    if m > 0 {
        law_magnitude_is_increasing(0, m);
    }
}

/// A number has one word, but for zero, which has two.
pub proof fn law_number_has_one_word(a: u32, b: u32)
    requires
        value(a) == value(b),
        value(a) != 0,
    ensures
        a == b,
{
    lemma_magnitude_order(fields(a), fields(b));
    lemma_magnitude_order(fields(b), fields(a));
}

/// Whether `a` encodes a smaller number than `b`.
pub fn less(a: u32, b: u32) -> (r: bool)
    ensures
        r == below(a, b),
{
    let m: u32 = if a < SIGN { a } else { a - SIGN };
    let n: u32 = if b < SIGN { b } else { b - SIGN };
    proof {
        lemma_magnitude_order(m as int, n as int);
        lemma_magnitude_order(n as int, m as int);
    }
    if m > INFINITY || n > INFINITY {
        false
    } else if a < SIGN {
        b < SIGN && m < n
    } else if b < SIGN {
        m != 0 || n != 0
    } else {
        n < m
    }
}

/// The word of the absolute value.
pub fn abs(w: u32) -> (r: u32)
    ensures
        r == absolute(w),
{
    if w < SIGN {
        w
    } else {
        w - SIGN
    }
}

/// A number below another lies above minus infinity's place, and one above another
/// below infinity's: the infinities come first and last.
pub(crate) proof fn lemma_infinity_is_last(x: u32, low: u32, high: u32)
    ensures
        below(x, low) ==> below(0xff80_0000, low),
        below(high, x) ==> below(high, INFINITY),
{
    if below(x, low) {
        lemma_magnitude_order(fields(x), INFINITY as int);
        lemma_magnitude_order(INFINITY as int, fields(x));
        lemma_magnitude_order(fields(low), INFINITY as int);
        lemma_magnitude_order(INFINITY as int, fields(low));
    }
    if below(high, x) {
        lemma_magnitude_order(fields(x), INFINITY as int);
        lemma_magnitude_order(INFINITY as int, fields(x));
        lemma_magnitude_order(fields(high), INFINITY as int);
        lemma_magnitude_order(INFINITY as int, fields(high));
    }
}

/// The smaller of what `w` encodes and the number that `cap` encodes; if `w` encodes
/// no number, the latter.
pub fn at_most(w: u32, cap: u32) -> (r: u32)
    requires
        !is_nan(cap),
    ensures
        r == (if below(w, cap) { w } else { cap }),
{
    if less(w, cap) {
        w
    } else {
        cap
    }
}

/// The order of two numbers can be read off their bits: numbers without the sign bit
/// follow their words, numbers with it go against them, and the latter come first.
/// The two zeros are not apart, and the words beyond infinity are in no order.
pub proof fn law_order_follows_the_bits(a: u32, b: u32)
    ensures
        a < 0x8000_0000 && b < 0x8000_0000 ==> (below(a, b) <==> a < b && b <= 0x7f80_0000),
        a >= 0x8000_0000 && b >= 0x8000_0000 ==> (below(a, b) <==> b < a && a <= 0xff80_0000),
        a >= 0x8000_0000 && b < 0x8000_0000 ==> (below(a, b) <==> a <= 0xff80_0000 && b <= 0x7f80_0000
            && !(a == 0x8000_0000 && b == 0)),
        a < 0x8000_0000 && b >= 0x8000_0000 ==> !below(a, b),
{
    lemma_magnitude_order(fields(a), fields(b));
    lemma_magnitude_order(fields(b), fields(a));
}

/// The magnitudes start at zero and go up by one until they have 24 digits, and 24
/// digits farther up, at the next exponent, each is twice as large.
pub proof fn law_magnitude_doubles(m: int)
    requires
        0 <= m,
    ensures
        magnitude(0) == 0,
        m < 0x100_0000 ==> magnitude(m + 1) == magnitude(m) + 1,
        m >= 0x80_0000 ==> magnitude(m + 0x80_0000) == 2 * magnitude(m),
{
    vstd::arithmetic::power2::lemma2_to64();
    if m >= 0x80_0000 {
        let e = m / 0x80_0000;
        let f = m % 0x80_0000;
        assert((m + 0x80_0000) / 0x80_0000 == e + 1 && (m + 0x80_0000) % 0x80_0000 == f);
        vstd::arithmetic::power2::lemma_pow2_unfold(e as nat);
        let p = pow2((e - 1) as nat) as int;
        assert((0x80_0000 + f) * (2 * p) == 2 * ((0x80_0000 + f) * p)) by (nonlinear_arith);
    }
    if m < 0x100_0000 {
        lemma_small_magnitude(m);
        lemma_small_magnitude(m + 1);
    }
}

/// Magnitudes of at most 24 digits are their own fields.
proof fn lemma_small_magnitude(m: int)
    requires
        0 <= m <= 0x100_0000,
    ensures
        magnitude(m) == m,
{
    vstd::arithmetic::power2::lemma2_to64();
    let e = m / 0x80_0000;
    let f = m % 0x80_0000;
    if e == 1 {
        assert((0x80_0000 + f) * pow2(0) == 0x80_0000 + f) by (nonlinear_arith)
            requires
                pow2(0) == 1,
        ;
    } else if e == 2 {
        assert(f == 0);
    }
}

/// The sign bit turns a number into its negative, makes nothing a number that is none,
/// and is what the absolute value lacks.
pub proof fn law_sign_bit_negates(w: u32)
    requires
        w < 0x8000_0000,
    ensures
        value(w) == magnitude(w as int),
        value((w + 0x8000_0000) as u32) == -magnitude(w as int),
        is_nan(w) <==> w > 0x7f80_0000,
        is_nan((w + 0x8000_0000) as u32) <==> w > 0x7f80_0000,
        absolute(w) == w,
        absolute((w + 0x8000_0000) as u32) == w,
{
}

} // verus!
