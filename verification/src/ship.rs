//! Over which segment the ship is.
//!
//! The place of the ship is divided by the length of a segment in single precision
//! and rounded down. Here that is done on the word of the place: a single-precision
//! number is an integer in units of `2^-149`, and so is its third, once it is
//! rounded.

use vstd::arithmetic::power2::{lemma2_to64, lemma_pow2_adds, lemma_pow2_pos, lemma_pow2_unfold, pow2};
use vstd::prelude::*;

use crate::rounding::{lemma_nearest, lemma_spacing, lemma_spacing_bounds, lemma_spacing_power, spacing};
use crate::words::{
    fields, is_nan, law_magnitude_is_increasing, magnitude, value, INFINITY, ONE, SIGN,
};

verus! {

/// The single-precision number that is nearest to a third of `x`; of two that are
/// equally near, the one with the even last digit. All in units of `2^-149`.
pub open spec fn third(x: int) -> int {
    let q = spacing(x / 3);
    let k = x / (3 * q);
    let r = x % (3 * q);
    if 2 * r < 3 * q || (2 * r == 3 * q && k % 2 == 0) {
        k * q
    } else {
        (k + 1) * q
    }
}

/// `n`, or the nearest end of the range of a 64-bit integer.
pub open spec fn saturated(n: int) -> int {
    if n < i64::MIN {
        i64::MIN as int
    } else if n > i64::MAX {
        i64::MAX as int
    } else {
        n
    }
}

/// The segment below the place that `w` encodes.
pub open spec fn segment_below(w: u32) -> int {
    let t = third(magnitude(fields(w)));
    if is_nan(w) {
        0
    } else {
        saturated((if w < SIGN { t } else { -t }) / (pow2(149) as int))
    }
}

/// A common factor of the two numbers does not change a quotient, and comes out of
/// the remainder.
proof fn lemma_common_factor(a: int, b: int, p: int)
    requires
        b > 0,
        p > 0,
    ensures
        b * p > 0,
        (a * p) / (b * p) == a / b,
        (a * p) % (b * p) == (a % b) * p,
{
    let q = a / b;
    let r = a % b;
    assert(b * p > 0) by (nonlinear_arith)
        requires
            b > 0,
            p > 0,
    ;
    assert(a == b * q + r && 0 <= r < b) by (nonlinear_arith)
        requires
            q == a / b,
            r == a % b,
            b > 0,
    ;
    assert(a * p == (b * p) * q + r * p && 0 <= r * p < b * p) by (nonlinear_arith)
        requires
            a == b * q + r,
            0 <= r < b,
            p > 0,
    ;
    vstd::arithmetic::div_mod::lemma_fundamental_div_mod_converse(a * p, b * p, q, r * p);
}

/// The digits of a third: `s` has 24 digits, and `k` are the digits of the third of
/// `2^c * s`.
proof fn lemma_third(s: int, t: nat, c: nat, k: int)
    requires
        c <= t,
        3 * 0x80_0000 <= s * pow2(c) < 3 * 0x100_0000,
        ({
            let n = s * pow2(c);
            k == (if 2 * (n % 3) < 3 || (2 * (n % 3) == 3 && (n / 3) % 2 == 0) {
                n / 3
            } else {
                n / 3 + 1
            })
        }),
    ensures
        third(s * pow2(t)) == k * pow2((t - c) as nat),
{
    let n = s * pow2(c);
    let p = pow2((t - c) as nat) as int;
    lemma_pow2_pos((t - c) as nat);
    lemma_pow2_adds(c, (t - c) as nat);
    let x = s * pow2(t);
    assert(x == n * p) by (nonlinear_arith)
        requires
            x == s * pow2(t),
            pow2(t) == pow2(c) * p,
            n == s * pow2(c),
    ;
    assert(0x80_0000 * p <= x / 3 < 0x100_0000 * p) by {
        assert(3 * (0x80_0000 * p) <= x && x < 3 * (0x100_0000 * p)) by (nonlinear_arith)
            requires
                x == n * p,
                3 * 0x80_0000 <= n < 3 * 0x100_0000,
                p > 0,
        ;
    }
    lemma_spacing(x / 3, (t - c) as nat);
    lemma_common_factor(n, 3, p);
    let r = n % 3;
    assert(x / (3 * p) == n / 3);
    assert(x % (3 * p) == r * p);
    assert(2 * (r * p) < 3 * p <==> 2 * r < 3) by (nonlinear_arith)
        requires
            p > 0,
    ;
    assert(2 * (r * p) == 3 * p <==> 2 * r == 3) by (nonlinear_arith)
        requires
            p > 0,
    ;
}

/// A third is between a quarter and the whole.
proof fn lemma_third_bounds(x: int)
    requires
        0 <= x,
    ensures
        third(x) <= x,
        x >= 2 ==> third(x) >= 1,
        x < 2 ==> third(x) == 0,
        x >= 0x400_0000 ==> 4 * third(x) >= x,
{
    let y = x / 3;
    lemma_spacing_bounds(y);
    let q = spacing(y);
    let k = x / (3 * q);
    let r = x % (3 * q);
    vstd::arithmetic::div_mod::lemma_fundamental_div_mod(x, 3 * q);
    vstd::arithmetic::div_mod::lemma_div_pos_is_pos(x, 3 * q);
    assert(x == 3 * (k * q) + r && 0 <= r < 3 * q && (k + 1) * q == k * q + q && 0 <= k * q) by (nonlinear_arith)
        requires
            x == (3 * q) * k + r,
            r == x % (3 * q),
            1 <= q,
            0 <= k,
    ;
}

/// The power of two with exponent `n`.
fn two_to(n: u32) -> (r: u128)
    requires
        n <= 64,
    ensures
        r == pow2(n as nat),
        1 <= r <= 0x1_0000_0000_0000_0000,
{
    let mut r: u128 = 1;
    let mut i: u32 = 0;
    proof {
        lemma2_to64();
    }
    while i < n
        invariant
            i <= n <= 64,
            r == pow2(i as nat),
            pow2(64) == 0x1_0000_0000_0000_0000,
        decreases n - i,
    {
        proof {
            lemma_pow2_unfold((i + 1) as nat);
            if i + 1 < 64 {
                vstd::arithmetic::power2::lemma_pow2_strictly_increases((i + 1) as nat, 64);
            }
        }
        r = r * 2;
        i = i + 1;
    }
    proof {
        lemma_pow2_pos(n as nat);
        if n < 64 {
            vstd::arithmetic::power2::lemma_pow2_strictly_increases(n as nat, 64);
        }
    }
    r
}

/// Rounding up is rounding down on the other side of zero.
proof fn lemma_round_up(k: int, d: int)
    requires
        0 <= k,
        0 < d,
    ensures
        (-k) / d == -((k + d - 1) / d),
{
    let u = k + d - 1;
    let a = u / d;
    let r = u % d;
    assert(u == d * a + r && 0 <= r < d) by (nonlinear_arith)
        requires
            a == u / d,
            r == u % d,
            0 < d,
    ;
    assert(-k == (-a) * d + (d - 1 - r)) by (nonlinear_arith)
        requires
            u == d * a + r,
            u == k + d - 1,
    ;
    vstd::arithmetic::div_mod::lemma_fundamental_div_mod_converse(-k, d, -a, d - 1 - r);
}

/// The segment that the ship is over, from the word of its place along the cave in
/// metres. A place beyond the range of the segments counts as the end of the range,
/// and what is no number as the start of the cave.
pub fn ship_segment(cam_x: u32) -> (r: i64)
    ensures
        r == segment_below(cam_x),
{
    let m: u32 = if cam_x < SIGN { cam_x } else { cam_x - SIGN };
    let negative: bool = cam_x >= SIGN;
    if m > INFINITY {
        return 0;
    }
    let ghost x = magnitude(m as int);
    proof {
        lemma2_to64();
        lemma_pow2_pos(149);
        if m > 0 {
            law_magnitude_is_increasing(0, m as int);
        }
        lemma_third_bounds(x);
    }
    if m < ONE {
        proof {
            assert(x < pow2(149)) by {
                law_magnitude_is_increasing(m as int, ONE as int);
                lemma_pow2_adds(23, 126);
            }
            assert(m >= 2 <==> x >= 2) by {
                assert(magnitude(2) == 2 && magnitude(1) == 1 && magnitude(0) == 0);
                if m > 2 {
                    law_magnitude_is_increasing(2, m as int);
                }
            }
            lemma_near_zero(third(x), pow2(149) as int);
        }
        return if negative && m >= 2 { -1 } else { 0 };
    }
    let e: u32 = m / 0x80_0000;
    let s: u32 = 0x80_0000 + m % 0x80_0000;
    let t: u32 = e - 1;
    assert(x == s * pow2(t as nat));
    if t >= 191 {
        proof {
            lemma_far(x, s as int, t as nat);
            lemma_far_segment(third(x));
        }
        return if negative { i64::MIN } else { i64::MAX };
    }
    let c: u32 = if s >= 3 * 0x40_0000 { 1 } else { 2 };
    let n: u32 = if s >= 3 * 0x40_0000 { 2 * s } else { 4 * s };
    let k: u32 = if n % 3 == 2 { n / 3 + 1 } else { n / 3 };
    let j: u32 = t - c;
    proof {
        assert(n == s * pow2(c as nat));
        lemma_third(s as int, t as nat, c as nat, k as int);
        lemma_pow2_pos(j as nat);
    }
    let v: u128;
    if j >= 149 {
        let d: u128 = two_to(j - 149);
        assert(k * d <= 0x200_0000 * 0x1_0000_0000_0000_0000) by (nonlinear_arith)
            requires
                0 <= k <= 0x200_0000,
                0 <= d <= 0x1_0000_0000_0000_0000,
        ;
        v = k as u128 * d;
        proof {
            let p = pow2(149) as int;
            lemma_pow2_adds((j - 149) as nat, 149);
            assert(third(x) == v * p) by (nonlinear_arith)
                requires
                    third(x) == k * pow2(j as nat),
                    pow2(j as nat) == d * p,
                    v == k * d,
            ;
            assert(-third(x) == (-v) * p) by (nonlinear_arith)
                requires
                    third(x) == v * p,
            ;
            lemma_common_factor(v as int, 1, p);
            lemma_common_factor(-(v as int), 1, p);
        }
    } else {
        let d: u128 = two_to(149 - j);
        proof {
            let p = pow2(j as nat) as int;
            lemma_pow2_adds((149 - j) as nat, j as nat);
            assert(-third(x) == (-k) * p) by (nonlinear_arith)
                requires
                    third(x) == k * p,
            ;
            lemma_common_factor(k as int, d as int, p);
            lemma_common_factor(-(k as int), d as int, p);
            lemma_round_up(k as int, d as int);
        }
        if negative {
            v = (k as u128 + d - 1) / d;
        } else {
            v = k as u128 / d;
        }
    }
    assert((if negative { -third(x) } else { third(x) }) / (pow2(149) as int) == (if negative { -(v as int) } else { v as int }));
    if negative {
        if v > 0x8000_0000_0000_0000 {
            i64::MIN
        } else {
            (-(v as i128)) as i64
        }
    } else if v > 0x7fff_ffff_ffff_ffff {
        i64::MAX
    } else {
        v as i64
    }
}

/// What is less than the unit rounds down to nothing, and below zero to minus one.
proof fn lemma_near_zero(t: int, p: int)
    requires
        0 <= t < p,
    ensures
        t / p == 0,
        (-t) / p == (if t == 0 { 0int } else { -1int }),
{
    vstd::arithmetic::div_mod::lemma_fundamental_div_mod_converse(t, p, 0, t);
    if t == 0 {
        vstd::arithmetic::div_mod::lemma_fundamental_div_mod_converse(0, p, 0, 0);
    } else {
        vstd::arithmetic::div_mod::lemma_fundamental_div_mod_converse(-t, p, -1, p - t);
    }
}

/// A number with an exponent of at least 191 is far out.
proof fn lemma_far(x: int, s: int, t: nat)
    requires
        x == s * pow2(t),
        s >= 0x80_0000,
        t >= 191,
    ensures
        x >= 4 * (0x8000_0000_0000_0000 * pow2(149)),
        x >= 0x400_0000,
{
    lemma2_to64();
    lemma_pow2_pos(149);
    lemma_pow2_adds(42, 149);
    lemma_pow2_adds(32, 10);
    if t > 191 {
        vstd::arithmetic::power2::lemma_pow2_strictly_increases(191, t);
    }
    assert(pow2(42) == 0x400_0000_0000);
    let p = pow2(149) as int;
    let y = pow2(t) as int;
    assert(x >= 4 * (0x8000_0000_0000_0000 * p) && x >= 0x400_0000) by (nonlinear_arith)
        requires
            x == s * y,
            s >= 0x80_0000,
            y >= 0x400_0000_0000 * p,
            p >= 1,
    ;
}

/// What is far out lies beyond the range of the segments.
proof fn lemma_far_segment(t: int)
    requires
        t >= 0x8000_0000_0000_0000 * pow2(149),
    ensures
        t / (pow2(149) as int) >= 0x8000_0000_0000_0000,
        (-t) / (pow2(149) as int) <= -0x8000_0000_0000_0000,
{
    let p = pow2(149) as int;
    lemma_pow2_pos(149);
    let q = t / p;
    let r = t % p;
    vstd::arithmetic::div_mod::lemma_fundamental_div_mod(t, p);
    assert(q >= 0x8000_0000_0000_0000) by (nonlinear_arith)
        requires
            t == p * q + r,
            0 <= r < p,
            t >= 0x8000_0000_0000_0000 * p,
    ;
    let a = (-t) / p;
    let b = (-t) % p;
    vstd::arithmetic::div_mod::lemma_fundamental_div_mod(-t, p);
    assert(a <= -0x8000_0000_0000_0000) by (nonlinear_arith)
        requires
            -t == p * a + b,
            0 <= b < p,
            t >= 0x8000_0000_0000_0000 * p,
    ;
}

/// The quotient of a number that is within one of a third of `2 * b`.
proof fn lemma_quotient(k: int, b: int, a: int)
    requires
        -1 <= 3 * k - 2 * b <= 1,
        a >= 1,
    ensures
        3 * (k / (2 * a)) * a <= b < 3 * (k / (2 * a) + 1) * a,
{
    let n = k / (2 * a);
    let r = k % (2 * a);
    vstd::arithmetic::div_mod::lemma_fundamental_div_mod(k, 2 * a);
    assert(3 * n * a <= b && b < 3 * (n + 1) * a) by (nonlinear_arith)
        requires
            k == (2 * a) * n + r,
            0 <= r < 2 * a,
            -1 <= 3 * k - 2 * b <= 1,
            a >= 1,
    ;
}

/// The ship is over the segment that it is said to be over: its place is between the
/// ends of that segment.
///
/// The place is less than `3 * 2^23` metres from the start. Farther out the quotient
/// is rounded to whole segments; and the one number that is nearest to zero from
/// below has zero for its third.
pub proof fn law_ship_is_over_its_segment(w: u32)
    requires
        fields(w) < 0x4bc0_0000,
        w != 0x8000_0001,
    ensures
        3 * segment_below(w) * pow2(149) <= value(w) < 3 * (segment_below(w) + 1) * pow2(149),
{
    let m = fields(w);
    let x = magnitude(m);
    let p = pow2(149) as int;
    lemma2_to64();
    lemma_pow2_pos(149);
    if m > 0 {
        law_magnitude_is_increasing(0, m);
    }
    lemma_third_bounds(x);
    if m < ONE {
        assert(x < p) by {
            law_magnitude_is_increasing(m, ONE as int);
            lemma_pow2_adds(23, 126);
        }
        assert(m >= 2 ==> x >= 2) by {
            if m > 2 {
                law_magnitude_is_increasing(2, m);
            }
        }
        lemma_near_zero(third(x), p);
        let seg = segment_below(w);
        assert(seg == (if w < SIGN || x == 0 { 0int } else { -1int }));
        assert(3 * seg * p == (if seg == 0 { 0 } else { -3 * p }) && 3 * (seg + 1) * p == (if seg == 0 {
            3 * p
        } else {
            0
        })) by (nonlinear_arith)
            requires
                seg == 0 || seg == -1,
        ;
    } else {
        let s = 0x80_0000 + m % 0x80_0000;
        let t = m / 0x80_0000 - 1;
        let c: int = if s >= 3 * 0x40_0000 {
            1
        } else {
            2
        };
        let h: int = if s >= 3 * 0x40_0000 {
            s
        } else {
            2 * s
        };
        let n = 2 * h;
        let k = if n % 3 == 2 {
            n / 3 + 1
        } else {
            n / 3
        };
        assert(n == s * pow2(c as nat)) by {
            let y = pow2(c as nat) as int;
            assert(y == 2 * c);
            assert(s * y == n) by (nonlinear_arith)
                requires
                    y == 2 * c,
                    c == 1 && n == 2 * s || c == 2 && n == 4 * s,
            ;
        }
        assert(126 <= t <= 150 && (t == 150 ==> c == 2));
        lemma_third(s, t as nat, c as nat, k);
        let q = pow2((t - c) as nat) as int;
        let e = (148 - t + c) as nat;
        let a = pow2(e) as int;
        lemma_pow2_pos((t - c) as nat);
        lemma_pow2_pos(e);
        lemma_pow2_adds(e, (t - c) as nat);
        lemma_pow2_unfold(149);
        assert(p == (2 * a) * q) by (nonlinear_arith)
            requires
                p == 2 * pow2(148),
                pow2(148) == a * q,
        ;
        lemma_pow2_adds(c as nat, (t - c) as nat);
        assert(x == h * (2 * q)) by (nonlinear_arith)
            requires
                x == s * pow2(t as nat),
                pow2(t as nat) == pow2(c as nat) * q,
                s * pow2(c as nat) == 2 * h,
        ;
        let sign: int = if w < SIGN {
            1
        } else {
            -1
        };
        let l = if w < SIGN {
            k
        } else {
            -k
        };
        let b = if w < SIGN {
            h
        } else {
            -h
        };
        assert(l == sign * k && b == sign * h) by (nonlinear_arith)
            requires
                sign == 1 && l == k && b == h || sign == -1 && l == -k && b == -h,
        ;
        assert((if w < SIGN { third(x) } else { -third(x) }) == l * q) by (nonlinear_arith)
            requires
                third(x) == k * q,
                l == sign * k,
                sign == (if w < SIGN { 1int } else { -1int }),
        ;
        lemma_common_factor(l, 2 * a, q);
        lemma_quotient(l, b, a);
        let seg = l / (2 * a);
        assert(-0x1000_0000 <= seg <= 0x1000_0000) by (nonlinear_arith)
            requires
                seg == l / (2 * a),
                a >= 1,
                -0x1000_0000 <= l <= 0x1000_0000,
        ;
        assert(segment_below(w) == seg);
        assert(value(w) == b * (2 * q)) by (nonlinear_arith)
            requires
                x == h * (2 * q),
                b == sign * h,
                value(w) == sign * x,
        ;
        assert(3 * seg * p <= value(w) && value(w) < 3 * (seg + 1) * p) by (nonlinear_arith)
            requires
                p == (2 * a) * q,
                value(w) == b * (2 * q),
                3 * seg * a <= b,
                b < 3 * (seg + 1) * a,
                q > 0,
        ;
    }
}

/// Of the numbers of at most 24 digits, none is nearer to a third of `x` than the one
/// that is taken for it; and if one is as near, the last digit of the third is even.
pub proof fn law_third_is_nearest(x: int, k: int, j: nat)
    requires
        0 <= x,
        0 <= k <= 0x100_0000,
    ensures
        ({
            let v = 3 * (k * pow2(j));
            let t = 3 * third(x);
            let near = if t >= x {
                t - x
            } else {
                x - t
            };
            let far = if v >= x {
                v - x
            } else {
                x - v
            };
            near <= far && (near == far && v != t ==> third(x) % (2 * spacing(x / 3)) == 0)
        }),
{
    let i = lemma_spacing_power(x / 3);
    lemma_pow2_pos(i);
    lemma_nearest(x, 3, i, k, j);
    let q = pow2(i) as int;
    let n = x / (3 * q);
    let r = x % (3 * q);
    let l = if 2 * r < 3 * q || (2 * r == 3 * q && n % 2 == 0) {
        n
    } else {
        n + 1
    };
    if l % 2 == 0 {
        let y = l / 2;
        assert(l * q == y * (2 * q)) by (nonlinear_arith)
            requires
                l == 2 * y,
        ;
        vstd::arithmetic::div_mod::lemma_mod_multiples_basic(y, 2 * q);
    }
}

/// A third has at most 24 digits: the first part of the result gives them, the second
/// how many zeros follow.
pub proof fn law_third_has_few_digits(x: int) -> (r: (int, nat))
    requires
        0 <= x,
    ensures
        0 <= r.0 <= 0x100_0000,
        third(x) == r.0 * pow2(r.1),
{
    let i = lemma_spacing_power(x / 3);
    lemma_pow2_pos(i);
    let q = pow2(i) as int;
    let k = x / (3 * q);
    vstd::arithmetic::div_mod::lemma_fundamental_div_mod(x, 3 * q);
    assert(0 <= k < 0x100_0000) by (nonlinear_arith)
        requires
            x == (3 * q) * k + x % (3 * q),
            0 <= x % (3 * q) < 3 * q,
            0 <= x < 3 * (0x100_0000 * q),
    ;
    (
        if third(x) == k * q {
            k
        } else {
            k + 1
        },
        i,
    )
}

/// The segment is the greatest integer that is at most a third of the place, or the
/// nearest end of the range of a 64-bit integer; what is no number counts as zero.
pub proof fn law_segment_is_the_floor(w: u32)
    ensures
        is_nan(w) ==> segment_below(w) == 0,
        !is_nan(w) ==> ({
            let s = segment_below(w);
            let t = third(magnitude(fields(w)));
            let y = if w < 0x8000_0000 {
                t
            } else {
                -t
            };
            &&& -0x8000_0000_0000_0000 <= s <= 0x7fff_ffff_ffff_ffff
            &&& s > -0x8000_0000_0000_0000 ==> s * pow2(149) <= y
            &&& s < 0x7fff_ffff_ffff_ffff ==> y < (s + 1) * pow2(149)
        }),
{
    let t = third(magnitude(fields(w)));
    let y = if w < 0x8000_0000 {
        t
    } else {
        -t
    };
    let p = pow2(149) as int;
    lemma_pow2_pos(149);
    let n = y / p;
    vstd::arithmetic::div_mod::lemma_fundamental_div_mod(y, p);
    let s = saturated(n);
    assert(n * p <= y < (n + 1) * p) by (nonlinear_arith)
        requires
            y == p * n + y % p,
            0 <= y % p < p,
    ;
    assert((s <= n ==> s * p <= n * p) && (n <= s ==> (n + 1) * p <= (s + 1) * p)) by (nonlinear_arith)
        requires
            p >= 1,
    ;
}

} // verus!
