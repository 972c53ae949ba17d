//! Integers in single precision.
//!
//! A single-precision number has 24 significant bits. Where all numbers of a
//! computation are multiples of one power of two, its steps are exact integer
//! arithmetic, each followed by a rounding to 24 significant bits, to the even
//! neighbour where both are equally near.

use vstd::arithmetic::power2::{lemma2_to64, lemma_pow2_adds, lemma_pow2_pos, lemma_pow2_unfold, pow2};
use vstd::prelude::*;

use crate::words::{is_nan, law_number_has_one_word, magnitude, value, SIGN};

verus! {

/// The least number that takes more than 24 significant bits.
pub const PRECISION: u128 = 0x100_0000;

/// The distance between neighbouring single-precision numbers around the integer
/// `n`, where that distance is at least 1.
pub open spec fn spacing(n: int) -> int
    decreases n,
{
    if n < PRECISION {
        1
    } else {
        2 * spacing(n / 2)
    }
}

/// The multiple of `q` that is nearest to `n`; of two that are equally near, the
/// even multiple.
pub open spec fn nearest_multiple(n: int, q: int) -> int {
    let k = n / q;
    let r = n % q;
    if 2 * r < q || (2 * r == q && k % 2 == 0) {
        k * q
    } else {
        (k + 1) * q
    }
}

/// The integer `n`, rounded to single precision.
pub open spec fn single(n: int) -> int {
    if n >= 0 {
        nearest_multiple(n, spacing(n))
    } else {
        -nearest_multiple(-n, spacing(-n))
    }
}

/// Whether `w` is the word of the number `n`, given in units of `2^-24`.
pub open spec fn encodes(w: u32, n: int) -> bool {
    &&& !is_nan(w)
    &&& value(w) == n * pow2(125)
    &&& n == 0 ==> w == 0
}

/// A number has one word.
pub(crate) proof fn lemma_one_word(a: u32, b: u32, n: int)
    requires
        encodes(a, n),
        encodes(b, n),
    ensures
        a == b,
{
    if n != 0 {
        lemma_pow2_pos(125);
        let p = pow2(125) as int;
        assert(n * p != 0) by (nonlinear_arith)
            requires
                n != 0,
                p > 0,
        ;
        law_number_has_one_word(a, b);
    }
}

/// Neighbours are at least 1 apart, and at most one part in `2^23`.
pub(crate) proof fn lemma_spacing_bounds(n: int)
    requires
        0 <= n,
    ensures
        1 <= spacing(n),
        spacing(n) == 1 || spacing(n) <= n / 0x80_0000,
    decreases n,
{
    if n >= PRECISION {
        lemma_spacing_bounds(n / 2);
    }
}

/// Rounding moves a number by at most half the distance between neighbours.
pub(crate) proof fn lemma_nearest_multiple_error(n: int, q: int)
    requires
        0 <= n,
        1 <= q,
    ensures
        0 <= nearest_multiple(n, q),
        -q <= 2 * (nearest_multiple(n, q) - n) <= q,
{
    let k = n / q;
    let r = n % q;
    vstd::arithmetic::div_mod::lemma_fundamental_div_mod(n, q);
    vstd::arithmetic::div_mod::lemma_div_pos_is_pos(n, q);
    assert(n == k * q + r && 0 <= r < q && (k + 1) * q == k * q + q && 0 <= k * q) by (nonlinear_arith)
        requires
            n == q * k + r,
            r == n % q,
            1 <= q,
            0 <= k,
    ;
}

/// Rounding keeps the sign and moves a number by at most one part in `2^24`.
pub(crate) proof fn lemma_single_bounds(n: int)
    ensures
        n >= 0 ==> 0 <= single(n) <= n + n / 0x100_0000,
        n <= 0 ==> n - (-n) / 0x100_0000 <= single(n) <= 0,
{
    let m = if n >= 0 { n } else { -n };
    lemma_spacing_bounds(m);
    lemma_nearest_multiple_error(m, spacing(m));
    if m < PRECISION {
        lemma_exact(m);
    }
}

/// Integers below `2^24` are not rounded.
pub(crate) proof fn lemma_exact(n: int)
    requires
        0 <= n < PRECISION,
    ensures
        nearest_multiple(n, spacing(n)) == n,
{
    assert(n / 1 == n && n % 1 == 0);
}

/// Rounds the magnitude `n` to single precision.
fn round_magnitude(n: u128) -> (r: u128)
    requires
        n <= 0x1_0000_0000_0000_0000_0000_0000,
    ensures
        r == nearest_multiple(n as int, spacing(n as int)),
{
    let mut m: u128 = n;
    let mut q: u128 = 1;
    while m >= PRECISION
        invariant
            n <= 0x1_0000_0000_0000_0000_0000_0000,
            1 <= q,
            q * m <= n,
            spacing(n as int) == q * spacing(m as int),
        decreases m,
    {
        assert(q <= n) by (nonlinear_arith)
            requires
                q * m <= n,
                m >= 1,
        ;
        assert((2 * q) * (m / 2) <= q * m) by (nonlinear_arith)
            requires
                1 <= q,
        ;
        assert(q * (2 * spacing(m as int / 2)) == (q * 2) * spacing(m as int / 2)) by (nonlinear_arith);
        m = m / 2;
        q = q * 2;
    }
    let k: u128 = n / q;
    let r: u128 = n % q;
    proof {
        vstd::arithmetic::div_mod::lemma_fundamental_div_mod(n as int, q as int);
        assert(q <= n + 1) by {
            lemma_spacing_bounds(n as int);
        }
        assert(k * q <= n && (k + 1) * q == k * q + q) by (nonlinear_arith)
            requires
                n == q * k + r,
        ;
    }
    if 2 * r < q || (2 * r == q && k % 2 == 0) {
        k * q
    } else {
        (k + 1) * q
    }
}

/// Rounds an integer to single precision.
pub(crate) fn to_single(n: i128) -> (r: i128)
    requires
        -0x1_0000_0000_0000_0000_0000_0000 <= n <= 0x1_0000_0000_0000_0000_0000_0000,
    ensures
        r == single(n as int),
        n >= 0 ==> 0 <= r <= n + n as int / 0x100_0000,
        n <= 0 ==> n - (-n) / 0x100_0000 <= r <= 0,
{
    proof {
        lemma_single_bounds(n as int);
    }
    if n >= 0 {
        round_magnitude(n as u128) as i128
    } else {
        -(round_magnitude((-n) as u128) as i128)
    }
}

/// Rounding moves a number below `2^27` by at most 4, one below `2^26` by at most 2,
/// and one below `2^25` by at most 1.
pub(crate) proof fn lemma_single_error(n: int)
    requires
        -0x800_0000 < n < 0x800_0000,
    ensures
        -4 <= single(n) - n <= 4,
        -0x400_0000 < n < 0x400_0000 ==> -2 <= single(n) - n <= 2,
        -0x200_0000 < n < 0x200_0000 ==> -1 <= single(n) - n <= 1,
{
    let m = if n >= 0 { n } else { -n };
    reveal_with_fuel(spacing, 4);
    assert(spacing(m) <= 8);
    assert(m < 0x400_0000 ==> spacing(m) <= 4);
    assert(m < 0x200_0000 ==> spacing(m) <= 2);
    lemma_spacing_bounds(m);
    lemma_nearest_multiple_error(m, spacing(m));
}

/// The neighbours of a number with 24 digits before the `j` last ones are `2^j`
/// apart.
pub(crate) proof fn lemma_spacing(n: int, j: nat)
    requires
        0x80_0000 * pow2(j) <= n < 0x100_0000 * pow2(j),
    ensures
        spacing(n) == pow2(j),
    decreases j,
{
    lemma_pow2_pos(j);
    if j == 0 {
        lemma2_to64();
    } else {
        lemma_pow2_unfold(j);
        let p = pow2((j - 1) as nat) as int;
        lemma_pow2_pos((j - 1) as nat);
        assert(n >= 0x100_0000);
        assert(0x80_0000 * p <= n / 2 < 0x100_0000 * p);
        lemma_spacing(n / 2, (j - 1) as nat);
    }
}

/// The distance between neighbours is a power of two, and the number has 24 digits
/// before it, or fewer where the distance is 1.
pub(crate) proof fn lemma_spacing_power(n: int) -> (j: nat)
    requires
        0 <= n,
    ensures
        spacing(n) == pow2(j),
        n < 0x100_0000 * pow2(j),
        j > 0 ==> 0x80_0000 * pow2(j) <= n,
    decreases n,
{
    lemma2_to64();
    if n < PRECISION {
        0
    } else {
        let i = lemma_spacing_power(n / 2);
        lemma_pow2_unfold((i + 1) as nat);
        (i + 1) as nat
    }
}

/// A rounded number is a multiple of the distance between its neighbours.
pub(crate) proof fn lemma_rounded(n: int)
    requires
        0 <= n,
    ensures
        0 <= nearest_multiple(n, spacing(n)),
        nearest_multiple(n, spacing(n)) % spacing(nearest_multiple(n, spacing(n))) == 0,
{
    let j = lemma_spacing_power(n);
    let q = spacing(n);
    let r = nearest_multiple(n, q);
    lemma_pow2_pos(j);
    lemma_nearest_multiple_error(n, q);
    let k = n / q;
    let l = if r == k * q {
        k
    } else {
        k + 1
    };
    vstd::arithmetic::div_mod::lemma_fundamental_div_mod(n, q);
    assert(0 <= k < 0x100_0000 && (j > 0 ==> 0x80_0000 <= k)) by (nonlinear_arith)
        requires
            n == q * k + n % q,
            0 <= n % q < q,
            0 <= n < 0x100_0000 * q,
            j > 0 ==> 0x80_0000 * q <= n,
    ;
    assert(r == l * q);
    if l == 0x100_0000 {
        lemma_pow2_unfold((j + 1) as nat);
        lemma_spacing(r, (j + 1) as nat);
        assert(r == 0x80_0000 * (2 * q));
        vstd::arithmetic::div_mod::lemma_mod_multiples_basic(0x80_0000, 2 * q);
    } else {
        if j == 0 {
            lemma2_to64();
            assert(r < PRECISION) by (nonlinear_arith)
                requires
                    r == l * q,
                    q == 1,
                    l < 0x100_0000,
            ;
        } else {
            assert(0x80_0000 * q <= r < 0x100_0000 * q) by (nonlinear_arith)
                requires
                    r == l * q,
                    0x80_0000 <= l < 0x100_0000,
                    q >= 1,
            ;
            lemma_spacing(r, j);
        }
        vstd::arithmetic::div_mod::lemma_mod_multiples_basic(l, q);
    }
}

/// The word of a positive number of at most 24 digits, given in units of `2^-24`.
fn encode_magnitude(n: u128) -> (r: u32)
    requires
        0 < n < 0x1_0000_0000_0000_0000_0000_0000_0000,
        n as int % spacing(n as int) == 0,
    ensures
        r < 0x7f80_0000,
        magnitude(r as int) == n * pow2(125),
{
    // The number is `m * 2^(e - 23)` here.
    let mut m: u128 = n;
    let mut e: u32 = 23;
    proof {
        lemma2_to64();
        assert(m * pow2(0) == m) by (nonlinear_arith)
            requires
                pow2(0) == 1,
        ;
    }
    while m >= PRECISION
        invariant
            n < 0x1_0000_0000_0000_0000_0000_0000_0000,
            0 < m,
            23 <= e < 135,
            m as int % spacing(m as int) == 0,
            m * pow2((e - 23) as nat) == n,
        decreases m,
    {
        proof {
            let h = spacing(m as int / 2);
            lemma_spacing_bounds(m as int / 2);
            assert(m % 2 == 0 && (m as int / 2) % h == 0) by {
                let z = m as int / (2 * h);
                vstd::arithmetic::div_mod::lemma_fundamental_div_mod(m as int, 2 * h);
                assert(m == 2 * (h * z)) by (nonlinear_arith)
                    requires
                        m == (2 * h) * z,
                ;
                vstd::arithmetic::div_mod::lemma_mod_multiples_basic(z, h);
                assert(h * z == z * h) by (nonlinear_arith);
            }
            lemma_pow2_unfold((e - 22) as nat);
            let y = pow2((e - 23) as nat) as int;
            assert((m as int / 2) * (2 * y) == m * y) by (nonlinear_arith)
                requires
                    m % 2 == 0,
            ;
            lemma_exponent_bound(m as int / 2, (e - 22) as nat, n as int);
        }
        m = m / 2;
        e = e + 1;
    }
    proof {
        lemma_pow2_adds((e - 23) as nat, 125);
        let y = pow2((e - 23) as nat) as int;
        let z = pow2(125) as int;
        assert(m * (y * z) == n * z) by (nonlinear_arith)
            requires
                m * y == n,
        ;
    }
    // From here on the magnitude is `m * 2^(e + 102)` in units of `2^-149`.
    let ghost mut doublings: nat = 0;
    while m < 0x80_0000
        invariant
            0 < m < PRECISION,
            e < 135,
            e + doublings >= 23,
            pow2(doublings) <= m,
            m * pow2((e + 102) as nat) == n * pow2(125),
            pow2(23) == 0x80_0000,
        decreases e,
    {
        proof {
            if doublings >= 23 {
                if doublings > 23 {
                    vstd::arithmetic::power2::lemma_pow2_strictly_increases(23, doublings);
                }
            }
            assert(e > 0);
            lemma_pow2_unfold((e + 102) as nat);
            let y = pow2((e + 101) as nat) as int;
            assert((2 * m) * y == m * (2 * y)) by (nonlinear_arith);
            lemma_pow2_unfold((doublings + 1) as nat);
            doublings = (doublings + 1) as nat;
        }
        m = m * 2;
        e = e - 1;
    }
    let r: u32 = (e + 103) * 0x80_0000 + (m as u32 - 0x80_0000);
    proof {
        assert(r as int / 0x80_0000 == e + 103);
        assert(r as int % 0x80_0000 == m - 0x80_0000);
    }
    r
}

/// A number below `2^112` has no digit beyond that.
proof fn lemma_exponent_bound(m: int, j: nat, n: int)
    requires
        1 <= m,
        m * pow2(j) == n,
        n < 0x1_0000_0000_0000_0000_0000_0000_0000,
    ensures
        j < 112,
{
    lemma2_to64();
    lemma_pow2_adds(64, 32);
    lemma_pow2_adds(96, 16);
    assert(pow2(112) == 0x1_0000_0000_0000_0000_0000_0000_0000);
    if j >= 112 {
        if j > 112 {
            vstd::arithmetic::power2::lemma_pow2_strictly_increases(112, j);
        }
        let y = pow2(j) as int;
        assert(m * y >= y) by (nonlinear_arith)
            requires
                m >= 1,
                y >= 0,
        ;
    }
}

/// The word of a number of at most 24 digits, given in units of `2^-24`.
pub(crate) fn encode(n: i128) -> (r: u32)
    requires
        -0x1_0000_0000_0000_0000_0000_0000_0000 < n < 0x1_0000_0000_0000_0000_0000_0000_0000,
        n >= 0 ==> n as int % spacing(n as int) == 0,
        n < 0 ==> (-n) % spacing(-n) == 0,
    ensures
        encodes(r, n as int),
{
    if n == 0 {
        0
    } else if n > 0 {
        encode_magnitude(n as u128)
    } else {
        let m: u32 = encode_magnitude((-n) as u128);
        assert(-((-n) * pow2(125)) == n * pow2(125)) by (nonlinear_arith);
        SIGN + m
    }
}

/// Rounds a number, given in units of `2^-24`, and encodes it.
pub(crate) fn encode_rounded(n: i128) -> (r: u32)
    requires
        -0x1_0000_0000_0000_0000_0000_0000 <= n <= 0x1_0000_0000_0000_0000_0000_0000,
    ensures
        encodes(r, single(n as int)),
{
    let s: i128 = to_single(n);
    proof {
        lemma_rounded(if n >= 0 { n as int } else { -n });
    }
    encode(s)
}

/// Rounding does not pass a multiple of the distance between neighbours.
proof fn lemma_nearest_multiple_between(n: int, q: int, low: int, high: int)
    requires
        0 <= n,
        1 <= q,
        low * q <= n <= high * q,
    ensures
        low * q <= nearest_multiple(n, q) <= high * q,
{
    let k = n / q;
    let r = n % q;
    vstd::arithmetic::div_mod::lemma_fundamental_div_mod(n, q);
    assert(low <= k && k <= high && (k == high ==> r == 0)) by (nonlinear_arith)
        requires
            n == q * k + r,
            0 <= r < q,
            low * q <= n <= high * q,
    ;
    assert(low * q <= k * q && k * q <= high * q && (k < high ==> (k + 1) * q <= high * q) && low * q <= (k
        + 1) * q) by (nonlinear_arith)
        requires
            low <= k <= high,
            1 <= q,
    ;
}

/// Below `2^48` rounding does not pass a multiple of `2^24`.
pub(crate) proof fn lemma_single_between(n: int, low: int, high: int)
    requires
        -0x100_0000 < low <= high < 0x100_0000,
        low * 0x100_0000 <= n <= high * 0x100_0000,
    ensures
        low * 0x100_0000 <= single(n) <= high * 0x100_0000,
{
    let m = if n >= 0 {
        n
    } else {
        -n
    };
    let j = lemma_spacing_power(m);
    lemma_pow2_pos(j);
    lemma2_to64();
    assert(j <= 24) by {
        if j > 25 {
            vstd::arithmetic::power2::lemma_pow2_strictly_increases(25, j);
        }
    }
    lemma_pow2_adds(j, (24 - j) as nat);
    let q = pow2(j) as int;
    let z = pow2((24 - j) as nat) as int;
    assert(q * z == 0x100_0000);
    if n >= 0 {
        assert(low * 0x100_0000 == (low * z) * q && high * 0x100_0000 == (high * z) * q) by (nonlinear_arith)
            requires
                q * z == 0x100_0000,
        ;
        lemma_nearest_multiple_between(m, q, low * z, high * z);
    } else {
        assert((-high) * 0x100_0000 == ((-high) * z) * q && (-low) * 0x100_0000 == ((-low) * z) * q) by (nonlinear_arith)
            requires
                q * z == 0x100_0000,
        ;
        lemma_nearest_multiple_between(m, q, (-high) * z, (-low) * z);
    }
}

/// A number of at most 24 digits that is not below 24 digits before the `i` last ones
/// has zeros for those.
proof fn lemma_digits(k: int, j: nat, i: nat) -> (l: int)
    requires
        0 <= k <= 0x100_0000,
        i == 0 || k * pow2(j) >= 0x80_0000 * pow2(i),
    ensures
        k * pow2(j) == l * pow2(i),
        l >= 0,
{
    lemma_pow2_pos(i);
    lemma_pow2_pos(j);
    if j >= i {
        lemma_pow2_adds(i, (j - i) as nat);
        let l = k * pow2((j - i) as nat);
        assert(k * (pow2(i) * pow2((j - i) as nat)) == (k * pow2((j - i) as nat)) * pow2(i))
            by (nonlinear_arith);
        assert(l >= 0) by (nonlinear_arith)
            requires
                l == k * pow2((j - i) as nat),
                k >= 0,
                pow2((j - i) as nat) >= 0,
        ;
        l
    } else {
        lemma_pow2_adds(j, (i - j) as nat);
        let p = pow2(j) as int;
        let r = pow2((i - j) as nat) as int;
        lemma_pow2_unfold((i - j) as nat);
        lemma_pow2_pos((i - j - 1) as nat);
        assert(k * p == 0x80_0000 * (p * r)) by (nonlinear_arith)
            requires
                k * p >= 0x80_0000 * (p * r),
                k <= 0x100_0000,
                r >= 2,
                p >= 1,
        ;
        0x80_0000
    }
}

/// Of the numbers of at most 24 digits, none is nearer to `x / d` than the multiple of
/// `2^i` that is nearest to it, if `x / d` has at least 24 digits before the `i` last
/// ones; and if one is as near, the chosen multiple is the even one.
pub(crate) proof fn lemma_nearest(x: int, d: int, i: nat, k: int, j: nat)
    requires
        0 <= x,
        1 <= d,
        i == 0 || d * (0x80_0000 * pow2(i)) <= x,
        0 <= k <= 0x100_0000,
    ensures
        ({
            let q = pow2(i) as int;
            let n = x / (d * q);
            let r = x % (d * q);
            let l = if 2 * r < d * q || (2 * r == d * q && n % 2 == 0) {
                n
            } else {
                n + 1
            };
            let v = k * pow2(j);
            let near = if d * (l * q) >= x {
                d * (l * q) - x
            } else {
                x - d * (l * q)
            };
            let far = if d * v >= x {
                d * v - x
            } else {
                x - d * v
            };
            near <= far && (near == far && v != l * q ==> l % 2 == 0)
        }),
{
    let q = pow2(i) as int;
    lemma_pow2_pos(i);
    let z = d * q;
    assert(z >= 1) by (nonlinear_arith)
        requires
            z == d * q,
            d >= 1,
            q >= 1,
    ;
    let n = x / z;
    let r = x % z;
    vstd::arithmetic::div_mod::lemma_fundamental_div_mod(x, z);
    let l = if 2 * r < z || (2 * r == z && n % 2 == 0) {
        n
    } else {
        n + 1
    };
    let v = k * pow2(j);
    assert(x == n * z + r && 0 <= r < z && (n + 1) * z == n * z + z) by (nonlinear_arith)
        requires
            x == z * n + r,
            r == x % z,
            z >= 1,
    ;
    assert(d * (l * q) == l * z) by (nonlinear_arith)
        requires
            z == d * q,
    ;
    if i == 0 || v >= 0x80_0000 * q {
        let g = lemma_digits(k, j, i);
        assert(d * v == g * z) by (nonlinear_arith)
            requires
                z == d * q,
                v == g * q,
        ;
        assert((g <= n ==> g * z <= n * z) && (g < n ==> g * z <= n * z - z) && (g >= n + 1 ==> g * z >= n * z
            + z) && (g > n + 1 ==> g * z >= n * z + 2 * z)) by (nonlinear_arith)
            requires
                z >= 1,
        ;
    } else {
        assert(d * v < d * (0x80_0000 * q)) by (nonlinear_arith)
            requires
                v < 0x80_0000 * q,
                d >= 1,
        ;
        assert(d * (0x80_0000 * q) == 0x80_0000 * z) by (nonlinear_arith)
            requires
                z == d * q,
        ;
        assert(0x80_0000 <= n) by (nonlinear_arith)
            requires
                0x80_0000 * z <= x,
                x == n * z + r,
                0 <= r < z,
        ;
        assert(0x80_0000 * z <= n * z) by (nonlinear_arith)
            requires
                0x80_0000 <= n,
                z >= 1,
        ;
    }
}

/// Neighbouring numbers around `n` are as far apart as the last of its 24 digits is
/// worth: a power of two, at least one part in `2^24` of `n` and at most one in
/// `2^23`, or 1 if `n` has fewer digits.
pub proof fn law_spacing_is_the_last_digit(n: int)
    requires
        0 <= n,
    ensures
        exists|j: nat| spacing(n) == #[trigger] pow2(j),
        n < 0x100_0000 * spacing(n),
        spacing(n) == 1 || 0x80_0000 * spacing(n) <= n,
{
    let j = lemma_spacing_power(n);
    lemma2_to64();
}

/// No number of at most 24 digits is nearer to `n` than its rounding; and if one is as
/// near, the last digit of the rounding is even.
pub proof fn law_single_is_nearest(n: int, k: int, j: nat)
    requires
        -0x100_0000 <= k <= 0x100_0000,
    ensures
        ({
            let v = k * pow2(j);
            let near = if single(n) >= n {
                single(n) - n
            } else {
                n - single(n)
            };
            let far = if v >= n {
                v - n
            } else {
                n - v
            };
            near <= far && (near == far && v != single(n) ==> single(n) % (2 * spacing(if n >= 0 {
                n
            } else {
                -n
            })) == 0)
        }),
{
    let m = if n >= 0 {
        n
    } else {
        -n
    };
    let i = lemma_spacing_power(m);
    lemma2_to64();
    lemma_pow2_pos(i);
    lemma_pow2_pos(j);
    let q = pow2(i) as int;
    assert(1 * q == q && 1 * (0x80_0000 * q) == 0x80_0000 * q);
    let c = if n >= 0 {
        k
    } else {
        -k
    };
    let v = c * pow2(j);
    assert(n < 0 ==> v == -(k * pow2(j))) by (nonlinear_arith)
        requires
            n < 0 ==> c == -k,
            v == c * pow2(j),
    ;
    let h = m / q;
    let r = m % q;
    let l = if 2 * r < q || (2 * r == q && h % 2 == 0) {
        h
    } else {
        h + 1
    };
    assert(nearest_multiple(m, q) == l * q);
    if c >= 0 {
        lemma_nearest(m, 1, i, c, j);
    } else {
        lemma_nearest(m, 1, i, 0, j);
        assert(v < 0) by (nonlinear_arith)
            requires
                v == c * pow2(j),
                c < 0,
                pow2(j) >= 1,
        ;
        assert(0 * pow2(j) == 0);
    }
    if l % 2 == 0 {
        let y = l / 2;
        assert(l * q == y * (2 * q)) by (nonlinear_arith)
            requires
                l == 2 * y,
        ;
        vstd::arithmetic::div_mod::lemma_mod_multiples_basic(y, 2 * q);
        assert(-(y * (2 * q)) == (-y) * (2 * q)) by (nonlinear_arith);
        vstd::arithmetic::div_mod::lemma_mod_multiples_basic(-y, 2 * q);
    }
}

/// A rounded integer has at most 24 digits: the first part of the result gives them,
/// the second how many zeros follow.
pub proof fn law_single_has_few_digits(n: int) -> (r: (int, nat))
    ensures
        -0x100_0000 <= r.0 <= 0x100_0000,
        single(n) == r.0 * pow2(r.1),
{
    let m = if n >= 0 {
        n
    } else {
        -n
    };
    let i = lemma_spacing_power(m);
    lemma_pow2_pos(i);
    let q = pow2(i) as int;
    let h = m / q;
    vstd::arithmetic::div_mod::lemma_fundamental_div_mod(m, q);
    assert(0 <= h < 0x100_0000) by (nonlinear_arith)
        requires
            m == q * h + m % q,
            0 <= m % q < q,
            0 <= m < 0x100_0000 * q,
    ;
    let l = if nearest_multiple(m, q) == h * q {
        h
    } else {
        h + 1
    };
    if n >= 0 {
        (l, i)
    } else {
        assert(-(l * q) == (-l) * q) by (nonlinear_arith);
        (-l, i)
    }
}

/// Rounding treats both signs alike, and rounding again changes nothing.
pub proof fn law_rounding_is_symmetric(n: int)
    ensures
        single(-n) == -single(n),
        single(single(n)) == single(n),
{
    if n == 0 {
        lemma_exact(0);
    }
    let r = law_single_has_few_digits(n);
    law_single_is_nearest(single(n), r.0, r.1);
}

/// A word encodes `n` if it is that of `n * 2^-24` exactly: its value, its sign, and
/// one word for each number, zero without the sign bit.
pub proof fn law_word_is_exact(a: u32, b: u32, n: int)
    requires
        encodes(a, n),
    ensures
        value(a) * 0x100_0000 == n * pow2(149),
        n >= 0 ==> a <= 0x7f80_0000,
        n < 0 ==> 0x8000_0000 < a <= 0xff80_0000,
        encodes(b, n) <==> a == b,
{
    lemma2_to64();
    lemma_pow2_adds(125, 24);
    let p = pow2(125) as int;
    lemma_pow2_pos(125);
    assert((n * p) * 0x100_0000 == n * (p * 0x100_0000)) by (nonlinear_arith);
    assert((n > 0 ==> n * p > 0) && (n < 0 ==> n * p < 0)) by (nonlinear_arith)
        requires
            p > 0,
    ;
    crate::words::law_order_follows_the_bits(a, 0);
    crate::words::law_order_follows_the_bits(0, a);
    assert(value(0) == 0) by {
        crate::words::law_magnitude_doubles(0);
    }
    if encodes(b, n) {
        lemma_one_word(a, b, n);
    }
}

} // verus!
