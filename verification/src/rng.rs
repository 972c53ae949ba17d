//! The deterministic generator that decides what stands at each obstacle slot.

use vstd::arithmetic::div_mod::{lemma_mul_mod_noop_left, lemma_mul_mod_noop_right, lemma_small_mod};
use vstd::prelude::*;

verus! {

/// The low 32 bits of `a * b`.
pub open spec fn product(a: u32, b: u32) -> u32 {
    ((a * b) % 0x1_0000_0000) as u32
}

/// The mixing function: three shift-and-xor steps with a multiplication by an odd
/// constant between one and the next.
pub open spec fn hash(x: u32) -> u32 {
    let a = product(x ^ (x >> 16), 0x7feb_352d);
    let b = product(a ^ (a >> 15), 0x846c_a68b);
    b ^ (b >> 16)
}

/// The state that `n` steps lead to from `state`.
pub open spec fn state_after(state: u32, n: nat) -> u32
    decreases n,
{
    if n == 0 {
        state
    } else {
        hash(state_after(state, (n - 1) as nat))
    }
}

/// The state of a generator that was just made from `seed`.
pub open spec fn seeded(seed: u32) -> u32 {
    hash(seed ^ 0x9e37_79b9)
}

/// The length of the range from `a` to `b`, as a 32-bit word. It is the number of
/// integers in the range wherever `a <= b`.
pub open spec fn span(a: int, b: int) -> int {
    (b - a + 1) % 0x1_0000_0000
}

/// How far above `a` the state `s` puts its draw from the range from `a` to `b`.
pub open spec fn offset(s: u32, a: int, b: int) -> int {
    let r = s as int % span(a, b);
    if r < 0x8000_0000 {
        r
    } else {
        r - 0x1_0000_0000
    }
}

/// Mixes the bits of `x`.
pub fn hash_u32(x: u32) -> (r: u32)
    ensures
        r == hash(x),
{
    let a: u32 = (x ^ (x >> 16)).wrapping_mul(0x7feb_352d);
    let b: u32 = (a ^ (a >> 15)).wrapping_mul(0x846c_a68b);
    b ^ (b >> 16)
}

/// A generator; it holds the last word that it gave.
#[derive(Clone, Copy, Debug, PartialEq, Eq, Structural)]
pub struct Rng(pub u32);

impl Rng {
    /// The generator for `seed`.
    pub fn new(seed: u32) -> (r: Self)
        ensures
            r.0 == seeded(seed),
    {
        Rng(hash_u32(seed ^ 0x9e37_79b9))
    }

    /// Takes one step and returns the word that it leads to.
    pub fn next(&mut self) -> (r: u32)
        ensures
            final(self).0 == hash(old(self).0),
            r == final(self).0,
    {
        self.0 = hash_u32(self.0);
        self.0
    }

    /// A draw from the interval from 0 up to, and without, 1, in units of `2^-24`.
    pub fn unit(&mut self) -> (r: u32)
        ensures
            final(self).0 == hash(old(self).0),
            r == final(self).0 / 256,
            r < 0x100_0000,
    {
        let w: u32 = self.next();
        assert(w >> 8 == w / 256) by (bit_vector);
        w >> 8
    }

    /// A draw from the integers from `a` to `b`, both of them included.
    ///
    /// Where `b < a` the length of the range is taken modulo `2^32`, and the draw
    /// has to leave the sum within reach of the type.
    pub fn range_int(&mut self, a: i32, b: i32) -> (r: i32)
        requires
            i32::MIN <= b - a < i32::MAX,
            b - a + 1 != 0,
            b < a ==> i32::MIN <= a + offset(hash(old(self).0), a as int, b as int) <= i32::MAX,
        ensures
            final(self).0 == hash(old(self).0),
            r == a + offset(final(self).0, a as int, b as int),
            a <= b ==> r == a + final(self).0 as int % (b - a + 1) && a <= r <= b,
    {
        let w: u32 = self.next();
        let s: i32 = b - a + 1;
        let n: u32 = s as u32;
        assert(n == span(a as int, b as int)) by {
            assert(s < 0 ==> s as u32 == s + 0x1_0000_0000) by (bit_vector);
        }
        let m: u32 = w % n;
        let d: i32 = m as i32;
        assert(d == offset(w, a as int, b as int)) by {
            assert(m >= 0x8000_0000 ==> m as i32 == m - 0x1_0000_0000) by (bit_vector);
        }
        a + d
    }
}

/// Multiplication by a word that has an inverse modulo `2^32` loses nothing.
proof fn lemma_product_is_injective(x: u32, y: u32, c: u32, d: u32)
    requires
        (c * d) % 0x1_0000_0000 == 1,
        product(x, c) == product(y, c),
    ensures
        x == y,
{
    lemma_product_inverse(x, c, d);
    lemma_product_inverse(y, c, d);
}

proof fn lemma_product_inverse(x: u32, c: u32, d: u32)
    requires
        (c * d) % 0x1_0000_0000 == 1,
    ensures
        (product(x, c) * d) % 0x1_0000_0000 == x,
{
    let m: int = 0x1_0000_0000;
    let xc = x as int * c as int;
    let cd = c as int * d as int;
    assert(((xc % m) * d) % m == (xc * d) % m) by {
        lemma_mul_mod_noop_left(xc, d as int, m);
    }
    assert(xc * d == x * cd) by (nonlinear_arith)
        requires
            xc == x as int * c as int,
            cd == c as int * d as int,
    ;
    assert((x * cd) % m == (x * (cd % m)) % m) by {
        lemma_mul_mod_noop_right(x as int, cd, m);
    }
    lemma_small_mod(x as nat, m as nat);
}

/// The mixing function takes no two words to one: it permutes the words.
pub proof fn law_hash_is_injective(x: u32, y: u32)
    requires
        hash(x) == hash(y),
    ensures
        x == y,
{
    let xs = x ^ (x >> 16);
    let ys = y ^ (y >> 16);
    let xa = product(xs, 0x7feb_352d);
    let ya = product(ys, 0x7feb_352d);
    let xt = xa ^ (xa >> 15);
    let yt = ya ^ (ya >> 15);
    let xb = product(xt, 0x846c_a68b);
    let yb = product(yt, 0x846c_a68b);
    assert(xb ^ (xb >> 16) == yb ^ (yb >> 16) ==> xb == yb) by (bit_vector);
    lemma_product_is_injective(xt, yt, 0x846c_a68b, 0x4302_1123);
    assert(xa ^ (xa >> 15) == ya ^ (ya >> 15) ==> xa == ya) by (bit_vector);
    lemma_product_is_injective(xs, ys, 0x7feb_352d, 0x1d69_e2a5);
    assert(x ^ (x >> 16) == y ^ (y >> 16) ==> x == y) by (bit_vector);
}

/// Generators with different seeds never come to the same state after the same
/// number of steps.
pub proof fn law_streams_stay_apart(s: u32, t: u32, n: nat)
    requires
        state_after(seeded(s), n) == state_after(seeded(t), n),
    ensures
        s == t,
    decreases n,
{
    if n == 0 {
        law_hash_is_injective(s ^ 0x9e37_79b9, t ^ 0x9e37_79b9);
        assert(s ^ 0x9e37_79b9 == t ^ 0x9e37_79b9 ==> s == t) by (bit_vector);
    } else {
        law_hash_is_injective(
            state_after(seeded(s), (n - 1) as nat),
            state_after(seeded(t), (n - 1) as nat),
        );
        law_streams_stay_apart(s, t, (n - 1) as nat);
    }
}

/// Mixing can be undone, step by step from the last to the first: the same shifts
/// undo the shifts by half a word, the shift by 15 takes another one by 30, and
/// multiplying by the inverse undoes a multiplication.
pub proof fn law_hash_can_be_undone(x: u32)
    ensures
        ({
            let r = hash(x);
            let b = r ^ (r >> 16);
            let t = ((b * 0x4302_1123) % 0x1_0000_0000) as u32;
            let a = t ^ (t >> 15) ^ (t >> 30);
            let s = ((a * 0x1d69_e2a5) % 0x1_0000_0000) as u32;
            x == s ^ (s >> 16)
        }),
{
    let s = x ^ (x >> 16);
    let a = product(s, 0x7feb_352d);
    let t = a ^ (a >> 15);
    let b = product(t, 0x846c_a68b);
    let r = b ^ (b >> 16);
    assert(r ^ (r >> 16) == b) by (bit_vector)
        requires
            r == b ^ (b >> 16),
    ;
    lemma_product_inverse(t, 0x846c_a68b, 0x4302_1123);
    assert(t ^ (t >> 15) ^ (t >> 30) == a) by (bit_vector)
        requires
            t == a ^ (a >> 15),
    ;
    lemma_product_inverse(s, 0x7feb_352d, 0x1d69_e2a5);
    assert(s ^ (s >> 16) == x) by (bit_vector)
        requires
            s == x ^ (x >> 16),
    ;
}

/// Steps add up, no step changes nothing, and one step is one mixing.
pub proof fn law_steps_add_up(state: u32, m: nat, n: nat)
    ensures
        state_after(state, 0) == state,
        state_after(state, 1) == hash(state),
        state_after(state, m + n) == state_after(state_after(state, m), n),
    decreases n,
{
    assert(state_after(state, 0) == state);
    assert(state_after(state, 1) == hash(state_after(state, 0)));
    if n > 0 {
        law_steps_add_up(state, m, (n - 1) as nat);
    }
}

/// A generator starts from the mixed seed, with the bits of one constant turned over.
pub proof fn law_seed_is_mixed(x: u32)
    ensures
        seeded(x ^ 0x9e37_79b9) == hash(x),
{
    assert((x ^ 0x9e37_79b9) ^ 0x9e37_79b9 == x) by (bit_vector);
}

/// A draw from `a` to `b` is the only integer of that range that differs from `a` plus
/// the state by a multiple of the length of the range.
pub proof fn law_draw_is_in_range(s: u32, a: int, b: int)
    requires
        i32::MIN <= a <= b <= i32::MAX,
        b - a < i32::MAX,
    ensures
        a <= a + offset(s, a, b) <= b,
        (s - offset(s, a, b)) % (b - a + 1) == 0,
{
    let n = b - a + 1;
    assert(span(a, b) == n);
    let r = s as int % n;
    vstd::arithmetic::div_mod::lemma_fundamental_div_mod(s as int, n);
    vstd::arithmetic::div_mod::lemma_mod_multiples_basic(s as int / n, n);
    assert(s - r == (s as int / n) * n) by (nonlinear_arith)
        requires
            s as int == n * (s as int / n) + r,
    ;
}

/// The length of a range is taken modulo `2^32`, also where the range runs backwards,
/// and so is the draw: its 32 bits are the remainder of the state.
pub proof fn law_draw_is_the_remainder(s: u32, a: int, b: int)
    requires
        i32::MIN <= a <= i32::MAX,
        i32::MIN <= b <= i32::MAX,
        i32::MIN <= b - a < i32::MAX,
        b - a + 1 != 0,
    ensures
        0 < span(a, b) < 0x1_0000_0000,
        (span(a, b) - (b - a + 1)) % 0x1_0000_0000 == 0,
        -0x8000_0000 <= offset(s, a, b) < 0x8000_0000,
        offset(s, a, b) % 0x1_0000_0000 < span(a, b),
        (s - offset(s, a, b) % 0x1_0000_0000) % span(a, b) == 0,
{
    let n = span(a, b);
    let r = s as int % n;
    vstd::arithmetic::div_mod::lemma_fundamental_div_mod(s as int, n);
    vstd::arithmetic::div_mod::lemma_mod_multiples_basic(s as int / n, n);
    assert(s - r == (s as int / n) * n) by (nonlinear_arith)
        requires
            s as int == n * (s as int / n) + r,
    ;
    assert(offset(s, a, b) % 0x1_0000_0000 == r);
}

} // verus!
