//! The exhaust of the thrusters.

use vstd::prelude::*;

use crate::words::{below, less, ZERO};

verus! {

/// The exhaust of the main thruster.
pub const MAIN: u8 = 0;

/// The exhaust of the thruster that turns left.
pub const LEFT: u8 = 1;

/// The exhaust of the thruster that turns right.
pub const RIGHT: u8 = 2;

/// How many particles the main thruster emits in a frame.
pub const MAIN_BURST: usize = 8;

/// How many particles a side thruster emits in a frame.
pub const SIDE_BURST: usize = 3;

/// A particle: as words, where it is, how fast it moves and how much of its life is
/// left, from one down to zero; and the thruster that it came from.
#[derive(Clone, Copy, Debug, PartialEq, Eq, Structural)]
pub struct Particle {
    pub x: u32,
    pub y: u32,
    pub vx: u32,
    pub vy: u32,
    pub life: u32,
    pub kind: u8,
}

/// `n` particles of a kind, if the thruster burns.
pub open spec fn burst(burns: bool, kind: u8, n: nat) -> Seq<u8> {
    Seq::new(
        if burns {
            n
        } else {
            0
        },
        |i: int| kind,
    )
}

/// Whether a particle has life left.
pub open spec fn alive() -> spec_fn(Particle) -> bool {
    |p: Particle| below(ZERO, p.life)
}

fn emit(kinds: &mut Vec<u8>, kind: u8, n: usize)
    ensures
        final(kinds)@ == old(kinds)@ + burst(true, kind, n as nat),
{
    let ghost s = kinds@;
    let mut i: usize = 0;
    while i < n
        invariant
            i <= n,
            kinds@ == s + burst(true, kind, i as nat),
        decreases n - i,
    {
        kinds.push(kind);
        i = i + 1;
        assert(kinds@ == s + burst(true, kind, i as nat));
    }
}

/// The particles to emit in a frame, by kind: first those of the main thruster, then
/// those of the thruster that turns left, then those of the one that turns right.
pub fn emissions(thrusting: bool, rotating_left: bool, rotating_right: bool) -> (r: Vec<u8>)
    ensures
        r@ == burst(thrusting, MAIN, MAIN_BURST as nat) + burst(
            rotating_left,
            LEFT,
            SIDE_BURST as nat,
        ) + burst(rotating_right, RIGHT, SIDE_BURST as nat),
        ({
            let a = if thrusting { 8int } else { 0 };
            let b = a + (if rotating_left { 3int } else { 0 });
            let c = b + (if rotating_right { 3int } else { 0 });
            &&& r@.len() == c
            &&& forall|i: int| 0 <= i < a ==> #[trigger] r@[i] == 0
            &&& forall|i: int| a <= i < b ==> #[trigger] r@[i] == 1
            &&& forall|i: int| b <= i < c ==> #[trigger] r@[i] == 2
        }),
{
    let mut r: Vec<u8> = Vec::new();
    if thrusting {
        emit(&mut r, MAIN, MAIN_BURST);
    }
    assert(r@ == burst(thrusting, MAIN, MAIN_BURST as nat));
    if rotating_left {
        emit(&mut r, LEFT, SIDE_BURST);
    }
    assert(r@ == burst(thrusting, MAIN, MAIN_BURST as nat) + burst(
        rotating_left,
        LEFT,
        SIDE_BURST as nat,
    ));
    if rotating_right {
        emit(&mut r, RIGHT, SIDE_BURST);
    }
    r
}

/// Drops the particles without life; the others keep their order.
pub fn retain_live(particles: &mut Vec<Particle>)
    ensures
        final(particles)@ == old(particles)@.filter(alive()),
{
    let ghost s = particles@;
    let mut r: Vec<Particle> = Vec::new();
    let mut i: usize = 0;
    assert(s.take(0).filter(alive()) == Seq::<Particle>::empty()) by {
        reveal(Seq::filter);
    }
    while i < particles.len()
        invariant
            i <= s.len(),
            particles@ == s,
            r@ == s.take(i as int).filter(alive()),
        decreases s.len() - i,
    {
        if less(ZERO, particles[i].life) {
            r.push(particles[i]);
        }
        proof {
            reveal(Seq::filter);
            assert(s.take(i + 1).drop_last() == s.take(i as int));
        }
        i = i + 1;
    }
    assert(s.take(i as int) == s);
    *particles = r;
}

/// A dead particle never comes back, and a live one is never lost.
pub proof fn law_retained_are_the_live(s: Seq<Particle>, p: Particle)
    ensures
        s.filter(alive()).contains(p) <==> s.contains(p) && below(ZERO, p.life),
    decreases s.len(),
{
    reveal(Seq::filter);
    if s.len() > 0 {
        let t = s.drop_last();
        law_retained_are_the_live(t, p);
        assert(s == t.push(s.last()));
        if s.contains(p) {
            assert(p == s.last() || t.contains(p)) by {
                let i = choose|i: int| 0 <= i < s.len() && s[i] == p;
                if i < t.len() {
                    assert(t[i] == p);
                }
            }
        }
        if t.contains(p) {
            let i = choose|i: int| 0 <= i < t.len() && t[i] == p;
            assert(s[i] == p);
        }
        let u = t.filter(alive());
        if alive()(s.last()) {
            let v = u.push(s.last());
            assert(s.filter(alive()) == v);
            if u.contains(p) {
                let i = choose|i: int| 0 <= i < u.len() && u[i] == p;
                assert(v[i] == p);
            }
            if p == s.last() {
                assert(v[u.len() as int] == p);
            }
            if v.contains(p) {
                let i = choose|i: int| 0 <= i < v.len() && v[i] == p;
                if i < u.len() {
                    assert(u[i] == p);
                }
            }
        }
    }
}

/// A thruster that burns emits its particles, all of its kind, and one that does not
/// burn emits none.
pub proof fn law_burning_emits(kind: u8, n: nat)
    ensures
        burst(false, kind, n).len() == 0,
        burst(true, kind, n).len() == n,
        forall|i: int| 0 <= i < n ==> #[trigger] burst(true, kind, n)[i] == kind,
{
}

/// A particle is alive exactly if the word of its life has no sign bit, is not zero,
/// and encodes a number; where it is and where it came from does not matter.
pub proof fn law_life_is_positive(p: Particle)
    ensures
        alive()(p) <==> 0 < p.life <= 0x7f80_0000,
{
    crate::words::law_order_follows_the_bits(0, p.life);
}

/// What is retained of two groups of particles is what is retained of each, in order.
pub proof fn law_retaining_is_by_particle(s: Seq<Particle>, p: Particle)
    ensures
        Seq::<Particle>::empty().filter(alive()) == Seq::<Particle>::empty(),
        s.push(p).filter(alive()) == (if 0 < p.life <= 0x7f80_0000 {
            s.filter(alive()).push(p)
        } else {
            s.filter(alive())
        }),
{
    reveal(Seq::filter);
    law_life_is_positive(p);
    assert(s.push(p).drop_last() == s);
}

} // verus!
