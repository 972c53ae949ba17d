//! The indices of the triangles that are drawn.

use vstd::prelude::*;

verus! {

/// How many quads a wall is drawn with.
pub const WALL_QUADS: u16 = 3;

/// The corners of the two triangles of a quad.
pub open spec fn quad() -> Seq<u16> {
    seq![0u16, 1u16, 2u16, 0u16, 2u16, 3u16]
}

/// The corners of the triangles of a wall, quad after quad; each quad has four
/// vertices of its own.
pub open spec fn wall_corners() -> Seq<u16> {
    Seq::new(6 * WALL_QUADS as nat, |i: int| (quad()[i % 6] + 4 * (i / 6)) as u16)
}

/// The corners of the triangles of a fan around vertex 0, with `m` more vertices on
/// its rim.
pub open spec fn fan_corners(m: int) -> Seq<u16> {
    Seq::new(
        (3 * m) as nat,
        |i: int|
            (if i % 3 == 0 {
                0
            } else if i % 3 == 1 {
                1 + i / 3
            } else {
                1 + (i / 3 + 1) % m
            }) as u16,
    )
}

/// The indices for the quads of a wall.
pub fn wall_indices() -> (r: Vec<u16>)
    ensures
        r@ == wall_corners(),
{
    let mut r: Vec<u16> = Vec::new();
    let mut q: u16 = 0;
    while q < WALL_QUADS
        invariant
            q <= WALL_QUADS,
            r@.len() == 6 * q,
            forall|i: int| 0 <= i < r@.len() ==> #[trigger] r@[i] == wall_corners()[i],
        decreases WALL_QUADS - q,
    {
        let base: u16 = 4 * q;
        let ghost n = 6 * q as int;
        r.push(base);
        r.push(base + 1);
        r.push(base + 2);
        r.push(base);
        r.push(base + 2);
        r.push(base + 3);
        q = q + 1;
        assert forall|i: int| n <= i < n + 6 implies #[trigger] r@[i] == wall_corners()[i] by {
            assert(i % 6 == i - n && i / 6 == q - 1);
        }
    }
    assert(r@ == wall_corners());
    r
}

/// The indices for an obstacle with `n` vertices, drawn as a fan around its centre.
/// The indices have 16 bits; of a greater number of vertices the low 16 bits count.
pub fn fan_indices(n: usize) -> (r: Vec<u16>)
    ensures
        r@ == fan_corners(n as int % 0x1_0000),
{
    let m: u16 =
    #[verifier::truncate]
    (n as u16);
    assert(n as u16 == n % 0x1_0000) by (bit_vector);
    let mut r: Vec<u16> = Vec::new();
    let mut i: u16 = 0;
    while i < m
        invariant
            i <= m,
            r@.len() == 3 * i,
            forall|j: int| 0 <= j < r@.len() ==> #[trigger] r@[j] == fan_corners(m as int)[j],
        decreases m - i,
    {
        let ghost k = 3 * i as int;
        r.push(0);
        r.push(1 + i);
        r.push(1 + (i + 1) % m);
        i = i + 1;
        assert forall|j: int| k <= j < k + 3 implies #[trigger] r@[j] == fan_corners(m as int)[j] by {
            assert(j % 3 == j - k && j / 3 == i - 1);
        }
    }
    assert(r@ == fan_corners(m as int));
    r
}

/// The vertex after vertex `i` on the rim of a polygon with `n` vertices.
pub fn next_vertex(i: usize, n: usize) -> (r: usize)
    requires
        i < n,
    ensures
        r == (i + 1) % (n as int),
        r < n,
        i + 1 < n ==> r == i + 1,
        i + 1 == n ==> r == 0,
{
    proof {
        if i + 1 < n {
            vstd::arithmetic::div_mod::lemma_small_mod((i + 1) as nat, n as nat);
        } else {
            vstd::arithmetic::div_mod::lemma_mod_self_0(n as int);
        }
    }
    (i + 1) % n
}

/// The triangles of a wall use its twelve vertices and no others, and each triangle
/// stays within one quad.
pub proof fn law_wall_corners_in_bounds(i: int)
    requires
        0 <= i < wall_corners().len(),
    ensures
        wall_corners()[i] < 4 * WALL_QUADS,
        wall_corners()[i] / 4 == i / 6,
{
    assert(0 <= i % 6 < 6 && 0 <= i / 6 < 3);
}

/// The triangles of a fan use its centre and its rim and no others, and each triangle
/// ends on the rim where the next one begins, the last where the first begins.
pub proof fn law_fan_closes(m: int, t: int)
    requires
        0 <= t < m < 0x1_0000,
    ensures
        fan_corners(m)[3 * t] == 0,
        1 <= fan_corners(m)[3 * t + 1] <= m,
        1 <= fan_corners(m)[3 * t + 2] <= m,
        fan_corners(m)[3 * t + 2] == fan_corners(m)[3 * ((t + 1) % m) + 1],
{
    let u = (t + 1) % m;
    assert(0 <= u < m);
    assert((3 * t) % 3 == 0 && (3 * t + 1) % 3 == 1 && (3 * t + 2) % 3 == 2);
    assert((3 * t + 1) / 3 == t && (3 * t + 2) / 3 == t);
    assert((3 * u + 1) % 3 == 1 && (3 * u + 1) / 3 == u);
}

/// The triangles of quad `q` have the corners 0, 1, 2 and 0, 2, 3 among its own four
/// vertices, which come after those of the quads before it.
pub proof fn law_wall_triangles(q: int)
    requires
        0 <= q < 3,
    ensures
        wall_corners().len() == 18,
        wall_corners()[6 * q] == 4 * q,
        wall_corners()[6 * q + 1] == 4 * q + 1,
        wall_corners()[6 * q + 2] == 4 * q + 2,
        wall_corners()[6 * q + 3] == 4 * q,
        wall_corners()[6 * q + 4] == 4 * q + 2,
        wall_corners()[6 * q + 5] == 4 * q + 3,
{
    let c = wall_corners();
    assert(c[6 * q] == 4 * q) by {
        assert((6 * q + 0) % 6 == 0 && (6 * q + 0) / 6 == q);
    }
    assert(c[6 * q + 1] == 4 * q + 1) by {
        assert((6 * q + 1) % 6 == 1 && (6 * q + 1) / 6 == q);
    }
    assert(c[6 * q + 2] == 4 * q + 2) by {
        assert((6 * q + 2) % 6 == 2 && (6 * q + 2) / 6 == q);
    }
    assert(c[6 * q + 3] == 4 * q) by {
        assert((6 * q + 3) % 6 == 3 && (6 * q + 3) / 6 == q);
    }
    assert(c[6 * q + 4] == 4 * q + 2) by {
        assert((6 * q + 4) % 6 == 4 && (6 * q + 4) / 6 == q);
    }
    assert(c[6 * q + 5] == 4 * q + 3) by {
        assert((6 * q + 5) % 6 == 5 && (6 * q + 5) / 6 == q);
    }
}

/// Triangle `t` of a fan joins the centre to the rim vertices `t + 1` and `t + 2`, and
/// the last triangle joins it to the last rim vertex and the first. So each rim vertex
/// begins one triangle and ends one, and with two of them or more none is empty.
pub proof fn law_fan_uses_each_vertex(m: int, t: int)
    requires
        0 <= t < m < 0x1_0000,
    ensures
        fan_corners(m).len() == 3 * m,
        fan_corners(m)[3 * t] == 0,
        fan_corners(m)[3 * t + 1] == t + 1,
        t + 1 < m ==> fan_corners(m)[3 * t + 2] == t + 2,
        t + 1 == m ==> fan_corners(m)[3 * t + 2] == 1,
        m >= 2 ==> fan_corners(m)[3 * t + 1] != fan_corners(m)[3 * t + 2],
{
    assert((3 * t) % 3 == 0 && (3 * t + 1) % 3 == 1 && (3 * t + 2) % 3 == 2);
    assert((3 * t + 1) / 3 == t && (3 * t + 2) / 3 == t);
    if t + 1 < m {
        vstd::arithmetic::div_mod::lemma_small_mod((t + 1) as nat, m as nat);
    } else {
        vstd::arithmetic::div_mod::lemma_mod_self_0(m);
    }
}

} // verus!
