//! Conversion between spiral positions and cube `(q, r, s)` coordinates, and
//! the laws of the neighbor relation that the cube geometry gives.

use vstd::prelude::*;

use crate::position::{
    are_neighbors_spec, edge_base_neighbors, edge_of, in_ring, is_tip, lemma_decompose,
    lemma_limits, lemma_ring_of, lemma_ring_offset_monotone, lemma_ring_offset_step, neighbors_spec,
    ring, ring_of, ring_offset, ring_offset_spec, step_of, tip_base_neighbors, Pos, POS_LIMIT,
};

verus! {

/// Cube coordinate system for hex grid.
#[derive(Debug, Clone, Copy, PartialEq, Eq, Structural)]
pub struct Cube {
    pub q: i32,
    pub r: i32,
    pub s: i32,
}

/// The absolute value of `x`.
pub open spec fn abs_spec(x: int) -> int {
    if x < 0 {
        -x
    } else {
        x
    }
}

/// The largest absolute value among the components of `c`.
pub open spec fn max_abs_spec(c: (int, int, int)) -> int {
    let a = abs_spec(c.0);
    let b = abs_spec(c.1);
    let d = abs_spec(c.2);
    if a >= b && a >= d {
        a
    } else if b >= d {
        b
    } else {
        d
    }
}

/// The cube coordinates of the position `t` steps along edge `e` of ring `k`.
pub open spec fn edge_cube(k: int, e: int, t: int) -> (int, int, int) {
    if e == 0 {
        (t, -k, k - t)
    } else if e == 1 {
        (k, t - k, -t)
    } else if e == 2 {
        (k - t, t, -k)
    } else if e == 3 {
        (-t, k, t - k)
    } else if e == 4 {
        (-k, k - t, t)
    } else {
        (t - k, -t, k)
    }
}

/// The cube coordinates of position `p`: the tip that starts its edge, plus
/// its steps along that edge.
pub open spec fn cube_spec(p: int) -> (int, int, int) {
    if p <= 0 {
        (0, 0, 0)
    } else {
        edge_cube(ring_of(p), edge_of(p), step_of(p))
    }
}

/// The cube offset of one step in direction `i`, clockwise from the top.
pub open spec fn direction(i: int) -> (int, int, int) {
    if i == 0 {
        (0, -1, 1)
    } else if i == 1 {
        (1, -1, 0)
    } else if i == 2 {
        (1, 0, -1)
    } else if i == 3 {
        (0, 1, -1)
    } else if i == 4 {
        (-1, 1, 0)
    } else {
        (-1, 0, 1)
    }
}

/// The cube one step from `c` in direction `i`.
pub open spec fn step_cube(c: (int, int, int), i: int) -> (int, int, int) {
    (c.0 + direction(i).0, c.1 + direction(i).1, c.2 + direction(i).2)
}

impl Cube {
    /// The components of the cube as integers.
    pub open spec fn view_triple(&self) -> (int, int, int) {
        (self.q as int, self.r as int, self.s as int)
    }

    /// Creates the cube coordinate `(q, r, s)`.
    pub fn new(q: i32, r: i32, s: i32) -> (c: Self)
        ensures
            c.q == q,
            c.r == r,
            c.s == s,
    {
        Cube { q, r, s }
    }

    /// Finds the largest absolute value of cube coordinate components.
    pub fn abs_largest(&self) -> (m: i64)
        ensures
            m == max_abs_spec(self.view_triple()),
    {
        let a = if self.q < 0 { -(self.q as i64) } else { self.q as i64 };
        let b = if self.r < 0 { -(self.r as i64) } else { self.r as i64 };
        let d = if self.s < 0 { -(self.s as i64) } else { self.s as i64 };
        if a >= b && a >= d {
            a
        } else if b >= d {
            b
        } else {
            d
        }
    }

    /// Finds the sum of cube coordinate components.
    pub fn component_sum(&self) -> (t: i64)
        ensures
            t == self.q + self.r + self.s,
    {
        self.q as i64 + self.r as i64 + self.s as i64
    }
}

impl Default for Cube {
    /// The origin `(0, 0, 0)`.
    fn default() -> (c: Self)
        ensures
            c.q == 0 && c.r == 0 && c.s == 0,
    {
        Cube { q: 0, r: 0, s: 0 }
    }
}

/// The cube coordinates of every position sum to zero, and their largest
/// absolute value is the position's ring.
pub proof fn lemma_cube_invariant(p: int)
    requires
        0 <= p,
    ensures
        cube_spec(p).0 + cube_spec(p).1 + cube_spec(p).2 == 0,
        max_abs_spec(cube_spec(p)) == ring_of(p),
{
    lemma_ring_of(p);
    if p >= 1 {
        lemma_decompose(p);
    } else {
        assert(in_ring(0, 0));
    }
}

/// No two positions share cube coordinates.
pub proof fn lemma_cube_injective(p: int, x: int)
    requires
        0 <= p,
        0 <= x,
        cube_spec(x) == cube_spec(p),
    ensures
        x == p,
{
    lemma_cube_invariant(p);
    lemma_cube_invariant(x);
    lemma_ring_of(p);
    lemma_ring_of(x);
    if ring_of(p) == 0 {
        lemma_ring_offset_step(0);
    } else {
        lemma_decompose(p);
        lemma_decompose(x);
        assert(edge_of(p) == edge_of(x) && step_of(p) == step_of(x));
    }
}

/// The position `t` steps along edge `e` of ring `k` has exactly that ring,
/// edge and step.
proof fn lemma_cube_at(k: int, e: int, t: int)
    requires
        k >= 1,
        0 <= e < 6,
        0 <= t < k,
    ensures
        ring_of(ring_offset_spec(k) + e * k + t) == k,
        edge_of(ring_offset_spec(k) + e * k + t) == e,
        step_of(ring_offset_spec(k) + e * k + t) == t,
        cube_spec(ring_offset_spec(k) + e * k + t) == edge_cube(k, e, t),
        ring_offset_spec(k) + e * k + t >= 1,
{
    let x = ring_offset_spec(k) + e * k + t;
    lemma_ring_offset_step(k);
    assert(0 <= e * k <= 5 * k) by (nonlinear_arith)
        requires
            0 <= e < 6,
            k >= 1,
    ;
    assert(in_ring(x, k));
    lemma_ring_of(x);
    vstd::arithmetic::div_mod::lemma_fundamental_div_mod_converse(e * k + t, k, e, t);
}

/// Each neighbor that the edge order of a non-tip position lists lies one
/// cube step away, in the direction its place rotated by the edge gives.
proof fn lemma_edge_base_steps(p: int)
    requires
        p >= 1,
        !is_tip(p),
    ensures
        forall|j: int|
            0 <= j < 6 ==> #[trigger] edge_base_neighbors(p)[j] >= 0 && cube_spec(
                edge_base_neighbors(p)[j],
            ) == step_cube(cube_spec(p), (j + edge_of(p)) % 6),
{
    lemma_decompose(p);
    let k = ring_of(p);
    let e = edge_of(p);
    let t = step_of(p);
    lemma_ring_offset_step(k - 1);
    lemma_ring_offset_step(k);
    lemma_ring_offset_step(k + 1);
    lemma_cube_at(k, e, t);
    assert((e + 1) * (k - 1) == e * (k - 1) + (k - 1)) by (nonlinear_arith);
    assert((e + 1) * k == e * k + k) by (nonlinear_arith);
    assert((e + 1) * (k + 1) == e * (k + 1) + (k + 1)) by (nonlinear_arith);
    let b = edge_base_neighbors(p);
    if p == ring_offset_spec(k + 1) - 1 {
        assert(e == 5 && t == k - 1) by {
            if e < 5 {
                assert(e * k <= 4 * k) by (nonlinear_arith)
                    requires
                        e < 5,
                        k >= 1,
                ;
            }
        }
        lemma_cube_at(k - 1, 5, k - 2);
        lemma_cube_at(k - 1, 0, 0);
        lemma_cube_at(k, 0, 0);
        lemma_cube_at(k, 5, k - 2);
        lemma_cube_at(k + 1, 5, k - 1);
        lemma_cube_at(k + 1, 5, k);
    } else {
        lemma_cube_at(k + 1, e, t);
        lemma_cube_at(k + 1, e, t + 1);
        if t + 1 < k {
            lemma_cube_at(k, e, t + 1);
        } else {
            lemma_cube_at(k, e + 1, 0);
        }
        if t < k - 1 {
            lemma_cube_at(k - 1, e, t);
        } else {
            lemma_cube_at(k - 1, e + 1, 0);
        }
        lemma_cube_at(k - 1, e, t - 1);
        lemma_cube_at(k, e, t - 1);
    }
}

/// Each neighbor that the edge order of a tip lists lies one cube step away,
/// in the direction its place rotated by the edge gives.
proof fn lemma_tip_base_steps(p: int)
    requires
        p >= 1,
        is_tip(p),
    ensures
        forall|j: int|
            0 <= j < 6 ==> #[trigger] tip_base_neighbors(p)[j] >= 0 && cube_spec(
                tip_base_neighbors(p)[j],
            ) == step_cube(cube_spec(p), (j + edge_of(p)) % 6),
{
    lemma_decompose(p);
    let k = ring_of(p);
    let e = edge_of(p);
    lemma_ring_offset_step(k - 1);
    lemma_ring_offset_step(k);
    lemma_ring_offset_step(k + 1);
    lemma_cube_at(k, e, 0);
    assert((k + 1) * e == e * (k + 1) && (k - 1) * e == e * (k - 1)) by (nonlinear_arith);
    assert((e - 1) * k == e * k - k && (e - 1) * (k + 1) == e * (k + 1) - (k + 1))
        by (nonlinear_arith);
    assert((e + 1) * k == e * k + k) by (nonlinear_arith);
    assert(e * k <= 5 * k && e * (k + 1) <= 5 * (k + 1)) by (nonlinear_arith)
        requires
            0 <= e < 6,
            k >= 1,
    ;
    lemma_cube_at(k + 1, e, 0);
    lemma_cube_at(k + 1, e, 1);
    if e == 0 {
        lemma_cube_at(k + 1, 5, k);
        lemma_cube_at(k, 5, k - 1);
    } else {
        lemma_cube_at(k + 1, e - 1, k);
        lemma_cube_at(k, e - 1, k - 1);
    }
    if k >= 2 {
        lemma_cube_at(k, e, 1);
        lemma_cube_at(k - 1, e, 0);
    } else {
        if e < 5 {
            lemma_cube_at(1, e + 1, 0);
        } else {
            lemma_cube_at(1, 0, 0);
        }
    }
}

/// The neighbor of `p` in direction `i` is the hex one cube step from `p` in
/// that direction.
pub proof fn lemma_neighbor_step(p: int, i: int)
    requires
        0 <= p,
        0 <= i < 6,
    ensures
        neighbors_spec(p).len() == 6,
        neighbors_spec(p)[i] >= 0,
        cube_spec(neighbors_spec(p)[i]) == step_cube(cube_spec(p), i),
{
    reveal(neighbors_spec);
    lemma_ring_of(p);
    if ring_of(p) == 0 {
        assert(p == 0) by {
            lemma_ring_offset_step(0);
        }
        lemma_cube_at(1, i, 0);
    } else {
        lemma_decompose(p);
        let e = edge_of(p);
        let j = (i + 6 - e) % 6;
        assert((j + e) % 6 == i);
        if is_tip(p) {
            lemma_tip_base_steps(p);
            assert(neighbors_spec(p)[i] == tip_base_neighbors(p)[j]);
        } else {
            lemma_edge_base_steps(p);
            assert(neighbors_spec(p)[i] == edge_base_neighbors(p)[j]);
        }
    }
}

/// Neighborhood is symmetric: `b` is a neighbor of `a` exactly when `a` is a
/// neighbor of `b`.
pub proof fn lemma_neighbors_symmetric(a: int, b: int)
    requires
        0 <= a,
        0 <= b,
    ensures
        are_neighbors_spec(a, b) == are_neighbors_spec(b, a),
{
    if are_neighbors_spec(a, b) {
        lemma_neighbor_towards(a, b);
    }
    if are_neighbors_spec(b, a) {
        lemma_neighbor_towards(b, a);
    }
}

proof fn lemma_steps_cancel(c: (int, int, int), i: int)
    requires
        0 <= i < 6,
    ensures
        step_cube(step_cube(c, i), (i + 3) % 6) == c,
{
}

proof fn lemma_neighbor_towards(a: int, b: int)
    requires
        0 <= a,
        0 <= b,
        are_neighbors_spec(a, b),
    ensures
        are_neighbors_spec(b, a),
{
    lemma_neighbor_step(a, 0);
    let i = choose|i: int| 0 <= i < neighbors_spec(a).len() && neighbors_spec(a)[i] == b;
    lemma_neighbor_step(a, i);
    let back = (i + 3) % 6;
    lemma_neighbor_step(b, back);
    let c = neighbors_spec(b)[back];
    lemma_steps_cancel(cube_spec(a), i);
    assert(cube_spec(c) == cube_spec(a));
    lemma_cube_injective(a, c);
    assert(neighbors_spec(b)[back] == a);
}

/// Every position has six distinct neighbors, none of them itself; those of
/// the center are the first ring.
pub proof fn lemma_six_distinct_neighbors(p: int)
    requires
        0 <= p,
    ensures
        neighbors_spec(p).len() == 6,
        forall|i: int, j: int|
            0 <= i < 6 && 0 <= j < 6 && i != j ==> #[trigger] neighbors_spec(p)[i]
                != #[trigger] neighbors_spec(p)[j],
        forall|i: int| 0 <= i < 6 ==> #[trigger] neighbors_spec(p)[i] != p,
        neighbors_spec(0) == seq![1int, 2, 3, 4, 5, 6],
{
    reveal(neighbors_spec);
    lemma_ring_of(0);
    lemma_ring_offset_step(0);
    assert(in_ring(0, 0));
    assert forall|i: int, j: int|
        0 <= i < 6 && 0 <= j < 6 && i != j implies #[trigger] neighbors_spec(p)[i]
            != #[trigger] neighbors_spec(p)[j] by {
        lemma_neighbor_step(p, i);
        lemma_neighbor_step(p, j);
    }
    assert forall|i: int| 0 <= i < 6 implies #[trigger] neighbors_spec(p)[i] != p by {
        lemma_neighbor_step(p, i);
    }
    lemma_neighbor_step(p, 0);
}

/// Converting the cube coordinates of an addressable position back gives the
/// position: its coordinates sum to zero, an addressable position has them,
/// and no other position has them.
pub proof fn lemma_round_trip(p: int)
    requires
        0 <= p < POS_LIMIT,
    ensures
        cube_spec(p).0 + cube_spec(p).1 + cube_spec(p).2 == 0,
        has_position(cube_spec(p)),
        forall|x: int| 0 <= x && #[trigger] cube_spec(x) == cube_spec(p) ==> x == p,
{
    lemma_cube_invariant(p);
    assert(cube_spec(p) == cube_spec(p));
    assert forall|x: int| 0 <= x && #[trigger] cube_spec(x) == cube_spec(p) implies x == p by {
        lemma_cube_injective(p, x);
    }
}

/// The modulo of `a` by a positive `b`, never negative, unlike Rust's
/// remainder `a % b`.
fn modulo(a: i64, b: i64) -> (m: i64)
    requires
        b > 0,
        a > i64::MIN,
    ensures
        m == a % b,
        0 <= m < b,
{
    if a >= 0 {
        a % b
    } else {
        let rem = (-a) % b;
        proof {
            let n: int = -(a as int);
            vstd::arithmetic::div_mod::lemma_fundamental_div_mod(n, b as int);
            vstd::arithmetic::div_mod::lemma_mod_pos_bound(n, b as int);
            let q: int = n / (b as int);
            assert((b as int) * q == q * (b as int)) by (nonlinear_arith);
            assert((-q) * (b as int) == -(q * (b as int))) by (nonlinear_arith);
            assert((-q - 1) * (b as int) == -(q * (b as int)) - b) by (nonlinear_arith);
            assert(rem == n % (b as int));
            if rem == 0 {
                vstd::arithmetic::div_mod::lemma_fundamental_div_mod_converse(a as int, b as int, -q, 0);
            } else {
                vstd::arithmetic::div_mod::lemma_fundamental_div_mod_converse(
                    a as int,
                    b as int,
                    -q - 1,
                    b - rem,
                );
            }
        }
        if rem == 0 {
            0
        } else {
            b - rem
        }
    }
}

/// One axis of the cube coordinates of the position `offset_x` steps into
/// ring `c` (`x - x_prime`), as a growing truncated triangle wave: period
/// `6 * c`, amplitude `1.5 * c` truncated to `c`, phase shift `phi` (`0` for
/// the `q` axis, `4` for the `r` axis). The wave is evaluated at twice its
/// scale, where every value is an integer.
fn growing_trunc_tri(x: i64, c: i64, x_prime: i64, phi: i64) -> (y: i32)
    requires
        1 <= c < 0x7fff_ffff,
        0 <= x_prime <= x,
        x - x_prime < 6 * c,
        phi == 0 || phi == 4,
    ensures
        phi == 0 ==> y == edge_cube(c as int, (x - x_prime) / (c as int), (x - x_prime) % (c as int)).0,
        phi == 4 ==> y == edge_cube(c as int, (x - x_prime) / (c as int), (x - x_prime) % (c as int)).1,
{
    // How far along we are in the current cycle.
    let offset_x = x - x_prime;
    proof {
        assert(c * (phi + 3) == if phi == 0 {
            3 * c
        } else {
            7 * c
        }) by (nonlinear_arith)
            requires
                phi == 0 || phi == 4,
        ;
    }
    // Twice the shifted position, `offset_x - (c / 4) * (2 * phi + 6)`.
    let s = 2 * offset_x - c * (phi + 3);
    // Twice the period `c * 6`.
    let p_star = 12 * c;
    let m = modulo(s, p_star);
    let from_middle = m - 6 * c;
    // Twice the triangle wave before it is truncated.
    let y_1 = (if from_middle < 0 {
        -from_middle
    } else {
        from_middle
    }) - 3 * c;
    // Truncate the wave so that it never has an amplitude greater than the
    // cycle number, then halve it, rounding toward zero.
    let y: i32 = if y_1 > 2 * c {
        c as i32
    } else if y_1 + 2 * c < 0 {
        -(c as i32)
    } else if y_1 >= 0 {
        (y_1 / 2) as i32
    } else {
        let half = (-y_1) / 2;
        proof {
            assert(0 <= half <= c);
        }
        -(half as i32)
    };
    proof {
        if y_1 < 0 && y_1 + 2 * c >= 0 {
            assert(y == -((-y_1) / 2));
        }
    }
    proof {
        let off = (x - x_prime) as int;
        let ci = c as int;
        if 0 <= s + 12 * c < 12 * c {
            vstd::arithmetic::div_mod::lemma_fundamental_div_mod_converse(s as int, 12 * ci, -1, s + 12 * ci);
        } else if 0 <= s < 12 * c {
            vstd::arithmetic::div_mod::lemma_fundamental_div_mod_converse(s as int, 12 * ci, 0, s as int);
        } else {
            vstd::arithmetic::div_mod::lemma_fundamental_div_mod_converse(s as int, 12 * ci, 1, s - 12 * ci);
        }
        vstd::arithmetic::div_mod::lemma_fundamental_div_mod(off, ci);
        vstd::arithmetic::div_mod::lemma_mod_pos_bound(off, ci);
        let e = off / ci;
        let t = off % ci;
        assert(ci * e == e * ci) by (nonlinear_arith);
        assert(0 <= e < 6) by {
            if e >= 6 {
                assert(e * ci >= 6 * ci) by (nonlinear_arith)
                    requires
                        e >= 6,
                        ci >= 1,
                ;
            }
            if e < 0 {
                assert(e * ci <= -ci) by (nonlinear_arith)
                    requires
                        e < 0,
                        ci >= 1,
                ;
            }
        }
        if e == 0 {
            assert(off == t) by (nonlinear_arith)
                requires
                    e == 0,
                    off == e * ci + t,
            ;
            assert(phi == 0 ==> y == edge_cube(ci, e, t).0);
            assert(phi == 4 ==> y == edge_cube(ci, e, t).1);
        } else if e == 1 {
            assert(off == ci + t) by (nonlinear_arith)
                requires
                    e == 1,
                    off == e * ci + t,
            ;
            assert(phi == 0 ==> y == edge_cube(ci, e, t).0);
            assert(phi == 4 ==> y == edge_cube(ci, e, t).1);
        } else if e == 2 {
            assert(off == 2 * ci + t) by (nonlinear_arith)
                requires
                    e == 2,
                    off == e * ci + t,
            ;
            assert(phi == 0 ==> y == edge_cube(ci, e, t).0);
            assert(phi == 4 ==> y == edge_cube(ci, e, t).1);
        } else if e == 3 {
            assert(off == 3 * ci + t) by (nonlinear_arith)
                requires
                    e == 3,
                    off == e * ci + t,
            ;
            assert(phi == 0 ==> y == edge_cube(ci, e, t).0);
            assert(phi == 4 ==> y == edge_cube(ci, e, t).1);
        } else if e == 4 {
            assert(off == 4 * ci + t) by (nonlinear_arith)
                requires
                    e == 4,
                    off == e * ci + t,
            ;
            assert(phi == 0 ==> y == edge_cube(ci, e, t).0);
            assert(phi == 4 ==> y == edge_cube(ci, e, t).1);
        } else {
            assert(off == 5 * ci + t) by (nonlinear_arith)
                requires
                    e == 5,
                    off == e * ci + t,
            ;
            assert(phi == 0 ==> y == edge_cube(ci, e, t).0);
            assert(phi == 4 ==> y == edge_cube(ci, e, t).1);
        }
    }
    y
}

/// Convert spiral hex coordinate x to cube coords (q,r,s).
pub fn spiral_to_cube(x: Pos) -> (c: Cube)
    requires
        x < POS_LIMIT,
    ensures
        c.view_triple() == cube_spec(x as int),
        c.q + c.r + c.s == 0,
        max_abs_spec(c.view_triple()) == ring_of(x as int),
{
    proof {
        lemma_cube_invariant(x as int);
    }
    if x == 0 {
        return Cube::default();
    }
    proof {
        lemma_limits(x as int);
        lemma_decompose(x as int);
    }
    // Find the ring index and ring-offset for this spiral.
    let ring_index = ring(x);
    proof {
        lemma_ring_offset_monotone(ring_index as int, ring_index as int + 1);
        lemma_ring_offset_step(ring_index as int);
        assert(usize::MAX as int <= 0xffff_ffff_ffff_ffff);
    }
    let ring_offset = ring_offset(ring_index);

    // Calculate q and r, and s from them.
    let q = growing_trunc_tri(x as i64, ring_index as i64, ring_offset as i64, 0);
    let r = growing_trunc_tri(x as i64, ring_index as i64, ring_offset as i64, 4);
    let s = -q - r;

    Cube::new(q, r, s)
}

/// Some addressable position has the cube coordinates `c`.
pub open spec fn has_position(c: (int, int, int)) -> bool {
    exists|x: int| 0 <= x < POS_LIMIT && #[trigger] cube_spec(x) == c
}

/// Calculate a spiral hex coordinate for an input (q,r,s) in cube coordinates.
pub fn cube_to_spiral(coord: Cube) -> (res: Result<usize, &'static str>)
    ensures
        coord.q + coord.r + coord.s != 0 ==> (res matches Err(m) && m@ == "q + r + s != 0"@),
        coord.q + coord.r + coord.s == 0 ==> (res is Ok <==> has_position(coord.view_triple())),
        coord.q + coord.r + coord.s == 0 && !has_position(coord.view_triple()) ==> (res matches Err(
            m,
        ) && m@ == "Couldn't find a solution"@),
        res matches Ok(x) ==> x < POS_LIMIT && cube_spec(x as int) == coord.view_triple(),
{
    let ghost c = coord.view_triple();
    if coord == Cube::default() {
        proof {
            assert(cube_spec(0) == c);
        }
        return Ok(0);
    }
    if coord.component_sum() != 0 {
        proof {
            reveal_strlit("q + r + s != 0");
        }
        return Err("q + r + s != 0");
    }
    let ring_index = coord.abs_largest();
    // ring_index >= 1 here: the sum is zero and the cube is not the origin.
    let k = ring_index as u128;
    proof {
        assert(coord.q != 0 || coord.r != 0 || coord.s != 0);
        assert(1 <= k <= 0x8000_0000);
        assert(3 * k * (k - 1) + 1 <= 3 * (k + 1) * k + 1 <= 3 * 0x8000_0001 * 0x8000_0000 + 1) by (nonlinear_arith)
            requires
                1 <= k <= 0x8000_0000,
        ;
        assert(0 <= 3 * k * (k - 1)) by (nonlinear_arith)
            requires
                1 <= k,
        ;
    }
    let first = 3 * k * (k - 1) + 1;
    let next = 3 * (k + 1) * k + 1;
    let limit = POS_LIMIT as u128;
    proof {
        assert(k >= 1);
        assert(first == ring_offset_spec(k as int));
        assert(next == ring_offset_spec(k as int + 1));
    }
    if first >= limit {
        proof {
            assert forall|x: int| 0 <= x < POS_LIMIT implies #[trigger] cube_spec(x) != c by {
                lemma_cube_invariant(x);
                lemma_ring_of(x);
                if cube_spec(x) == c {
                    assert(ring_of(x) == k);
                }
            }
            reveal_strlit("Couldn't find a solution");
        }
        return Err("Couldn't find a solution");
    }
    let end = if next < limit {
        next as usize
    } else {
        POS_LIMIT
    };
    let mut x = first as usize;
    while x < end
        invariant
            first <= x,
            end <= POS_LIMIT,
            end == next || end == POS_LIMIT,
            first == ring_offset_spec(k as int),
            next == ring_offset_spec(k as int + 1),
            k == max_abs_spec(c),
            c == coord.view_triple(),
            forall|y: int| first <= y < x ==> #[trigger] cube_spec(y) != c,
        decreases end - x,
    {
        let found = spiral_to_cube(x);
        if found == coord {
            return Ok(x);
        }
        x = x + 1;
    }
    proof {
        assert forall|y: int| 0 <= y < POS_LIMIT implies #[trigger] cube_spec(y) != c by {
            lemma_cube_invariant(y);
            lemma_ring_of(y);
            if cube_spec(y) == c {
                assert(ring_of(y) == k);
            }
        }
        reveal_strlit("Couldn't find a solution");
    }
    Err("Couldn't find a solution")
}

} // verus!
