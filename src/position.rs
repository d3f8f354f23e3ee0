//! Ring decomposition, neighbor enumeration and the predicates built on it.

use vstd::prelude::*;

verus! {

/// A position in the spiral; `0` is the central hex.
pub type Pos = usize;

/// The index of a ring; ring `0` is the central hex alone.
pub type RingIdx = usize;

/// Positions below this bound are addressable: the offsets of the two rings
/// beyond theirs still fit in a `usize`, and their cube components in an `i32`.
pub const POS_LIMIT: usize = usize::MAX / 4;

/// The first position of ring `k`.
pub open spec fn ring_offset_spec(k: int) -> int {
    if k <= 0 {
        0
    } else {
        3 * k * (k - 1) + 1
    }
}

/// `k` is the ring of position `p`.
pub open spec fn in_ring(p: int, k: int) -> bool {
    0 <= k && ring_offset_spec(k) <= p < ring_offset_spec(k + 1)
}

/// The ring of position `p`.
pub open spec fn ring_of(p: int) -> int {
    choose|k: int| in_ring(p, k)
}

/// Ring `k + 1` starts `6 * k` positions after ring `k` (one after the center).
pub proof fn lemma_ring_offset_step(k: int)
    requires
        k >= 0,
    ensures
        ring_offset_spec(k + 1) == ring_offset_spec(k) + if k == 0 { 1 } else { 6 * k },
{
    if k > 0 {
        assert(3 * (k + 1) * k + 1 == 3 * k * (k - 1) + 1 + 6 * k) by (nonlinear_arith);
    }
}

/// Ring offsets grow strictly with the ring index.
pub proof fn lemma_ring_offset_monotone(a: int, b: int)
    requires
        0 <= a < b,
    ensures
        ring_offset_spec(a) < ring_offset_spec(b),
    decreases b - a,
{
    lemma_ring_offset_step(b - 1);
    if a < b - 1 {
        lemma_ring_offset_monotone(a, b - 1);
    }
}

/// No two rings share a position.
pub proof fn lemma_ring_unique(p: int, j: int, k: int)
    requires
        in_ring(p, j),
        in_ring(p, k),
    ensures
        j == k,
{
    if j < k {
        lemma_ring_offset_monotone(j + 1, k);
    } else if k < j {
        lemma_ring_offset_monotone(k + 1, j);
    }
}

proof fn lemma_ring_exists_from(p: int, k: int)
    requires
        0 <= k,
        ring_offset_spec(k) <= p,
    ensures
        exists|j: int| in_ring(p, j),
    decreases p - ring_offset_spec(k),
{
    lemma_ring_offset_step(k);
    if p >= ring_offset_spec(k + 1) {
        lemma_ring_exists_from(p, k + 1);
    } else {
        assert(in_ring(p, k));
    }
}

/// Every position lies on exactly one ring, the one that `ring_of` names.
pub proof fn lemma_ring_of(p: int)
    requires
        0 <= p,
    ensures
        in_ring(p, ring_of(p)),
        forall|k: int| #[trigger] in_ring(p, k) ==> k == ring_of(p),
{
    lemma_ring_exists_from(p, 0);
    assert forall|k: int| #[trigger] in_ring(p, k) implies k == ring_of(p) by {
        lemma_ring_unique(p, k, ring_of(p));
    }
}

/// The starting position of hexes within the ring with the given index.
pub fn ring_offset(ring: RingIdx) -> (r: Pos)
    requires
        ring_offset_spec(ring as int) <= usize::MAX,
    ensures
        r as int == ring_offset_spec(ring as int),
        ring >= 1 ==> r as int == 3 * ring * (ring - 1) + 1,
{
    if ring == 0 {
        0
    } else {
        let below: usize = ring - 1;
        proof {
            assert(3 * below * ring == 3 * ring * (ring - 1)) by (nonlinear_arith)
                requires
                    below == ring - 1,
            ;
            assert(0 <= 3 * below <= 3 * below * ring) by (nonlinear_arith)
                requires
                    ring >= 1,
                    below >= 0,
            ;
        }
        3 * below * ring + 1
    }
}

/// Below the limit, the ring, the offsets of the two rings after it and the
/// ring index itself stay within machine bounds.
pub proof fn lemma_limits(p: int)
    requires
        0 <= p < POS_LIMIT,
    ensures
        ring_offset_spec(ring_of(p) + 2) <= usize::MAX,
        ring_of(p) < 0x7fff_ffff,
        ring_offset_spec(ring_of(p) + 1) <= usize::MAX,
{
    lemma_ring_of(p);
    let k = ring_of(p);
    let m = usize::MAX as int;
    assert(m == 0xffff_ffff || m == 0xffff_ffff_ffff_ffff);
    assert(ring_offset_spec(k) < m / 4);
    if k >= 0x7fff_ffff {
        assert(3 * k * (k - 1) + 1 >= 3 * 0x7fff_ffff * 0x7fff_fffe + 1) by (nonlinear_arith)
            requires
                k >= 0x7fff_ffff,
        ;
    }
    lemma_ring_offset_step(k);
    lemma_ring_offset_step(k + 1);
    if k >= 2 {
        assert(3 * k * (k - 1) + 1 + 12 * k + 6 <= 2 * (3 * k * (k - 1) + 1) + 50) by (nonlinear_arith)
            requires
                k >= 2,
        ;
    }
}

/// The index of the ring for the given position.
pub fn ring(pos: Pos) -> (r: RingIdx)
    requires
        pos < POS_LIMIT || ring_offset_spec(ring_of(pos as int) + 1) <= usize::MAX,
    ensures
        in_ring(pos as int, r as int),
        r as int == ring_of(pos as int),
        r < usize::MAX,
{
    proof {
        lemma_ring_of(pos as int);
        if pos < POS_LIMIT {
            lemma_limits(pos as int);
        }
        let big = ring_of(pos as int);
        assert(big < ring_offset_spec(big + 1)) by (nonlinear_arith)
            requires
                big >= 0,
                ring_offset_spec(big + 1) == 3 * (big + 1) * big + 1,
        ;
    }
    let mut k: usize = 0;
    while ring_offset(k + 1) <= pos
        invariant
            ring_of(pos as int) < usize::MAX,
            0 <= k <= ring_of(pos as int),
            ring_offset_spec(k + 1) <= usize::MAX,
            in_ring(pos as int, ring_of(pos as int)),
            ring_offset_spec(ring_of(pos as int) + 1) <= usize::MAX,
        decreases ring_of(pos as int) - k,
    {
        proof {
            if k == ring_of(pos as int) {
            } else {
                lemma_ring_offset_monotone(k + 1, ring_of(pos as int) + 1);
                if k + 2 < ring_of(pos as int) + 1 {
                    lemma_ring_offset_monotone(k + 2, ring_of(pos as int) + 1);
                }
            }
        }
        k = k + 1;
    }
    proof {
        if k < ring_of(pos as int) {
            if k + 1 < ring_of(pos as int) {
                lemma_ring_offset_monotone(k + 1, ring_of(pos as int));
            }
        }
    }
    k
}

/// The edge of its ring that position `p` lies on; `0` is the top edge.
pub open spec fn edge_of(p: int) -> int {
    let k = ring_of(p);
    if k == 0 {
        0
    } else {
        (p - ring_offset_spec(k)) / k
    }
}

/// How many steps position `p` lies past the tip that starts its edge.
pub open spec fn step_of(p: int) -> int {
    let k = ring_of(p);
    if k == 0 {
        0
    } else {
        (p - ring_offset_spec(k)) % k
    }
}

/// Position `p` is a tip of its ring (the center counts as its own tip).
pub open spec fn is_tip(p: int) -> bool {
    step_of(p) == 0
}

/// A position off the center is its ring's offset, plus whole edges, plus a
/// step along the edge it lies on.
pub proof fn lemma_decompose(p: int)
    requires
        1 <= p,
    ensures
        ring_of(p) >= 1,
        0 <= edge_of(p) < 6,
        0 <= step_of(p) < ring_of(p),
        p == ring_offset_spec(ring_of(p)) + edge_of(p) * ring_of(p) + step_of(p),
{
    lemma_ring_of(p);
    let k = ring_of(p);
    if k == 0 {
        assert(false);
    }
    lemma_ring_offset_step(k);
    let rp = p - ring_offset_spec(k);
    vstd::arithmetic::div_mod::lemma_fundamental_div_mod(rp, k);
    vstd::arithmetic::div_mod::lemma_mod_pos_bound(rp, k);
    let e = rp / k;
    let t = rp % k;
    assert(k * e == e * k) by (nonlinear_arith);
    if e >= 6 {
        assert(e * k >= 6 * k) by (nonlinear_arith)
            requires
                e >= 6,
                k >= 1,
        ;
    }
    if e < 0 {
        assert(e * k <= -k) by (nonlinear_arith)
            requires
                e < 0,
                k >= 1,
        ;
    }
}

/// Returns `true` if the given position is at one of the tips of a ring.
pub fn is_at_ring_tip(pos: Pos) -> (r: bool)
    requires
        pos < POS_LIMIT || ring_offset_spec(ring_of(pos as int) + 1) <= usize::MAX,
    ensures
        r == is_tip(pos as int),
{
    proof {
        if pos < POS_LIMIT {
            lemma_limits(pos as int);
        }
    }
    let ring = ring(pos);
    if ring == 0 {
        return true;
    }
    proof {
        lemma_ring_offset_monotone(ring as int, ring as int + 1);
    }
    let ring_offset = ring_offset(ring);
    (pos - ring_offset) % ring == 0
}

/// Returns the index of the edge of the ring the given position belongs to.
pub fn ring_edge_index(pos: Pos) -> (r: usize)
    requires
        pos >= 1,
        pos < POS_LIMIT || ring_offset_spec(ring_of(pos as int) + 1) <= usize::MAX,
    ensures
        r as int == edge_of(pos as int),
        r < 6,
{
    proof {
        if pos < POS_LIMIT {
            lemma_limits(pos as int);
        }
    }
    proof {
        lemma_decompose(pos as int);
    }
    let ring = ring(pos);
    proof {
        lemma_ring_offset_monotone(ring as int, ring as int + 1);
    }
    (pos - ring_offset(ring)) / ring
}

/// The two neighbors of `p` on its own ring, predecessor first, wrapping at
/// the ring's ends.
pub open spec fn ring_neighbors_spec(p: int) -> (int, int) {
    let k = ring_of(p);
    if p == ring_offset_spec(k) {
        (ring_offset_spec(k + 1) - 1, p + 1)
    } else if p == ring_offset_spec(k + 1) - 1 {
        (p - 1, ring_offset_spec(k))
    } else {
        (p - 1, p + 1)
    }
}

/// The outer-ring tip that faces tip `p`.
pub open spec fn upper_tip(p: int) -> int {
    let k = ring_of(p);
    if p == ring_offset_spec(k + 1) - 1 {
        ring_offset_spec(k + 2) - 2
    } else {
        ring_offset_spec(k + 1) + (k + 1) * edge_of(p)
    }
}

/// The neighbors of a tip `p` off the center, in the order of its edge.
pub open spec fn tip_base_neighbors(p: int) -> Seq<int> {
    let k = ring_of(p);
    let lower = ring_offset_spec(k - 1) + (k - 1) * edge_of(p);
    let same = ring_neighbors_spec(p);
    let upper = upper_tip(p);
    let up = ring_neighbors_spec(upper);
    seq![upper, up.1, same.1, lower, same.0, up.0]
}

/// The neighbors of an edge position `p` (not a tip), in the order of its
/// edge: two on the outer ring, the successor, two on the inner ring, the
/// predecessor.
pub open spec fn edge_base_neighbors(p: int) -> Seq<int> {
    let k = ring_of(p);
    let e = edge_of(p);
    let t = step_of(p);
    let last = p == ring_offset_spec(k + 1) - 1;
    let lower1 = if last {
        ring_offset_spec(k) - 1
    } else {
        ring_offset_spec(k - 1) + e * (k - 1) + t - 1
    };
    let lower2 = if last {
        ring_offset_spec(k - 1)
    } else {
        lower1 + 1
    };
    let same = ring_neighbors_spec(p);
    let upper1 = ring_offset_spec(k + 1) + e * (k + 1) + t;
    seq![upper1, upper1 + 1, same.1, lower2, lower1, same.0]
}

/// `s` rotated right by `n`: the item at index `i` moves to index `i + n`.
pub open spec fn rotate_right_spec(s: Seq<int>, n: int) -> Seq<int> {
    Seq::new(s.len(), |i: int| s[(i + s.len() - n) % (s.len() as int)])
}

/// The six neighbors of `p` clockwise from the top.
#[verifier::opaque]
pub open spec fn neighbors_spec(p: int) -> Seq<int> {
    if ring_of(p) == 0 {
        seq![1, 2, 3, 4, 5, 6]
    } else if is_tip(p) {
        rotate_right_spec(tip_base_neighbors(p), edge_of(p))
    } else {
        rotate_right_spec(edge_base_neighbors(p), edge_of(p))
    }
}

proof fn lemma_neighbors_len(p: int)
    ensures
        neighbors_spec(p).len() == 6,
{
    reveal(neighbors_spec);
}

/// Off the center, the neighbors of a position are the order of its edge
/// (the tip order for a tip) rotated right by its edge index.
pub proof fn lemma_neighbors_rotated(p: int)
    requires
        1 <= p,
    ensures
        is_tip(p) ==> neighbors_spec(p) == rotate_right_spec(tip_base_neighbors(p), edge_of(p)),
        !is_tip(p) ==> neighbors_spec(p) == rotate_right_spec(edge_base_neighbors(p), edge_of(p)),
        forall|i: int|
            0 <= i < 6 ==> #[trigger] neighbors_spec(p)[(i + edge_of(p)) % 6] == if is_tip(p) {
                tip_base_neighbors(p)[i]
            } else {
                edge_base_neighbors(p)[i]
            },
{
    reveal(neighbors_spec);
    lemma_decompose(p);
}

/// Position `b` is one of the six neighbors of position `a`.
pub open spec fn are_neighbors_spec(a: int, b: int) -> bool {
    neighbors_spec(a).contains(b)
}

/// Position `p` sits in ring `k` when it lies between that ring's bounds.
proof fn lemma_ring_is(p: int, k: int)
    requires
        in_ring(p, k),
    ensures
        ring_of(p) == k,
{
    lemma_ring_of(p);
}

/// Returns the two neighbors of the given position on its own ring,
/// predecessor first.
pub fn ring_neighboring_positions(pos: Pos) -> (r: [Pos; 2])
    requires
        pos >= 1,
        pos < POS_LIMIT || ring_offset_spec(ring_of(pos as int) + 1) <= usize::MAX,
    ensures
        r[0] as int == ring_neighbors_spec(pos as int).0,
        r[1] as int == ring_neighbors_spec(pos as int).1,
{
    proof {
        if pos < POS_LIMIT {
            lemma_limits(pos as int);
        }
    }
    let ring = ring(pos);
    proof {
        lemma_ring_offset_monotone(ring as int, ring as int + 1);
    }
    if pos == ring_offset(ring) {
        [ring_offset(ring + 1) - 1, pos + 1]
    } else if pos == ring_offset(ring + 1) - 1 {
        [pos - 1, ring_offset(ring)]
    } else {
        [pos - 1, pos + 1]
    }
}

/// `a` rotated right by `n`.
fn rotated_right(a: [Pos; 6], n: usize) -> (r: [Pos; 6])
    requires
        n < 6,
    ensures
        forall|i: int| 0 <= i < 6 ==> r[i] == a[(i + 6 - n) % 6],
{
    [a[(6 - n) % 6], a[(7 - n) % 6], a[(8 - n) % 6], a[(9 - n) % 6], a[(10 - n) % 6], a[(11 - n) % 6]]
}

/// Returns the 6 neighbors of the given position, always in the same clockwise order.
pub fn neighboring_positions(pos: Pos) -> (r: [Pos; 6])
    requires
        pos < POS_LIMIT,
    ensures
        forall|i: int| 0 <= i < 6 ==> r[i] as int == #[trigger] neighbors_spec(pos as int)[i],
{
    proof {
        lemma_limits(pos as int);
        lemma_ring_of(pos as int);
        reveal(neighbors_spec);
    }
    let ring = ring(pos);
    if ring == 0 {
        return [1, 2, 3, 4, 5, 6];
    }
    proof {
        lemma_decompose(pos as int);
        lemma_ring_offset_step(ring as int);
        lemma_ring_offset_step(ring as int + 1);
        lemma_ring_offset_step(ring as int - 1);
    }
    let edge_index = ring_edge_index(pos);
    let k = ring;
    let e = edge_index;
    proof {
        assert(0 <= (k - 1) * e <= 5 * (k - 1)) by (nonlinear_arith)
            requires
                0 <= e < 6,
                k >= 1,
        ;
        assert(0 <= (k + 1) * e <= 5 * (k + 1)) by (nonlinear_arith)
            requires
                0 <= e < 6,
                k >= 1,
        ;
        assert(e * k <= 5 * k) by (nonlinear_arith)
            requires
                0 <= e < 6,
                k >= 1,
        ;
        assert((k - 1) * e == e * (k - 1) && (k + 1) * e == e * (k + 1)) by (nonlinear_arith);
    }
    let poss = if is_at_ring_tip(pos) {
        let lower_neighbor = ring_offset(ring - 1) + (ring - 1) * edge_index;
        let ring_neighbors = ring_neighboring_positions(pos);
        let upper_tip_neighbor = if pos == ring_offset(ring + 1) - 1 {
            ring_offset(ring + 2) - 2
        } else {
            ring_offset(ring + 1) + (ring + 1) * edge_index
        };
        proof {
            assert(upper_tip_neighbor as int == upper_tip(pos as int));
            lemma_ring_is(upper_tip_neighbor as int, ring as int + 1);
        }
        let upper_tip_neighbors = ring_neighboring_positions(upper_tip_neighbor);
        [
            upper_tip_neighbor,
            upper_tip_neighbors[1],
            ring_neighbors[1],
            lower_neighbor,
            ring_neighbors[0],
            upper_tip_neighbors[0],
        ]
    } else {
        let ring_pos = pos - ring_offset(ring);
        let tip_offset = ring_pos - (edge_index * ring);
        let (lower_neighbor1, lower_neighbor2) = if pos == ring_offset(ring + 1) - 1 {
            (ring_offset(ring) - 1, ring_offset(ring - 1))
        } else {
            let lower_neighbor1 = ring_offset(ring - 1) + (edge_index * (ring - 1)) + tip_offset
                - 1;
            (lower_neighbor1, lower_neighbor1 + 1)
        };
        let ring_neighbors = ring_neighboring_positions(pos);
        let upper_neighbor1 = ring_offset(ring + 1) + (edge_index * (ring + 1)) + tip_offset;
        let upper_neighbor2 = upper_neighbor1 + 1;
        [
            upper_neighbor1,
            upper_neighbor2,
            ring_neighbors[1],
            lower_neighbor2,
            lower_neighbor1,
            ring_neighbors[0],
        ]
    };
    proof {
        let b = if is_tip(pos as int) {
            tip_base_neighbors(pos as int)
        } else {
            edge_base_neighbors(pos as int)
        };
        assert(forall|i: int| 0 <= i < 6 ==> poss[i] as int == b[i]);
    }
    rotated_right(poss, edge_index)
}

/// Returns `true` if the given 2 positions are neighbors.
pub fn are_neighbors(pos1: Pos, pos2: Pos) -> (r: bool)
    requires
        pos1 < POS_LIMIT,
    ensures
        r == are_neighbors_spec(pos1 as int, pos2 as int),
{
    let poss = neighboring_positions(pos1);
    proof {
        lemma_neighbors_len(pos1 as int);
    }
    let mut i: usize = 0;
    while i < 6
        invariant
            0 <= i <= 6,
            neighbors_spec(pos1 as int).len() == 6,
            forall|j: int| 0 <= j < 6 ==> poss[j] as int == #[trigger] neighbors_spec(pos1 as int)[j],
            forall|j: int| 0 <= j < i ==> poss[j] != pos2,
        decreases 6 - i,
    {
        if poss[i] == pos2 {
            proof {
                assert(neighbors_spec(pos1 as int)[i as int] == pos2 as int);
            }
            return true;
        }
        i = i + 1;
    }
    proof {
        if neighbors_spec(pos1 as int).contains(pos2 as int) {
            let j = choose|j: int| 0 <= j < neighbors_spec(pos1 as int).len() && neighbors_spec(pos1 as int)[j] == pos2 as int;
            assert(poss[j] as int == neighbors_spec(pos1 as int)[j]);
        }
    }
    false
}

/// Every two consecutive items of `s` are neighbors.
pub open spec fn is_path_spec(s: Seq<int>) -> bool {
    forall|i: int| 0 <= i < s.len() - 1 ==> are_neighbors_spec(#[trigger] s[i], s[i + 1])
}

/// The positions of `s` as integers.
pub open spec fn as_ints(s: Seq<Pos>) -> Seq<int> {
    s.map_values(|p: Pos| p as int)
}

/// Returns `true` if the given list of positions consists of subsequent neighbors.
pub fn is_path_consistent(poss: &[Pos]) -> (r: bool)
    requires
        poss@.len() >= 2,
        forall|i: int| 0 <= i < poss@.len() ==> poss@[i] < POS_LIMIT,
    ensures
        r == is_path_spec(as_ints(poss@)),
{
    let mut i: usize = 0;
    while i < poss.len() - 1
        invariant
            poss@.len() >= 2,
            forall|j: int| 0 <= j < poss@.len() ==> poss@[j] < POS_LIMIT,
            0 <= i < poss@.len(),
            forall|j: int|
                0 <= j < i ==> are_neighbors_spec(#[trigger] as_ints(poss@)[j], as_ints(poss@)[j + 1]),
        decreases poss@.len() - i,
    {
        if !are_neighbors(poss[i], poss[i + 1]) {
            proof {
                assert(!are_neighbors_spec(as_ints(poss@)[i as int], as_ints(poss@)[i + 1]));
            }
            return false;
        }
        i = i + 1;
    }
    true
}

/// The positions that a walk from `start` in direction `dir` reaches in its
/// first `n` steps, the start itself left out.
pub open spec fn walk_spec(start: int, dir: int, n: nat) -> Seq<int>
    decreases n,
{
    if n == 0 {
        seq![]
    } else {
        let before = walk_spec(start, dir, (n - 1) as nat);
        let from = if n == 1 {
            start
        } else {
            before.last()
        };
        before.push(neighbors_spec(from)[dir])
    }
}

/// A walk in a fixed direction is a path: every window of two or more of the
/// positions it yields consists of subsequent neighbors.
pub proof fn lemma_walk_is_path(start: int, dir: int, n: nat, lo: int, hi: int)
    requires
        0 <= dir < 6,
        0 <= lo,
        lo + 2 <= hi <= n,
    ensures
        walk_spec(start, dir, n).len() == n,
        is_path_spec(walk_spec(start, dir, n).subrange(lo, hi)),
    decreases n,
{
    lemma_walk_prefix(start, dir, n);
    let w = walk_spec(start, dir, n);
    assert forall|i: int| 0 <= i < w.len() - 1 implies are_neighbors_spec(#[trigger] w[i], w[i + 1]) by {
        lemma_walk_prefix(start, dir, (i + 2) as nat);
        lemma_walk_keeps(start, dir, (i + 2) as nat, n);
        let v = walk_spec(start, dir, (i + 2) as nat);
        assert(v[i + 1] == neighbors_spec(v[i])[dir]);
        lemma_neighbors_len(v[i]);
    }
    let sub = w.subrange(lo, hi);
    assert forall|i: int| 0 <= i < sub.len() - 1 implies are_neighbors_spec(#[trigger] sub[i], sub[i + 1]) by {
        assert(sub[i] == w[lo + i]);
    }
}

proof fn lemma_walk_prefix(start: int, dir: int, n: nat)
    ensures
        walk_spec(start, dir, n).len() == n,
    decreases n,
{
    if n > 0 {
        lemma_walk_prefix(start, dir, (n - 1) as nat);
    }
}

proof fn lemma_walk_keeps(start: int, dir: int, m: nat, n: nat)
    requires
        m <= n,
    ensures
        forall|i: int| 0 <= i < m ==> walk_spec(start, dir, n)[i] == #[trigger] walk_spec(start, dir, m)[i],
    decreases n - m,
{
    lemma_walk_prefix(start, dir, m);
    lemma_walk_prefix(start, dir, n);
    if m < n {
        lemma_walk_keeps(start, dir, m, (n - 1) as nat);
        lemma_walk_prefix(start, dir, (n - 1) as nat);
    }
}

/// An iterator returning subsequent neighboring positions in the given direction.
/// The top direction is `0`, and it increases up to `5` clockwise.
pub struct DirectionalNeighborIter {
    curr_pos: Pos,
    dir: usize,
}

impl DirectionalNeighborIter {
    /// The position the walk is at.
    pub closed spec fn pos_spec(&self) -> int {
        self.curr_pos as int
    }

    /// The direction of the walk.
    pub closed spec fn dir_spec(&self) -> int {
        self.dir as int
    }

    /// Create a new `DirectionalNeighborIter` starting at the given position
    /// and progressing in the chosen direction.
    pub fn new(pos: Pos, dir: usize) -> (r: Self)
        requires
            dir <= 5,
        ensures
            r.pos_spec() == pos,
            r.dir_spec() == dir,
    {
        Self { curr_pos: pos, dir }
    }

    /// Returns the position the `DirectionalNeighborIter` is currently at.
    pub fn curr_pos(&self) -> (r: Pos)
        ensures
            r == self.pos_spec(),
    {
        self.curr_pos
    }

    /// Steps to the neighbor in the walk's direction and returns it.
    pub fn next(&mut self) -> (r: Option<Pos>)
        requires
            old(self).dir_spec() <= 5,
            old(self).pos_spec() < POS_LIMIT,
        ensures
            final(self).dir_spec() == old(self).dir_spec(),
            final(self).pos_spec() == neighbors_spec(old(self).pos_spec())[old(self).dir_spec()],
            r matches Some(n) && n as int == final(self).pos_spec(),
    {
        let next = neighboring_positions(self.curr_pos)[self.dir];
        self.curr_pos = next;
        Some(next)
    }
}

/// Positions `a` and `b` are neighbors, one way or the other.
pub open spec fn linked(a: int, b: int) -> bool {
    are_neighbors_spec(a, b) || are_neighbors_spec(b, a)
}

/// `w` is a walk of linked positions, each of them an item of `s`.
pub open spec fn is_walk_in(s: Seq<int>, w: Seq<int>) -> bool {
    &&& w.len() >= 1
    &&& forall|i: int| 0 <= i < w.len() ==> s.contains(#[trigger] w[i])
    &&& forall|i: int| 0 <= i < w.len() - 1 ==> linked(#[trigger] w[i], w[i + 1])
}

/// A walk within `s` leads from `a` to `b`.
pub open spec fn connected_in(s: Seq<int>, a: int, b: int) -> bool {
    exists|w: Seq<int>| #[trigger] is_walk_in(s, w) && w[0] == a && w.last() == b
}

/// The positions of `s` form one connected group: a walk within `s` leads
/// from each of them to each other one.
pub open spec fn grouped_spec(s: Seq<int>) -> bool {
    forall|a: int, b: int|
        #![trigger connected_in(s, a, b)]
        s.contains(a) && s.contains(b) && a != b ==> connected_in(s, a, b)
}

proof fn lemma_walk_extend(s: Seq<int>, w: Seq<int>, b: int)
    requires
        is_walk_in(s, w),
        s.contains(b),
        linked(w.last(), b),
    ensures
        is_walk_in(s, w.push(b)),
{
    let v = w.push(b);
    assert forall|i: int| 0 <= i < v.len() implies s.contains(#[trigger] v[i]) by {
        if i < w.len() {
            assert(v[i] == w[i]);
        }
    }
    assert forall|i: int| 0 <= i < v.len() - 1 implies linked(#[trigger] v[i], v[i + 1]) by {
        assert(v[i] == w[i]);
        if i + 1 < w.len() {
            assert(v[i + 1] == w[i + 1]);
        }
    }
}

proof fn lemma_walk_reverse(s: Seq<int>, w: Seq<int>)
    requires
        is_walk_in(s, w),
    ensures
        is_walk_in(s, w.reverse()),
        w.reverse()[0] == w.last(),
        w.reverse().last() == w[0],
{
    let v = w.reverse();
    assert forall|i: int| 0 <= i < v.len() implies s.contains(#[trigger] v[i]) by {
        assert(v[i] == w[w.len() - 1 - i]);
    }
    assert forall|i: int| 0 <= i < v.len() - 1 implies linked(#[trigger] v[i], v[i + 1]) by {
        assert(v[i] == w[w.len() - 1 - i]);
        assert(v[i + 1] == w[w.len() - 2 - i]);
        assert(linked(w[w.len() - 2 - i], w[w.len() - 2 - i + 1]));
    }
}

proof fn lemma_walk_join(s: Seq<int>, u: Seq<int>, w: Seq<int>)
    requires
        is_walk_in(s, u),
        is_walk_in(s, w),
        u.last() == w[0],
    ensures
        is_walk_in(s, u + w.subrange(1, w.len() as int)),
        (u + w.subrange(1, w.len() as int))[0] == u[0],
        (u + w.subrange(1, w.len() as int)).last() == w.last(),
{
    let t = w.subrange(1, w.len() as int);
    let v = u + t;
    assert forall|i: int| 0 <= i < v.len() implies s.contains(#[trigger] v[i]) by {
        if i < u.len() {
            assert(v[i] == u[i]);
        } else {
            assert(v[i] == w[i - u.len() + 1]);
        }
    }
    assert forall|i: int| 0 <= i < v.len() - 1 implies linked(#[trigger] v[i], v[i + 1]) by {
        if i + 1 < u.len() {
            assert(v[i] == u[i]);
            assert(v[i + 1] == u[i + 1]);
        } else if i + 1 == u.len() {
            assert(v[i] == w[0]);
            assert(v[i + 1] == w[1]);
        } else {
            assert(v[i] == w[i - u.len() + 1]);
            assert(v[i + 1] == w[i - u.len() + 2]);
        }
    }
    if w.len() > 1 {
        assert(v.last() == w[w.len() - 1]);
    }
}

/// Two positions that a walk reaches from a common one are joined by a walk.
proof fn lemma_connected_through(s: Seq<int>, x: int, a: int, b: int)
    requires
        connected_in(s, x, a),
        connected_in(s, x, b),
    ensures
        connected_in(s, a, b),
{
    let u = choose|w: Seq<int>| #[trigger] is_walk_in(s, w) && w[0] == x && w.last() == a;
    let w = choose|w: Seq<int>| #[trigger] is_walk_in(s, w) && w[0] == x && w.last() == b;
    lemma_walk_reverse(s, u);
    lemma_walk_join(s, u.reverse(), w);
    assert(is_walk_in(s, u.reverse() + w.subrange(1, w.len() as int)));
}

/// The number of `true` items of `s`.
pub open spec fn num_true(s: Seq<bool>) -> nat
    decreases s.len(),
{
    if s.len() == 0 {
        0
    } else {
        num_true(s.drop_last()) + if s.last() {
            1nat
        } else {
            0nat
        }
    }
}

proof fn lemma_num_true_le(s: Seq<bool>)
    ensures
        num_true(s) <= s.len(),
    decreases s.len(),
{
    if s.len() > 0 {
        lemma_num_true_le(s.drop_last());
    }
}

proof fn lemma_num_true_set(s: Seq<bool>, i: int)
    requires
        0 <= i < s.len(),
        !s[i],
    ensures
        num_true(s.update(i, true)) == num_true(s) + 1,
    decreases s.len(),
{
    let t = s.update(i, true);
    if i == s.len() - 1 {
        assert(t.drop_last() =~= s.drop_last());
    } else {
        assert(t.drop_last() =~= s.drop_last().update(i, true));
        lemma_num_true_set(s.drop_last(), i);
    }
}

/// The marked items of `s` are closed under equal values and links.
pub open spec fn closed_marks(s: Seq<int>, marks: Seq<bool>) -> bool {
    forall|u: int, v: int|
        0 <= u < s.len() && 0 <= v < s.len() && #[trigger] marks[u] && (s[u] == s[v] || linked(
            s[u],
            #[trigger] s[v],
        )) ==> marks[v]
}

/// A walk from a marked item stays on marked items when the marks are closed.
proof fn lemma_closed_marks_walk(s: Seq<int>, marks: Seq<bool>, w: Seq<int>, u: int)
    requires
        marks.len() == s.len(),
        closed_marks(s, marks),
        is_walk_in(s, w),
        0 <= u < s.len(),
        marks[u],
        w[0] == s[u],
    ensures
        forall|m: int| 0 <= m < s.len() && s[m] == w.last() ==> #[trigger] marks[m],
    decreases w.len(),
{
    if w.len() == 1 {
        assert forall|m: int| 0 <= m < s.len() && s[m] == w.last() implies #[trigger] marks[m] by {
            assert(marks[u] && s[u] == s[m]);
        }
    } else {
        let v = w.drop_last();
        assert(is_walk_in(s, v)) by {
            assert forall|i: int| 0 <= i < v.len() implies s.contains(#[trigger] v[i]) by {
                assert(v[i] == w[i]);
            }
            assert forall|i: int| 0 <= i < v.len() - 1 implies linked(#[trigger] v[i], v[i + 1]) by {
                assert(v[i] == w[i]);
                assert(v[i + 1] == w[i + 1]);
            }
        }
        lemma_closed_marks_walk(s, marks, v, u);
        assert(s.contains(v.last()));
        let j = choose|j: int| 0 <= j < s.len() && s[j] == v.last();
        assert(marks[j]);
        assert(linked(w[w.len() - 2], w[w.len() - 1]));
        assert forall|m: int| 0 <= m < s.len() && s[m] == w.last() implies #[trigger] marks[m] by {
            assert(linked(s[j], s[m]));
        }
    }
}

/// Returns `true` if the given positions form one connected group of neighbors.
pub fn are_grouped(poss: &[Pos]) -> (r: bool)
    requires
        forall|i: int| 0 <= i < poss@.len() ==> poss@[i] < POS_LIMIT,
    ensures
        r == grouped_spec(as_ints(poss@)),
{
    let n = poss.len();
    let ghost s = as_ints(poss@);
    if n == 0 {
        return true;
    }
    let mut visited: Vec<bool> = Vec::new();
    let mut i: usize = 0;
    while i < n
        invariant
            0 <= i <= n,
            visited@.len() == i,
            forall|j: int| 0 <= j < i ==> !visited@[j],
            num_true(visited@) == 0,
        decreases n - i,
    {
        proof {
            assert(visited@.push(false).drop_last() =~= visited@);
        }
        visited.push(false);
        i = i + 1;
    }
    proof {
        lemma_num_true_set(visited@, 0);
        let w = seq![s[0]];
        assert(is_walk_in(s, w));
        assert(connected_in(s, s[0], s[0]));
    }
    visited.set(0, true);
    let mut order: Vec<usize> = Vec::new();
    order.push(0);
    proof {
        assert forall|v: int| 0 <= v < n && #[trigger] visited@[v] implies order@.contains(v as usize) by {
            if v == 0 {
                assert(order@[0] == 0usize);
            }
        }
    }
    let mut head: usize = 0;
    while head < order.len()
        invariant
            n == poss@.len(),
            n >= 1,
            s == as_ints(poss@),
            forall|j: int| 0 <= j < poss@.len() ==> poss@[j] < POS_LIMIT,
            visited@.len() == n,
            visited@[0],
            0 <= head <= order@.len(),
            order@.len() == num_true(visited@),
            forall|k: int| 0 <= k < order@.len() ==> #[trigger] order@[k] < n && visited@[order@[k] as int],
            forall|v: int| 0 <= v < n && #[trigger] visited@[v] ==> order@.contains(v as usize),
            forall|v: int| 0 <= v < n && #[trigger] visited@[v] ==> connected_in(s, s[0], s[v]),
            forall|k: int, v: int|
                #![trigger order@[k], visited@[v]]
                0 <= k < head && 0 <= v < n && (s[order@[k] as int] == s[v] || linked(
                    s[order@[k] as int],
                    s[v],
                )) ==> visited@[v],
        decreases n - head,
    {
        proof {
            lemma_num_true_le(visited@);
        }
        let u = order[head];
        let mut v: usize = 0;
        while v < n
            invariant
                n == poss@.len(),
                n >= 1,
                s == as_ints(poss@),
                forall|j: int| 0 <= j < poss@.len() ==> poss@[j] < POS_LIMIT,
                visited@.len() == n,
                visited@[0],
                0 <= head < order@.len(),
                u == order@[head as int],
                u < n,
                visited@[u as int],
                0 <= v <= n,
                order@.len() == num_true(visited@),
                forall|k: int| 0 <= k < order@.len() ==> #[trigger] order@[k] < n && visited@[order@[k] as int],
                forall|x: int| 0 <= x < n && #[trigger] visited@[x] ==> order@.contains(x as usize),
                forall|x: int| 0 <= x < n && #[trigger] visited@[x] ==> connected_in(s, s[0], s[x]),
                forall|k: int, x: int|
                    #![trigger order@[k], visited@[x]]
                    0 <= k < head && 0 <= x < n && (s[order@[k] as int] == s[x] || linked(
                        s[order@[k] as int],
                        s[x],
                    )) ==> visited@[x],
                forall|x: int|
                    0 <= x < v && (s[u as int] == s[x] || linked(s[u as int], #[trigger] s[x]))
                        ==> visited@[x],
            decreases n - v,
        {
            if !visited[v] {
                let a = poss[u];
                let b = poss[v];
                if a == b || are_neighbors(a, b) || are_neighbors(b, a) {
                    proof {
                        lemma_num_true_set(visited@, v as int);
                        assert(s[u as int] == a && s[v as int] == b);
                        assert(connected_in(s, s[0], s[u as int]));
                        if a != b {
                            let w = choose|w: Seq<int>| #[trigger] is_walk_in(s, w) && w[0] == s[0] && w.last() == s[u as int];
                            assert(s.contains(s[v as int]));
                            lemma_walk_extend(s, w, s[v as int]);
                            assert(w.push(s[v as int])[0] == s[0]);
                        }
                        assert(connected_in(s, s[0], s[v as int]));
                    }
                    let ghost old_order = order@;
                    let ghost old_visited = visited@;
                    visited.set(v, true);
                    order.push(v);
                    proof {
                        assert(order@.last() == v);
                        assert forall|x: int| 0 <= x < n && #[trigger] visited@[x] implies order@.contains(x as usize) by {
                            if x != v {
                                assert(old_visited[x]);
                                assert(old_order.contains(x as usize));
                                let k = choose|k: int| 0 <= k < old_order.len() && old_order[k] == x as usize;
                                assert(order@[k] == x as usize);
                            } else {
                                assert(order@[order@.len() - 1] == v);
                            }
                        }
                    }
                }
            }
            v = v + 1;
        }
        head = head + 1;
    }
    proof {
        assert(closed_marks(s, visited@)) by {
            assert forall|a: int, b: int|
                0 <= a < s.len() && 0 <= b < s.len() && #[trigger] visited@[a] && (s[a] == s[b] || linked(
                    s[a],
                    #[trigger] s[b],
                )) implies visited@[b] by {
                let k = choose|k: int| 0 <= k < order@.len() && order@[k] == a as usize;
                assert(order@[k] as int == a);
            }
        }
    }
    let mut j: usize = 0;
    while j < n
        invariant
            n == poss@.len(),
            n >= 1,
            s == as_ints(poss@),
            visited@.len() == n,
            visited@[0],
            closed_marks(s, visited@),
            0 <= j <= n,
            forall|x: int| 0 <= x < j ==> visited@[x],
        decreases n - j,
    {
        if !visited[j] {
            proof {
                assert(s[0] != s[j as int]) by {
                    if s[0] == s[j as int] {
                        assert(visited@[0] && (s[0] == s[j as int] || linked(s[0], s[j as int])));
                    }
                }
                if connected_in(s, s[0], s[j as int]) {
                    let w = choose|w: Seq<int>| #[trigger] is_walk_in(s, w) && w[0] == s[0] && w.last() == s[j as int];
                    lemma_closed_marks_walk(s, visited@, w, 0);
                }
                assert(s.contains(s[0]) && s.contains(s[j as int]));
                assert(!connected_in(s, s[0], s[j as int]));
            }
            return false;
        }
        j = j + 1;
    }
    proof {
        assert forall|a: int, b: int|
            #![trigger connected_in(s, a, b)]
            s.contains(a) && s.contains(b) && a != b implies connected_in(s, a, b) by {
            let x = choose|x: int| 0 <= x < s.len() && s[x] == a;
            let y = choose|y: int| 0 <= y < s.len() && s[y] == b;
            assert(visited@[x] && visited@[y]);
            lemma_connected_through(s, s[0], a, b);
        }
    }
    true
}

} // verus!
