//! Rooms of a plan, found as the faces of its wall graph.
//!
//! The walls are split at every point where another wall touches them; the
//! pieces become the links of a graph whose vertices are the distinct corner
//! points. Each link gives two directed edges. A room is found by walking
//! from an unvisited directed edge, turning at every corner onto the edge
//! that the successor table names, until the walk comes back to the corner
//! it started from. The geometric choices (which points coincide, which turn
//! is the sharpest, how large the enclosed area is) are made on the
//! coordinates by the caller; this module does the graph work.

use std::collections::HashSet;
use vstd::prelude::*;

verus! {

broadcast use vstd::std_specs::hash::group_hash_axioms;

/// The directed edges that a list of links gives: each link `(u, v)` with
/// `u != v` gives `(u, v)` then `(v, u)`; a link from a corner to itself gives
/// nothing.
pub open spec fn link_edges(links: Seq<(usize, usize)>) -> Seq<(usize, usize)>
    decreases links.len(),
{
    if links.len() == 0 {
        seq![]
    } else {
        let (u, v) = links.last();
        let before = link_edges(links.drop_last());
        if u != v {
            before + seq![(u, v), (v, u)]
        } else {
            before
        }
    }
}

/// The wall graph has no loops and can be walked both ways: every directed
/// edge joins two different corners, and its reverse is an edge too.
pub proof fn lemma_link_edges_symmetric(links: Seq<(usize, usize)>)
    ensures
        forall|e: int|
            0 <= e < link_edges(links).len() ==> (#[trigger] link_edges(links)[e]).0 != link_edges(
                links,
            )[e].1 && link_edges(links).contains((link_edges(links)[e].1, link_edges(links)[e].0)),
    decreases links.len(),
{
    if links.len() > 0 {
        let (u, v) = links.last();
        let before = link_edges(links.drop_last());
        lemma_link_edges_symmetric(links.drop_last());
        let all = link_edges(links);
        if u != v {
            assert(all == before + seq![(u, v), (v, u)]);
            assert forall|e: int| 0 <= e < all.len() implies (#[trigger] all[e]).0 != all[e].1
                && all.contains((all[e].1, all[e].0)) by {
                if e < before.len() {
                    assert(all[e] == before[e]);
                    let f = choose|f: int| 0 <= f < before.len() && before[f] == (before[e].1, before[e].0);
                    assert(all[f] == before[f]);
                } else if e == before.len() {
                    assert(all[e + 1] == (v, u));
                } else {
                    assert(all[e - 1] == (u, v));
                }
            }
        }
    }
}

/// Builds the directed edge list of the wall graph from its links, in order.
pub fn build_edges(links: &Vec<(usize, usize)>) -> (edges: Vec<(usize, usize)>)
    requires
        2 * links.len() <= usize::MAX,
    ensures
        edges@ == link_edges(links@),
        forall|e: int|
            0 <= e < edges.len() ==> (#[trigger] edges@[e]).0 != edges@[e].1 && edges@.contains(
                (edges@[e].1, edges@[e].0),
            ),
{
    proof {
        lemma_link_edges_symmetric(links@);
    }
    let mut edges: Vec<(usize, usize)> = Vec::new();
    let n = links.len();
    for i in 0..n
        invariant
            n == links.len(),
            2 * n <= usize::MAX,
            edges@ == link_edges(links@.take(i as int)),
            edges.len() <= 2 * i,
    {
        let (u, v) = links[i];
        assert(links@.take(i + 1).drop_last() =~= links@.take(i as int));
        if u != v {
            edges.push((u, v));
            edges.push((v, u));
            assert(edges@ =~= link_edges(links@.take(i as int)) + seq![(u, v), (v, u)]);
        }
    }
    assert(links@.take(n as int) =~= links@);
    edges
}

/// What a walk from one directed edge yields: the corners it passed, in
/// order, the directed edges it went along, and whether it closed up at the
/// corner it started from.
pub struct Walk {
    pub corners: Seq<usize>,
    pub trail: Seq<(usize, usize)>,
    pub closed: bool,
}

/// Continues a walk whose first corner is `start`, which has already passed
/// `corners` along `trail` and now goes along edge number `e`.
///
/// Going along `(u, v)` adds `u` to the corners. The walk closes when `v` is
/// `start`; it fails when `v` is a corner it has passed already, or when the
/// successor table has no edge after `e`. The branch on the number of corners
/// only makes the definition total: with every corner below `n` and no corner
/// passed twice, it is never taken.
pub open spec fn walk_on(
    edges: Seq<(usize, usize)>,
    next: Seq<Option<usize>>,
    n: nat,
    start: usize,
    e: int,
    corners: Seq<usize>,
    trail: Seq<(usize, usize)>,
) -> Walk
    decreases n - corners.len(),
{
    let u = edges[e].0;
    let v = edges[e].1;
    let corners2 = corners.push(u);
    let trail2 = trail.push(edges[e]);
    if v == start {
        Walk { corners: corners2, trail: trail2, closed: true }
    } else if corners2.contains(v) {
        Walk { corners: corners2, trail: trail2, closed: false }
    } else if corners2.len() >= n {
        Walk { corners: corners2, trail: trail2, closed: false }
    } else {
        match next[e] {
            Some(f) => walk_on(edges, next, n, start, f as int, corners2, trail2),
            None => Walk { corners: corners2, trail: trail2, closed: false },
        }
    }
}

/// The walk that starts with edge number `e`.
pub open spec fn walk_from(
    edges: Seq<(usize, usize)>,
    next: Seq<Option<usize>>,
    n: nat,
    e: int,
) -> Walk {
    walk_on(edges, next, n, edges[e].0, e, seq![], seq![])
}

/// The rooms found from edge number `k` on, when the directed edges in
/// `visited` have been walked along already: an edge already walked along
/// starts no walk; every walk marks its edges as walked along; a walk that
/// closes with at least three corners is a room.
pub open spec fn rooms_from(
    edges: Seq<(usize, usize)>,
    next: Seq<Option<usize>>,
    n: nat,
    k: int,
    visited: Seq<(usize, usize)>,
) -> Seq<Seq<usize>>
    decreases edges.len() - k,
{
    if k < 0 || k >= edges.len() {
        seq![]
    } else if visited.contains(edges[k]) {
        rooms_from(edges, next, n, k + 1, visited)
    } else {
        let w = walk_from(edges, next, n, k);
        let rest = rooms_from(edges, next, n, k + 1, visited + w.trail);
        if w.closed && w.corners.len() >= 3 {
            seq![w.corners] + rest
        } else {
            rest
        }
    }
}

/// All rooms of the graph, in the order of the edges that start them.
pub open spec fn traced_rooms(
    edges: Seq<(usize, usize)>,
    next: Seq<Option<usize>>,
    n: nat,
) -> Seq<Seq<usize>> {
    rooms_from(edges, next, n, 0, seq![])
}

/// The conditions under which the rooms can be traced: one successor entry
/// per edge; a successor of `(u, v)` is an edge that leaves `v`; every corner
/// is below `n`.
pub open spec fn graph_fits(
    edges: Seq<(usize, usize)>,
    next: Seq<Option<usize>>,
    n: nat,
) -> bool {
    &&& next.len() == edges.len()
    &&& forall|e: int|
        0 <= e < edges.len() ==> (#[trigger] edges[e]).0 < n && edges[e].1 < n
    &&& forall|e: int|
        0 <= e < next.len() && (#[trigger] next[e]) is Some ==> {
            let f = next[e]->0;
            &&& f < edges.len()
            &&& edges[f as int].0 == edges[e].1
        }
}

/// Whether `edges`, `next` and `n` meet `graph_fits`.
pub fn graph_fits_check(edges: &Vec<(usize, usize)>, next: &Vec<Option<usize>>, n: usize) -> (b:
    bool)
    ensures
        b == graph_fits(edges@, next@, n as nat),
{
    if next.len() != edges.len() {
        return false;
    }
    let len = edges.len();
    for e in 0..len
        invariant
            len == edges.len(),
            next.len() == edges.len(),
            forall|j: int| 0 <= j < e ==> (#[trigger] edges@[j]).0 < n && edges@[j].1 < n,
            forall|j: int|
                0 <= j < e && (#[trigger] next@[j]) is Some ==> {
                    let f = next@[j]->0;
                    &&& f < edges.len()
                    &&& edges@[f as int].0 == edges@[j].1
                },
    {
        let (u, v) = edges[e];
        if u >= n || v >= n {
            assert(!(edges@[e as int].0 < n && edges@[e as int].1 < n));
            return false;
        }
        match next[e] {
            Some(f) => {
                if f >= len || edges[f].0 != v {
                    assert(next@[e as int] is Some);
                    return false;
                }
            },
            None => {},
        }
    }
    true
}

/// A list of distinct numbers below `n` has at most `n` entries.
pub proof fn lemma_distinct_below(s: Seq<usize>, n: nat)
    requires
        s.no_duplicates(),
        forall|i: int| 0 <= i < s.len() ==> s[i] < n,
    ensures
        s.len() <= n,
    decreases n,
{
    if n == 0 {
        if s.len() > 0 {
            assert(s[0] < 0);
        }
    } else {
        let top = (n - 1) as usize;
        if s.contains(top) {
            let k = s.index_of(top);
            let t = s.remove(k);
            assert forall|i: int| 0 <= i < t.len() implies t[i] < n - 1 by {
                if i < k {
                    assert(t[i] == s[i]);
                    assert(s[i] != s[k]);
                } else {
                    assert(t[i] == s[i + 1]);
                    assert(s[i + 1] != s[k]);
                }
            }
            assert forall|i: int, j: int| 0 <= i < t.len() && 0 <= j < t.len() && i != j implies t[i]
                != t[j] by {
                let si = if i < k { i } else { i + 1 };
                let sj = if j < k { j } else { j + 1 };
                assert(t[i] == s[si]);
                assert(t[j] == s[sj]);
            }
            lemma_distinct_below(t, (n - 1) as nat);
        } else {
            assert forall|i: int| 0 <= i < s.len() implies s[i] < n - 1 by {
                assert(s[i] != top);
            }
            lemma_distinct_below(s, (n - 1) as nat);
        }
    }
}

/// The shape of a walk in progress: the trail goes along edges of the graph,
/// the `i`-th corner is where the `i`-th edge of the trail leaves from and
/// where the edge before it arrives, the corners are distinct and the first
/// one is `start`.
pub open spec fn walk_shape(
    edges: Seq<(usize, usize)>,
    start: usize,
    corners: Seq<usize>,
    trail: Seq<(usize, usize)>,
) -> bool {
    &&& trail.len() == corners.len()
    &&& corners.no_duplicates()
    &&& corners.len() > 0 ==> corners[0] == start
    &&& forall|i: int| 0 <= i < trail.len() ==> edges.contains(#[trigger] trail[i])
    &&& forall|i: int| 0 <= i < trail.len() ==> (#[trigger] trail[i]).0 == corners[i]
    &&& forall|i: int| 0 <= i < trail.len() - 1 ==> (#[trigger] trail[i]).1 == corners[i + 1]
}

/// The shape of a walk is kept to its end; a closed walk ends on an edge that
/// comes back to `start`.
pub proof fn lemma_walk_on_shape(
    edges: Seq<(usize, usize)>,
    next: Seq<Option<usize>>,
    n: nat,
    start: usize,
    e: int,
    corners: Seq<usize>,
    trail: Seq<(usize, usize)>,
)
    requires
        graph_fits(edges, next, n),
        0 <= e < edges.len(),
        walk_shape(edges, start, corners, trail),
        !corners.contains(edges[e].0),
        corners.len() == 0 ==> edges[e].0 == start,
        corners.len() > 0 ==> trail.last().1 == edges[e].0,
    ensures
        ({
            let w = walk_on(edges, next, n, start, e, corners, trail);
            &&& walk_shape(edges, start, w.corners, w.trail)
            &&& w.corners.len() > corners.len()
            &&& w.closed ==> w.trail.last().1 == start
        }),
    decreases n - corners.len(),
{
    let u = edges[e].0;
    let v = edges[e].1;
    let corners2 = corners.push(u);
    let trail2 = trail.push(edges[e]);
    assert(edges.contains(edges[e]));
    assert forall|i: int, j: int|
        0 <= i < corners2.len() && 0 <= j < corners2.len() && i != j implies corners2[i]
        != corners2[j] by {
        if i < corners.len() && j < corners.len() {
        } else if i < corners.len() {
            assert(corners.contains(corners[i]));
        } else if j < corners.len() {
            assert(corners.contains(corners[j]));
        }
    }
    assert(walk_shape(edges, start, corners2, trail2));
    if v == start {
    } else if corners2.contains(v) {
    } else if corners2.len() >= n {
    } else {
        match next[e] {
            Some(f) => {
                assert(next[e] is Some);
                lemma_walk_on_shape(edges, next, n, start, f as int, corners2, trail2);
            },
            None => {},
        }
    }
}

/// Each room of `rooms_from` is a closed walk: at least three distinct
/// corners, each joined to the next, and the last to the first, by a directed
/// edge of the graph.
pub open spec fn is_closed_walk(edges: Seq<(usize, usize)>, room: Seq<usize>) -> bool {
    &&& room.len() >= 3
    &&& room.no_duplicates()
    &&& forall|i: int|
        0 <= i < room.len() ==> edges.contains((#[trigger] room[i], room[(i + 1) % (room.len() as int)]))
}

proof fn lemma_rooms_from_closed(
    edges: Seq<(usize, usize)>,
    next: Seq<Option<usize>>,
    n: nat,
    k: int,
    visited: Seq<(usize, usize)>,
)
    requires
        graph_fits(edges, next, n),
    ensures
        forall|r: int|
            0 <= r < rooms_from(edges, next, n, k, visited).len() ==> is_closed_walk(
                edges,
                #[trigger] rooms_from(edges, next, n, k, visited)[r],
            ),
    decreases edges.len() - k,
{
    if k < 0 || k >= edges.len() {
    } else if visited.contains(edges[k]) {
        lemma_rooms_from_closed(edges, next, n, k + 1, visited);
        assert(rooms_from(edges, next, n, k, visited) == rooms_from(edges, next, n, k + 1, visited));
    } else {
        let w = walk_from(edges, next, n, k);
        lemma_walk_on_shape(edges, next, n, edges[k].0, k, seq![], seq![]);
        lemma_rooms_from_closed(edges, next, n, k + 1, visited + w.trail);
        let rest = rooms_from(edges, next, n, k + 1, visited + w.trail);
        if w.closed && w.corners.len() >= 3 {
            let room = w.corners;
            assert forall|i: int| 0 <= i < room.len() implies edges.contains(
                (#[trigger] room[i], room[(i + 1) % (room.len() as int)]),
            ) by {
                assert(edges.contains(w.trail[i]));
                if i < room.len() - 1 {
                    vstd::arithmetic::div_mod::lemma_small_mod((i + 1) as nat, room.len());
                } else {
                    vstd::arithmetic::div_mod::lemma_mod_self_0(room.len() as int);
                }
                assert(w.trail[i] == (room[i], room[(i + 1) % (room.len() as int)]));
            }
            let all = seq![room] + rest;
            assert forall|r: int| 0 <= r < all.len() implies is_closed_walk(
                edges,
                #[trigger] all[r],
            ) by {
                if r > 0 {
                    assert(all[r] == rest[r - 1]);
                }
            }
            assert(rooms_from(edges, next, n, k, visited) == all);
        } else {
            assert(rooms_from(edges, next, n, k, visited) == rest);
        }
    }
}

/// Every room that `traced_rooms` finds is a closed walk of at least three
/// distinct corners along directed edges of the graph.
pub proof fn lemma_traced_rooms_are_closed_walks(
    edges: Seq<(usize, usize)>,
    next: Seq<Option<usize>>,
    n: nat,
)
    requires
        graph_fits(edges, next, n),
    ensures
        forall|r: int|
            0 <= r < traced_rooms(edges, next, n).len() ==> is_closed_walk(
                edges,
                #[trigger] traced_rooms(edges, next, n)[r],
            ),
{
    lemma_rooms_from_closed(edges, next, n, 0, seq![]);
}

/// The number that stands for the directed edge `(u, v)` in the set of
/// edges walked along: `u` in the high 64 bits, `v` in the low ones.
pub open spec fn edge_key(e: (usize, usize)) -> u128 {
    (e.0 * 0x1_0000_0000_0000_0000 + e.1) as u128
}

/// Different edges have different keys.
proof fn lemma_edge_key_injective(a: (usize, usize), b: (usize, usize))
    ensures
        edge_key(a) == edge_key(b) <==> a == b,
{
    assert(a.0 * 0x1_0000_0000_0000_0000 + a.1 < 0x1_0000_0000_0000_0000_0000_0000_0000_0000);
    assert(b.0 * 0x1_0000_0000_0000_0000 + b.1 < 0x1_0000_0000_0000_0000_0000_0000_0000_0000);
}

/// Computes `edge_key(e)`.
fn key_of(e: (usize, usize)) -> (k: u128)
    ensures
        k == edge_key(e),
{
    assert(e.0 * 0x1_0000_0000_0000_0000 + e.1 < 0x1_0000_0000_0000_0000_0000_0000_0000_0000);
    (e.0 as u128) * 0x1_0000_0000_0000_0000u128 + (e.1 as u128)
}

/// The edge reached from edge number `e` by following the successor table
/// `j` times.
pub open spec fn follow(next: Seq<Option<usize>>, e: int, j: nat) -> int
    decreases j,
{
    if j == 0 {
        e
    } else {
        next[follow(next, e, (j - 1) as nat)]->0 as int
    }
}

/// Following the successors from edge number `e` goes once round a simple
/// cycle of `m >= 3` corners: the first `m - 1` edges have successors, the
/// corners the `m` edges leave from are distinct, and the last edge comes
/// back to the corner of the first.
pub open spec fn closes_after(
    edges: Seq<(usize, usize)>,
    next: Seq<Option<usize>>,
    e: int,
    m: nat,
) -> bool {
    &&& m >= 3
    &&& forall|j: nat| j + 1 < m ==> (#[trigger] next[follow(next, e, j)]) is Some
    &&& forall|i: nat, j: nat|
        i < j < m ==> edges[#[trigger] follow(next, e, i)].0 != edges[#[trigger] follow(
            next,
            e,
            j,
        )].0
    &&& edges[follow(next, e, (m - 1) as nat)].1 == edges[e].0
}

/// The corners of that cycle, in order.
pub open spec fn cycle_corners(
    edges: Seq<(usize, usize)>,
    next: Seq<Option<usize>>,
    e: int,
    m: nat,
) -> Seq<usize> {
    Seq::new(m, |j: int| edges[follow(next, e, j as nat)].0)
}

proof fn lemma_follow_in_range(edges: Seq<(usize, usize)>, next: Seq<Option<usize>>, n: nat, e: int, m: nat, j: nat)
    requires
        graph_fits(edges, next, n),
        0 <= e < edges.len(),
        closes_after(edges, next, e, m),
        j < m,
    ensures
        0 <= follow(next, e, j) < edges.len(),
        j > 0 ==> edges[follow(next, e, j)].0 == edges[follow(next, e, (j - 1) as nat)].1,
    decreases j,
{
    if j > 0 {
        let jp = (j - 1) as nat;
        lemma_follow_in_range(edges, next, n, e, m, jp);
        assert(next[follow(next, e, jp)] is Some);
    }
}

proof fn lemma_walk_goes_round(
    edges: Seq<(usize, usize)>,
    next: Seq<Option<usize>>,
    n: nat,
    e: int,
    m: nat,
    j: nat,
    trail: Seq<(usize, usize)>,
)
    requires
        graph_fits(edges, next, n),
        0 <= e < edges.len(),
        closes_after(edges, next, e, m),
        m <= n,
        j < m,
        trail.len() == j,
    ensures
        ({
            let w = walk_on(
                edges,
                next,
                n,
                edges[e].0,
                follow(next, e, j),
                cycle_corners(edges, next, e, m).take(j as int),
                trail,
            );
            w.closed && w.corners == cycle_corners(edges, next, e, m)
        }),
    decreases m - j,
{
    let c = cycle_corners(edges, next, e, m);
    let f = follow(next, e, j);
    lemma_follow_in_range(edges, next, n, e, m, j);
    let corners2 = c.take(j as int).push(edges[f].0);
    assert(corners2 =~= c.take(j as int + 1));
    if j + 1 == m {
        assert(corners2 =~= c);
    } else {
        let jn = (j + 1) as nat;
        lemma_follow_in_range(edges, next, n, e, m, jn);
        assert(next[f] is Some);
        assert(follow(next, e, jn) == next[f]->0 as int);
        let v = edges[f].1;
        assert(v == c[j as int + 1]);
        assert(edges[follow(next, e, 0)].0 != edges[follow(next, e, jn)].0);
        assert(v != edges[e].0);
        assert(!corners2.contains(v)) by {
            if corners2.contains(v) {
                let i = choose|i: int| 0 <= i < corners2.len() && corners2[i] == v;
                assert(corners2[i] == c[i]);
                assert(edges[follow(next, e, i as nat)].0 != edges[follow(next, e, jn)].0);
            }
        }
        lemma_walk_goes_round(edges, next, n, e, m, jn, trail.push(edges[f]));
    }
}

/// A room is reported for the cycle that the first edge starts: when the
/// successors of edge number 0 go once round a simple cycle of `m >= 3`
/// corners, the first room is that cycle's corners, in walking order.
pub proof fn lemma_first_cycle_is_a_room(
    edges: Seq<(usize, usize)>,
    next: Seq<Option<usize>>,
    n: nat,
    m: nat,
)
    requires
        graph_fits(edges, next, n),
        edges.len() > 0,
        closes_after(edges, next, 0, m),
    ensures
        traced_rooms(edges, next, n).len() >= 1,
        traced_rooms(edges, next, n)[0] == cycle_corners(edges, next, 0, m),
{
    let c = cycle_corners(edges, next, 0, m);
    assert forall|i: int| 0 <= i < c.len() implies c[i] < n by {
        lemma_follow_in_range(edges, next, n, 0, m, i as nat);
    }
    assert forall|i: int, j: int| 0 <= i < c.len() && 0 <= j < c.len() && i != j implies c[i]
        != c[j] by {
        if i < j {
            assert(edges[follow(next, 0, i as nat)].0 != edges[follow(next, 0, j as nat)].0);
        } else {
            assert(edges[follow(next, 0, j as nat)].0 != edges[follow(next, 0, i as nat)].0);
        }
    }
    lemma_distinct_below(c, n);
    assert(c.take(0) =~= seq![]);
    lemma_walk_goes_round(edges, next, n, 0, m, 0, seq![]);
    let w = walk_from(edges, next, n, 0);
    assert(w.closed && w.corners == c);
    let empty: Seq<(usize, usize)> = seq![];
    assert(!empty.contains(edges[0]));
    assert(traced_rooms(edges, next, n) == seq![c] + rooms_from(edges, next, n, 1, empty + w.trail));
}

/// No directed edge is listed twice.
pub open spec fn edges_distinct(edges: Seq<(usize, usize)>) -> bool {
    forall|i: int, j: int|
        0 <= i < edges.len() && 0 <= j < edges.len() && i != j ==> edges[i] != edges[j]
}

/// No edge is the successor of two different edges.
pub open spec fn successors_injective(edges: Seq<(usize, usize)>, next: Seq<Option<usize>>) -> bool {
    forall|a: int, b: int|
        0 <= a < edges.len() && 0 <= b < edges.len() && (#[trigger] next[a]) is Some && next[a]
            == #[trigger] next[b] ==> a == b
}

proof fn lemma_cycle_fits(
    edges: Seq<(usize, usize)>,
    next: Seq<Option<usize>>,
    n: nat,
    e: int,
    m: nat,
)
    requires
        graph_fits(edges, next, n),
        0 <= e < edges.len(),
        closes_after(edges, next, e, m),
    ensures
        m <= n,
{
    let c = cycle_corners(edges, next, e, m);
    assert forall|i: int| 0 <= i < c.len() implies c[i] < n by {
        lemma_follow_in_range(edges, next, n, e, m, i as nat);
    }
    assert forall|i: int, j: int| 0 <= i < c.len() && 0 <= j < c.len() && i != j implies c[i]
        != c[j] by {
        if i < j {
            assert(edges[follow(next, e, i as nat)].0 != edges[follow(next, e, j as nat)].0);
        } else {
            assert(edges[follow(next, e, j as nat)].0 != edges[follow(next, e, i as nat)].0);
        }
    }
    lemma_distinct_below(c, n);
}

/// A walk from edge number `j` goes along the successors of `j`: its `i`-th
/// edge is the one reached after `i` steps, and every step but the last had
/// a successor.
proof fn lemma_walk_follows(
    edges: Seq<(usize, usize)>,
    next: Seq<Option<usize>>,
    n: nat,
    start: usize,
    j: int,
    e: int,
    corners: Seq<usize>,
    trail: Seq<(usize, usize)>,
)
    requires
        graph_fits(edges, next, n),
        0 <= e < edges.len(),
        e == follow(next, j, trail.len()),
        forall|i: int| 0 <= i < trail.len() ==> 0 <= #[trigger] follow(next, j, i as nat) < edges.len(),
        forall|i: int| 0 <= i < trail.len() ==> #[trigger] trail[i] == edges[follow(next, j, i as nat)],
        forall|i: int| 0 <= i < trail.len() ==> (#[trigger] next[follow(next, j, i as nat)]) is Some,
    ensures
        ({
            let w = walk_on(edges, next, n, start, e, corners, trail);
            &&& forall|i: int|
                0 <= i < w.trail.len() ==> 0 <= #[trigger] follow(next, j, i as nat) < edges.len()
            &&& forall|i: int|
                0 <= i < w.trail.len() ==> #[trigger] w.trail[i] == edges[follow(next, j, i as nat)]
            &&& forall|i: int|
                0 <= i < w.trail.len() - 1 ==> (#[trigger] next[follow(next, j, i as nat)]) is Some
        }),
    decreases n - corners.len(),
{
    let u = edges[e].0;
    let v = edges[e].1;
    let corners2 = corners.push(u);
    let trail2 = trail.push(edges[e]);
    let w = walk_on(edges, next, n, start, e, corners, trail);
    if v == start || corners2.contains(v) || corners2.len() >= n || next[e] is None {
        assert(w.trail == trail2);
        assert forall|i: int| 0 <= i < w.trail.len() - 1 implies (#[trigger] next[follow(
            next,
            j,
            i as nat,
        )]) is Some by {
            assert(i < trail.len());
        }
    } else {
        let f = next[e]->0;
        assert(next[e] is Some);
        assert(follow(next, j, trail2.len()) == f as int);
        assert forall|i: int| 0 <= i < trail2.len() implies #[trigger] trail2[i] == edges[follow(
            next,
            j,
            i as nat,
        )] by {
            if i < trail.len() {
                assert(trail2[i] == trail[i]);
            }
        }
        assert forall|i: int| 0 <= i < trail2.len() implies (#[trigger] next[follow(
            next,
            j,
            i as nat,
        )]) is Some by {
            if i < trail.len() {
            }
        }
        assert forall|i: int| 0 <= i < trail2.len() implies 0 <= #[trigger] follow(
            next,
            j,
            i as nat,
        ) < edges.len() by {
            if i < trail.len() {
            }
        }
        lemma_walk_follows(edges, next, n, start, j, f as int, corners2, trail2);
    }
}

/// Going back along the successors: an edge of the successor path from `j`
/// that lies on the cycle from `k` was reached from the cycle, so `j` itself
/// lies on the cycle.
proof fn lemma_path_back_onto_cycle(
    edges: Seq<(usize, usize)>,
    next: Seq<Option<usize>>,
    n: nat,
    k: int,
    m: nat,
    j: int,
    s: nat,
    c: nat,
)
    requires
        graph_fits(edges, next, n),
        successors_injective(edges, next),
        0 <= k < edges.len(),
        closes_after(edges, next, k, m),
        next[follow(next, k, (m - 1) as nat)] == Some(k as usize),
        forall|i: int| 0 <= i <= s ==> 0 <= #[trigger] follow(next, j, i as nat) < edges.len(),
        forall|i: int| 0 <= i < s ==> (#[trigger] next[follow(next, j, i as nat)]) is Some,
        c < m,
        follow(next, j, s) == follow(next, k, c),
    ensures
        exists|c2: nat| c2 < m && j == #[trigger] follow(next, k, c2),
    decreases s,
{
    if s == 0 {
        assert(j == follow(next, k, c));
    } else {
        let sp = (s - 1) as nat;
        let a = follow(next, j, sp);
        assert(0 <= a < edges.len());
        assert(next[a] is Some);
        let cp: nat = if c == 0 { (m - 1) as nat } else { (c - 1) as nat };
        let b = follow(next, k, cp);
        lemma_follow_in_range(edges, next, n, k, m, cp);
        if c == 0 {
            assert(next[b] == Some(k as usize));
            assert(follow(next, k, 0) == k);
        } else {
            assert(next[b] is Some);
            assert(follow(next, k, c) == next[b]->0 as int);
        }
        assert(follow(next, j, s) == next[a]->0 as int);
        assert(next[a] == next[b]);
        assert(a == b);
        lemma_path_back_onto_cycle(edges, next, n, k, m, j, sp, cp);
    }
}

proof fn lemma_rooms_from_reach_cycle(
    edges: Seq<(usize, usize)>,
    next: Seq<Option<usize>>,
    n: nat,
    k: int,
    m: nat,
    j: int,
    visited: Seq<(usize, usize)>,
)
    requires
        graph_fits(edges, next, n),
        edges_distinct(edges),
        successors_injective(edges, next),
        0 <= k < edges.len(),
        closes_after(edges, next, k, m),
        next[follow(next, k, (m - 1) as nat)] == Some(k as usize),
        forall|c: nat| c < m ==> #[trigger] follow(next, k, c) >= k,
        0 <= j <= k,
        forall|x: int, c: nat|
            0 <= x < visited.len() && c < m ==> #[trigger] visited[x] != edges[#[trigger] follow(
                next,
                k,
                c,
            )],
    ensures
        rooms_from(edges, next, n, j, visited).contains(cycle_corners(edges, next, k, m)),
    decreases k - j,
{
    let cyc = cycle_corners(edges, next, k, m);
    if j == k {
        assert(follow(next, k, 0) == k);
        assert(!visited.contains(edges[k])) by {
            if visited.contains(edges[k]) {
                let x = choose|x: int| 0 <= x < visited.len() && visited[x] == edges[k];
                assert(visited[x] != edges[follow(next, k, 0)]);
            }
        }
        lemma_cycle_fits(edges, next, n, k, m);
        assert(cyc.take(0) =~= seq![]);
        lemma_walk_goes_round(edges, next, n, k, m, 0, seq![]);
        let w = walk_from(edges, next, n, k);
        let rest = rooms_from(edges, next, n, k + 1, visited + w.trail);
        assert(rooms_from(edges, next, n, j, visited) == seq![cyc] + rest);
        assert((seq![cyc] + rest)[0] == cyc);
    } else if visited.contains(edges[j]) {
        lemma_rooms_from_reach_cycle(edges, next, n, k, m, j + 1, visited);
    } else {
        let w = walk_from(edges, next, n, j);
        lemma_walk_follows(edges, next, n, edges[j].0, j, j, seq![], seq![]);
        assert forall|s: int, c: nat| 0 <= s < w.trail.len() && c < m implies #[trigger] w.trail[s]
            != edges[#[trigger] follow(next, k, c)] by {
            if w.trail[s] == edges[follow(next, k, c)] {
                lemma_follow_in_range(edges, next, n, k, m, c);
                assert(w.trail[s] == edges[follow(next, j, s as nat)]);
                assert(follow(next, j, s as nat) == follow(next, k, c));
                lemma_path_back_onto_cycle(edges, next, n, k, m, j, s as nat, c);
                let c2 = choose|c2: nat| c2 < m && j == #[trigger] follow(next, k, c2);
                assert(follow(next, k, c2) >= k);
            }
        }
        let v2 = visited + w.trail;
        assert forall|x: int, c: nat| 0 <= x < v2.len() && c < m implies #[trigger] v2[x] != edges[
            #[trigger] follow(next, k, c)
        ] by {
            if x < visited.len() {
                assert(v2[x] == visited[x]);
            } else {
                assert(v2[x] == w.trail[x - visited.len()]);
            }
        }
        lemma_rooms_from_reach_cycle(edges, next, n, k, m, j + 1, v2);
        let rest = rooms_from(edges, next, n, j + 1, v2);
        if w.closed && w.corners.len() >= 3 {
            let all = seq![w.corners] + rest;
            assert(rooms_from(edges, next, n, j, visited) == all);
            let i = choose|i: int| 0 <= i < rest.len() && rest[i] == cyc;
            assert(all[i + 1] == cyc);
        } else {
            assert(rooms_from(edges, next, n, j, visited) == rest);
        }
    }
}

/// Every cycle of successors is reported as a room. When no edge is listed
/// twice and no edge is the successor of two edges, and the successors from
/// edge number `k` go once round a simple cycle of `m >= 3` corners and come
/// back to `k`, with `k` the smallest edge number on the cycle, then the
/// cycle's corners are one of the rooms.
pub proof fn lemma_every_cycle_is_a_room(
    edges: Seq<(usize, usize)>,
    next: Seq<Option<usize>>,
    n: nat,
    k: int,
    m: nat,
)
    requires
        graph_fits(edges, next, n),
        edges_distinct(edges),
        successors_injective(edges, next),
        0 <= k < edges.len(),
        closes_after(edges, next, k, m),
        next[follow(next, k, (m - 1) as nat)] == Some(k as usize),
        forall|c: nat| c < m ==> #[trigger] follow(next, k, c) >= k,
    ensures
        traced_rooms(edges, next, n).contains(cycle_corners(edges, next, k, m)),
{
    lemma_rooms_from_reach_cycle(edges, next, n, k, m, 0, seq![]);
}

/// Whether `x` is one of the entries of `list`.
fn holds_corner(list: &Vec<usize>, x: usize) -> (b: bool)
    ensures
        b == list@.contains(x),
{
    let len = list.len();
    for i in 0..len
        invariant
            len == list.len(),
            forall|j: int| 0 <= j < i ==> list@[j] != x,
    {
        if list[i] == x {
            assert(list@[i as int] == x);
            return true;
        }
    }
    false
}

/// Walks from edge number `k`, marking every edge it goes along in
/// `visited` (by its key); returns the corners passed and whether the walk
/// closed.
fn walk(
    edges: &Vec<(usize, usize)>,
    next: &Vec<Option<usize>>,
    n: usize,
    k: usize,
    visited: &mut HashSet<u128>,
) -> (res: (Vec<usize>, bool))
    requires
        graph_fits(edges@, next@, n as nat),
        k < edges.len(),
    ensures
        ({
            let w = walk_from(edges@, next@, n as nat, k as int);
            &&& res.0@ == w.corners
            &&& res.1 == w.closed
            &&& forall|e: (usize, usize)|
                #![trigger edge_key(e)]
                final(visited)@.contains(edge_key(e)) <==> old(visited)@.contains(edge_key(e))
                    || w.trail.contains(e)
        }),
{
    let ghost w = walk_from(edges@, next@, n as nat, k as int);
    let ghost visited0 = visited@;
    let start = edges[k].0;
    let mut corners: Vec<usize> = Vec::new();
    let ghost mut trail: Seq<(usize, usize)> = seq![];
    let mut e = k;
    let mut closed = false;
    loop
        invariant_except_break
            graph_fits(edges@, next@, n as nat),
            e < edges.len(),
            start == edges@[k as int].0,
            walk_shape(edges@, start, corners@, trail),
            !corners@.contains(edges@[e as int].0),
            corners@.len() == 0 ==> edges@[e as int].0 == start,
            corners@.len() > 0 ==> trail.last().1 == edges@[e as int].0,
            walk_on(edges@, next@, n as nat, start, e as int, corners@, trail) == w,
            forall|e: (usize, usize)|
                #![trigger edge_key(e)]
                visited@.contains(edge_key(e)) <==> visited0.contains(edge_key(e))
                    || trail.contains(e),
            corners.len() < n,
            !closed,
        ensures
            corners@ == w.corners,
            closed == w.closed,
            forall|e: (usize, usize)|
                #![trigger edge_key(e)]
                visited@.contains(edge_key(e)) <==> visited0.contains(edge_key(e))
                    || w.trail.contains(e),
        decreases n - corners.len(),
    {
        let (u, v) = edges[e];
        let ghost c0 = corners@;
        let ghost t0 = trail;
        assert(walk_on(edges@, next@, n as nat, start, e as int, c0, t0) == w);
        proof {
            trail = trail.push((u, v));
        }
        let ghost vis_before = visited@;
        visited.insert(key_of((u, v)));
        corners.push(u);
        assert forall|e: (usize, usize)|
            #![trigger edge_key(e)]
            visited@.contains(edge_key(e)) <==> visited0.contains(edge_key(e)) || trail.contains(
                e,
            ) by {
            lemma_edge_key_injective(e, (u, v));
            if t0.contains(e) {
                let j = choose|j: int| 0 <= j < t0.len() && t0[j] == e;
                assert(trail[j] == e);
            }
            if trail.contains(e) && e != (u, v) {
                let j = choose|j: int| 0 <= j < trail.len() && trail[j] == e;
                assert(j < t0.len());
                assert(t0[j] == e);
            }
            if e == (u, v) {
                assert(trail[t0.len() as int] == e);
            }
        }
        assert(corners@ == c0.push(u));
        assert(trail == t0.push(edges@[e as int]));
        if v == start {
            closed = true;
            break;
        }
        if holds_corner(&corners, v) {
            break;
        }
        proof {
            let c2 = corners@.push(v);
            assert(edges@[e as int].1 < n);
            assert forall|i: int| 0 <= i < c2.len() implies c2[i] < n by {
                if i < corners@.len() - 1 {
                    assert(trail[i].0 == corners@[i]);
                    assert(edges@.contains(trail[i]));
                    let j = choose|j: int| 0 <= j < edges@.len() && edges@[j] == trail[i];
                    assert(edges@[j].0 < n);
                } else if i == corners@.len() - 1 {
                    assert(corners@[i] == u);
                }
            }
            assert forall|i: int, j: int|
                0 <= i < c2.len() && 0 <= j < c2.len() && i != j implies c2[i] != c2[j] by {
                if i < corners@.len() && j < corners@.len() {
                    assert(corners@.no_duplicates());
                } else if i < corners@.len() {
                    assert(corners@.contains(corners@[i]));
                } else if j < corners@.len() {
                    assert(corners@.contains(corners@[j]));
                }
            }
            lemma_distinct_below(c2, n as nat);
            assert forall|i: int, j: int|
                0 <= i < corners@.len() && 0 <= j < corners@.len() && i != j implies corners@[i]
                != corners@[j] by {
                assert(corners@[i] == c2[i]);
                assert(corners@[j] == c2[j]);
            }
        }
        match next[e] {
            Some(f) => {
                assert(next@[e as int] is Some);
                e = f;
            },
            None => {
                break;
            },
        }
    }
    (corners, closed)
}

/// The rooms of the wall graph: the closed walks of at least three corners,
/// each given by its corners in walking order, in the order of the edges that
/// start them.
pub fn trace_rooms(edges: &Vec<(usize, usize)>, next: &Vec<Option<usize>>, n: usize) -> (rooms:
    Vec<Vec<usize>>)
    requires
        graph_fits(edges@, next@, n as nat),
    ensures
        rooms.deep_view() == traced_rooms(edges@, next@, n as nat),
        forall|r: int|
            0 <= r < rooms.len() ==> is_closed_walk(edges@, #[trigger] rooms.deep_view()[r]),
{
    let mut rooms: Vec<Vec<usize>> = Vec::new();
    let mut visited: HashSet<u128> = HashSet::new();
    let ghost mut walked: Seq<(usize, usize)> = seq![];
    let len = edges.len();
    for k in 0..len
        invariant
            len == edges.len(),
            graph_fits(edges@, next@, n as nat),
            forall|e: (usize, usize)|
                #![trigger edge_key(e)]
                visited@.contains(edge_key(e)) <==> walked.contains(e),
            traced_rooms(edges@, next@, n as nat) == rooms.deep_view() + rooms_from(
                edges@,
                next@,
                n as nat,
                k as int,
                walked,
            ),
    {
        let ghost rest_before = rooms_from(edges@, next@, n as nat, k as int, walked);
        let (u, v) = edges[k];
        if visited.contains(&key_of((u, v))) {
            assert(walked.contains(edges@[k as int]));
            assert(rest_before == rooms_from(edges@, next@, n as nat, k + 1, walked));
        } else {
            assert(!walked.contains(edges@[k as int]));
            let ghost walked_before = walked;
            let (corners, closed) = walk(edges, next, n, k, &mut visited);
            let ghost w = walk_from(edges@, next@, n as nat, k as int);
            proof {
                walked = walked_before + w.trail;
                assert forall|e: (usize, usize)|
                    #![trigger edge_key(e)]
                    visited@.contains(edge_key(e)) <==> walked.contains(e) by {
                    if walked_before.contains(e) {
                        let j = choose|j: int| 0 <= j < walked_before.len() && walked_before[j] == e;
                        assert(walked[j] == e);
                    }
                    if w.trail.contains(e) {
                        let j = choose|j: int| 0 <= j < w.trail.len() && w.trail[j] == e;
                        assert(walked[walked_before.len() + j] == e);
                    }
                    if walked.contains(e) {
                        let j = choose|j: int| 0 <= j < walked.len() && walked[j] == e;
                        if j < walked_before.len() {
                            assert(walked_before[j] == e);
                        } else {
                            assert(w.trail[j - walked_before.len()] == e);
                        }
                    }
                }
            }
            assert(rest_before == {
                let rest = rooms_from(edges@, next@, n as nat, k + 1, walked);
                if w.closed && w.corners.len() >= 3 {
                    seq![w.corners] + rest
                } else {
                    rest
                }
            });
            if closed && corners.len() >= 3 {
                let ghost dv = rooms.deep_view();
                assert(corners.deep_view() =~= corners@);
                rooms.push(corners);
                assert(rooms.deep_view() =~= dv.push(w.corners));
                assert(traced_rooms(edges@, next@, n as nat) =~= rooms.deep_view() + rooms_from(
                    edges@,
                    next@,
                    n as nat,
                    k + 1,
                    walked,
                ));
            }
        }
    }
    assert(rooms_from(edges@, next@, n as nat, len as int, walked) =~= seq![]);
    assert(traced_rooms(edges@, next@, n as nat) =~= rooms.deep_view());
    proof {
        lemma_traced_rooms_are_closed_walks(edges@, next@, n as nat);
    }
    rooms
}

} // verus!
