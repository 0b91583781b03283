//! Triangulation of a room's floor polygon by ear clipping.
//!
//! The corners are kept in a ring, turned so that the polygon runs in the
//! orientation that the turn test expects. Again and again the first corner
//! of the ring that is an ear (the turn there is convex and no other corner
//! of the ring lies in the triangle it makes with its neighbours) is cut off
//! as a triangle, until three corners are left, no ear is found, or the
//! round limit is reached. The two geometric tests are made on the
//! coordinates by the caller and handed in as closures.

use vstd::prelude::*;

verus! {

/// The number of rounds after which the clipping gives up.
pub const EAR_ROUNDS: u32 = 1000;

/// The slot before slot `i` in a ring of `len` slots.
pub open spec fn prev_slot(len: int, i: int) -> int {
    if i == 0 {
        len - 1
    } else {
        i - 1
    }
}

/// The slot after slot `i` in a ring of `len` slots.
pub open spec fn next_slot(len: int, i: int) -> int {
    if i == len - 1 {
        0
    } else {
        i + 1
    }
}

/// A closure of three points that gives the same answer to the same points.
pub open spec fn decides3<F: Fn(egui::Pos2, egui::Pos2, egui::Pos2) -> bool>(f: F) -> bool {
    &&& forall|a: egui::Pos2, b: egui::Pos2, c: egui::Pos2| f.requires((a, b, c))
    &&& forall|a: egui::Pos2, b: egui::Pos2, c: egui::Pos2, r1: bool, r2: bool|
        f.ensures((a, b, c), r1) && f.ensures((a, b, c), r2) ==> r1 == r2
}

/// A closure of four points that gives the same answer to the same points.
pub open spec fn decides4<G: Fn(egui::Pos2, egui::Pos2, egui::Pos2, egui::Pos2) -> bool>(
    g: G,
) -> bool {
    &&& forall|p: egui::Pos2, a: egui::Pos2, b: egui::Pos2, c: egui::Pos2| g.requires((p, a, b, c))
    &&& forall|p: egui::Pos2, a: egui::Pos2, b: egui::Pos2, c: egui::Pos2, r1: bool, r2: bool|
        g.ensures((p, a, b, c), r1) && g.ensures((p, a, b, c), r2) ==> r1 == r2
}

/// Whether slot `i` of `ring` is an ear: `convex` holds of the corner with
/// its two neighbours, and `inside` holds of no other corner of the ring and
/// that triangle.
pub open spec fn is_ear<
    F: Fn(egui::Pos2, egui::Pos2, egui::Pos2) -> bool,
    G: Fn(egui::Pos2, egui::Pos2, egui::Pos2, egui::Pos2) -> bool,
>(ring: Seq<egui::Pos2>, i: int, convex: F, inside: G) -> bool {
    let len = ring.len() as int;
    let a = ring[prev_slot(len, i)];
    let b = ring[i];
    let c = ring[next_slot(len, i)];
    &&& convex.ensures((a, b, c), true)
    &&& forall|j: int|
        0 <= j < len && j != prev_slot(len, i) && j != i && j != next_slot(len, i)
            ==> inside.ensures((#[trigger] ring[j], a, b, c), false)
}

/// The first ear of `ring` at slot `from` or later.
pub open spec fn first_ear<
    F: Fn(egui::Pos2, egui::Pos2, egui::Pos2) -> bool,
    G: Fn(egui::Pos2, egui::Pos2, egui::Pos2, egui::Pos2) -> bool,
>(ring: Seq<egui::Pos2>, from: int, convex: F, inside: G) -> Option<int>
    decreases ring.len() - from,
{
    if from < 0 || from >= ring.len() {
        None
    } else if is_ear(ring, from, convex, inside) {
        Some(from)
    } else {
        first_ear(ring, from + 1, convex, inside)
    }
}

/// The triangle cut off at slot `i`.
pub open spec fn ear_triangle(ring: Seq<egui::Pos2>, i: int) -> [egui::Pos2; 3] {
    let len = ring.len() as int;
    [ring[prev_slot(len, i)], ring[i], ring[next_slot(len, i)]]
}

/// The triangle of a ring of three corners; nothing for a longer ring.
pub open spec fn last_triangle(ring: Seq<egui::Pos2>) -> Seq<[egui::Pos2; 3]> {
    if ring.len() == 3 {
        seq![[ring[0], ring[1], ring[2]]]
    } else {
        seq![]
    }
}

/// The triangles that clipping `ring` gives with `rounds` rounds left.
pub open spec fn clip_ears<
    F: Fn(egui::Pos2, egui::Pos2, egui::Pos2) -> bool,
    G: Fn(egui::Pos2, egui::Pos2, egui::Pos2, egui::Pos2) -> bool,
>(ring: Seq<egui::Pos2>, rounds: nat, convex: F, inside: G) -> Seq<[egui::Pos2; 3]>
    decreases rounds,
{
    if ring.len() > 3 && rounds > 0 {
        match first_ear(ring, 0, convex, inside) {
            Some(i) => seq![ear_triangle(ring, i)] + clip_ears(
                ring.remove(i),
                (rounds - 1) as nat,
                convex,
                inside,
            ),
            None => seq![],
        }
    } else {
        last_triangle(ring)
    }
}

/// The corners of `polygon`, in reverse order when `reverse` holds.
pub open spec fn oriented(polygon: Seq<egui::Pos2>, reverse: bool) -> Seq<egui::Pos2> {
    if reverse {
        Seq::new(polygon.len(), |k: int| polygon[polygon.len() - 1 - k])
    } else {
        polygon
    }
}

/// The triangles of the floor of `polygon`: none for fewer than three
/// corners; otherwise the ear clipping of the polygon, reversed when
/// `reverse` holds, within `EAR_ROUNDS` rounds.
pub open spec fn triangulated<
    F: Fn(egui::Pos2, egui::Pos2, egui::Pos2) -> bool,
    G: Fn(egui::Pos2, egui::Pos2, egui::Pos2, egui::Pos2) -> bool,
>(polygon: Seq<egui::Pos2>, reverse: bool, convex: F, inside: G) -> Seq<[egui::Pos2; 3]> {
    if polygon.len() < 3 {
        seq![]
    } else {
        clip_ears(oriented(polygon, reverse), EAR_ROUNDS as nat, convex, inside)
    }
}

/// Each triangle of `tris` has its three corners among `corners`.
pub open spec fn corners_among(tris: Seq<[egui::Pos2; 3]>, corners: Seq<egui::Pos2>) -> bool {
    forall|t: int, k: int|
        0 <= t < tris.len() && 0 <= k < 3 ==> corners.contains(#[trigger] tris[t][k])
}

proof fn lemma_clip_ears_bounds<
    F: Fn(egui::Pos2, egui::Pos2, egui::Pos2) -> bool,
    G: Fn(egui::Pos2, egui::Pos2, egui::Pos2, egui::Pos2) -> bool,
>(ring: Seq<egui::Pos2>, rounds: nat, convex: F, inside: G)
    ensures
        ring.len() < 3 ==> clip_ears(ring, rounds, convex, inside).len() == 0,
        ring.len() >= 3 ==> clip_ears(ring, rounds, convex, inside).len() + 2 <= ring.len(),
        corners_among(clip_ears(ring, rounds, convex, inside), ring),
    decreases rounds,
{
    let res = clip_ears(ring, rounds, convex, inside);
    if ring.len() > 3 && rounds > 0 {
        match first_ear(ring, 0, convex, inside) {
            Some(i) => {
                lemma_first_ear_in_range(ring, 0, convex, inside);
                let smaller = ring.remove(i);
                lemma_clip_ears_bounds(smaller, (rounds - 1) as nat, convex, inside);
                let rest = clip_ears(smaller, (rounds - 1) as nat, convex, inside);
                let tri = ear_triangle(ring, i);
                assert(res == seq![tri] + rest);
                let len = ring.len() as int;
                assert(ring.contains(ring[prev_slot(len, i)]));
                assert(ring.contains(ring[i]));
                assert(ring.contains(ring[next_slot(len, i)]));
                assert forall|t: int, k: int| 0 <= t < res.len() && 0 <= k < 3 implies ring.contains(
                    #[trigger] res[t][k],
                ) by {
                    if t == 0 {
                        assert(res[0] == tri);
                    } else {
                        assert(res[t] == rest[t - 1]);
                        assert(smaller.contains(rest[t - 1][k]));
                        let m = choose|m: int| 0 <= m < smaller.len() && smaller[m] == rest[t - 1][k];
                        if m < i {
                            assert(smaller[m] == ring[m]);
                        } else {
                            assert(smaller[m] == ring[m + 1]);
                        }
                    }
                }
            },
            None => {},
        }
    } else {
        if ring.len() == 3 {
            let tri: [egui::Pos2; 3] = [ring[0], ring[1], ring[2]];
            assert(res == seq![tri]);
            assert(ring.contains(ring[0]));
            assert(ring.contains(ring[1]));
            assert(ring.contains(ring[2]));
            assert forall|t: int, k: int| 0 <= t < res.len() && 0 <= k < 3 implies ring.contains(
                #[trigger] res[t][k],
            ) by {
                assert(t == 0);
                assert(res[0] == tri);
            }
        }
    }
}

proof fn lemma_first_ear_in_range<
    F: Fn(egui::Pos2, egui::Pos2, egui::Pos2) -> bool,
    G: Fn(egui::Pos2, egui::Pos2, egui::Pos2, egui::Pos2) -> bool,
>(ring: Seq<egui::Pos2>, from: int, convex: F, inside: G)
    ensures
        first_ear(ring, from, convex, inside) matches Some(i) ==> from <= i < ring.len() && is_ear(
            ring,
            i,
            convex,
            inside,
        ),
    decreases ring.len() - from,
{
    if from < 0 || from >= ring.len() {
    } else if is_ear(ring, from, convex, inside) {
    } else {
        lemma_first_ear_in_range(ring, from + 1, convex, inside);
    }
}

/// Every triangle of `tris`, except the last one, passes the convex test.
pub open spec fn ears_convex<F: Fn(egui::Pos2, egui::Pos2, egui::Pos2) -> bool>(
    tris: Seq<[egui::Pos2; 3]>,
    convex: F,
) -> bool {
    forall|t: int|
        0 <= t < tris.len() - 1 ==> convex.ensures(
            (#[trigger] tris[t][0], tris[t][1], tris[t][2]),
            true,
        )
}

proof fn lemma_clip_ears_ears<
    F: Fn(egui::Pos2, egui::Pos2, egui::Pos2) -> bool,
    G: Fn(egui::Pos2, egui::Pos2, egui::Pos2, egui::Pos2) -> bool,
>(ring: Seq<egui::Pos2>, rounds: nat, convex: F, inside: G)
    ensures
        clip_ears(ring, rounds, convex, inside).len() <= rounds + 1,
        ears_convex(clip_ears(ring, rounds, convex, inside), convex),
    decreases rounds,
{
    let res = clip_ears(ring, rounds, convex, inside);
    if ring.len() > 3 && rounds > 0 {
        match first_ear(ring, 0, convex, inside) {
            Some(i) => {
                lemma_first_ear_in_range(ring, 0, convex, inside);
                let smaller = ring.remove(i);
                lemma_clip_ears_ears(smaller, (rounds - 1) as nat, convex, inside);
                let rest = clip_ears(smaller, (rounds - 1) as nat, convex, inside);
                let tri = ear_triangle(ring, i);
                assert(res == seq![tri] + rest);
                assert forall|t: int| 0 <= t < res.len() - 1 implies convex.ensures(
                    (#[trigger] res[t][0], res[t][1], res[t][2]),
                    true,
                ) by {
                    if t == 0 {
                        assert(res[0] == tri);
                    } else {
                        assert(res[t] == rest[t - 1]);
                    }
                }
            },
            None => {},
        }
    }
}

/// Telling the triangulation to reverse the polygon is the same as giving it
/// the polygon reversed: the floor does not depend on the order in which the
/// corners are given, as long as the reverse flag follows that order.
pub proof fn lemma_triangulated_reverse<
    F: Fn(egui::Pos2, egui::Pos2, egui::Pos2) -> bool,
    G: Fn(egui::Pos2, egui::Pos2, egui::Pos2, egui::Pos2) -> bool,
>(polygon: Seq<egui::Pos2>, convex: F, inside: G)
    ensures
        triangulated(polygon, true, convex, inside) == triangulated(
            oriented(polygon, true),
            false,
            convex,
            inside,
        ),
        triangulated(oriented(polygon, true), true, convex, inside) == triangulated(
            polygon,
            false,
            convex,
            inside,
        ),
{
    let rev = oriented(polygon, true);
    assert(oriented(rev, true) =~= polygon);
}

/// The floor of a polygon with `n` corners has at most `n - 2` triangles
/// (none when `n < 3`), and every corner of every triangle is a corner of the
/// polygon.
pub proof fn lemma_triangulated_bounds<
    F: Fn(egui::Pos2, egui::Pos2, egui::Pos2) -> bool,
    G: Fn(egui::Pos2, egui::Pos2, egui::Pos2, egui::Pos2) -> bool,
>(polygon: Seq<egui::Pos2>, reverse: bool, convex: F, inside: G)
    ensures
        polygon.len() < 3 ==> triangulated(polygon, reverse, convex, inside).len() == 0,
        polygon.len() >= 3 ==> triangulated(polygon, reverse, convex, inside).len() + 2
            <= polygon.len(),
        corners_among(triangulated(polygon, reverse, convex, inside), polygon),
{
    if polygon.len() >= 3 {
        let ring = oriented(polygon, reverse);
        lemma_clip_ears_bounds(ring, EAR_ROUNDS as nat, convex, inside);
        let res = triangulated(polygon, reverse, convex, inside);
        assert forall|t: int, k: int| 0 <= t < res.len() && 0 <= k < 3 implies polygon.contains(
            #[trigger] res[t][k],
        ) by {
            assert(ring.contains(res[t][k]));
            let m = choose|m: int| 0 <= m < ring.len() && ring[m] == res[t][k];
            if reverse {
                assert(ring[m] == polygon[polygon.len() - 1 - m]);
            } else {
                assert(ring[m] == polygon[m]);
            }
        }
    }
}

/// Whether slot `i` of `ring` is an ear, by calling the two tests.
fn test_ear<F, G>(ring: &Vec<egui::Pos2>, i: usize, convex: &F, inside: &G) -> (ear: bool) where
    F: Fn(egui::Pos2, egui::Pos2, egui::Pos2) -> bool,
    G: Fn(egui::Pos2, egui::Pos2, egui::Pos2, egui::Pos2) -> bool,

    requires
        decides3(*convex),
        decides4(*inside),
        ring.len() > 3,
        i < ring.len(),
    ensures
        ear == is_ear(ring@, i as int, *convex, *inside),
{
    let len = ring.len();
    let p = if i == 0 {
        len - 1
    } else {
        i - 1
    };
    let q = if i == len - 1 {
        0
    } else {
        i + 1
    };
    let a = ring[p];
    let b = ring[i];
    let c = ring[q];
    if !convex(a, b, c) {
        return false;
    }
    for j in 0..len
        invariant
            len == ring.len(),
            decides4(*inside),
            p == prev_slot(len as int, i as int),
            q == next_slot(len as int, i as int),
            a == ring@[p as int],
            b == ring@[i as int],
            c == ring@[q as int],
            forall|k: int|
                0 <= k < j && k != p && k != i && k != q ==> inside.ensures(
                    (#[trigger] ring@[k], a, b, c),
                    false,
                ),
    {
        if j != p && j != i && j != q {
            let hit = inside(ring[j], a, b, c);
            if hit {
                assert(!inside.ensures((ring@[j as int], a, b, c), false));
                return false;
            }
        }
    }
    true
}

/// Triangulates a room's floor by ear clipping.
///
/// `reverse` tells whether the polygon runs the other way round than the
/// tests expect (the caller tells it from the sign of the area); `convex`
/// tells whether the turn at a corner is convex and `inside` whether a point
/// lies in a triangle. Both must give the same answer to the same points.
pub fn triangulate<F, G>(polygon: &Vec<egui::Pos2>, reverse: bool, convex: &F, inside: &G) -> (tris:
    Vec<[egui::Pos2; 3]>) where
    F: Fn(egui::Pos2, egui::Pos2, egui::Pos2) -> bool,
    G: Fn(egui::Pos2, egui::Pos2, egui::Pos2, egui::Pos2) -> bool,

    requires
        decides3(*convex),
        decides4(*inside),
    ensures
        tris@ == triangulated(polygon@, reverse, *convex, *inside),
        polygon.len() >= 3 ==> tris.len() + 2 <= polygon.len(),
        tris.len() <= EAR_ROUNDS + 1,
        corners_among(tris@, polygon@),
        ears_convex(tris@, *convex),
{
    proof {
        lemma_triangulated_bounds(polygon@, reverse, *convex, *inside);
        if polygon.len() >= 3 {
            lemma_clip_ears_ears(oriented(polygon@, reverse), EAR_ROUNDS as nat, *convex, *inside);
        }
    }
    let mut tris: Vec<[egui::Pos2; 3]> = Vec::new();
    let n = polygon.len();
    if n < 3 {
        return tris;
    }
    let mut ring: Vec<egui::Pos2> = Vec::new();
    for k in 0..n
        invariant
            n == polygon.len(),
            ring@ == oriented(polygon@, reverse).take(k as int),
    {
        let v = if reverse {
            polygon[n - 1 - k]
        } else {
            polygon[k]
        };
        ring.push(v);
        assert(ring@ =~= oriented(polygon@, reverse).take(k + 1));
    }
    assert(ring@ =~= oriented(polygon@, reverse));
    let mut rounds: u32 = EAR_ROUNDS;
    while ring.len() > 3 && rounds > 0
        invariant_except_break
            decides3(*convex),
            decides4(*inside),
            triangulated(polygon@, reverse, *convex, *inside) == tris@ + clip_ears(
                ring@,
                rounds as nat,
                *convex,
                *inside,
            ),
        ensures
            triangulated(polygon@, reverse, *convex, *inside) == tris@ + last_triangle(ring@),
        decreases rounds,
    {
        let ghost ring0 = ring@;
        let ghost tris0 = tris@;
        rounds = rounds - 1;
        let len = ring.len();
        let mut found = false;
        let mut i: usize = 0;
        while i < len
            invariant_except_break
                len == ring.len(),
                ring@ == ring0,
                tris@ == tris0,
                len > 3,
                decides3(*convex),
                decides4(*inside),
                !found,
                first_ear(ring0, 0, *convex, *inside) == first_ear(
                    ring0,
                    i as int,
                    *convex,
                    *inside,
                ),
            ensures
                found ==> {
                    &&& first_ear(ring0, 0, *convex, *inside) matches Some(e)
                    &&& ring@ == ring0.remove(e)
                    &&& tris@ == tris0.push(ear_triangle(ring0, e))
                },
                !found ==> {
                    &&& ring@ == ring0
                    &&& tris@ == tris0
                    &&& first_ear(ring0, 0, *convex, *inside) is None
                },
            decreases len - i,
        {
            if test_ear(&ring, i, convex, inside) {
                let a = ring[if i == 0 {
                    len - 1
                } else {
                    i - 1
                }];
                let b = ring[i];
                let c = ring[if i == len - 1 {
                    0
                } else {
                    i + 1
                }];
                tris.push([a, b, c]);
                assert(tris@ =~= tris0.push(ear_triangle(ring0, i as int)));
                ring.remove(i);
                found = true;
                break;
            }
            i = i + 1;
        }
        if !found {
            assert(last_triangle(ring@) =~= seq![]);
            assert(tris@ + last_triangle(ring@) =~= tris@);
            assert(tris@ + clip_ears(ring0, (rounds + 1) as nat, *convex, *inside) =~= tris@);
            break;
        }
        let ghost e = first_ear(ring0, 0, *convex, *inside)->0;
        assert(clip_ears(ring0, (rounds + 1) as nat, *convex, *inside) == seq![ear_triangle(ring0, e)]
            + clip_ears(ring@, rounds as nat, *convex, *inside));
        assert(tris@ + clip_ears(ring@, rounds as nat, *convex, *inside) =~= tris0 + (seq![
            ear_triangle(ring0, e),
        ] + clip_ears(ring@, rounds as nat, *convex, *inside)));
    }
    if ring.len() == 3 {
        let ghost before = tris@;
        tris.push([ring[0], ring[1], ring[2]]);
        assert(tris@ =~= before + last_triangle(ring@));
    } else {
        assert(tris@ + last_triangle(ring@) =~= tris@);
    }
    tris
}

} // verus!
