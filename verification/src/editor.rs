//! The editing rules of the plan editor: drawing walls point by point,
//! selecting walls (by their endpoints, by the wall itself, or with a rubber
//! band), dragging endpoints, moving the selection, deleting it, clearing the
//! plan and switching tools.
//!
//! The pointer positions, the snapping of points and the distance tests are
//! worked out on the coordinates by the caller; each operation here receives
//! their outcome and decides what the plan becomes.

use std::collections::HashSet;
use vstd::prelude::*;

use crate::models::{min_corner, rect_contains, rect_holds, rect_min, Tool, Wall};

verus! {

broadcast use vstd::std_specs::hash::group_hash_axioms;

/// The editable part of a plan and of the editor's interaction state.
pub struct EditorState {
    /// The tool that the pointer works with.
    pub current_tool: Tool,
    /// The walls of the plan, in drawing order.
    pub walls: Vec<Wall>,
    /// Where the wall being drawn starts, once its first point is placed.
    pub wall_start_point: Option<egui::Pos2>,
    /// The indices of the selected walls.
    pub selected_walls: HashSet<usize>,
    /// The rubber band of a selection by area, while it is dragged.
    pub selection_rect: Option<egui::Rect>,
    /// The wall endpoints that a drag moves: the wall's index, and `true` for
    /// its start, `false` for its end.
    pub dragging_endpoints: Vec<(usize, bool)>,
}

/// Every selected index names a wall of a plan with `wall_count` walls.
pub open spec fn selection_in_range(wall_count: nat, selected: Set<usize>) -> bool {
    forall|i: usize| selected.contains(i) ==> i < wall_count
}

/// The walls whose index is not in `selected`, in their order.
pub open spec fn unselected(walls: Seq<Wall>, selected: Set<usize>) -> Seq<Wall>
    decreases walls.len(),
{
    if walls.len() == 0 {
        seq![]
    } else {
        let before = unselected(walls.drop_last(), selected);
        if selected.contains((walls.len() - 1) as usize) {
            before
        } else {
            before.push(walls.last())
        }
    }
}

/// `m` maps each position of `kept` to the index in `walls` of the wall it
/// is: an unselected index, the wall there unchanged, the indices
/// increasing, and every unselected index reached.
pub open spec fn kept_index_map(
    walls: Seq<Wall>,
    kept: Seq<Wall>,
    selected: Set<usize>,
    m: Seq<int>,
) -> bool {
    &&& m.len() == kept.len()
    &&& forall|p: int|
        0 <= p < m.len() ==> {
            &&& 0 <= #[trigger] m[p] < walls.len()
            &&& !selected.contains(m[p] as usize)
            &&& kept[p] == walls[m[p]]
        }
    &&& forall|p: int, q: int| 0 <= p < q < m.len() ==> m[p] < m[q]
    &&& forall|i: usize|
        i < walls.len() && !(#[trigger] selected.contains(i)) ==> exists|p: int|
            0 <= p < m.len() && #[trigger] m[p] == i as int
}

/// `kept` is exactly the walls of `walls` whose index is not selected, each
/// unchanged, in their order.
pub open spec fn keeps_unselected(walls: Seq<Wall>, kept: Seq<Wall>, selected: Set<usize>) -> bool {
    exists|m: Seq<int>| kept_index_map(walls, kept, selected, m)
}

/// Deleting the selection keeps exactly the unselected walls, each unchanged
/// and in their order.
pub proof fn lemma_unselected_keeps_walls(walls: Seq<Wall>, selected: Set<usize>)
    requires
        walls.len() <= usize::MAX + 1,
    ensures
        keeps_unselected(walls, unselected(walls, selected), selected),
    decreases walls.len(),
{
    let kept = unselected(walls, selected);
    if walls.len() == 0 {
        assert(kept_index_map(walls, kept, selected, seq![]));
    } else {
        let w0 = walls.drop_last();
        let k0 = unselected(w0, selected);
        lemma_unselected_keeps_walls(w0, selected);
        let m0 = choose|m: Seq<int>| kept_index_map(w0, k0, selected, m);
        let last = walls.len() - 1;
        if selected.contains(last as usize) {
            assert(kept == k0);
            assert forall|i: usize|
                i < walls.len() && !(#[trigger] selected.contains(i)) implies exists|p: int|
                    0 <= p < m0.len() && #[trigger] m0[p] == i as int by {
                assert(i < last);
            }
            assert(kept_index_map(walls, kept, selected, m0));
        } else {
            let m = m0.push(last);
            assert(kept == k0.push(walls.last()));
            assert forall|i: usize|
                i < walls.len() && !(#[trigger] selected.contains(i)) implies exists|p: int|
                    0 <= p < m.len() && #[trigger] m[p] == i as int by {
                if i == last {
                    assert(m[m0.len() as int] == i as int);
                } else {
                    let p = choose|p: int| 0 <= p < m0.len() && #[trigger] m0[p] == i as int;
                    assert(m[p] == i as int);
                }
            }
            assert forall|p: int| 0 <= p < m.len() implies {
                &&& 0 <= #[trigger] m[p] < walls.len()
                &&& !selected.contains(m[p] as usize)
                &&& kept[p] == walls[m[p]]
            } by {
                if p < m0.len() {
                    assert(m[p] == m0[p]);
                    assert(kept[p] == k0[p]);
                    assert(w0[m0[p]] == walls[m0[p]]);
                }
            }
            assert forall|p: int, q: int| 0 <= p < q < m.len() implies m[p] < m[q] by {
                if q < m0.len() {
                    assert(m[p] == m0[p] && m[q] == m0[q]);
                } else {
                    assert(m[p] == m0[p]);
                    assert(0 <= #[trigger] m0[p] < w0.len());
                }
            }
            assert(kept_index_map(walls, kept, selected, m));
        }
    }
}

/// The walls named by a list of endpoints.
pub open spec fn endpoint_walls(endpoints: Seq<(usize, bool)>) -> Set<usize> {
    Set::new(|i: usize| exists|k: int| 0 <= k < endpoints.len() && (#[trigger] endpoints[k]).0 == i)
}

/// The walls of `walls` with an endpoint in the rectangle `r`.
pub open spec fn walls_touching(walls: Seq<Wall>, r: egui::Rect) -> Set<usize> {
    Set::new(
        |i: usize|
            i < walls.len() && (rect_holds(r, walls[i as int].start) || rect_holds(
                r,
                walls[i as int].end,
            )),
    )
}

/// The walls touched by a rubber band are those with an endpoint in it:
/// a wall whose start alone lies in the band counts, as does one whose end
/// alone does.
pub proof fn lemma_walls_touching_members(walls: Seq<Wall>, r: egui::Rect)
    ensures
        forall|i: usize|
            #[trigger] walls_touching(walls, r).contains(i) <==> i < walls.len() && (rect_holds(
                r,
                walls[i as int].start,
            ) || rect_holds(r, walls[i as int].end)),
{
}

/// Every endpoint given names a wall of `endpoint_walls`, and no other wall
/// is in it.
pub proof fn lemma_endpoint_walls_members(endpoints: Seq<(usize, bool)>)
    ensures
        forall|k: int|
            0 <= k < endpoints.len() ==> endpoint_walls(endpoints).contains(
                (#[trigger] endpoints[k]).0,
            ),
        forall|i: usize|
            #[trigger] endpoint_walls(endpoints).contains(i) ==> exists|k: int|
                0 <= k < endpoints.len() && (#[trigger] endpoints[k]).0 == i,
{
}

/// The selected walls below index `k`, as a set.
pub open spec fn selected_below(selected: Set<usize>, k: nat) -> Set<usize> {
    selected.filter(|i: usize| i < k)
}

proof fn lemma_unselected_len(walls: Seq<Wall>, selected: Set<usize>, k: nat)
    requires
        k <= walls.len(),
        walls.len() <= usize::MAX + 1,
    ensures
        selected_below(selected, k).finite(),
        unselected(walls.take(k as int), selected).len() + selected_below(selected, k).len() == k,
    decreases k,
{
    if k == 0 {
        assert(selected_below(selected, 0) =~= Set::<usize>::empty());
        assert(walls.take(0) =~= seq![]);
    } else {
        let j = (k - 1) as nat;
        lemma_unselected_len(walls, selected, j);
        assert(walls.take(k as int).drop_last() =~= walls.take(j as int));
        let top = j as usize;
        if selected.contains(top) {
            assert(selected_below(selected, k) =~= selected_below(selected, j).insert(top));
            assert(!selected_below(selected, j).contains(top));
        } else {
            assert(selected_below(selected, k) =~= selected_below(selected, j));
        }
    }
}

/// Deleting the selection removes exactly one wall per selected index: when
/// every selected index names a wall, the walls that remain and the selected
/// walls together are as many as the walls before.
pub proof fn lemma_delete_removes_selected_count(walls: Seq<Wall>, selected: Set<usize>)
    requires
        selection_in_range(walls.len(), selected),
        walls.len() <= usize::MAX + 1,
    ensures
        selected.finite(),
        unselected(walls, selected).len() + selected.len() == walls.len(),
{
    lemma_unselected_len(walls, selected, walls.len());
    assert(selected_below(selected, walls.len()) =~= selected);
    assert(walls.take(walls.len() as int) =~= walls);
}

impl EditorState {
    /// Every selected index names an existing wall.
    pub open spec fn wf(&self) -> bool {
        selection_in_range(self.walls.len() as nat, self.selected_walls@)
    }

    /// An empty plan, with the wall tool chosen.
    pub fn new() -> (s: EditorState)
        ensures
            s.current_tool == Tool::DrawWall,
            s.walls@ == Seq::<Wall>::empty(),
            s.wall_start_point is None,
            s.selected_walls@ == Set::<usize>::empty(),
            s.selection_rect is None,
            s.dragging_endpoints@ == Seq::<(usize, bool)>::empty(),
            s.wf(),
    {
        EditorState {
            current_tool: Tool::DrawWall,
            walls: Vec::new(),
            wall_start_point: None,
            selected_walls: HashSet::new(),
            selection_rect: None,
            dragging_endpoints: Vec::new(),
        }
    }

    /// Abandons the wall being drawn (the Escape key).
    pub fn cancel_wall(&mut self)
        ensures
            *final(self) == (EditorState { wall_start_point: None, ..*old(self) }),
    {
        self.wall_start_point = None;
    }

    /// Chooses a tool. Choosing the selection tool abandons the wall being
    /// drawn.
    pub fn select_tool(&mut self, tool: Tool)
        ensures
            final(self).current_tool == tool,
            final(self).wall_start_point == (if tool == Tool::Select {
                None
            } else {
                old(self).wall_start_point
            }),
            final(self).walls == old(self).walls,
            final(self).selected_walls == old(self).selected_walls,
            final(self).selection_rect == old(self).selection_rect,
            final(self).dragging_endpoints == old(self).dragging_endpoints,
    {
        self.current_tool = tool;
        if tool == Tool::Select {
            self.wall_start_point = None;
        }
    }

    /// Empties the plan: no walls, nothing selected, no wall being drawn.
    pub fn clear(&mut self)
        ensures
            final(self).walls@ == Seq::<Wall>::empty(),
            final(self).selected_walls@ == Set::<usize>::empty(),
            final(self).wall_start_point is None,
            final(self).current_tool == old(self).current_tool,
            final(self).selection_rect == old(self).selection_rect,
            final(self).dragging_endpoints == old(self).dragging_endpoints,
            final(self).wf(),
    {
        self.walls.clear();
        self.selected_walls.clear();
        self.wall_start_point = None;
    }

    /// Deletes the selected walls (the Delete and Backspace keys). With
    /// something selected, the walls that are not selected remain in their
    /// order, and the selection, the dragged endpoints and the rubber band are
    /// dropped; returns whether walls were deleted. With nothing selected,
    /// nothing changes.
    pub fn delete_selected(&mut self) -> (deleted: bool)
        requires
            old(self).wf(),
        ensures
            deleted == !old(self).selected_walls@.is_empty(),
            deleted ==> {
                &&& final(self).walls@ == unselected(old(self).walls@, old(self).selected_walls@)
                &&& keeps_unselected(old(self).walls@, final(self).walls@, old(self).selected_walls@)
                &&& final(self).selected_walls@ == Set::<usize>::empty()
                &&& final(self).dragging_endpoints@ == Seq::<(usize, bool)>::empty()
                &&& final(self).selection_rect is None
                &&& final(self).current_tool == old(self).current_tool
                &&& final(self).wall_start_point == old(self).wall_start_point
            },
            !deleted ==> *final(self) == *old(self),
            final(self).wf(),
    {
        if self.selected_walls.is_empty() {
            return false;
        }
        let mut kept: Vec<Wall> = Vec::new();
        let n = self.walls.len();
        for i in 0..n
            invariant
                n == self.walls.len(),
                kept@ == unselected(self.walls@.take(i as int), self.selected_walls@),
        {
            assert(self.walls@.take(i + 1).drop_last() =~= self.walls@.take(i as int));
            if !self.selected_walls.contains(&i) {
                kept.push(self.walls[i]);
            }
        }
        assert(self.walls@.take(n as int) =~= self.walls@);
        proof {
            lemma_unselected_keeps_walls(self.walls@, self.selected_walls@);
        }
        self.walls = kept;
        self.selected_walls.clear();
        self.dragging_endpoints.clear();
        self.selection_rect = None;
        true
    }

    /// A click of the wall tool at the (snapped) point `snapped`. The first
    /// click places the start of a wall. A later click adds the wall from
    /// that start to `snapped` and goes on from `snapped`, provided the two
    /// are far enough apart (`far_enough`, which the caller tells from the
    /// distance between `wall_start_point` and `snapped`); otherwise it does
    /// nothing. Returns whether a wall was added.
    pub fn click_draw(&mut self, snapped: egui::Pos2, far_enough: bool) -> (added: bool)
        requires
            old(self).walls.len() < usize::MAX,
        ensures
            added == (old(self).wall_start_point is Some && far_enough),
            added ==> final(self).walls@ == old(self).walls@.push(
                Wall { start: old(self).wall_start_point->0, end: snapped },
            ),
            added ==> final(self).wall_start_point == Some(final(self).walls@.last().end),
            !added ==> final(self).walls == old(self).walls,
            final(self).wall_start_point == (if old(self).wall_start_point is Some && !far_enough {
                old(self).wall_start_point
            } else {
                Some(snapped)
            }),
            final(self).current_tool == old(self).current_tool,
            final(self).selected_walls == old(self).selected_walls,
            final(self).selection_rect == old(self).selection_rect,
            final(self).dragging_endpoints == old(self).dragging_endpoints,
            old(self).wf() ==> final(self).wf(),
    {
        match self.wall_start_point {
            Some(start) => {
                if far_enough {
                    self.walls.push(Wall { start, end: snapped });
                    self.wall_start_point = Some(snapped);
                    true
                } else {
                    false
                }
            },
            None => {
                self.wall_start_point = Some(snapped);
                false
            },
        }
    }

    /// A press of the selection tool at `press_pos`.
    ///
    /// `endpoints` are the wall endpoints under the pointer and `clicked_wall`
    /// the wall under it when there are none; `shift` tells whether Shift is
    /// held and `drag_started` whether the press starts a drag.
    /// - On endpoints: they become the dragged endpoints, and their walls are
    ///   selected, added to the selection with Shift, in place of it without.
    /// - On a wall: it is selected; without Shift, and when it was not
    ///   selected already, in place of the selection.
    /// - Elsewhere: without Shift the selection is emptied; a drag starts a
    ///   rubber band `span(press_pos, press_pos)`, where `span` builds the
    ///   rectangle spanned by two points.
    pub fn press_select<S>(
        &mut self,
        endpoints: &Vec<(usize, bool)>,
        clicked_wall: Option<usize>,
        shift: bool,
        drag_started: bool,
        press_pos: egui::Pos2,
        span: &S,
    ) where S: Fn(egui::Pos2, egui::Pos2) -> egui::Rect
        requires
            forall|a: egui::Pos2, b: egui::Pos2| span.requires((a, b)),
        ensures
            endpoints@.len() > 0 ==> {
                &&& final(self).dragging_endpoints@ == endpoints@
                &&& final(self).selected_walls@ == (if shift {
                    old(self).selected_walls@
                } else {
                    Set::<usize>::empty()
                }).union(endpoint_walls(endpoints@))
                &&& forall|k: int|
                    0 <= k < endpoints.len() ==> final(self).selected_walls@.contains(
                        (#[trigger] endpoints@[k]).0,
                    )
                &&& forall|i: usize|
                    #[trigger] final(self).selected_walls@.contains(i) ==> (shift && old(
                        self,
                    ).selected_walls@.contains(i)) || exists|k: int|
                        0 <= k < endpoints.len() && (#[trigger] endpoints@[k]).0 == i
                &&& shift ==> old(self).selected_walls@.subset_of(final(self).selected_walls@)
                &&& final(self).selection_rect == old(self).selection_rect
            },
            endpoints@.len() == 0 && clicked_wall is Some ==> {
                let c = clicked_wall->0;
                &&& final(self).dragging_endpoints == old(self).dragging_endpoints
                &&& final(self).selected_walls@ == (if !shift && !old(
                    self,
                ).selected_walls@.contains(c) {
                    Set::<usize>::empty()
                } else {
                    old(self).selected_walls@
                }).insert(c)
                &&& final(self).selection_rect == old(self).selection_rect
            },
            endpoints@.len() == 0 && clicked_wall is None ==> {
                &&& final(self).dragging_endpoints == old(self).dragging_endpoints
                &&& final(self).selected_walls@ == (if shift {
                    old(self).selected_walls@
                } else {
                    Set::<usize>::empty()
                })
                &&& if drag_started {
                    final(self).selection_rect matches Some(r) && span.ensures(
                        (press_pos, press_pos),
                        r,
                    )
                } else {
                    final(self).selection_rect == old(self).selection_rect
                }
            },
            shift ==> old(self).selected_walls@.subset_of(final(self).selected_walls@),
            final(self).walls == old(self).walls,
            final(self).current_tool == old(self).current_tool,
            final(self).wall_start_point == old(self).wall_start_point,
            ({
                &&& old(self).wf()
                &&& forall|k: int|
                    0 <= k < endpoints.len() ==> (#[trigger] endpoints@[k]).0 < old(
                        self,
                    ).walls.len()
                &&& clicked_wall matches Some(c) ==> c < old(self).walls.len()
            }) ==> final(self).wf(),
    {
        if endpoints.len() > 0 {
            self.dragging_endpoints = Vec::new();
            if !shift {
                self.selected_walls.clear();
            }
            let ghost base = self.selected_walls@;
            let ghost in_range = old(self).wf() && forall|k: int|
                0 <= k < endpoints.len() ==> (#[trigger] endpoints@[k]).0 < old(self).walls.len();
            let m = endpoints.len();
            for j in 0..m
                invariant
                    m == endpoints.len(),
                    self.selected_walls@ == base.union(endpoint_walls(endpoints@.take(j as int))),
                    self.walls == old(self).walls,
                    in_range ==> forall|k: int|
                        0 <= k < endpoints.len() ==> (#[trigger] endpoints@[k]).0 < self.walls.len(),
                    in_range ==> selection_in_range(self.walls.len() as nat, base),
                    in_range ==> selection_in_range(
                        self.walls.len() as nat,
                        self.selected_walls@,
                    ),
                    self.current_tool == old(self).current_tool,
                    self.wall_start_point == old(self).wall_start_point,
                    self.selection_rect == old(self).selection_rect,
                    self.dragging_endpoints@ == endpoints@.take(j as int),
            {
                let (idx, is_start) = endpoints[j];
                self.dragging_endpoints.push((idx, is_start));
                assert(self.dragging_endpoints@ =~= endpoints@.take(j + 1));
                self.selected_walls.insert(idx);
                assert(endpoint_walls(endpoints@.take(j + 1)) =~= endpoint_walls(
                    endpoints@.take(j as int),
                ).insert(idx)) by {
                    assert(endpoints@.take(j + 1)[j as int] == endpoints@[j as int]);
                    assert forall|i: usize|
                        endpoint_walls(endpoints@.take(j + 1)).contains(i) implies endpoint_walls(
                            endpoints@.take(j as int),
                        ).insert(idx).contains(i) by {
                        let k = choose|k: int|
                            0 <= k < j + 1 && (#[trigger] endpoints@.take(j + 1)[k]).0 == i;
                        if k < j {
                            assert(endpoints@.take(j as int)[k] == endpoints@.take(j + 1)[k]);
                        }
                    }
                    assert forall|i: usize|
                        endpoint_walls(endpoints@.take(j as int)).insert(idx).contains(
                            i,
                        ) implies endpoint_walls(endpoints@.take(j + 1)).contains(i) by {
                        if i == idx {
                            assert(endpoints@.take(j + 1)[j as int].0 == i);
                        } else {
                            let k = choose|k: int|
                                0 <= k < j && (#[trigger] endpoints@.take(j as int)[k]).0 == i;
                            assert(endpoints@.take(j + 1)[k] == endpoints@.take(j as int)[k]);
                        }
                    }
                }
            }
            assert(endpoints@.take(m as int) =~= endpoints@);
        } else {
            match clicked_wall {
                Some(c) => {
                    if !shift && !self.selected_walls.contains(&c) {
                        self.selected_walls.clear();
                    }
                    self.selected_walls.insert(c);
                },
                None => {
                    if !shift {
                        self.selected_walls.clear();
                    }
                    if drag_started {
                        self.selection_rect = Some(span(press_pos, press_pos));
                    }
                },
            }
        }
    }

    /// The fixed end of the drag of endpoints, if endpoints are dragged: the
    /// other endpoint of the first dragged wall end, with the indices of the
    /// dragged walls, which the snapping of the dragged point leaves out.
    pub fn drag_anchor(&self) -> (anchor: Option<(egui::Pos2, Vec<usize>)>)
        requires
            self.dragging_endpoints@.len() > 0 ==> self.dragging_endpoints@[0].0
                < self.walls.len(),
        ensures
            anchor is None <==> self.dragging_endpoints@.len() == 0,
            anchor matches Some(a) ==> {
                let first = self.dragging_endpoints@[0];
                let w = self.walls@[first.0 as int];
                &&& a.0 == (if first.1 {
                    w.end
                } else {
                    w.start
                })
                &&& a.1@ == self.dragging_endpoints@.map_values(|d: (usize, bool)| d.0)
            },
    {
        if self.dragging_endpoints.len() == 0 {
            return None;
        }
        let (first_idx, first_is_start) = self.dragging_endpoints[0];
        let other = if first_is_start {
            self.walls[first_idx].end
        } else {
            self.walls[first_idx].start
        };
        let mut ignored: Vec<usize> = Vec::new();
        let m = self.dragging_endpoints.len();
        for j in 0..m
            invariant
                m == self.dragging_endpoints.len(),
                ignored@ == self.dragging_endpoints@.take(j as int).map_values(
                    |d: (usize, bool)| d.0,
                ),
        {
            ignored.push(self.dragging_endpoints[j].0);
            assert(ignored@ =~= self.dragging_endpoints@.take(j + 1).map_values(
                |d: (usize, bool)| d.0,
            ));
        }
        assert(self.dragging_endpoints@.take(m as int) =~= self.dragging_endpoints@);
        Some((other, ignored))
    }

    /// Puts every dragged endpoint at `pos`.
    pub fn move_dragged_endpoints(&mut self, pos: egui::Pos2)
        requires
            forall|k: int|
                0 <= k < old(self).dragging_endpoints.len() ==> (#[trigger] old(
                    self,
                ).dragging_endpoints@[k]).0 < old(self).walls.len(),
        ensures
            final(self).walls.len() == old(self).walls.len(),
            forall|i: int|
                0 <= i < old(self).walls.len() ==> (#[trigger] final(self).walls@[i]).start == (if old(
                    self,
                ).dragging_endpoints@.contains((i as usize, true)) {
                    pos
                } else {
                    old(self).walls@[i].start
                }),
            forall|i: int|
                0 <= i < old(self).walls.len() ==> (#[trigger] final(self).walls@[i]).end == (if old(
                    self,
                ).dragging_endpoints@.contains((i as usize, false)) {
                    pos
                } else {
                    old(self).walls@[i].end
                }),
            final(self).current_tool == old(self).current_tool,
            final(self).wall_start_point == old(self).wall_start_point,
            final(self).selected_walls == old(self).selected_walls,
            final(self).selection_rect == old(self).selection_rect,
            final(self).dragging_endpoints == old(self).dragging_endpoints,
            old(self).wf() ==> final(self).wf(),
    {
        let m = self.dragging_endpoints.len();
        for j in 0..m
            invariant
                m == self.dragging_endpoints.len(),
                self.dragging_endpoints == old(self).dragging_endpoints,
                self.walls.len() == old(self).walls.len(),
                forall|k: int|
                    0 <= k < self.dragging_endpoints.len() ==> (#[trigger]
                    self.dragging_endpoints@[k]).0 < self.walls.len(),
                forall|i: int|
                    0 <= i < self.walls.len() ==> (#[trigger] self.walls@[i]).start == (if self.dragging_endpoints@.take(
                        j as int,
                    ).contains((i as usize, true)) {
                        pos
                    } else {
                        old(self).walls@[i].start
                    }),
                forall|i: int|
                    0 <= i < self.walls.len() ==> (#[trigger] self.walls@[i]).end == (if self.dragging_endpoints@.take(
                        j as int,
                    ).contains((i as usize, false)) {
                        pos
                    } else {
                        old(self).walls@[i].end
                    }),
                self.current_tool == old(self).current_tool,
                self.wall_start_point == old(self).wall_start_point,
                self.selected_walls == old(self).selected_walls,
                self.selection_rect == old(self).selection_rect,
        {
            let (idx, is_start) = self.dragging_endpoints[j];
            assert(self.dragging_endpoints@[j as int].0 < self.walls.len());
            let mut w = self.walls[idx];
            if is_start {
                w.start = pos;
            } else {
                w.end = pos;
            }
            self.walls.set(idx, w);
            let ghost before = self.dragging_endpoints@.take(j as int);
            let ghost after = self.dragging_endpoints@.take(j + 1);
            assert(after =~= before.push((idx, is_start)));
            assert forall|p: (usize, bool)| after.contains(p) <==> before.contains(p) || p == (
                idx,
                is_start,
            ) by {
                if after.contains(p) {
                    let k = choose|k: int| 0 <= k < after.len() && after[k] == p;
                    if k < before.len() {
                        assert(before[k] == p);
                    }
                }
                if before.contains(p) {
                    let k = choose|k: int| 0 <= k < before.len() && before[k] == p;
                    assert(after[k] == p);
                }
                if p == (idx, is_start) {
                    assert(after[before.len() as int] == p);
                }
            }
        }
        assert(self.dragging_endpoints@.take(m as int) =~= self.dragging_endpoints@);
    }

    /// A drag of the selection tool while no endpoint is dragged, to the
    /// pointer position `pointer`. With walls selected and no rubber band,
    /// both endpoints of every selected wall are moved by `move_by` (the
    /// caller adds the pointer's displacement since the last step); otherwise
    /// a rubber band is replaced by `span(min, pointer)`, where `min` is its
    /// corner `min` and `span` builds the rectangle spanned by two points.
    /// Returns whether walls moved.
    pub fn drag_selection<M, S>(&mut self, pointer: egui::Pos2, move_by: &M, span: &S) -> (moved:
        bool) where
        M: Fn(egui::Pos2) -> egui::Pos2,
        S: Fn(egui::Pos2, egui::Pos2) -> egui::Rect,

        requires
            forall|p: egui::Pos2| move_by.requires((p,)),
            forall|a: egui::Pos2, b: egui::Pos2| span.requires((a, b)),
        ensures
            moved == (!old(self).selected_walls@.is_empty() && old(self).selection_rect is None),
            final(self).walls.len() == old(self).walls.len(),
            forall|i: int|
                0 <= i < old(self).walls.len() ==> if moved && old(self).selected_walls@.contains(
                    i as usize,
                ) {
                    &&& move_by.ensures((old(self).walls@[i].start,), (#[trigger] final(self).walls@[i]).start)
                    &&& move_by.ensures((old(self).walls@[i].end,), final(self).walls@[i].end)
                } else {
                    final(self).walls@[i] == old(self).walls@[i]
                },
            match old(self).selection_rect {
                Some(r) => final(self).selection_rect matches Some(r2) && span.ensures(
                    (min_corner(r), pointer),
                    r2,
                ),
                None => final(self).selection_rect is None,
            },
            final(self).current_tool == old(self).current_tool,
            final(self).wall_start_point == old(self).wall_start_point,
            final(self).selected_walls == old(self).selected_walls,
            final(self).dragging_endpoints == old(self).dragging_endpoints,
            old(self).wf() ==> final(self).wf(),
    {
        if !self.selected_walls.is_empty() && self.selection_rect.is_none() {
            let n = self.walls.len();
            for i in 0..n
                invariant
                    n == self.walls.len(),
                    self.walls.len() == old(self).walls.len(),
                    self.selected_walls == old(self).selected_walls,
                    self.current_tool == old(self).current_tool,
                    self.wall_start_point == old(self).wall_start_point,
                    self.selection_rect == old(self).selection_rect,
                    self.dragging_endpoints == old(self).dragging_endpoints,
                    forall|p: egui::Pos2| move_by.requires((p,)),
                    forall|k: int|
                        0 <= k < n ==> if k < i && self.selected_walls@.contains(k as usize) {
                            &&& move_by.ensures((old(self).walls@[k].start,), (#[trigger] self.walls@[k]).start)
                            &&& move_by.ensures((old(self).walls@[k].end,), self.walls@[k].end)
                        } else {
                            self.walls@[k] == old(self).walls@[k]
                        },
            {
                if self.selected_walls.contains(&i) {
                    let w = self.walls[i];
                    let moved_wall = Wall { start: move_by(w.start), end: move_by(w.end) };
                    self.walls.set(i, moved_wall);
                }
            }
            true
        } else {
            match &self.selection_rect {
                Some(r) => {
                    let corner = rect_min(r);
                    self.selection_rect = Some(span(corner, pointer));
                },
                None => {},
            }
            false
        }
    }

    /// How wall number `idx` is marked on the canvas: as selected when it is
    /// selected or has an endpoint in the rubber band, and as hovered when it
    /// is `hovered_wall`, the wall under the pointer, and the selection tool
    /// is chosen.
    pub fn wall_marks(&self, idx: usize, hovered_wall: Option<usize>) -> (marks: (bool, bool))
        requires
            idx < self.walls.len(),
        ensures
            marks.0 == (self.selected_walls@.contains(idx) || (self.selection_rect matches Some(r)
                && (rect_holds(r, self.walls@[idx as int].start) || rect_holds(
                r,
                self.walls@[idx as int].end,
            )))),
            marks.1 == (hovered_wall == Some(idx) && self.current_tool == Tool::Select),
    {
        let mut is_selected = self.selected_walls.contains(&idx);
        match &self.selection_rect {
            Some(r) => {
                let w = self.walls[idx];
                if rect_contains(r, w.start) || rect_contains(r, w.end) {
                    is_selected = true;
                }
            },
            None => {},
        }
        let is_hovered = match hovered_wall {
            Some(h) => h == idx && self.current_tool == Tool::Select,
            None => false,
        };
        (is_selected, is_hovered)
    }

    /// The end of a drag of the selection tool: the walls with an endpoint in
    /// the rubber band, if there is one, are added to the selection; the
    /// rubber band and the dragged endpoints are dropped.
    pub fn finish_drag(&mut self)
        ensures
            final(self).selected_walls@ == (match old(self).selection_rect {
                Some(r) => old(self).selected_walls@.union(walls_touching(old(self).walls@, r)),
                None => old(self).selected_walls@,
            }),
            forall|i: usize|
                i < old(self).walls.len() ==> (#[trigger] final(self).selected_walls@.contains(i) <==> (
                old(self).selected_walls@.contains(i) || (old(self).selection_rect matches Some(r)
                    && (rect_holds(r, old(self).walls@[i as int].start) || rect_holds(
                    r,
                    old(self).walls@[i as int].end,
                ))))),
            forall|i: usize|
                #![trigger final(self).selected_walls@.contains(i)]
                i >= old(self).walls.len() ==> (final(self).selected_walls@.contains(i)
                    <==> old(self).selected_walls@.contains(i)),
            final(self).selection_rect is None,
            final(self).dragging_endpoints@ == Seq::<(usize, bool)>::empty(),
            final(self).walls == old(self).walls,
            final(self).current_tool == old(self).current_tool,
            final(self).wall_start_point == old(self).wall_start_point,
            old(self).wf() ==> final(self).wf(),
    {
        match self.selection_rect {
            Some(r) => {
                let ghost sel0 = self.selected_walls@;
                let n = self.walls.len();
                for i in 0..n
                    invariant
                        n == self.walls.len(),
                        self.walls == old(self).walls,
                        self.selected_walls@ == sel0.union(
                            walls_touching(self.walls@.take(i as int), r),
                        ),
                        old(self).wf() ==> selection_in_range(n as nat, sel0),
                        self.current_tool == old(self).current_tool,
                        self.wall_start_point == old(self).wall_start_point,
                        self.selection_rect == old(self).selection_rect,
                        self.dragging_endpoints == old(self).dragging_endpoints,
                {
                    let w = self.walls[i];
                    let hit_start = rect_contains(&r, w.start);
                    let hit_end = rect_contains(&r, w.end);
                    if hit_start || hit_end {
                        self.selected_walls.insert(i);
                    }
                    assert(walls_touching(self.walls@.take(i + 1), r) =~= if hit_start || hit_end {
                        walls_touching(self.walls@.take(i as int), r).insert(i)
                    } else {
                        walls_touching(self.walls@.take(i as int), r)
                    });
                }
                assert(self.walls@.take(n as int) =~= self.walls@);
            },
            None => {},
        }
        self.selection_rect = None;
        self.dragging_endpoints.clear();
    }
}

} // verus!
