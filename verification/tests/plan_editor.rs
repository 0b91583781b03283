use egui::{pos2, vec2, Pos2, Rect};
use room_planner::editor::EditorState;
use room_planner::models::{Tool, Wall};

fn wall(a: (f32, f32), b: (f32, f32)) -> Wall {
    Wall {
        start: pos2(a.0, a.1),
        end: pos2(b.0, b.1),
    }
}

fn plan_of(walls: Vec<Wall>) -> EditorState {
    let mut s = EditorState::new();
    s.walls = walls;
    s
}

#[test]
fn new_editor_is_empty_and_draws_walls() {
    let s = EditorState::new();
    assert!(s.current_tool == Tool::DrawWall);
    assert!(s.walls.is_empty());
    assert!(s.wall_start_point.is_none());
    assert!(s.selected_walls.is_empty());
    assert!(s.selection_rect.is_none());
    assert!(s.dragging_endpoints.is_empty());
}

#[test]
fn drawing_chains_walls_point_to_point() {
    let mut s = EditorState::new();
    assert!(!s.click_draw(pos2(0.0, 0.0), false));
    assert_eq!(s.wall_start_point, Some(pos2(0.0, 0.0)));
    assert!(s.click_draw(pos2(100.0, 0.0), true));
    assert!(s.click_draw(pos2(100.0, 50.0), true));
    assert_eq!(s.walls.len(), 2);
    assert_eq!(s.walls[0].start, pos2(0.0, 0.0));
    assert_eq!(s.walls[0].end, pos2(100.0, 0.0));
    assert_eq!(s.walls[1].start, pos2(100.0, 0.0));
    assert_eq!(s.walls[1].end, pos2(100.0, 50.0));
    assert_eq!(s.wall_start_point, Some(pos2(100.0, 50.0)));
}

#[test]
fn click_too_close_to_start_adds_nothing() {
    let mut s = EditorState::new();
    s.click_draw(pos2(0.0, 0.0), false);
    assert!(!s.click_draw(pos2(1.0, 0.0), false));
    assert!(s.walls.is_empty());
    assert_eq!(s.wall_start_point, Some(pos2(0.0, 0.0)));
}

#[test]
fn escape_abandons_the_wall_being_drawn() {
    let mut s = EditorState::new();
    s.click_draw(pos2(3.0, 4.0), false);
    s.cancel_wall();
    assert!(s.wall_start_point.is_none());
}

#[test]
fn choosing_select_tool_abandons_the_wall() {
    let mut s = EditorState::new();
    s.click_draw(pos2(3.0, 4.0), false);
    s.select_tool(Tool::DrawWall);
    assert_eq!(s.wall_start_point, Some(pos2(3.0, 4.0)));
    s.select_tool(Tool::Select);
    assert!(s.current_tool == Tool::Select);
    assert!(s.wall_start_point.is_none());
}

#[test]
fn delete_keeps_unselected_walls_in_order() {
    let mut s = plan_of(vec![
        wall((0.0, 0.0), (1.0, 0.0)),
        wall((1.0, 0.0), (2.0, 0.0)),
        wall((2.0, 0.0), (3.0, 0.0)),
        wall((3.0, 0.0), (4.0, 0.0)),
    ]);
    s.selected_walls.insert(1);
    s.selected_walls.insert(3);
    s.dragging_endpoints.push((1, true));
    assert!(s.delete_selected());
    assert_eq!(s.walls.len(), 2);
    assert_eq!(s.walls[0].start, pos2(0.0, 0.0));
    assert_eq!(s.walls[1].start, pos2(2.0, 0.0));
    assert!(s.selected_walls.is_empty());
    assert!(s.dragging_endpoints.is_empty());
    assert!(s.selection_rect.is_none());
}

#[test]
fn delete_without_selection_changes_nothing() {
    let mut s = plan_of(vec![wall((0.0, 0.0), (1.0, 0.0))]);
    s.dragging_endpoints.push((0, false));
    assert!(!s.delete_selected());
    assert_eq!(s.walls.len(), 1);
    assert_eq!(s.dragging_endpoints, vec![(0, false)]);
}

#[test]
fn delete_removes_one_wall_per_selected_index() {
    let mut s = plan_of((0..6).map(|i| wall((i as f32, 0.0), (i as f32 + 1.0, 0.0))).collect());
    for i in [0, 2, 5] {
        s.selected_walls.insert(i);
    }
    let before = s.walls.len();
    let selected = s.selected_walls.len();
    s.delete_selected();
    assert_eq!(s.walls.len() + selected, before);
}

#[test]
fn press_on_endpoints_selects_their_walls_and_drags_them() {
    let mut s = plan_of(vec![wall((0.0, 0.0), (1.0, 0.0)), wall((1.0, 0.0), (1.0, 1.0))]);
    s.selected_walls.insert(0);
    let eps = vec![(1, true)];
    s.press_select(&eps, None, false, true, pos2(1.0, 0.0), &Rect::from_two_pos);
    assert_eq!(s.dragging_endpoints, vec![(1, true)]);
    assert_eq!(s.selected_walls.len(), 1);
    assert!(s.selected_walls.contains(&1));
    assert!(s.selection_rect.is_none());
}

#[test]
fn shift_press_adds_to_selection() {
    let mut s = plan_of(vec![wall((0.0, 0.0), (1.0, 0.0)), wall((1.0, 0.0), (1.0, 1.0))]);
    s.selected_walls.insert(0);
    s.press_select(&vec![(1, false)], None, true, false, pos2(1.0, 1.0), &Rect::from_two_pos);
    assert!(s.selected_walls.contains(&0));
    assert!(s.selected_walls.contains(&1));
}

#[test]
fn press_on_unselected_wall_selects_only_it() {
    let mut s = plan_of(vec![wall((0.0, 0.0), (1.0, 0.0)), wall((1.0, 0.0), (1.0, 1.0))]);
    s.selected_walls.insert(0);
    s.press_select(&vec![], Some(1), false, false, pos2(1.0, 0.5), &Rect::from_two_pos);
    assert_eq!(s.selected_walls.len(), 1);
    assert!(s.selected_walls.contains(&1));
}

#[test]
fn press_on_selected_wall_keeps_selection() {
    let mut s = plan_of(vec![wall((0.0, 0.0), (1.0, 0.0)), wall((1.0, 0.0), (1.0, 1.0))]);
    s.selected_walls.insert(0);
    s.selected_walls.insert(1);
    s.press_select(&vec![], Some(1), false, false, pos2(1.0, 0.5), &Rect::from_two_pos);
    assert_eq!(s.selected_walls.len(), 2);
}

#[test]
fn press_on_empty_space_clears_and_starts_rubber_band() {
    let mut s = plan_of(vec![wall((0.0, 0.0), (1.0, 0.0))]);
    s.selected_walls.insert(0);
    s.press_select(&vec![], None, false, true, pos2(5.0, 6.0), &Rect::from_two_pos);
    assert!(s.selected_walls.is_empty());
    assert_eq!(s.selection_rect, Some(Rect::from_two_pos(pos2(5.0, 6.0), pos2(5.0, 6.0))));
}

#[test]
fn click_on_empty_space_starts_no_rubber_band() {
    let mut s = plan_of(vec![wall((0.0, 0.0), (1.0, 0.0))]);
    s.press_select(&vec![], None, true, false, pos2(5.0, 6.0), &Rect::from_two_pos);
    assert!(s.selection_rect.is_none());
}

#[test]
fn drag_anchor_is_the_other_end_of_the_first_dragged_wall() {
    let mut s = plan_of(vec![wall((0.0, 0.0), (1.0, 0.0)), wall((1.0, 0.0), (1.0, 1.0))]);
    assert!(s.drag_anchor().is_none());
    s.dragging_endpoints = vec![(0, false), (1, true)];
    let (anchor, ignored) = s.drag_anchor().unwrap();
    assert_eq!(anchor, pos2(0.0, 0.0));
    assert_eq!(ignored, vec![0, 1]);
}

#[test]
fn dragged_endpoints_move_together() {
    let mut s = plan_of(vec![wall((0.0, 0.0), (1.0, 0.0)), wall((1.0, 0.0), (1.0, 1.0))]);
    s.dragging_endpoints = vec![(0, false), (1, true)];
    s.move_dragged_endpoints(pos2(2.0, 2.0));
    assert_eq!(s.walls[0].start, pos2(0.0, 0.0));
    assert_eq!(s.walls[0].end, pos2(2.0, 2.0));
    assert_eq!(s.walls[1].start, pos2(2.0, 2.0));
    assert_eq!(s.walls[1].end, pos2(1.0, 1.0));
}

#[test]
fn dragging_moves_selected_walls_by_delta() {
    let mut s = plan_of(vec![wall((0.0, 0.0), (1.0, 0.0)), wall((1.0, 0.0), (1.0, 1.0))]);
    s.selected_walls.insert(1);
    assert!(s.drag_selection(pos2(9.0, 9.0), &|p: Pos2| p + vec2(0.5, -1.0), &Rect::from_two_pos));
    assert_eq!(s.walls[0].start, pos2(0.0, 0.0));
    assert_eq!(s.walls[1].start, pos2(1.5, -1.0));
    assert_eq!(s.walls[1].end, pos2(1.5, 0.0));
}

#[test]
fn dragging_stretches_rubber_band_from_its_min_corner() {
    let mut s = plan_of(vec![wall((0.0, 0.0), (1.0, 0.0))]);
    s.selection_rect = Some(Rect::from_two_pos(pos2(5.0, 5.0), pos2(5.0, 5.0)));
    assert!(!s.drag_selection(pos2(2.0, 8.0), &|p: Pos2| p + vec2(1.0, 1.0), &Rect::from_two_pos));
    assert_eq!(s.selection_rect, Some(Rect::from_min_max(pos2(2.0, 5.0), pos2(5.0, 8.0))));
    assert!(!s.drag_selection(pos2(7.0, 9.0), &|p: Pos2| p + vec2(1.0, 1.0), &Rect::from_two_pos));
    assert_eq!(s.selection_rect, Some(Rect::from_min_max(pos2(2.0, 5.0), pos2(7.0, 9.0))));
    assert_eq!(s.walls[0].start, pos2(0.0, 0.0));
}

#[test]
fn finishing_rubber_band_selects_touched_walls() {
    let mut s = plan_of(vec![
        wall((0.0, 0.0), (10.0, 0.0)),
        wall((20.0, 20.0), (30.0, 20.0)),
        wall((-5.0, -5.0), (5.0, 5.0)),
    ]);
    s.selection_rect = Some(Rect::from_two_pos(pos2(4.0, -1.0), pos2(12.0, 6.0)));
    s.dragging_endpoints.push((0, true));
    s.finish_drag();
    assert!(s.selected_walls.contains(&0));
    assert!(!s.selected_walls.contains(&1));
    assert!(s.selected_walls.contains(&2));
    assert!(s.selection_rect.is_none());
    assert!(s.dragging_endpoints.is_empty());
}

#[test]
fn finishing_without_rubber_band_keeps_selection() {
    let mut s = plan_of(vec![wall((0.0, 0.0), (10.0, 0.0))]);
    s.selected_walls.insert(0);
    s.finish_drag();
    assert_eq!(s.selected_walls.len(), 1);
}

#[test]
fn clear_empties_the_plan() {
    let mut s = plan_of(vec![wall((0.0, 0.0), (10.0, 0.0))]);
    s.selected_walls.insert(0);
    s.click_draw(pos2(1.0, 1.0), false);
    s.clear();
    assert!(s.walls.is_empty());
    assert!(s.selected_walls.is_empty());
    assert!(s.wall_start_point.is_none());
}

#[test]
fn selection_stays_within_walls_after_editing() {
    let mut s = EditorState::new();
    let points: Vec<Pos2> = vec![pos2(0.0, 0.0), pos2(50.0, 0.0), pos2(50.0, 50.0)];
    for (i, p) in points.iter().enumerate() {
        s.click_draw(*p, i > 0);
    }
    s.select_tool(Tool::Select);
    s.press_select(&vec![(0, true), (1, false)], None, false, true, pos2(0.0, 0.0), &Rect::from_two_pos);
    s.finish_drag();
    s.delete_selected();
    assert!(s.selected_walls.iter().all(|&i| i < s.walls.len()));
}

#[test]
fn walls_in_rubber_band_are_marked_selected() {
    let mut s = plan_of(vec![wall((0.0, 0.0), (10.0, 0.0)), wall((20.0, 0.0), (30.0, 0.0))]);
    s.selected_walls.insert(1);
    assert_eq!(s.wall_marks(0, None), (false, false));
    s.selection_rect = Some(Rect::from_two_pos(pos2(5.0, -1.0), pos2(12.0, 1.0)));
    assert_eq!(s.wall_marks(0, None), (true, false));
    assert_eq!(s.wall_marks(1, None), (true, false));
}

#[test]
fn hovered_wall_is_marked_only_with_select_tool() {
    let mut s = plan_of(vec![wall((0.0, 0.0), (10.0, 0.0))]);
    assert_eq!(s.wall_marks(0, Some(0)), (false, false));
    s.select_tool(Tool::Select);
    assert_eq!(s.wall_marks(0, Some(0)), (false, true));
    assert_eq!(s.wall_marks(0, None), (false, false));
}

#[test]
fn press_on_endpoint_of_missing_wall_is_recorded_as_given() {
    let mut s = plan_of(vec![wall((0.0, 0.0), (1.0, 0.0))]);
    s.press_select(&vec![(4, true)], None, false, false, pos2(0.0, 0.0), &Rect::from_two_pos);
    assert_eq!(s.dragging_endpoints, vec![(4, true)]);
    assert!(s.selected_walls.contains(&4));
}
