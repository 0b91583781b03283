use room_planner::mesh::{floor_triangle_indices, scene_indices};

#[test]
fn floor_indices_count_up_from_zero() {
    assert_eq!(floor_triangle_indices(2), vec![0, 1, 2, 3, 4, 5]);
}

#[test]
fn floor_indices_of_no_triangle_are_empty() {
    assert!(floor_triangle_indices(0).is_empty());
}

#[test]
fn scene_indices_without_walls_draw_the_floor() {
    assert_eq!(scene_indices(0), vec![0, 2, 1, 0, 3, 2]);
}

#[test]
fn scene_indices_add_one_quad_per_wall() {
    assert_eq!(
        scene_indices(2),
        vec![0, 2, 1, 0, 3, 2, 4, 5, 6, 4, 6, 7, 8, 9, 10, 8, 10, 11]
    );
}

#[test]
fn scene_indices_stay_below_vertex_count() {
    let walls = 7;
    let indices = scene_indices(walls);
    assert_eq!(indices.len(), 6 + 6 * walls);
    assert!(indices.iter().all(|&i| (i as usize) < 4 + 4 * walls));
}
