use egui::{pos2, Pos2};
use room_planner::triangulation::triangulate;

fn convex(prev: Pos2, curr: Pos2, next: Pos2) -> bool {
    let v1 = curr - prev;
    let v2 = next - curr;
    let cross = v1.x * v2.y - v1.y * v2.x;
    !(cross <= 0.0)
}

fn point_in_triangle(p: Pos2, a: Pos2, b: Pos2, c: Pos2) -> bool {
    let v0 = c - a;
    let v1 = b - a;
    let v2 = p - a;
    let dot00 = v0.x * v0.x + v0.y * v0.y;
    let dot01 = v0.x * v1.x + v0.y * v1.y;
    let dot02 = v0.x * v2.x + v0.y * v2.y;
    let dot11 = v1.x * v1.x + v1.y * v1.y;
    let dot12 = v1.x * v2.x + v1.y * v2.y;
    let inv_denom = 1.0 / (dot00 * dot11 - dot01 * dot01);
    let u = (dot11 * dot02 - dot01 * dot12) * inv_denom;
    let v = (dot00 * dot12 - dot01 * dot02) * inv_denom;
    (u >= 0.0) && (v >= 0.0) && (u + v < 1.0)
}

fn runs_the_other_way(polygon: &[Pos2]) -> bool {
    let mut area = 0.0;
    for i in 0..polygon.len() {
        let p1 = polygon[i];
        let p2 = polygon[(i + 1) % polygon.len()];
        area += (p2.x - p1.x) * (p2.y + p1.y);
    }
    area > 0.0
}

fn floor(polygon: Vec<Pos2>) -> Vec<[Pos2; 3]> {
    let reverse = runs_the_other_way(&polygon);
    triangulate(&polygon, reverse, &convex, &point_in_triangle)
}

#[test]
fn too_few_corners_give_no_triangle() {
    assert!(floor(vec![]).is_empty());
    assert!(floor(vec![pos2(0.0, 0.0), pos2(1.0, 0.0)]).is_empty());
}

#[test]
fn triangle_is_its_own_floor() {
    let tri = floor(vec![pos2(0.0, 0.0), pos2(10.0, 0.0), pos2(0.0, 10.0)]);
    assert_eq!(tri, vec![[pos2(0.0, 0.0), pos2(10.0, 0.0), pos2(0.0, 10.0)]]);
}

#[test]
fn square_gives_two_triangles() {
    let tris = floor(vec![
        pos2(0.0, 0.0),
        pos2(100.0, 0.0),
        pos2(100.0, 100.0),
        pos2(0.0, 100.0),
    ]);
    assert_eq!(
        tris,
        vec![
            [pos2(0.0, 100.0), pos2(0.0, 0.0), pos2(100.0, 0.0)],
            [pos2(100.0, 0.0), pos2(100.0, 100.0), pos2(0.0, 100.0)],
        ]
    );
}

#[test]
fn square_drawn_the_other_way_is_reversed_first() {
    let tris = floor(vec![
        pos2(0.0, 100.0),
        pos2(100.0, 100.0),
        pos2(100.0, 0.0),
        pos2(0.0, 0.0),
    ]);
    assert_eq!(
        tris,
        vec![
            [pos2(0.0, 100.0), pos2(0.0, 0.0), pos2(100.0, 0.0)],
            [pos2(100.0, 0.0), pos2(100.0, 100.0), pos2(0.0, 100.0)],
        ]
    );
}

#[test]
fn concave_floor_gets_n_minus_two_triangles_from_its_corners() {
    let polygon = vec![
        pos2(0.0, 0.0),
        pos2(200.0, 0.0),
        pos2(200.0, 100.0),
        pos2(100.0, 100.0),
        pos2(100.0, 200.0),
        pos2(0.0, 200.0),
    ];
    let tris = floor(polygon.clone());
    assert_eq!(tris.len(), polygon.len() - 2);
    for t in &tris {
        for p in t {
            assert!(polygon.contains(p));
        }
    }
}

#[test]
fn degenerate_floor_stops_without_an_ear() {
    // four corners on one line: no turn is convex, so no ear is found
    let tris = floor(vec![
        pos2(0.0, 0.0),
        pos2(1.0, 0.0),
        pos2(2.0, 0.0),
        pos2(3.0, 0.0),
    ]);
    assert!(tris.is_empty());
}

#[test]
fn reverse_flag_equals_reversed_polygon() {
    let polygon = vec![
        pos2(0.0, 0.0),
        pos2(200.0, 0.0),
        pos2(200.0, 100.0),
        pos2(100.0, 100.0),
        pos2(100.0, 200.0),
        pos2(0.0, 200.0),
    ];
    let mut reversed = polygon.clone();
    reversed.reverse();
    assert_eq!(
        triangulate(&polygon, true, &convex, &point_in_triangle),
        triangulate(&reversed, false, &convex, &point_in_triangle)
    );
    assert_eq!(
        triangulate(&reversed, true, &convex, &point_in_triangle),
        triangulate(&polygon, false, &convex, &point_in_triangle)
    );
}

#[test]
fn every_ear_but_the_last_turns_convexly() {
    let polygon = vec![
        pos2(0.0, 0.0),
        pos2(200.0, 0.0),
        pos2(200.0, 100.0),
        pos2(100.0, 100.0),
        pos2(100.0, 200.0),
        pos2(0.0, 200.0),
    ];
    let tris = floor(polygon);
    for t in &tris[..tris.len() - 1] {
        assert!(convex(t[0], t[1], t[2]));
    }
}
