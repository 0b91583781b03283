use room_planner::rooms::{build_edges, graph_fits_check, trace_rooms};

/// The successor of each directed edge: the edge leaving its head that turns
/// most to the left, measured by angle, as the plan editor picks it.
fn successors(points: &[(f32, f32)], edges: &[(usize, usize)]) -> Vec<Option<usize>> {
    let angle = |a: usize, b: usize| {
        let (ax, ay) = points[a];
        let (bx, by) = points[b];
        (by - ay).atan2(bx - ax)
    };
    edges
        .iter()
        .map(|&(u, v)| {
            let in_angle = angle(u, v);
            let mut best = None;
            let mut max_diff = -1.0f32;
            for (f, &(from, to)) in edges.iter().enumerate() {
                if from == v && to != u {
                    let mut diff = angle(v, to) - in_angle;
                    while diff < 0.0 {
                        diff += std::f32::consts::TAU;
                    }
                    while diff >= std::f32::consts::TAU {
                        diff -= std::f32::consts::TAU;
                    }
                    if diff > max_diff {
                        max_diff = diff;
                        best = Some(f);
                    }
                }
            }
            best
        })
        .collect()
}

#[test]
fn build_edges_doubles_each_link() {
    let edges = build_edges(&vec![(0, 1), (1, 2)]);
    assert_eq!(edges, vec![(0, 1), (1, 0), (1, 2), (2, 1)]);
}

#[test]
fn build_edges_skips_links_to_the_same_corner() {
    let edges = build_edges(&vec![(3, 3), (0, 1), (2, 2)]);
    assert_eq!(edges, vec![(0, 1), (1, 0)]);
}

#[test]
fn square_gives_its_two_faces() {
    let points = [(0.0, 0.0), (100.0, 0.0), (100.0, 100.0), (0.0, 100.0)];
    let edges = build_edges(&vec![(0, 1), (1, 2), (2, 3), (3, 0)]);
    let next = successors(&points, &edges);
    assert!(graph_fits_check(&edges, &next, 4));
    let rooms = trace_rooms(&edges, &next, 4);
    assert_eq!(rooms.len(), 2);
    assert_eq!(rooms[0].len(), 4);
    assert_eq!(rooms[1].len(), 4);
    assert_eq!(rooms[0][0], 0);
    assert_eq!(rooms[1][0], 1);
}

#[test]
fn square_with_hand_made_successors() {
    // (0,1) (1,0) (1,2) (2,1) (2,3) (3,2) (3,0) (0,3)
    let edges = build_edges(&vec![(0, 1), (1, 2), (2, 3), (3, 0)]);
    let next = vec![
        Some(2),
        Some(7),
        Some(4),
        Some(1),
        Some(6),
        Some(3),
        Some(0),
        Some(5),
    ];
    let rooms = trace_rooms(&edges, &next, 4);
    assert_eq!(rooms, vec![vec![0, 1, 2, 3], vec![1, 0, 3, 2]]);
}

#[test]
fn open_path_gives_no_room() {
    let points = [(0.0, 0.0), (100.0, 0.0), (100.0, 100.0)];
    let edges = build_edges(&vec![(0, 1), (1, 2)]);
    let next = successors(&points, &edges);
    assert!(graph_fits_check(&edges, &next, 3));
    assert!(trace_rooms(&edges, &next, 3).is_empty());
}

#[test]
fn two_rooms_sharing_a_wall() {
    // 0--1--2
    // |  |  |
    // 5--4--3
    let points = [
        (0.0, 0.0),
        (100.0, 0.0),
        (200.0, 0.0),
        (200.0, 100.0),
        (100.0, 100.0),
        (0.0, 100.0),
    ];
    let edges = build_edges(&vec![(0, 1), (1, 2), (2, 3), (3, 4), (4, 5), (5, 0), (1, 4)]);
    let next = successors(&points, &edges);
    assert!(graph_fits_check(&edges, &next, 6));
    let rooms = trace_rooms(&edges, &next, 6);
    assert_eq!(rooms, vec![vec![1, 0, 5, 4], vec![1, 2, 3, 4], vec![4, 5, 0, 1]]);
}

#[test]
fn every_room_is_a_closed_walk_of_distinct_corners() {
    let points = [
        (0.0, 0.0),
        (100.0, 0.0),
        (200.0, 0.0),
        (200.0, 100.0),
        (100.0, 100.0),
        (0.0, 100.0),
    ];
    let links = vec![(0, 1), (1, 2), (2, 3), (3, 4), (4, 5), (5, 0), (1, 4)];
    let edges = build_edges(&links);
    let next = successors(&points, &edges);
    for room in trace_rooms(&edges, &next, 6) {
        assert!(room.len() >= 3);
        for i in 0..room.len() {
            let pair = (room[i], room[(i + 1) % room.len()]);
            assert!(edges.contains(&pair));
            for j in 0..i {
                assert_ne!(room[i], room[j]);
            }
        }
    }
}

#[test]
fn successor_table_of_wrong_length_does_not_fit() {
    let edges = build_edges(&vec![(0, 1)]);
    assert!(!graph_fits_check(&edges, &vec![None], 2));
}

#[test]
fn successor_that_does_not_continue_does_not_fit() {
    let edges = build_edges(&vec![(0, 1), (2, 3)]);
    // edge (0,1) followed by (2,3), which does not leave corner 1
    let next = vec![Some(2), None, None, None];
    assert!(!graph_fits_check(&edges, &next, 4));
}

#[test]
fn corner_out_of_range_does_not_fit() {
    let edges = build_edges(&vec![(0, 5)]);
    assert!(!graph_fits_check(&edges, &vec![None, None], 5));
    assert!(graph_fits_check(&edges, &vec![None, None], 6));
}

#[test]
fn every_edge_has_its_reverse() {
    let links = vec![(0, 1), (1, 1), (1, 2), (2, 0), (3, 0)];
    let edges = build_edges(&links);
    for &(u, v) in &edges {
        assert_ne!(u, v);
        assert!(edges.contains(&(v, u)));
    }
    assert_eq!(edges.len(), 8);
}
