use gpx_split::distance::distance;
use gpx_split::error::SplitError;
use gpx_split::naming::chunk_file_name;
use gpx_split::partition::{split_route, LimitDistance};
use gpx_split::route::{apply_chunk, get_segment, get_track, Route, Track, TrackSegment};
use gpx_split::waypoint::Waypoint;

fn wp(lat_udeg: i32, lon_udeg: i32, aux: u64) -> Waypoint {
    Waypoint {
        lat_udeg,
        lon_udeg,
        aux,
    }
}

/// Four waypoints along the equator, one degree of longitude apart.
fn equator_route() -> Vec<Waypoint> {
    vec![
        wp(0, 0, 0),
        wp(0, 1_000_000, 1),
        wp(0, 2_000_000, 2),
        wp(0, 3_000_000, 3),
    ]
}

#[test]
fn one_degree_of_equator_is_about_111_km() {
    let a = wp(0, 0, 0);
    let b = wp(0, 1_000_000, 1);
    let mm = distance(&a, &b).unwrap();
    assert!(mm > 110_000_000, "got {mm}");
    assert!(mm < 112_500_000, "got {mm}");
}

#[test]
fn distance_of_a_point_to_itself_is_zero() {
    let a = wp(45_000_000, 7_000_000, 0);
    assert_eq!(distance(&a, &a).unwrap(), 0);
}

#[test]
fn distance_fails_on_antipodal_points() {
    let a = wp(0, 0, 0);
    let b = wp(0, 180_000_000, 1);
    let err = distance(&a, &b).unwrap_err();
    assert!(matches!(err, SplitError::Geometry(_)));
    let msg = err.message();
    assert!(msg.starts_with("distance computation failed: "), "got {msg}");
}

#[test]
fn single_waypoint_makes_a_single_chunk() {
    let w = wp(48_000_000, 2_000_000, 7);
    let chunks = split_route(vec![w], 1_000_000).unwrap();
    assert_eq!(chunks, vec![vec![w]]);
}

#[test]
fn empty_route_makes_no_chunks() {
    let chunks = split_route(Vec::new(), 5).unwrap();
    assert!(chunks.is_empty());
}

#[test]
fn equator_route_splits_after_budget_is_exceeded() {
    let ws = equator_route();
    let d01 = distance(&ws[0], &ws[1]).unwrap();
    let budget = (d01 + d01 / 2) as i64;
    let chunks = split_route(ws.clone(), budget).unwrap();
    assert_eq!(chunks.len(), 2);
    assert_eq!(chunks[0], vec![ws[0], ws[1], ws[2]]);
    assert_eq!(chunks[1], vec![ws[2], ws[3]]);
}

#[test]
fn nonfinal_chunks_exceed_budget_and_final_may_not() {
    let ws = equator_route();
    let d01 = distance(&ws[0], &ws[1]).unwrap();
    let d12 = distance(&ws[1], &ws[2]).unwrap();
    let d23 = distance(&ws[2], &ws[3]).unwrap();
    let budget = (d01 + d01 / 2) as i64;
    // the first chunk closes only once it is over budget; the tail is under
    assert!(d01 + d12 > budget as u64);
    assert!(d23 <= budget as u64);
}

#[test]
fn chunks_share_their_boundary_waypoint() {
    let ws = equator_route();
    let d01 = distance(&ws[0], &ws[1]).unwrap();
    let budget = (d01 + d01 / 2) as i64;
    let chunks = split_route(ws, budget).unwrap();
    for i in 1..chunks.len() {
        assert_eq!(chunks[i][0], *chunks[i - 1].last().unwrap());
    }
}

#[test]
fn concatenated_chunks_give_back_the_route() {
    let ws = equator_route();
    let d01 = distance(&ws[0], &ws[1]).unwrap();
    let budget = (d01 + d01 / 2) as i64;
    let chunks = split_route(ws.clone(), budget).unwrap();
    let mut glued: Vec<Waypoint> = chunks[0].clone();
    for chunk in &chunks[1..] {
        glued.extend_from_slice(&chunk[1..]);
    }
    assert_eq!(glued, ws);
}

#[test]
fn zero_budget_forces_a_boundary_at_every_step() {
    let ws = vec![wp(0, 0, 0), wp(0, 1_000_000, 1), wp(0, 2_000_000, 2)];
    let chunks = split_route(ws.clone(), 0).unwrap();
    assert_eq!(chunks, vec![vec![ws[0], ws[1]], vec![ws[1], ws[2]]]);
}

#[test]
fn negative_budget_closes_the_first_chunk_at_once() {
    let ws = vec![wp(0, 0, 0), wp(0, 1_000_000, 1)];
    let chunks = split_route(ws.clone(), -1).unwrap();
    assert_eq!(chunks, vec![vec![ws[0]], vec![ws[0], ws[1]]]);
}

#[test]
fn a_failing_distance_aborts_the_whole_split() {
    let ws = vec![
        wp(0, 0, 0),
        wp(0, 1_000_000, 1),
        wp(0, -179_000_000, 2), // near-antipodal to its predecessor
    ];
    let err = split_route(ws, i64::MAX).unwrap_err();
    assert!(matches!(err, SplitError::Geometry(_)));
}

#[test]
fn generator_yields_chunks_then_none() {
    let w = wp(10_000_000, 10_000_000, 3);
    let mut gen = LimitDistance::new(vec![w], 500);
    let first = gen.next().unwrap().unwrap();
    assert_eq!(first, vec![w]);
    assert!(gen.next().is_none());
    assert!(gen.next().is_none());
}

#[test]
fn route_without_tracks_is_a_structure_error() {
    let route = Route { tracks: Vec::new() };
    let err = get_track(&route).unwrap_err();
    assert!(matches!(err, SplitError::MissingTrack));
    let msg = err.message();
    assert!(msg.contains("track 0"), "got {msg}");
}

#[test]
fn route_without_segments_is_a_structure_error() {
    let route = Route {
        tracks: vec![Track {
            name: None,
            segments: Vec::new(),
        }],
    };
    let err = get_segment(&route).unwrap_err();
    assert!(matches!(err, SplitError::MissingSegment));
    let msg = err.message();
    assert!(msg.contains("segment 0"), "got {msg}");
}

#[test]
fn first_track_and_segment_are_found() {
    let points = vec![wp(1, 2, 0), wp(3, 4, 1)];
    let route = Route {
        tracks: vec![Track {
            name: Some("day one".to_string()),
            segments: vec![TrackSegment {
                points: points.clone(),
            }],
        }],
    };
    assert!(get_track(&route).is_ok());
    assert_eq!(get_segment(&route).unwrap().points, points);
}

#[test]
fn apply_chunk_names_the_track_and_replaces_the_points() {
    let mut route = Route {
        tracks: vec![Track {
            name: Some("whole route".to_string()),
            segments: vec![
                TrackSegment {
                    points: vec![wp(1, 1, 0), wp(2, 2, 1)],
                },
                TrackSegment {
                    points: vec![wp(9, 9, 9)],
                },
            ],
        }],
    };
    let chunk = vec![wp(1, 1, 0)];
    apply_chunk(&mut route, "part_01.gpx".to_string(), chunk.clone()).unwrap();
    assert_eq!(route.tracks[0].name.as_deref(), Some("part_01.gpx"));
    assert_eq!(route.tracks[0].segments[0].points, chunk);
    // the second segment is untouched
    assert_eq!(route.tracks[0].segments[1].points, vec![wp(9, 9, 9)]);
}

#[test]
fn apply_chunk_fails_without_a_track() {
    let mut route = Route { tracks: Vec::new() };
    let err = apply_chunk(&mut route, "a".to_string(), Vec::new()).unwrap_err();
    assert!(matches!(err, SplitError::MissingTrack));
}

#[test]
fn apply_chunk_fails_without_a_segment() {
    let mut route = Route {
        tracks: vec![Track {
            name: None,
            segments: Vec::new(),
        }],
    };
    let err = apply_chunk(&mut route, "a".to_string(), Vec::new()).unwrap_err();
    assert!(matches!(err, SplitError::MissingSegment));
    assert!(route.tracks[0].name.is_none());
}

#[test]
fn chunk_file_names_are_one_based_and_padded() {
    assert_eq!(chunk_file_name("tour", 0), "tour_01.gpx");
    assert_eq!(chunk_file_name("tour", 8), "tour_09.gpx");
    assert_eq!(chunk_file_name("divide", 9), "divide_10.gpx");
    assert_eq!(chunk_file_name("x", 98), "x_99.gpx");
    assert_eq!(chunk_file_name("x", 99), "x_100.gpx");
    assert_eq!(chunk_file_name("", 0), "_01.gpx");
}
