use geoserv::geodata::GeoError;
use geoserv::geodata::GeoIndexBuilder;
use geoserv::geodata::RawFeature;

fn point_feature(lng: i32, lat: i32, name: &str) -> RawFeature<String> {
    RawFeature { bbox: None, point: Some((lng, lat)), payload: name.to_string() }
}

fn bbox_feature(bbox: Vec<i32>, name: &str) -> RawFeature<String> {
    RawFeature { bbox: Some(bbox), point: None, payload: name.to_string() }
}

#[test]
fn builder_assigns_sequential_ids() {
    let features = vec![
        point_feature(10, 20, "a"),
        point_feature(30, 40, "b"),
        point_feature(50, 60, "c"),
    ];
    let index = GeoIndexBuilder::new().add_features(features).unwrap().build();
    assert_eq!(index.len(), 3);
    assert_eq!(index.feature(0), Some(&"a".to_string()));
    assert_eq!(index.feature(1), Some(&"b".to_string()));
    assert_eq!(index.feature(2), Some(&"c".to_string()));
    assert_eq!(index.feature(3), None);
}

#[test]
fn unsupported_feature_aborts_the_load() {
    let features = vec![
        point_feature(10, 20, "a"),
        RawFeature { bbox: None, point: None, payload: "bad".to_string() },
        point_feature(30, 40, "c"),
    ];
    let result = GeoIndexBuilder::new().add_features(features);
    assert!(result.is_err());
    assert_eq!(result.err(), Some(GeoError::UnsupportedFeature));
}

#[test]
fn heatmap_has_one_centroid_per_feature_in_order() {
    let features = vec![
        // Corner pairs (lng, lat): points (20, 10) and (40, 30); centroid (30, 20).
        bbox_feature(vec![10, 20, 30, 40], "box"),
        // A single point (lng 7, lat 8) is its own centroid, latitude first.
        point_feature(7, 8, "pt"),
        // Negative means truncate toward zero: lats -20, -25 -> -22.
        bbox_feature(vec![-10, -20, -15, -25], "neg"),
    ];
    let index = GeoIndexBuilder::new().add_features(features).unwrap().build();
    assert_eq!(index.heatmap(), &vec![(30, 20), (8, 7), (-22, -12)]);
}

#[test]
fn viewport_deduplicates_a_feature_with_many_points() {
    // One bounding box contributes two indexed points inside the viewport.
    let features = vec![
        bbox_feature(vec![30, 25, 35, 28], "dup"),
        point_feature(31, 26, "single"),
        point_feature(90, 90, "outside"),
    ];
    let index = GeoIndexBuilder::new().add_features(features).unwrap().build();
    let mut ids = index.query_within_viewport(50, 50, 0, 0, 100);
    ids.sort();
    assert_eq!(ids, vec![0, 1]);
}

#[test]
fn viewport_limit_caps_the_result() {
    let features = vec![
        point_feature(10, 10, "a"),
        point_feature(11, 11, "b"),
        point_feature(12, 12, "c"),
        point_feature(13, 13, "d"),
    ];
    let index = GeoIndexBuilder::new().add_features(features).unwrap().build();
    // With so few points the tree is a single leaf, so traversal order is
    // insertion order and the result is the first distinct matches.
    let ids = index.query_within_viewport(50, 50, 0, 0, 2);
    assert_eq!(ids, vec![0, 1]);
    let all = index.query_within_viewport(50, 50, 0, 0, 100);
    assert_eq!(all, vec![0, 1, 2, 3]);
}

#[test]
fn viewport_limit_is_clamped_to_the_ceiling() {
    let features = vec![point_feature(10, 10, "a"), point_feature(11, 11, "b")];
    let index = GeoIndexBuilder::new().add_features(features).unwrap().build();
    let ids = index.query_within_viewport(50, 50, 0, 0, usize::MAX);
    assert_eq!(ids.len(), 2);
}

#[test]
fn viewport_respects_closed_bounds() {
    let features = vec![point_feature(30, 20, "edge")];
    let index = GeoIndexBuilder::new().add_features(features).unwrap().build();
    // The indexed point is (lat 20, lng 30); the box corners are inclusive.
    assert_eq!(index.query_within_viewport(20, 30, 20, 30, 100).len(), 1);
    assert_eq!(index.query_within_viewport(19, 30, 0, 0, 100).len(), 0);
}

#[test]
fn empty_dataset_builds_and_answers_empty() {
    let features: Vec<RawFeature<String>> = Vec::new();
    let index = GeoIndexBuilder::new().add_features(features).unwrap().build();
    assert_eq!(index.len(), 0);
    assert!(index.query_within_viewport(90, 90, -90, -90, 100).is_empty());
    assert!(index.heatmap().is_empty());
}

#[test]
fn bbox_with_odd_tail_ignores_the_leftover() {
    // Five values make two complete (lng, lat) pairs; the tail is ignored.
    let features = vec![bbox_feature(vec![10, 20, 30, 40, 99], "odd")];
    let index = GeoIndexBuilder::new().add_features(features).unwrap().build();
    assert_eq!(index.heatmap(), &vec![(30, 20)]);
    let ids = index.query_within_viewport(45, 45, 0, 0, 100);
    assert_eq!(ids, vec![0]);
}

#[test]
fn viewport_never_exceeds_the_hard_ceiling() {
    let mut features = Vec::new();
    for i in 0..10_001 {
        features.push(point_feature(i % 100, i / 100, "f"));
    }
    let index = GeoIndexBuilder::new().add_features(features).unwrap().build();
    let ids = index.query_within_viewport(i32::MAX, i32::MAX, i32::MIN, i32::MIN, usize::MAX);
    assert_eq!(ids.len(), 10_000);
}
