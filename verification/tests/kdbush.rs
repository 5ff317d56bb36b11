use geoserv::kdbush::CollectVisitor;
use geoserv::kdbush::KDBush;
use geoserv::kdbush::DEFAULT_NODE_SIZE;

const POINTS: [(i32, i32); 100] = [
    (54,  1), (97, 21), (65, 35), (33, 54), (95, 39), (54,  3), (53, 54), (84, 72),
    (33, 34), (43, 15), (52, 83), (81, 23), ( 1, 61), (38, 74), (11, 91), (24, 56),
    (90, 31), (25, 57), (46, 61), (29, 69), (49, 60), ( 4, 98), (71, 15), (60, 25),
    (38, 84), (52, 38), (94, 51), (13, 25), (77, 73), (88, 87), ( 6, 27), (58, 22),
    (53, 28), (27, 91), (96, 98), (93, 14), (22, 93), (45, 94), (18, 28), (35, 15),
    (19, 81), (20, 81), (67, 53), (43,  3), (47, 66), (48, 34), (46, 12), (32, 38),
    (43, 12), (39, 94), (88, 62), (66, 14), (84, 30), (72, 81), (41, 92), (26,  4),
    ( 6, 76), (47, 21), (57, 70), (71, 82), (50, 68), (96, 18), (40, 31), (78, 53),
    (71, 90), (32, 14), (55,  6), (32, 88), (62, 32), (21, 67), (73, 81), (44, 64),
    (29, 50), (70,  5), ( 6, 22), (68,  3), (11, 23), (20, 42), (21, 73), (63, 86),
    ( 9, 40), (99,  2), (99, 76), (56, 77), (83,  6), (21, 72), (78, 30), (75, 53),
    (41, 11), (95, 20), (30, 38), (96, 82), (65, 48), (33, 18), (87, 28), (10, 10),
    (40, 34), (10, 20), (47, 29), (46, 78),
];

fn fixture() -> Vec<(i32, i32)> {
    POINTS.to_vec()
}

#[test]
fn test_range() {
    let index = KDBush::create(fixture(), 10);
    let expected_ids = vec![
        3, 90, 77, 72, 62, 96, 47, 8, 17, 15, 69, 71, 44, 19, 18, 45, 60, 20,
    ];
    let result = index.range(20, 30, 50, 70);
    assert_eq!(expected_ids, result);
}

#[test]
fn test_range_with_predicate() {
    let index = KDBush::create(fixture(), 10);
    let expected_ids = vec![3, 90, 77, 72, 62, 17, 45, 60];
    let mut visitor = CollectVisitor::new(5);
    index.range_with_predicate(20, 30, 50, 70, &mut visitor);
    assert_eq!(&expected_ids, visitor.items());
}

#[test]
fn test_radius() {
    let index = KDBush::create(fixture(), 10);
    let expected_ids = vec![3, 96, 71, 44, 18, 45, 60, 6, 25, 92, 42, 20];
    let result = index.within(50, 50, 20);
    assert_eq!(expected_ids, result);
}

#[test]
fn test_push_api() {
    let mut index = KDBush::new(POINTS.len(), 10);
    for (i, point) in POINTS.iter().enumerate() {
        index.add_point(i, point.0, point.1);
    }
    index.build_index();
    let expected_ids = vec![
        3, 90, 77, 72, 62, 96, 47, 8, 17, 15, 69, 71, 44, 19, 18, 45, 60, 20,
    ];
    let result = index.range(20, 30, 50, 70);
    assert_eq!(expected_ids, result);
}

#[test]
fn test_readme() {
    let points: Vec<(i32, i32)> = vec![(54, 1), (97, 21), (65, 35)];
    let index = KDBush::create(points, DEFAULT_NODE_SIZE);
    for id in index.range(20, 30, 50, 70) {
        println!("{} ", id);
    }
    for id in index.within(50, 50, 20) {
        println!("{} ", id);
    }
}

#[test]
fn range_matches_linear_scan() {
    let index = KDBush::create(fixture(), 10);
    let boxes = [(20, 30, 50, 70), (0, 0, 99, 99), (50, 50, 50, 50), (90, 90, 10, 10)];
    for &(minx, miny, maxx, maxy) in boxes.iter() {
        let mut result = index.range(minx, miny, maxx, maxy);
        let mut expected: Vec<usize> = POINTS
            .iter()
            .enumerate()
            .filter(|(_, p)| p.0 >= minx && p.0 <= maxx && p.1 >= miny && p.1 <= maxy)
            .map(|(i, _)| i)
            .collect();
        result.sort();
        expected.sort();
        assert_eq!(expected, result);
    }
}

#[test]
fn within_matches_linear_scan() {
    let index = KDBush::create(fixture(), 10);
    let queries = [(50, 50, 20), (0, 0, 0), (54, 1, 0), (50, 50, 200)];
    for &(qx, qy, r) in queries.iter() {
        let mut result = index.within(qx, qy, r);
        let mut expected: Vec<usize> = POINTS
            .iter()
            .enumerate()
            .filter(|(_, p)| {
                let dx = (p.0 - qx) as i64;
                let dy = (p.1 - qy) as i64;
                dx * dx + dy * dy <= (r as i64) * (r as i64)
            })
            .map(|(i, _)| i)
            .collect();
        result.sort();
        expected.sort();
        assert_eq!(expected, result);
    }
}

#[test]
fn build_order_does_not_change_result_set() {
    let mut backward = fixture();
    backward.reverse();
    let index_fwd = KDBush::create(fixture(), 10);
    let mut index_bwd = KDBush::new(backward.len(), 10);
    for (i, point) in backward.iter().enumerate() {
        // Re-assign the original identifiers so the sets are comparable.
        index_bwd.add_point(backward.len() - 1 - i, point.0, point.1);
    }
    index_bwd.build_index();
    let mut a = index_fwd.range(20, 30, 50, 70);
    let mut b = index_bwd.range(20, 30, 50, 70);
    a.sort();
    b.sort();
    assert_eq!(a, b);
    let mut c = index_fwd.within(50, 50, 20);
    let mut d = index_bwd.within(50, 50, 20);
    c.sort();
    d.sort();
    assert_eq!(c, d);
}

#[test]
fn empty_index_returns_nothing() {
    let points: Vec<(i32, i32)> = Vec::new();
    let index = KDBush::create(points, 10);
    assert!(index.range(-100, -100, 100, 100).is_empty());
    assert!(index.within(0, 0, 100).is_empty());
    assert!(index.is_empty());
    assert_eq!(index.len(), 0);
}

#[test]
fn collect_visitor_without_limit_sees_every_match() {
    let index = KDBush::create(fixture(), 10);
    let mut visitor = CollectVisitor::new(usize::MAX);
    index.range_with_predicate(20, 30, 50, 70, &mut visitor);
    let full = index.range(20, 30, 50, 70);
    assert_eq!(&full, visitor.items());
}
