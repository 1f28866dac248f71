use vsvg_core::{LayerImpl, Path, PathIndex, PathItem, Point, Step};

/// Snaps a position given in drawing units to the grid of tenths.
fn pt(x: f64, y: f64) -> Point {
    Point::new((x * 10.0).round() as i32, (y * 10.0).round() as i32)
}

fn turned(path: &Path) -> Path {
    let mut copy = path.clone();
    copy.flip();
    copy
}

#[test]
fn test_sort() {
    let mut layer = LayerImpl::new();

    let p1 = Path::from(vec![pt(10.0, 10.1), pt(0.0, 0.0)]);
    let p2 = Path::from(vec![pt(3.0, 2.3), pt(10.0, 10.0)]);
    let p3 = Path::from(vec![pt(1.0, 0.0), pt(0.0, 0.0)]);
    let p4 = Path::from(vec![pt(2.0, 1.0), pt(1.0, 0.1)]);

    layer.paths.push(p1.clone());
    layer.paths.push(p2.clone());
    layer.paths.push(p3.clone());
    layer.paths.push(p4.clone());

    layer.sort(false);

    assert_eq!(layer.paths[0], p3);
    assert_eq!(layer.paths[1], p4);
    assert_eq!(layer.paths[2], p2);
    assert_eq!(layer.paths[3], p1);
}

#[test]
fn test_sort_bidir() {
    let mut layer = LayerImpl::new();

    let p1 = Path::from(vec![pt(10.0, 10.1), pt(20.0, 20.0)]);
    let p2 = Path::from(vec![pt(3.0, 2.3), pt(10.0, 10.0)]);
    let mut p3 = Path::from(vec![pt(1.0, 0.0), pt(0.0, 0.0)]);
    let mut p4 = Path::from(vec![pt(3.0, 2.0), pt(1.0, 0.1)]);

    layer.paths.push(p1.clone());
    layer.paths.push(p2.clone());
    layer.paths.push(p3.clone());
    layer.paths.push(p4.clone());

    layer.sort(true);

    p3.flip();
    assert_eq!(layer.paths[0], p3);
    p4.flip();
    assert_eq!(layer.paths[1], p4);
    assert_eq!(layer.paths[2], p2);
    assert_eq!(layer.paths[3], p1);
}

#[test]
fn sort_bidir_reverses_the_points_of_flipped_paths() {
    let mut layer = LayerImpl::new();
    layer.paths.push(Path::from(vec![pt(10.0, 10.1), pt(20.0, 20.0)]));
    layer.paths.push(Path::from(vec![pt(3.0, 2.3), pt(10.0, 10.0)]));
    layer.paths.push(Path::from(vec![pt(1.0, 0.0), pt(0.0, 0.0)]));
    layer.paths.push(Path::from(vec![pt(3.0, 2.0), pt(1.0, 0.1)]));

    layer.sort(true);

    assert_eq!(layer.paths[0].points, vec![pt(0.0, 0.0), pt(1.0, 0.0)]);
    assert_eq!(layer.paths[1].points, vec![pt(1.0, 0.1), pt(3.0, 2.0)]);
    assert_eq!(layer.paths[2].points, vec![pt(3.0, 2.3), pt(10.0, 10.0)]);
    assert_eq!(layer.paths[3].points, vec![pt(10.0, 10.1), pt(20.0, 20.0)]);
}

#[test]
fn plan_names_handles_and_flips() {
    let mut layer = LayerImpl::new();
    layer.paths.push(Path::from(vec![pt(10.0, 10.1), pt(20.0, 20.0)]));
    layer.paths.push(Path::from(vec![pt(3.0, 2.3), pt(10.0, 10.0)]));
    layer.paths.push(Path::from(vec![pt(1.0, 0.0), pt(0.0, 0.0)]));
    layer.paths.push(Path::from(vec![pt(3.0, 2.0), pt(1.0, 0.1)]));
    let before = layer.clone();

    assert_eq!(
        layer.plan(true),
        vec![
            Step { handle: 2, reversed: true },
            Step { handle: 3, reversed: true },
            Step { handle: 1, reversed: false },
            Step { handle: 0, reversed: false },
        ]
    );
    assert_eq!(layer, before);
    assert_eq!(
        layer.plan(false),
        vec![
            Step { handle: 2, reversed: false },
            Step { handle: 3, reversed: false },
            Step { handle: 1, reversed: false },
            Step { handle: 0, reversed: false },
        ]
    );
}

#[test]
fn degenerate_path_goes_last() {
    let mut layer = LayerImpl::new();
    let far = Path::from(vec![pt(50.0, 50.0), pt(60.0, 60.0)]);
    let near = Path::from(vec![pt(1.0, 1.0), pt(2.0, 2.0)]);
    layer.paths.push(Path::new());
    layer.paths.push(far.clone());
    layer.paths.push(near.clone());

    layer.sort(false);
    assert_eq!(layer.paths, vec![near.clone(), far.clone(), Path::new()]);

    let mut middle = LayerImpl::new();
    middle.paths.push(far.clone());
    middle.paths.push(Path::new());
    middle.paths.push(near.clone());
    assert_eq!(
        middle.plan(true),
        vec![
            Step { handle: 2, reversed: false },
            Step { handle: 0, reversed: false },
            Step { handle: 1, reversed: false },
        ]
    );
    middle.sort(true);
    assert_eq!(middle.paths, vec![near, far, Path::new()]);
}

#[test]
fn empty_layer_stays_empty() {
    let mut layer = LayerImpl::new();
    assert_eq!(layer.plan(true), Vec::<Step>::new());
    layer.sort(false);
    assert!(layer.paths.is_empty());
    layer.sort(true);
    assert!(layer.paths.is_empty());
}

#[test]
fn layer_of_empty_paths_keeps_its_order() {
    let mut layer = LayerImpl::new();
    layer.paths.push(Path::new());
    layer.paths.push(Path::new());
    layer.paths.push(Path::new());
    let before = layer.clone();

    let keep = vec![
        Step { handle: 0, reversed: false },
        Step { handle: 1, reversed: false },
        Step { handle: 2, reversed: false },
    ];
    assert_eq!(layer.plan(false), keep);
    assert_eq!(layer.plan(true), keep);
    layer.sort(true);
    assert_eq!(layer, before);
}

#[test]
fn empty_paths_keep_their_relative_order() {
    let mut layer = LayerImpl::new();
    layer.paths.push(Path::new());
    layer.paths.push(Path::from(vec![pt(4.0, 0.0)]));
    layer.paths.push(Path::new());
    layer.paths.push(Path::from(vec![pt(1.0, 0.0)]));
    layer.paths.push(Path::new());

    let handles: Vec<usize> = layer.plan(true).iter().map(|s| s.handle).collect();
    assert_eq!(handles, vec![3, 1, 0, 2, 4]);
}

#[test]
fn sort_conserves_paths_up_to_reversal() {
    let paths = vec![
        Path::from(vec![pt(7.0, 1.0), pt(7.5, 2.0), pt(9.0, 9.0)]),
        Path::new(),
        Path::from(vec![pt(-3.0, 4.0), pt(0.5, 0.5)]),
        Path::from(vec![pt(2.0, 2.0)]),
        Path::from(vec![pt(9.0, 8.0), pt(-1.0, -1.0), pt(6.0, 6.0), pt(0.0, 1.0)]),
    ];
    for flip in [false, true] {
        let mut layer = LayerImpl { paths: paths.clone() };
        let steps = layer.plan(flip);
        layer.sort(flip);

        assert_eq!(layer.paths.len(), paths.len());
        let mut seen: Vec<usize> = steps.iter().map(|s| s.handle).collect();
        seen.sort();
        assert_eq!(seen, vec![0, 1, 2, 3, 4]);
        for (step, path) in steps.iter().zip(layer.paths.iter()) {
            let source = &paths[step.handle];
            if step.reversed {
                assert!(flip);
                assert!(!source.points.is_empty());
                assert_eq!(*path, turned(source));
            } else {
                assert_eq!(path, source);
            }
        }
        let total: usize = layer.paths.iter().map(|p| p.points.len()).sum();
        assert_eq!(total, 10);
    }
}

#[test]
fn one_way_sort_never_flips() {
    let paths = vec![
        Path::from(vec![pt(10.0, 10.0), pt(0.0, 0.0)]),
        Path::from(vec![pt(20.0, 0.0), pt(0.1, 0.0)]),
        Path::from(vec![pt(5.0, 5.0), pt(19.0, 0.0)]),
    ];
    let mut layer = LayerImpl { paths: paths.clone() };
    let steps = layer.plan(false);
    layer.sort(false);
    assert_eq!(layer.paths, vec![paths[2].clone(), paths[1].clone(), paths[0].clone()]);
    for (step, path) in steps.iter().zip(layer.paths.iter()) {
        assert!(!step.reversed);
        assert_eq!(path.start(), paths[step.handle].start());
        assert_eq!(path.end(), paths[step.handle].end());
    }

    let mut both = LayerImpl { paths: paths.clone() };
    both.sort(true);
    assert_eq!(both.paths, vec![turned(&paths[0]), paths[2].clone(), paths[1].clone()]);
}

#[test]
fn sorting_twice_from_the_same_input_gives_the_same_output() {
    let paths = vec![
        Path::from(vec![pt(3.0, 3.0), pt(1.0, 1.0)]),
        Path::from(vec![pt(-3.0, -3.0), pt(2.0, 2.0)]),
        Path::new(),
        Path::from(vec![pt(3.0, -3.0), pt(0.0, 4.0)]),
    ];
    for flip in [false, true] {
        let mut first = LayerImpl { paths: paths.clone() };
        let mut second = LayerImpl { paths: paths.clone() };
        first.sort(flip);
        second.sort(flip);
        assert_eq!(first, second);
    }
}

#[test]
fn sorting_starts_at_the_origin_each_time() {
    let mut layer = LayerImpl::new();
    layer.paths.push(Path::from(vec![pt(5.0, 0.0), pt(1.0, 0.0)]));
    layer.paths.push(Path::from(vec![pt(4.0, 0.0), pt(6.0, 0.0)]));
    layer.sort(true);
    assert_eq!(layer.paths[0].points, vec![pt(1.0, 0.0), pt(5.0, 0.0)]);
    assert_eq!(layer.paths[1].points, vec![pt(4.0, 0.0), pt(6.0, 0.0)]);

    let sorted_once = layer.clone();
    layer.sort(true);
    assert_eq!(layer, sorted_once);
    layer.sort(false);
    assert_eq!(layer, sorted_once);
}

#[test]
fn equally_near_paths_are_taken_in_layer_order() {
    let a = Path::from(vec![pt(0.0, 5.0), pt(100.0, 100.0)]);
    let b = Path::from(vec![pt(5.0, 0.0), pt(100.0, 100.0)]);
    let c = Path::from(vec![pt(-5.0, 0.0), pt(100.0, 100.0)]);
    let layer = LayerImpl { paths: vec![a, b, c] };
    let handles: Vec<usize> = layer.plan(false).iter().map(|s| s.handle).collect();
    assert_eq!(handles[0], 0);
}

#[test]
fn equally_near_ends_enter_at_the_start() {
    let even = Path::from(vec![pt(0.0, 3.0), pt(3.0, 0.0)]);
    let layer = LayerImpl { paths: vec![even] };
    assert_eq!(layer.plan(true), vec![Step { handle: 0, reversed: false }]);

    let closer_end = Path::from(vec![pt(0.0, 3.0), pt(2.9, 0.0)]);
    let layer = LayerImpl { paths: vec![closer_end] };
    assert_eq!(layer.plan(true), vec![Step { handle: 0, reversed: true }]);
}

#[test]
fn distance_squared_is_exact() {
    assert_eq!(Point::new(0, 0).distance_squared(&Point::new(3, 4)), 25);
    assert_eq!(Point::new(-2, 7).distance_squared(&Point::new(-2, 7)), 0);
    assert_eq!(Point::new(1, 1).distance_squared(&Point::new(-1, -2)), 13);
    assert_eq!(pt(1.0, 0.1).distance_squared(&pt(3.0, 2.3)), 400 + 484);
    let low = Point::new(i32::MIN, i32::MIN);
    let high = Point::new(i32::MAX, i32::MAX);
    let side: u128 = u32::MAX as u128;
    assert_eq!(low.distance_squared(&high), 2 * side * side);
    assert_eq!(high.distance_squared(&low), 2 * side * side);
}

#[test]
fn origin_is_zero() {
    assert_eq!(Point::origin(), Point::new(0, 0));
    assert_eq!(Point::origin(), Point { x: 0, y: 0 });
    assert_ne!(Point::new(0, 1), Point::new(1, 0));
}

#[test]
fn path_start_end_and_flip() {
    let mut path = Path::from_points(vec![pt(1.0, 2.0), pt(3.0, 4.0), pt(5.0, 6.0)]);
    assert_eq!(path.start(), Some(pt(1.0, 2.0)));
    assert_eq!(path.end(), Some(pt(5.0, 6.0)));
    assert_eq!(path.duplicate(), path);
    assert_eq!(path.reversed().points, vec![pt(5.0, 6.0), pt(3.0, 4.0), pt(1.0, 2.0)]);

    let before = path.clone();
    path.flip();
    assert_eq!(path.points, vec![pt(5.0, 6.0), pt(3.0, 4.0), pt(1.0, 2.0)]);
    assert_eq!(path.start(), before.end());
    assert_eq!(path.end(), before.start());
    path.flip();
    assert_eq!(path, before);
}

#[test]
fn empty_path_has_no_ends() {
    let mut path = Path::new();
    assert_eq!(path.start(), None);
    assert_eq!(path.end(), None);
    path.flip();
    assert_eq!(path, Path::new());
    assert_eq!(path.reversed(), Path::new());
    assert_eq!(path.duplicate(), Path::new());
    assert_eq!(Path::from_points(Vec::new()), Path::new());
}

#[test]
fn single_point_path_starts_where_it_ends() {
    let mut path = Path::from(vec![pt(4.0, 4.0)]);
    assert_eq!(path.start(), Some(pt(4.0, 4.0)));
    assert_eq!(path.end(), Some(pt(4.0, 4.0)));
    path.flip();
    assert_eq!(path.points, vec![pt(4.0, 4.0)]);
}

#[test]
fn approach_picks_the_closer_end() {
    let item = PathItem { handle: 7, start: Point::new(10, 0), end: Point::new(0, 2) };
    let from = Point::origin();
    assert_eq!(item.approach(&from, false), (100, false));
    assert_eq!(item.approach(&from, true), (4, true));
    let tie = PathItem { handle: 7, start: Point::new(0, 2), end: Point::new(2, 0) };
    assert_eq!(tie.approach(&from, true), (4, false));
}

#[test]
fn index_pops_nearest_and_removes_it() {
    let paths = vec![
        Path::from(vec![Point::new(10, 0), Point::new(1, 0)]),
        Path::new(),
        Path::from(vec![Point::new(3, 0), Point::new(20, 0)]),
        Path::new(),
    ];
    let mut index = PathIndex::new(&paths, true);
    let from = Point::origin();

    let first = index.pop_nearest(&from);
    assert_eq!(
        first,
        Some((PathItem { handle: 0, start: Point::new(10, 0), end: Point::new(1, 0) }, true))
    );
    let second = index.pop_nearest(&from);
    assert_eq!(
        second,
        Some((PathItem { handle: 2, start: Point::new(3, 0), end: Point::new(20, 0) }, false))
    );
    assert_eq!(index.pop_nearest(&from), None);
    assert_eq!(index.pop_nearest(&from), None);

    assert_eq!(index.pop_first(), Some(1));
    assert_eq!(index.pop_first(), Some(3));
    assert_eq!(index.pop_first(), None);
    assert_eq!(index.pop_first(), None);
}

#[test]
fn one_way_index_looks_at_starts_only() {
    let paths = vec![
        Path::from(vec![Point::new(10, 0), Point::new(1, 0)]),
        Path::from(vec![Point::new(3, 0), Point::new(20, 0)]),
    ];
    let mut index = PathIndex::new(&paths, false);
    let from = Point::origin();
    assert_eq!(
        index.pop_nearest(&from),
        Some((PathItem { handle: 1, start: Point::new(3, 0), end: Point::new(20, 0) }, false))
    );
    assert_eq!(
        index.pop_nearest(&Point::new(11, 0)),
        Some((PathItem { handle: 0, start: Point::new(10, 0), end: Point::new(1, 0) }, false))
    );
    assert_eq!(index.pop_nearest(&from), None);
    assert_eq!(index.pop_first(), None);
}

#[test]
fn empty_index_is_exhausted() {
    let paths: Vec<Path> = Vec::new();
    let mut index = PathIndex::new(&paths, true);
    assert_eq!(index.pop_nearest(&Point::origin()), None);
    assert_eq!(index.pop_first(), None);
}
