use project_uninit::{
    check_paths, initialize, project_exclusive, project_shared, raw_project, read_field,
    Aggregate, Assignment, ConflictError, Field, FieldPath, Layout, ProjectError,
};

fn path(segs: &[&str]) -> FieldPath {
    FieldPath::new(segs.iter().map(|s| s.to_string()).collect())
}

fn asg(segs: &[&str], value: Vec<u8>) -> Assignment {
    Assignment { path: path(segs), value }
}

fn usize_bytes(v: usize) -> Vec<u8> {
    (v as u64).to_le_bytes().to_vec()
}

fn i32_bytes(v: i32) -> Vec<u8> {
    v.to_le_bytes().to_vec()
}

fn str_bytes(s: &str) -> Vec<u8> {
    s.as_bytes().to_vec()
}

/// The layout of `Foo { a: usize, b: (i32, (u8, i8), str) }`, with the
/// string field held inline as `strlen` bytes.
fn foo_layout(strlen: usize) -> Layout {
    let b1 = Layout::record(
        2,
        vec![
            Field { name: "0".to_string(), offset: 0, layout: Layout::leaf(1) },
            Field { name: "1".to_string(), offset: 1, layout: Layout::leaf(1) },
        ],
    )
    .unwrap();
    let b = Layout::record(
        6 + strlen,
        vec![
            Field { name: "0".to_string(), offset: 0, layout: Layout::leaf(4) },
            Field { name: "1".to_string(), offset: 4, layout: b1 },
            Field { name: "2".to_string(), offset: 6, layout: Layout::leaf(strlen) },
        ],
    )
    .unwrap();
    Layout::record(
        14 + strlen,
        vec![
            Field { name: "a".to_string(), offset: 0, layout: Layout::leaf(8) },
            Field { name: "b".to_string(), offset: 8, layout: b },
        ],
    )
    .unwrap()
}

#[test]
fn duplicate_pair_rejected() {
    let r = check_paths(&vec![path(&["a"]), path(&["a"])]);
    assert_eq!(r, Err(ConflictError::DuplicateField { first: 0, second: 1 }));
}

#[test]
fn nested_pair_rejected_both_orders() {
    let r = check_paths(&vec![path(&["inner"]), path(&["inner", "field"])]);
    assert_eq!(
        r,
        Err(ConflictError::NestedFieldConflict { ancestor: 0, descendant: 1 })
    );

    let r = check_paths(&vec![path(&["inner", "field"]), path(&["inner"])]);
    assert_eq!(
        r,
        Err(ConflictError::NestedFieldConflict { ancestor: 1, descendant: 0 })
    );
}

#[test]
fn empty_and_single_sets_pass() {
    assert_eq!(check_paths(&vec![]), Ok(()));
    assert_eq!(check_paths(&vec![path(&["a"])]), Ok(()));
}

#[test]
fn unrelated_paths_pass() {
    let r = check_paths(&vec![
        path(&["a"]),
        path(&["b", "0"]),
        path(&["b", "1"]),
        path(&["b", "2"]),
    ]);
    assert_eq!(r, Ok(()));
}

#[test]
fn first_conflicting_pair_reported() {
    let r = check_paths(&vec![
        path(&["a"]),
        path(&["b"]),
        path(&["a"]),
        path(&["b"]),
    ]);
    assert_eq!(r, Err(ConflictError::DuplicateField { first: 0, second: 2 }));
}

#[test]
fn exclusive_same_path_twice_rejected_before_write() {
    let mut x = Aggregate::new_filled(foo_layout(3), 0x5A);
    let before = x.bytes().clone();

    let r = project_exclusive(&mut x, &vec![path(&["a"]), path(&["a"])]);
    assert_eq!(
        r,
        Err(ProjectError::Conflict {
            err: ConflictError::DuplicateField { first: 0, second: 1 },
        })
    );
    assert_eq!(x.bytes(), &before);

    let r = initialize(
        &mut x,
        &vec![asg(&["a"], usize_bytes(1)), asg(&["a"], usize_bytes(2))],
    );
    assert_eq!(
        r,
        Err(ProjectError::Conflict {
            err: ConflictError::DuplicateField { first: 0, second: 1 },
        })
    );
    assert_eq!(x.bytes(), &before);
}

#[test]
fn initialize_nested_paths_rejected_untouched() {
    let mut x = Aggregate::new_filled(foo_layout(3), 0x77);
    let before = x.bytes().clone();

    let r = initialize(
        &mut x,
        &vec![
            asg(&["b"], vec![0u8; 9]),
            asg(&["b", "1", "0"], vec![1u8]),
        ],
    );
    assert_eq!(
        r,
        Err(ProjectError::Conflict {
            err: ConflictError::NestedFieldConflict { ancestor: 0, descendant: 1 },
        })
    );
    assert_eq!(x.bytes(), &before);
}

#[test]
fn shared_overlapping_paths_succeed() {
    let x = Aggregate::new_filled(foo_layout(5), 0x00);

    let hs = project_shared(
        &x,
        &vec![path(&["a"]), path(&["b"]), path(&["b", "1"])],
    )
    .unwrap();

    assert_eq!((hs[0].offset, hs[0].size), (0, 8));
    assert_eq!((hs[1].offset, hs[1].size), (8, 11));
    assert_eq!((hs[2].offset, hs[2].size), (12, 2));
}

#[test]
fn exclusive_handles_pairwise_disjoint() {
    let mut x = Aggregate::new_filled(foo_layout(5), 0x00);

    let hs = project_exclusive(
        &mut x,
        &vec![
            path(&["a"]),
            path(&["b", "0"]),
            path(&["b", "1", "1"]),
            path(&["b", "2"]),
        ],
    )
    .unwrap();

    for i in 0..hs.len() {
        for j in (i + 1)..hs.len() {
            let (oi, si) = (hs[i].offset, hs[i].size);
            let (oj, sj) = (hs[j].offset, hs[j].size);
            assert!(oi + si <= oj || oj + sj <= oi);
        }
    }
}

#[test]
fn unknown_field_reported() {
    let mut x = Aggregate::new_filled(foo_layout(3), 0x00);
    let r = project_exclusive(&mut x, &vec![path(&["a"]), path(&["c"])]);
    assert_eq!(r, Err(ProjectError::UnknownField { index: 1 }));

    let r = project_shared(&x, &vec![path(&["b", "3"])]);
    assert_eq!(r, Err(ProjectError::UnknownField { index: 0 }));
}

#[test]
fn wrong_value_size_rejected_untouched() {
    let mut x = Aggregate::new_filled(foo_layout(3), 0x42);
    let before = x.bytes().clone();

    let r = initialize(&mut x, &vec![asg(&["a"], vec![1u8, 2u8, 3u8])]);
    assert_eq!(r, Err(ProjectError::WrongSize { index: 0 }));
    assert_eq!(x.bytes(), &before);
}

#[test]
fn conflict_reported_before_unknown_field() {
    let mut x = Aggregate::new_filled(foo_layout(3), 0x00);
    let r = project_exclusive(
        &mut x,
        &vec![path(&["a"]), path(&["a"]), path(&["zzz"])],
    );
    assert_eq!(
        r,
        Err(ProjectError::Conflict {
            err: ConflictError::DuplicateField { first: 0, second: 1 },
        })
    );
}

#[test]
fn addresses_match_layout_offsets() {
    let x = Aggregate::new_filled(foo_layout(5), 0x00);
    let base: usize = 0x4000;

    let addrs = raw_project(
        base,
        x.layout(),
        &vec![
            path(&[]),
            path(&["a"]),
            path(&["b"]),
            path(&["b", "0"]),
            path(&["b", "1"]),
            path(&["b", "1", "0"]),
            path(&["b", "1", "1"]),
            path(&["b", "2"]),
        ],
    )
    .unwrap();

    assert_eq!(
        addrs,
        vec![
            base,
            base,
            base + 8,
            base + 8,
            base + 8 + 4,
            base + 8 + 4,
            base + 8 + 4 + 1,
            base + 8 + 6,
        ]
    );
}

#[test]
fn projection_ignores_garbage_in_other_fields() {
    let mut x = Aggregate::new_filled(foo_layout(3), 0x00);
    let mut y = Aggregate::new_filled(foo_layout(3), 0xFF);

    let w = vec![asg(&["b", "0"], i32_bytes(-77))];
    initialize(&mut x, &w).unwrap();
    initialize(&mut y, &w).unwrap();

    let bx = read_field(&x, &path(&["b", "0"])).unwrap();
    let by = read_field(&y, &path(&["b", "0"])).unwrap();
    assert_eq!(bx, by);
    assert_eq!(bx, i32_bytes(-77));

    assert_ne!(
        read_field(&x, &path(&["a"])).unwrap(),
        read_field(&y, &path(&["a"])).unwrap()
    );
}

#[test]
fn round_trip_matches_direct_construction() {
    let mut x = Aggregate::new_filled(foo_layout(2), 0x13);
    initialize(&mut x, &vec![asg(&["a"], usize_bytes(10))]).unwrap();
    initialize(&mut x, &vec![asg(&["b", "0"], i32_bytes(8))]).unwrap();
    initialize(
        &mut x,
        &vec![
            asg(&["b", "1", "0"], vec![5u8]),
            asg(&["b", "1", "1"], vec![6u8]),
            asg(&["b", "2"], str_bytes("ok")),
        ],
    )
    .unwrap();

    let mut y = Aggregate::new_filled(foo_layout(2), 0x77);
    initialize(
        &mut y,
        &vec![
            asg(&["a"], usize_bytes(10)),
            asg(&["b", "0"], i32_bytes(8)),
            asg(&["b", "1", "0"], vec![5u8]),
            asg(&["b", "1", "1"], vec![6u8]),
            asg(&["b", "2"], str_bytes("ok")),
        ],
    )
    .unwrap();

    assert_eq!(x.bytes(), y.bytes());
}

#[test]
fn bad_layout_descriptions_refused() {
    // a field reaching past the record's end
    let r = Layout::record(
        4,
        vec![Field { name: "a".to_string(), offset: 2, layout: Layout::leaf(4) }],
    );
    assert!(r.is_none());

    // two fields with overlapping ranges
    let r = Layout::record(
        8,
        vec![
            Field { name: "a".to_string(), offset: 0, layout: Layout::leaf(4) },
            Field { name: "b".to_string(), offset: 3, layout: Layout::leaf(4) },
        ],
    );
    assert!(r.is_none());

    // two fields with one name
    let r = Layout::record(
        8,
        vec![
            Field { name: "a".to_string(), offset: 0, layout: Layout::leaf(4) },
            Field { name: "a".to_string(), offset: 4, layout: Layout::leaf(4) },
        ],
    );
    assert!(r.is_none());
}
