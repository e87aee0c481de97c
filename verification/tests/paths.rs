use project_uninit::{
    bind_mut_lt, bind_ref_lt, read_field, Aggregate, Field, FieldPath, Layout,
};

fn path(segs: &[&str]) -> FieldPath {
    FieldPath::new(segs.iter().map(|s| s.to_string()).collect())
}

#[test]
fn prefix_relation() {
    let root = path(&[]);
    let b = path(&["b"]);
    let b1 = path(&["b", "1"]);
    let b10 = path(&["b", "1", "0"]);
    let a = path(&["a"]);

    assert!(root.is_prefix_of(&b));
    assert!(b.is_prefix_of(&b1));
    assert!(b.is_prefix_of(&b10));
    assert!(b.is_prefix_of(&b));
    assert!(!b1.is_prefix_of(&b));
    assert!(!a.is_prefix_of(&b));
    assert!(!b1.is_prefix_of(&path(&["b", "10"])));
}

#[test]
fn conflict_relation() {
    let b = path(&["b"]);
    let b1 = path(&["b", "1"]);
    let b0 = path(&["b", "0"]);
    let a = path(&["a"]);

    assert!(b.conflicts_with(&b));
    assert!(b.conflicts_with(&b1));
    assert!(b1.conflicts_with(&b));
    assert!(!b0.conflicts_with(&b1));
    assert!(!a.conflicts_with(&b));
}

#[test]
fn adopt_existing_storage() {
    let l = Layout::record(
        3,
        vec![
            Field { name: "x".to_string(), offset: 0, layout: Layout::leaf(1) },
            Field { name: "y".to_string(), offset: 1, layout: Layout::leaf(2) },
        ],
    )
    .unwrap();

    let agg = Aggregate::from_bytes(l, vec![7u8, 8u8, 9u8]).unwrap();
    assert_eq!(read_field(&agg, &path(&["x"])).unwrap(), vec![7u8]);
    assert_eq!(read_field(&agg, &path(&["y"])).unwrap(), vec![8u8, 9u8]);
    assert!(read_field(&agg, &path(&["z"])).is_none());
    assert!(read_field(&agg, &path(&["x", "0"])).is_none());

    let l = Layout::leaf(3);
    assert!(Aggregate::from_bytes(l, vec![1u8, 2u8]).is_none());
}

#[test]
fn addresses_at_top_of_address_space() {
    let l = Layout::record(
        4,
        vec![
            Field { name: "x".to_string(), offset: 0, layout: Layout::leaf(2) },
            Field { name: "y".to_string(), offset: 2, layout: Layout::leaf(2) },
        ],
    )
    .unwrap();
    let base = usize::MAX - 4;
    let addrs =
        project_uninit::raw_project(base, &l, &vec![path(&["x"]), path(&["y"])]).unwrap();
    assert_eq!(addrs, vec![base, base + 2]);
}

#[test]
fn zero_sized_field() {
    let l = Layout::record(
        2,
        vec![
            Field { name: "unit".to_string(), offset: 0, layout: Layout::leaf(0) },
            Field { name: "x".to_string(), offset: 0, layout: Layout::leaf(2) },
        ],
    )
    .unwrap();
    let agg = Aggregate::from_bytes(l, vec![3u8, 4u8]).unwrap();
    assert_eq!(read_field(&agg, &path(&["unit"])).unwrap(), Vec::<u8>::new());
    assert_eq!(read_field(&agg, &path(&["x"])).unwrap(), vec![3u8, 4u8]);
}

#[test]
fn lifetime_tokens_bind() {
    let x: u32 = 5;
    let _lt = bind_ref_lt(&x);
    assert_eq!(x, 5);

    let mut y: u32 = 6;
    let lt = bind_mut_lt(&mut y);
    let _copy = lt;
    assert_eq!(y, 6);
}
