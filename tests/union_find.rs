use auto_palette::union_find::UnionFind;

#[test]
fn new_should_create_union_find() {
    assert_eq!(
        UnionFind::new(3),
        UnionFind {
            parent: vec![0, 1, 2, 3, 4, 5],
            size: vec![1, 1, 1, 0, 0, 0],
            next_label: 3,
        }
    )
}

#[test]
fn find_should_find_root_node() {
    let mut union_find = UnionFind::new(4);
    assert_eq!(union_find.find(0), 0);
    assert_eq!(union_find.find(1), 1);
    assert_eq!(union_find.find(2), 2);
    assert_eq!(union_find.find(3), 3);

    union_find.union(0, 1);
    assert_eq!(union_find.find(0), 4);
    assert_eq!(union_find.find(1), 4);
    assert_eq!(union_find.find(2), 2);
    assert_eq!(union_find.find(3), 3);
    assert_eq!(union_find.find(4), 4);

    union_find.union(4, 3);
    assert_eq!(union_find.find(0), 5);
    assert_eq!(union_find.find(1), 5);
    assert_eq!(union_find.find(2), 2);
    assert_eq!(union_find.find(3), 5);
    assert_eq!(union_find.find(4), 5);
    assert_eq!(union_find.find(5), 5);
}

#[test]
fn union_should_union_2_nodes() {
    let mut union_find = UnionFind::new(4);
    assert_eq!(union_find.union(0, 1), 2);
    assert_eq!(union_find.union(2, 3), 2);
    assert_eq!(union_find.union(4, 5), 4);
}

#[test]
fn find_compresses_paths() {
    let mut union_find = UnionFind::new(3);
    union_find.union(0, 1);
    union_find.union(3, 2);
    assert_eq!(union_find.parent, vec![3, 3, 4, 4, 4, 5]);
    assert_eq!(union_find.find(0), 4);
    assert_eq!(union_find.parent, vec![4, 3, 4, 4, 4, 5]);
    assert_eq!(union_find.size, vec![1, 1, 1, 2, 3, 0]);
}
