use dirstat::flatten::ranks_before;
use dirstat::node::{DiskItem, NodeKind};

fn file(path: &str, size: u64) -> DiskItem {
    DiskItem::file(path.to_string(), size)
}

fn dir(path: &str, children: Vec<DiskItem>) -> DiskItem {
    DiskItem::directory(path.to_string(), children).unwrap()
}

fn example() -> DiskItem {
    dir(
        "/data",
        vec![file("/data/a.bin", 100), dir("/data/sub", vec![file("/data/sub/b", 50), file("/data/sub/c", 25)])],
    )
}

fn listed(top: &[&DiskItem]) -> Vec<(String, u64)> {
    top.iter().map(|node| (node.path().clone(), node.size_bytes())).collect()
}

fn pairs(expected: &[(&str, u64)]) -> Vec<(String, u64)> {
    expected.iter().map(|(path, size)| (path.to_string(), *size)).collect()
}

#[test]
fn flatten_counts_directories_as_nodes() {
    let root = dir("/data", vec![file("/data/f100", 100), dir("/data/sub", vec![file("/data/sub/f50", 50), file("/data/sub/f25", 25)])]);
    assert_eq!(root.size_bytes(), 175);
    let top = root.flatten(1);
    assert_eq!(listed(&top), pairs(&[("/data", 175)]));
    let all = root.flatten(5);
    assert_eq!(
        listed(&all),
        pairs(&[("/data", 175), ("/data/f100", 100), ("/data/sub", 75), ("/data/sub/f50", 50), ("/data/sub/f25", 25)])
    );
}

#[test]
fn flatten_ranks_a_directory_above_a_smaller_file() {
    let root = dir(
        "/root",
        vec![file("/root/file100", 60), dir("/root/subdir", vec![file("/root/subdir/file50", 50), file("/root/subdir/file25", 25)])],
    );
    assert_eq!(root.size_bytes(), 135);
    let top = root.flatten(2);
    assert_eq!(listed(&top), pairs(&[("/root", 135), ("/root/subdir", 75)]));
}

#[test]
fn flatten_returns_at_most_limit_nodes() {
    let root = example();
    for limit in 0..8 {
        let top = root.flatten(limit);
        assert_eq!(top.len(), limit.min(5));
    }
    assert!(root.flatten(0).is_empty());
}

#[test]
fn flatten_returns_everything_when_the_tree_is_small() {
    let root = example();
    let top = root.flatten(500);
    assert_eq!(top.len(), 5);
    let sizes: Vec<u64> = top.iter().map(|n| n.size_bytes()).collect();
    assert_eq!(sizes, vec![175, 100, 75, 50, 25]);
    assert_eq!(root.flatten(usize::MAX).len(), 5);
}

#[test]
fn flatten_is_sorted_by_size_descending() {
    let root = dir(
        "/r",
        vec![
            file("/r/s", 1),
            dir("/r/d", vec![file("/r/d/x", 300), file("/r/d/y", 2), dir("/r/d/e", vec![file("/r/d/e/z", 40)])]),
            file("/r/t", 77),
        ],
    );
    let top = root.flatten(100);
    assert_eq!(top.len(), 8);
    for pair in top.windows(2) {
        assert!(pair[0].size_bytes() >= pair[1].size_bytes());
        assert!(!ranks_before(pair[1], pair[0]));
    }
    assert_eq!(top[0].size_bytes(), 420);
    assert_eq!(top[7].size_bytes(), 1);
}

#[test]
fn flatten_breaks_ties_by_path() {
    let root = dir("/r", vec![file("/r/b", 10), file("/r/a", 10), file("/r/ab", 10), file("/r/B", 10)]);
    let top = root.flatten(10);
    assert_eq!(listed(&top), pairs(&[("/r", 40), ("/r/B", 10), ("/r/a", 10), ("/r/ab", 10), ("/r/b", 10)]));
    let two = root.flatten(2);
    assert_eq!(listed(&two), pairs(&[("/r", 40), ("/r/B", 10)]));
}

#[test]
fn flatten_orders_paths_byte_by_byte() {
    let root = dir("/r", vec![file("/r/\u{e9}", 1), file("/r/z", 1), file("/r/", 1), file("/r/\u{4e2d}", 1)]);
    let top = root.flatten(10);
    assert_eq!(
        listed(&top),
        pairs(&[("/r", 4), ("/r/", 1), ("/r/z", 1), ("/r/\u{e9}", 1), ("/r/\u{4e2d}", 1)])
    );
}

#[test]
fn flatten_keeps_full_ties_in_tree_order() {
    let root = dir("/r", vec![dir("/r/x", vec![file("/r/x", 9)]), file("/r/x", 9)]);
    let top = root.flatten(10);
    assert_eq!(listed(&top), pairs(&[("/r", 18), ("/r/x", 9), ("/r/x", 9), ("/r/x", 9)]));
    assert_eq!(top[1].kind(), NodeKind::Directory);
    assert_eq!(top[2].kind(), NodeKind::File);
    assert_eq!(top[3].kind(), NodeKind::File);
    assert!(std::ptr::eq(top[1], &root.children()[0]));
    assert!(std::ptr::eq(top[2], &root.children()[0].children()[0]));
    assert!(std::ptr::eq(top[3], &root.children()[1]));
}

#[test]
fn flatten_returns_nodes_of_the_tree() {
    let root = example();
    let top = root.flatten(3);
    assert!(std::ptr::eq(top[0], &root));
    assert!(std::ptr::eq(top[1], &root.children()[0]));
    assert!(std::ptr::eq(top[2], &root.children()[1]));
    assert_eq!(top[2].children().len(), 2);
}

#[test]
fn flatten_twice_gives_the_same_list() {
    let root = example();
    let first = listed(&root.flatten(4));
    let second = listed(&root.flatten(4));
    assert_eq!(first, second);
    let copy = root.clone();
    assert_eq!(listed(&copy.flatten(4)), first);
}

#[test]
fn flatten_of_a_single_file() {
    let node = file("/a", 3);
    assert_eq!(listed(&node.flatten(5)), pairs(&[("/a", 3)]));
    assert!(node.flatten(0).is_empty());
}

#[test]
fn ranks_before_compares_size_then_path() {
    let big = file("/z", 2);
    let small = file("/a", 1);
    assert!(ranks_before(&big, &small));
    assert!(!ranks_before(&small, &big));
    let a = file("/a", 1);
    let ab = file("/ab", 1);
    assert!(ranks_before(&a, &ab));
    assert!(!ranks_before(&ab, &a));
    assert!(!ranks_before(&a, &small));
    assert!(!ranks_before(&small, &a));
}
