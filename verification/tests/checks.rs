use rsdirstat::filter::FilterConfig;
use rsdirstat::tree::DirTree;

#[test]
fn insertion_check_accepts_ordinary_inserts() {
    let mut tree = DirTree::new();
    assert!(tree.can_insert_dir(1, 0, 10));
    tree.insert_dir(1, 0, "root", 10, 1);
    assert!(tree.can_insert_dir(2, 1, 5));
    tree.insert_dir(2, 1, "a", 5, 1);
    assert!(tree.can_insert_dir(3, 2, 5));
}

#[test]
fn insertion_check_refuses_cycles_and_overflow() {
    let mut tree = DirTree::new();
    tree.insert_dir(1, 0, "root", 10, 1);
    tree.insert_dir(2, 1, "a", 5, 1);
    assert!(!tree.can_insert_dir(1, 2, 0));
    assert!(!tree.can_insert_dir(2, 2, 0));
    assert!(!tree.can_insert_dir(3, 2, u64::MAX));
}

#[test]
fn walk_check_and_sum_check() {
    let mut tree = DirTree::new();
    tree.insert_dir(1, 0, "root", 10, 1);
    tree.insert_dir(2, 1, "a", 5, 1);
    assert!(tree.walk_ends_from(2, Some(1)));
    assert!(tree.walk_ends_from(7, Some(1)));
    assert!(tree.sums_can_fit(None));
    let filter = FilterConfig::default();
    assert!(tree.sums_can_fit(Some(&filter)));
}

#[test]
fn sum_check_refuses_overflow() {
    let mut tree = DirTree::new();
    tree.insert_dir(1, 0, "root", u64::MAX, 1);
    tree.insert_dir(2, 1, "a", 0, 1);
    tree.nodes.get_mut(&2).unwrap().direct_size = 1;
    assert!(!tree.sums_can_fit(None));
}
