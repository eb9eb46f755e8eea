use std::path::PathBuf;

use rsdirstat::filter::FilterConfig;
use rsdirstat::tree::DirTree;

/// Build sample tree:
///   root (id=1, size=0)
///     dir_a (id=2, size=100)
///       dir_c (id=4, size=50)
///     dir_b (id=3, size=200)
fn sample_tree() -> DirTree {
    let mut tree = DirTree::new();
    tree.insert_dir(1, 0, "root", 0, 1000);
    tree.insert_dir(2, 1, "dir_a", 100, 2000);
    tree.insert_dir(3, 1, "dir_b", 200, 3000);
    tree.insert_dir(4, 2, "dir_c", 50, 4000);
    tree
}

#[test]
fn new_tree_is_empty() {
    let tree = DirTree::new();
    assert!(tree.nodes.is_empty());
    assert!(tree.root_id.is_none());
    assert!(tree.recursive_sizes.is_empty());
    assert!(tree.scan_path.is_empty());
    assert_eq!(tree.mtime_range, (i64::MAX, 0));
}

#[test]
fn insert_root_dir() {
    let mut tree = DirTree::new();
    tree.insert_dir(1, 0, "root", 0, 1000);
    assert_eq!(tree.root_id, Some(1));
    assert!(tree.nodes.contains_key(&1));
    assert_eq!(&*tree.nodes[&1].name, "root");
    assert_eq!(tree.nodes[&1].parent, 0);
}

#[test]
fn insert_child_dirs() {
    let tree = sample_tree();
    // root has two children
    assert_eq!(tree.nodes[&1].children, vec![2, 3]);
    // dir_a has one child
    assert_eq!(tree.nodes[&2].children, vec![4]);
    // dir_b and dir_c have no children
    assert!(tree.nodes[&3].children.is_empty());
    assert!(tree.nodes[&4].children.is_empty());
}

#[test]
fn insert_out_of_order_creates_parent_placeholder() {
    let mut tree = DirTree::new();
    // insert child before parent exists
    tree.insert_dir(5, 2, "child", 10, 100);
    // parent node 2 should exist as a placeholder with child 5
    assert!(tree.nodes.contains_key(&2));
    assert_eq!(tree.nodes[&2].children, vec![5]);
    // now insert the actual parent
    tree.insert_dir(2, 1, "dir_a", 100, 200);
    assert_eq!(&*tree.nodes[&2].name, "dir_a");
    assert_eq!(tree.nodes[&2].direct_size, 100);
    // child link preserved
    assert!(tree.nodes[&2].children.contains(&5));
}

#[test]
fn insert_file_adds_to_parent() {
    let mut tree = sample_tree();
    tree.insert_file(2, "hello.rs", 75, 5000);
    tree.insert_file(2, "world.txt", 25, 5001);
    assert_eq!(tree.nodes[&2].files.len(), 2);
    assert_eq!(&*tree.nodes[&2].files[0].name, "hello.rs");
    assert_eq!(tree.nodes[&2].files[0].size, 75);
    assert_eq!(&*tree.nodes[&2].files[1].name, "world.txt");
}

#[test]
fn propagate_size_on_insert() {
    let tree = sample_tree();
    // dir_c(50) is under dir_a(100), both under root(0)
    // root = 0 + 100 + 200 + 50 = 350
    assert_eq!(tree.recursive_sizes[&1], 350);
    // dir_a = 100 + 50 = 150
    assert_eq!(tree.recursive_sizes[&2], 150);
    // dir_b = 200
    assert_eq!(tree.recursive_sizes[&3], 200);
    // dir_c = 50
    assert_eq!(tree.recursive_sizes[&4], 50);
}

#[test]
fn recompute_sizes_matches_propagated() {
    let mut tree = sample_tree();
    // Manually corrupt recursive_sizes, then recompute
    tree.recursive_sizes.clear();
    tree.recompute_sizes();
    assert_eq!(tree.recursive_sizes[&1], 350);
    assert_eq!(tree.recursive_sizes[&2], 150);
    assert_eq!(tree.recursive_sizes[&3], 200);
    assert_eq!(tree.recursive_sizes[&4], 50);
}

#[test]
fn recompute_sizes_empty_tree() {
    let mut tree = DirTree::new();
    tree.recompute_sizes();
    assert!(tree.recursive_sizes.is_empty());
}

#[test]
fn bottom_up_order_contains_all_nodes() {
    let tree = sample_tree();
    let order = tree.bottom_up_order();
    assert_eq!(order.len(), 4);
    // root is first (top-down BFS-like via stack)
    assert_eq!(order[0], 1);
    // all nodes present
    let mut sorted = order.clone();
    sorted.sort();
    assert_eq!(sorted, vec![1, 2, 3, 4]);
}

#[test]
fn bottom_up_order_empty_tree() {
    let tree = DirTree::new();
    assert!(tree.bottom_up_order().is_empty());
}

#[test]
fn bottom_up_order_reversed_is_leaves_first() {
    let tree = sample_tree();
    let order = tree.bottom_up_order();
    // When reversed, leaves must come before their parents.
    let mut rev = order.clone();
    rev.reverse();
    let pos = |id: u64| rev.iter().position(|&x| x == id).unwrap();
    // dir_c before dir_a
    assert!(pos(4) < pos(2));
    // dir_a and dir_b before root
    assert!(pos(2) < pos(1));
    assert!(pos(3) < pos(1));
}

#[test]
fn full_path_root_returns_root_path() {
    let tree = sample_tree();
    let p = tree.full_path(1, "/home/user").unwrap();
    assert_eq!(PathBuf::from(p), PathBuf::from("/home/user"));
}

#[test]
fn full_path_single_level() {
    let tree = sample_tree();
    let p = tree.full_path(2, "/home/user").unwrap();
    assert_eq!(PathBuf::from(p), PathBuf::from("/home/user/dir_a"));
}

#[test]
fn full_path_multi_level() {
    let tree = sample_tree();
    let p = tree.full_path(4, "/home/user").unwrap();
    assert_eq!(PathBuf::from(p), PathBuf::from("/home/user/dir_a/dir_c"));
}

#[test]
fn full_path_no_root_returns_none() {
    let tree = DirTree::new();
    assert!(tree.full_path(1, "/tmp").is_none());
}

#[test]
fn full_path_missing_node_returns_none() {
    let tree = sample_tree();
    assert!(tree.full_path(999, "/tmp").is_none());
}

#[test]
fn breadcrumb_from_leaf() {
    let tree = sample_tree();
    let crumbs = tree.breadcrumb(4);
    let names: Vec<&str> = crumbs.iter().map(|c| c.name.as_str()).collect();
    assert_eq!(names, vec!["root", "dir_a", "dir_c"]);
    assert_eq!(crumbs[0].id, 1);
    assert_eq!(crumbs[1].id, 2);
    assert_eq!(crumbs[2].id, 4);
}

#[test]
fn breadcrumb_from_root() {
    let tree = sample_tree();
    let crumbs = tree.breadcrumb(1);
    assert_eq!(crumbs.len(), 1);
    assert_eq!(crumbs[0].id, 1);
    assert_eq!(crumbs[0].name, "root");
}

#[test]
fn breadcrumb_root_uses_scan_path_when_name_empty() {
    let mut tree = DirTree::new();
    tree.insert_dir(1, 0, "", 0, 100);
    tree.scan_path = "/mnt/data".into();
    let crumbs = tree.breadcrumb(1);
    assert_eq!(crumbs[0].name, "/mnt/data");
}

#[test]
fn clear_resets_everything() {
    let mut tree = sample_tree();
    tree.scan_path = "/some/path".into();
    tree.clear();
    assert!(tree.nodes.is_empty());
    assert!(tree.root_id.is_none());
    assert!(tree.recursive_sizes.is_empty());
    assert!(tree.scan_path.is_empty());
    assert_eq!(tree.mtime_range, (i64::MAX, 0));
}

#[test]
fn mtime_range_tracks_min_max() {
    let tree = sample_tree();
    // mtimes: 1000, 2000, 3000, 4000
    assert_eq!(tree.mtime_range, (1000, 4000));
}

#[test]
fn mtime_range_ignores_zero() {
    let mut tree = DirTree::new();
    tree.insert_dir(1, 0, "root", 0, 0);
    // zero mtime ignored, range stays at initial
    assert_eq!(tree.mtime_range, (i64::MAX, 0));
    tree.insert_dir(2, 1, "child", 10, 500);
    assert_eq!(tree.mtime_range, (500, 500));
}

#[test]
fn mtime_range_ignores_negative() {
    let mut tree = DirTree::new();
    tree.insert_dir(1, 0, "root", 0, -1);
    assert_eq!(tree.mtime_range, (i64::MAX, 0));
    tree.insert_dir(2, 1, "child", 10, 100);
    assert_eq!(tree.mtime_range, (100, 100));
}

#[test]
fn mtime_range_from_files() {
    let mut tree = DirTree::new();
    tree.insert_dir(1, 0, "root", 0, 500);
    tree.insert_file(1, "a.txt", 10, 100);
    tree.insert_file(1, "b.txt", 20, 900);
    assert_eq!(tree.mtime_range, (100, 900));
}

#[test]
fn compute_filtered_sizes_with_extension_filter() {
    let mut tree = DirTree::new();
    tree.insert_dir(1, 0, "root", 0, 100);
    tree.insert_dir(2, 1, "src", 0, 100);
    tree.insert_file(2, "main.rs", 500, 100);
    tree.insert_file(2, "lib.rs", 300, 100);
    tree.insert_file(2, "notes.txt", 200, 100);

    let filter = FilterConfig {
        extensions: vec!["rs".into()],
        ..Default::default()
    };
    let sizes = tree.compute_filtered_sizes(&filter);
    // src dir: main.rs(500) + lib.rs(300) = 800
    assert_eq!(sizes[&2], 800);
    // root: sum of children = 800
    assert_eq!(sizes[&1], 800);
}

#[test]
fn compute_filtered_sizes_no_filter_sums_all_files() {
    let mut tree = DirTree::new();
    tree.insert_dir(1, 0, "root", 0, 100);
    tree.insert_file(1, "a.txt", 100, 100);
    tree.insert_file(1, "b.rs", 200, 100);

    let filter = FilterConfig::default();
    let sizes = tree.compute_filtered_sizes(&filter);
    assert_eq!(sizes[&1], 300);
}

#[test]
fn default_tree_is_empty() {
    let tree = DirTree::default();
    assert!(tree.nodes.is_empty());
    assert!(tree.root_id.is_none());
    assert_eq!(tree.mtime_range, (i64::MAX, 0));
}

#[test]
fn second_parentless_dir_does_not_replace_root() {
    let mut tree = DirTree::new();
    tree.insert_dir(1, 0, "first", 0, 1);
    tree.insert_dir(9, 0, "second", 0, 1);
    assert_eq!(tree.root_id, Some(1));
}

#[test]
fn reinserting_a_dir_keeps_its_children_and_files() {
    let mut tree = sample_tree();
    tree.insert_file(2, "x.bin", 7, 1);
    tree.insert_dir(2, 1, "renamed", 5, 9);
    assert_eq!(tree.nodes[&2].children, vec![4]);
    assert_eq!(tree.nodes[&2].files.len(), 1);
    assert_eq!(&*tree.nodes[&2].name, "renamed");
    assert_eq!(tree.nodes[&2].direct_size, 5);
}

#[test]
fn file_hue_comes_from_extension() {
    let mut tree = DirTree::new();
    tree.insert_dir(1, 0, "root", 0, 1);
    tree.insert_file(1, "movie.mp4", 1, 1);
    tree.insert_file(1, "noext", 1, 1);
    tree.insert_file(1, "long.abcdefghijk", 1, 1);
    tree.insert_file(1, "again.mp4", 1, 1);
    assert_eq!(tree.nodes[&1].files[0].hue, 220);
    assert_eq!(tree.nodes[&1].files[1].hue, 0);
    assert_eq!(tree.nodes[&1].files[2].hue, 0);
    assert_eq!(tree.nodes[&1].files[3].hue, 220);
}

#[test]
fn full_path_with_absolute_component_replaces_base() {
    let mut tree = DirTree::new();
    tree.insert_dir(1, 0, "root", 0, 1);
    tree.insert_dir(2, 1, "/abs", 0, 1);
    assert_eq!(tree.full_path(2, "/home").unwrap(), "/abs");
    assert_eq!(tree.full_path(2, "/home/").unwrap(), "/abs");
    tree.insert_dir(3, 1, "rel", 0, 1);
    assert_eq!(tree.full_path(3, "/home/").unwrap(), "/home/rel");
    assert_eq!(tree.full_path(3, "").unwrap(), "rel");
}

#[test]
fn recompute_sizes_sums_direct_sizes_of_subtree() {
    let mut tree = DirTree::new();
    tree.insert_dir(5, 2, "c", 10, 1);
    tree.insert_dir(2, 1, "b", 20, 1);
    tree.insert_dir(1, 0, "a", 30, 1);
    tree.recompute_sizes();
    assert_eq!(tree.recursive_sizes[&1], 60);
    assert_eq!(tree.recursive_sizes[&2], 30);
    assert_eq!(tree.recursive_sizes[&5], 10);
}

/// The total of the direct sizes of `id` and every directory below it, read off the parent links.
fn total_below(tree: &DirTree, id: u64) -> u64 {
    let mut total = 0;
    for (&x, node) in &tree.nodes {
        let mut current = x;
        loop {
            if current == id {
                total += node.direct_size;
                break;
            }
            match tree.nodes.get(&current) {
                Some(n) if n.parent != 0 => current = n.parent,
                _ => break,
            }
        }
    }
    total
}

#[test]
fn new_directories_keep_sizes_rolled_up() {
    let mut tree = DirTree::new();
    tree.insert_dir(1, 0, "root", 5, 1);
    tree.insert_file(1, "a.txt", 7, 1);
    tree.insert_dir(2, 1, "a", 11, 1);
    tree.insert_dir(3, 2, "b", 13, 1);
    tree.insert_file(3, "b.rs", 17, 1);
    tree.insert_dir(4, 1, "c", 19, 1);
    tree.insert_dir(5, 3, "d", 23, 1);
    tree.insert_dir(6, 9, "e", 29, 1);
    for id in [1u64, 2, 3, 4, 5, 6, 9] {
        assert_eq!(tree.recursive_sizes.get(&id).copied().unwrap_or(0), total_below(&tree, id));
    }
    assert_eq!(tree.recursive_sizes[&1], 5 + 11 + 13 + 19 + 23);
    assert_eq!(tree.recursive_sizes[&2], 11 + 13 + 23);
    assert_eq!(tree.recursive_sizes[&9], 29);
    let kept = tree.recursive_sizes.clone();
    tree.recompute_sizes();
    assert_eq!(tree.recursive_sizes.len(), 5);
    for (id, size) in &tree.recursive_sizes {
        assert_eq!(kept[id], *size);
    }
}

#[test]
fn directory_recorded_after_its_subdirectory_leaves_the_subdirectory_out_above() {
    let mut tree = DirTree::new();
    tree.insert_dir(1, 0, "root", 0, 1);
    tree.insert_dir(5, 2, "child", 10, 1);
    tree.insert_dir(2, 1, "dir_a", 100, 1);
    assert_eq!(tree.recursive_sizes[&2], 110);
    assert_eq!(tree.recursive_sizes[&1], 100);
    assert_eq!(total_below(&tree, 1), 110);
}

#[test]
fn with_no_filter_set_filtered_sizes_are_recursive_sizes() {
    let mut tree = DirTree::new();
    tree.insert_file(1, "a.txt", 30, 1);
    tree.insert_file(1, "b.bin", 12, 1);
    tree.insert_dir(1, 0, "root", 42, 1);
    tree.insert_file(2, "c.rs", 7, 1);
    tree.insert_dir(2, 1, "src", 7, 1);
    tree.insert_dir(3, 1, "empty", 0, 1);
    tree.recompute_sizes();
    let filtered = tree.compute_filtered_sizes(&FilterConfig::default());
    assert_eq!(filtered, tree.recursive_sizes);
    assert_eq!(filtered[&1], 49);
}

#[test]
fn a_narrower_filter_never_gives_a_directory_more() {
    let mut tree = DirTree::new();
    tree.insert_dir(1, 0, "root", 0, 1);
    tree.insert_dir(2, 1, "src", 0, 1);
    tree.insert_file(1, "big.bin", 4096, 1);
    tree.insert_file(2, "main.rs", 500, 1);
    tree.insert_file(2, "tiny.rs", 3, 1);
    let wide = tree.compute_filtered_sizes(&FilterConfig::default());
    let narrow = tree.compute_filtered_sizes(&FilterConfig {
        extensions: vec!["rs".into()],
        min_size: 10,
        ..Default::default()
    });
    assert_eq!(wide.len(), narrow.len());
    for (id, size) in &narrow {
        assert!(*size <= wide[id]);
    }
    assert_eq!(narrow[&2], 500);
    assert_eq!(narrow[&1], 500);
    assert_eq!(wide[&1], 4096 + 503);
}

#[test]
fn bottom_up_order_lists_each_directory_once() {
    let tree = sample_tree();
    let order = tree.bottom_up_order();
    let mut seen = order.clone();
    seen.sort();
    seen.dedup();
    assert_eq!(seen.len(), order.len());
    assert_eq!(order[0], 1);
}
