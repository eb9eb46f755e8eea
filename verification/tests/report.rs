use std::collections::HashMap;

use rsdirstat::report::{ancestor_chain, report_lines, resolve_path, scan_result, top_indices};
use rsdirstat::tree::DirTree;

#[test]
fn top_indices_picks_largest_first() {
    let sizes = vec![5, 9, 1, 7, 9];
    assert_eq!(top_indices(&sizes, 3), vec![1, 4, 3]);
    assert_eq!(top_indices(&sizes, 10).len(), 5);
    assert!(top_indices(&sizes, 0).is_empty());
    assert!(top_indices(&Vec::new(), 3).is_empty());
}

#[test]
fn ancestor_chain_follows_parents_to_the_root() {
    let parents: HashMap<u64, u64> = [(4, 2), (2, 1), (3, 1)].into_iter().collect();
    assert_eq!(ancestor_chain(4, &parents, 1), Some(vec![4, 2]));
    assert_eq!(ancestor_chain(1, &parents, 1), Some(vec![]));
    assert_eq!(ancestor_chain(9, &parents, 1), None);
}

#[test]
fn ancestor_chain_gives_up_on_long_chains() {
    let parents: HashMap<u64, u64> = (1..=2000u64).map(|i| (i, i - 1)).collect();
    assert_eq!(ancestor_chain(1000, &parents, 0).map(|c| c.len()), Some(1000));
    assert_eq!(ancestor_chain(1001, &parents, 0), None);
}

#[test]
fn resolve_path_joins_names_from_the_root() {
    let parents: HashMap<u64, u64> = [(4, 2), (2, 1)].into_iter().collect();
    let names: HashMap<u64, String> = [(4, "c".to_string()), (2, "b".to_string())].into_iter().collect();
    assert_eq!(resolve_path(4, &parents, 1, "/r", &names), Some("/r/b/c".to_string()));
    assert_eq!(resolve_path(1, &parents, 1, "/r", &names), Some("/r".to_string()));
    let missing: HashMap<u64, String> = [(4, "c".to_string())].into_iter().collect();
    assert_eq!(resolve_path(4, &parents, 1, "/r", &missing), None);
}

#[test]
fn report_lines_align_sizes() {
    let entries = vec![
        ("/data/big".to_string(), 1_572_864u64),
        ("/data/small".to_string(), 512u64),
        ("/data/kib".to_string(), 1024u64),
    ];
    let lines = report_lines(&entries);
    assert_eq!(lines, vec![
        "1.50 MiB  /data/big".to_string(),
        "   512 B  /data/small".to_string(),
        "   1 KiB  /data/kib".to_string(),
    ]);
}

#[test]
fn report_lines_of_nothing_is_empty() {
    assert!(report_lines(&Vec::new()).is_empty());
}

#[test]
fn scan_result_lists_largest_dirs_and_files_with_paths() {
    let mut tree = DirTree::new();
    tree.insert_dir(1, 0, "root", 10, 1);
    tree.insert_dir(2, 1, "a", 100, 1);
    tree.insert_dir(3, 1, "b", 5, 1);
    let dirs = vec![(1u64, 115u64), (2, 100), (3, 5)];
    let files = vec![(2u64, "big.bin".to_string(), 90u64), (3, "small.txt".to_string(), 5), (1, "mid.log".to_string(), 10)];
    let result = scan_result(&tree, &dirs, &files, true, 2, "/data");
    assert_eq!(result.dir_sizes, vec![("/data".to_string(), 115), ("/data/a".to_string(), 100)]);
    assert_eq!(result.file_entries, vec![("/data/a/big.bin".to_string(), 90), ("/data/mid.log".to_string(), 10)]);
    let dirs_only = scan_result(&tree, &dirs, &files, false, 5, "/data");
    assert_eq!(dirs_only.dir_sizes.len(), 3);
    assert!(dirs_only.file_entries.is_empty());
}
