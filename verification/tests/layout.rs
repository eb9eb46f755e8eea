use std::collections::HashMap;

use rsdirstat::filter::FilterConfig;
use rsdirstat::layout::{largest_first, layout_items, number_items, ItemSource, LayoutItem};
use rsdirstat::tree::FileEntry;

fn file(name: &str, size: u64) -> FileEntry {
    FileEntry { name: name.to_string(), size, hue: 0, mtime: 0 }
}

fn describe(items: &[LayoutItem]) -> Vec<(String, u64)> {
    items
        .iter()
        .map(|item| {
            let what = match item.source {
                ItemSource::Dir(id) => format!("dir {id}"),
                ItemSource::File(i) => format!("file {i}"),
                ItemSource::OtherFiles => "others".to_string(),
            };
            (what, item.size)
        })
        .collect()
}

#[test]
fn layout_items_keep_sized_dirs_big_files_and_the_rest_together() {
    let children = vec![2, 3, 4];
    let sizes: HashMap<u64, u64> = [(2, 100), (3, 0), (4, 7)].into_iter().collect();
    let files = vec![file("a", 50), file("b", 0), file("c", 3), file("d", 10), file("e", 2)];
    let items = layout_items(&children, &sizes, &files, &FilterConfig::default(), Some(10)).unwrap();
    assert_eq!(
        describe(&items),
        vec![
            ("dir 2".to_string(), 100),
            ("dir 4".to_string(), 7),
            ("file 0".to_string(), 50),
            ("file 3".to_string(), 10),
            ("others".to_string(), 5),
        ]
    );
}

#[test]
fn layout_items_without_a_bound_show_no_file_alone() {
    let files = vec![file("a", 50), file("b", 3)];
    let items = layout_items(&Vec::new(), &HashMap::new(), &files, &FilterConfig::default(), None).unwrap();
    assert_eq!(describe(&items), vec![("others".to_string(), 53)]);
}

#[test]
fn layout_items_count_only_files_the_filter_lets_through() {
    let filter = FilterConfig { extensions: vec!["rs".to_string()], ..FilterConfig::default() };
    let files = vec![file("main.rs", 40), file("notes.txt", 90), file("lib.rs", 2)];
    let items = layout_items(&Vec::new(), &HashMap::new(), &files, &filter, Some(10)).unwrap();
    assert_eq!(describe(&items), vec![("file 0".to_string(), 40), ("others".to_string(), 2)]);
}

#[test]
fn layout_items_refuse_other_files_past_u64() {
    let files = vec![file("a", u64::MAX), file("b", 1)];
    assert!(layout_items(&Vec::new(), &HashMap::new(), &files, &FilterConfig::default(), None).is_none());
}

#[test]
fn layout_items_of_an_empty_directory_are_none() {
    let items = layout_items(&Vec::new(), &HashMap::new(), &Vec::new(), &FilterConfig::default(), Some(0)).unwrap();
    assert!(items.is_empty());
}

#[test]
fn files_count_down_from_the_next_free_id_and_directories_keep_theirs() {
    let items = vec![
        LayoutItem { source: ItemSource::Dir(7), size: 10 },
        LayoutItem { source: ItemSource::File(0), size: 30 },
        LayoutItem { source: ItemSource::Dir(9), size: 20 },
        LayoutItem { source: ItemSource::OtherFiles, size: 5 },
    ];
    let (numbered, next) = number_items(&items, -4);
    let ids: Vec<i64> = numbered.iter().map(|item| item.id).collect();
    assert_eq!(ids, vec![7, -4, 9, -5]);
    assert_eq!(next, -6);
    let sorted = largest_first(&numbered);
    let order: Vec<(i64, u64)> = sorted.iter().map(|item| (item.id, item.size)).collect();
    assert_eq!(order, vec![(-4, 30), (9, 20), (7, 10), (-5, 5)]);
}

#[test]
fn equal_sizes_keep_their_order() {
    let items = vec![
        LayoutItem { source: ItemSource::Dir(1), size: 8 },
        LayoutItem { source: ItemSource::Dir(2), size: 8 },
        LayoutItem { source: ItemSource::Dir(3), size: 9 },
    ];
    let (numbered, next) = number_items(&items, -1);
    assert_eq!(next, -1);
    let ids: Vec<i64> = largest_first(&numbered).iter().map(|item| item.id).collect();
    assert_eq!(ids, vec![3, 1, 2]);
}
