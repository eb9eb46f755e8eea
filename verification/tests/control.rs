use rsdirstat::control::{layout_due, layout_root, react_to_message, Reaction, ViewSettings};
use rsdirstat::filter::FilterConfig;
use rsdirstat::tree::DirTree;
use rsdirstat::wire::ClientMessage;

fn view() -> ViewSettings {
    ViewSettings { view_root: None, max_depth: 3, color_mode: 0, filter: FilterConfig::default() }
}

fn tree() -> DirTree {
    let mut tree = DirTree::new();
    tree.insert_dir(1, 0, "root", 0, 1);
    tree.insert_dir(2, 1, "a", 0, 1);
    tree
}

#[test]
fn view_requests_change_the_view() {
    let t = tree();
    let mut v = view();
    assert!(matches!(react_to_message(ClientMessage::Navigate { id: 2 }, &mut v, &t, "/r", true, true), Reaction::ViewChanged));
    assert_eq!(v.view_root, Some(2));
    react_to_message(ClientMessage::SetDepth { depth: 7 }, &mut v, &t, "/r", true, true);
    assert_eq!(v.max_depth, 7);
    react_to_message(ClientMessage::FilterSize { min: 1, max: 2 }, &mut v, &t, "/r", true, true);
    assert_eq!((v.filter.min_size, v.filter.max_size), (1, 2));
    react_to_message(ClientMessage::ClearFilter, &mut v, &t, "/r", true, true);
    assert!(!v.filter.is_active());
}

#[test]
fn reveal_requests_resolve_paths() {
    let t = tree();
    let mut v = view();
    match react_to_message(ClientMessage::RevealDir { id: 2 }, &mut v, &t, "/r", true, true) {
        Reaction::Reveal { path } => assert_eq!(path, "/r/a"),
        _ => panic!("expected a reveal"),
    }
    match react_to_message(ClientMessage::RevealFile { dir_id: 2, name: "f.txt".into() }, &mut v, &t, "/r", true, true) {
        Reaction::Reveal { path } => assert_eq!(path, "/r/a/f.txt"),
        _ => panic!("expected a reveal"),
    }
    assert!(matches!(
        react_to_message(ClientMessage::RevealFile { dir_id: 2, name: "../x".into() }, &mut v, &t, "/r", true, true),
        Reaction::Ignore
    ));
    assert!(matches!(react_to_message(ClientMessage::RevealDir { id: 9 }, &mut v, &t, "/r", true, true), Reaction::Ignore));
}

#[test]
fn scans_start_only_when_allowed() {
    let t = tree();
    let mut v = view();
    assert!(matches!(react_to_message(ClientMessage::Rescan, &mut v, &t, "/r", true, false), Reaction::Ignore));
    assert!(matches!(react_to_message(ClientMessage::Rescan, &mut v, &t, "/r", true, true), Reaction::StartScan));
    assert!(matches!(
        react_to_message(ClientMessage::ScanPath { path: "/x".into() }, &mut v, &t, "/r", true, false),
        Reaction::Ignore
    ));
    assert!(matches!(
        react_to_message(ClientMessage::ScanPath { path: "/x".into() }, &mut v, &t, "/r", false, false),
        Reaction::ScanPath { .. }
    ));
}

#[test]
fn layout_is_due_after_a_change_with_a_watcher() {
    assert!(!layout_due(3, 3, 1, true, 1000));
    assert!(!layout_due(4, 3, 0, true, 1000));
    assert!(layout_due(4, 3, 1, true, 0));
    assert!(!layout_due(4, 3, 2, false, 44));
    assert!(layout_due(4, 3, 2, false, 45));
}

#[test]
fn layout_starts_from_the_view_root_when_known() {
    let mut tree = DirTree::new();
    assert_eq!(layout_root(&tree, Some(1)), None);
    tree.insert_dir(1, 0, "root", 0, 0);
    tree.insert_dir(2, 1, "a", 0, 0);
    assert_eq!(layout_root(&tree, None), Some(1));
    assert_eq!(layout_root(&tree, Some(2)), Some(2));
    assert_eq!(layout_root(&tree, Some(9)), Some(1));
}
