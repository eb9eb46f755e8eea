use rsdirstat::filter::FilterConfig;

#[test]
fn filter_default_is_inactive() {
    let f = FilterConfig::default();
    assert!(!f.is_active());
}

#[test]
fn filter_active_with_extensions() {
    let f = FilterConfig {
        extensions: vec!["rs".into()],
        ..Default::default()
    };
    assert!(f.is_active());
}

#[test]
fn filter_active_with_min_size() {
    let f = FilterConfig {
        min_size: 1,
        ..Default::default()
    };
    assert!(f.is_active());
}

#[test]
fn filter_active_with_max_size() {
    let f = FilterConfig {
        max_size: 100,
        ..Default::default()
    };
    assert!(f.is_active());
}

#[test]
fn filter_active_with_name_pattern() {
    let f = FilterConfig {
        name_pattern: "foo".into(),
        ..Default::default()
    };
    assert!(f.is_active());
}

#[test]
fn filter_default_matches_everything() {
    let f = FilterConfig::default();
    assert!(f.matches_file("anything.txt", 0));
    assert!(f.matches_file("anything.txt", u64::MAX));
}

#[test]
fn filter_min_size() {
    let f = FilterConfig {
        min_size: 100,
        ..Default::default()
    };
    assert!(!f.matches_file("a.txt", 99));
    assert!(f.matches_file("a.txt", 100));
    assert!(f.matches_file("a.txt", 101));
}

#[test]
fn filter_max_size() {
    let f = FilterConfig {
        max_size: 100,
        ..Default::default()
    };
    assert!(f.matches_file("a.txt", 99));
    assert!(f.matches_file("a.txt", 100));
    assert!(!f.matches_file("a.txt", 101));
}

#[test]
fn filter_size_range() {
    let f = FilterConfig {
        min_size: 50,
        max_size: 150,
        ..Default::default()
    };
    assert!(!f.matches_file("a.txt", 49));
    assert!(f.matches_file("a.txt", 50));
    assert!(f.matches_file("a.txt", 100));
    assert!(f.matches_file("a.txt", 150));
    assert!(!f.matches_file("a.txt", 151));
}

#[test]
fn filter_extension_case_insensitive() {
    let f = FilterConfig {
        extensions: vec!["rs".into(), "toml".into()],
        ..Default::default()
    };
    assert!(f.matches_file("main.rs", 10));
    assert!(f.matches_file("main.RS", 10));
    assert!(f.matches_file("Cargo.TOML", 10));
    assert!(!f.matches_file("readme.md", 10));
    assert!(!f.matches_file("noext", 10));
}

#[test]
fn filter_name_pattern_case_insensitive_substring() {
    let f = FilterConfig {
        name_pattern: "read".into(),
        ..Default::default()
    };
    assert!(f.matches_file("README.md", 10));
    assert!(f.matches_file("read.txt", 10));
    assert!(f.matches_file("unreadable.rs", 10));
    assert!(!f.matches_file("write.rs", 10));
}

#[test]
fn filter_combined_extension_and_size() {
    let f = FilterConfig {
        extensions: vec!["rs".into()],
        min_size: 100,
        ..Default::default()
    };
    // wrong extension
    assert!(!f.matches_file("a.txt", 200));
    // right extension, too small
    assert!(!f.matches_file("a.rs", 50));
    // both match
    assert!(f.matches_file("a.rs", 100));
}

#[test]
fn filter_extension_is_after_last_dot() {
    let f = FilterConfig {
        extensions: vec!["gz".into()],
        ..Default::default()
    };
    assert!(f.matches_file("archive.tar.gz", 1));
    assert!(!f.matches_file("archive.gz.tar", 1));
    assert!(!f.matches_file("trailing.", 1));
}
