use rsdirstat::paths::push_path_component;

#[test]
fn push_adds_a_separator_when_needed() {
    let mut p = String::from("/home");
    push_path_component(&mut p, "user");
    assert_eq!(p, "/home/user");
    let mut p = String::from("/home/");
    push_path_component(&mut p, "user");
    assert_eq!(p, "/home/user");
    let mut p = String::new();
    push_path_component(&mut p, "user");
    assert_eq!(p, "user");
}

#[test]
fn push_of_an_absolute_component_replaces() {
    let mut p = String::from("/home");
    push_path_component(&mut p, "/etc");
    assert_eq!(p, "/etc");
}
