use wlrune::locations::{default_config_pathes, gesture_data_dir, gesture_file_path, join_path};

#[test]
fn template_path_under_home() {
    let p = gesture_file_path(Some("/home/ann"), None, "up").unwrap();
    assert_eq!(p, "/home/ann/.local/share/wlrune/patterns/up");
}

#[test]
fn template_path_under_xdg_data_home() {
    let p = gesture_file_path(Some("/home/ann"), Some("/data"), "down").unwrap();
    assert_eq!(p, "/data/wlrune/patterns/down");
    let q = gesture_file_path(Some("/home/ann"), Some("/data/"), "down").unwrap();
    assert_eq!(q, "/data/wlrune/patterns/down");
}

#[test]
fn template_path_needs_home() {
    assert_eq!(gesture_file_path(None, Some("/data"), "up"), Err(()));
    assert_eq!(gesture_data_dir(None, None), Err(()));
}

#[test]
fn data_dir_with_empty_xdg_is_relative() {
    assert_eq!(gesture_data_dir(Some("/h"), Some("")).unwrap(), "wlrune");
}

#[test]
fn join_rules() {
    assert_eq!(join_path("a", "b"), "a/b");
    assert_eq!(join_path("a/", "b"), "a/b");
    assert_eq!(join_path("", "b"), "b");
    assert_eq!(join_path("a", "/b"), "/b");
    assert_eq!(join_path("a", ""), "a/");
}

#[test]
fn absolute_template_name_replaces_directory() {
    let p = gesture_file_path(Some("/home/ann"), None, "/tmp/x").unwrap();
    assert_eq!(p, "/tmp/x");
}

#[test]
fn config_candidates_in_order() {
    let v = default_config_pathes(Some("/home/ann"), None).unwrap();
    assert_eq!(
        v,
        vec![
            "/home/ann/.config/wlrune/config.yaml".to_string(),
            "/home/ann/.config/wlrune/config.yml".to_string(),
            "/home/ann/.config/wlrune/config".to_string(),
        ]
    );
    let w = default_config_pathes(Some("/home/ann"), Some("/cfg")).unwrap();
    assert_eq!(w[0], "/cfg/wlrune/config.yaml");
    assert_eq!(default_config_pathes(None, Some("/cfg")), Err(()));
}
