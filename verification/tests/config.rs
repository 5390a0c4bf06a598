use comic_sync::config::Config;

#[test]
fn defaults() {
    let c = Config::default();
    assert_eq!(c.port, 30000);
    assert_eq!(c.img_folder, ".");
    assert!(c.mirror.is_none());
}

#[test]
fn command_line_wins_over_file() {
    let c = Config::resolve(
        Some("args".to_string()),
        Some(1234),
        Some("arg-mirror".to_string()),
        Some("filed".to_string()),
        Some(4321),
        Some("file-mirror".to_string()),
    );
    assert_eq!(c.img_folder, "args");
    assert_eq!(c.port, 1234);
    assert_eq!(c.mirror.as_deref(), Some("arg-mirror"));
}

#[test]
fn file_fills_what_the_command_line_leaves() {
    let c = Config::resolve(None, None, None, Some("filed".to_string()), Some(4321), None);
    assert_eq!(c.img_folder, "filed");
    assert_eq!(c.port, 4321);
    assert!(c.mirror.is_none());
}

#[test]
fn an_oversized_file_port_is_ignored() {
    let c = Config::resolve(None, None, None, None, Some(70000), None);
    assert_eq!(c.port, 30000);
    let c = Config::resolve(None, None, None, None, Some(65535), None);
    assert_eq!(c.port, 65535);
}
