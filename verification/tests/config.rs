use reword::config::{settle, FileSettings, DEFAULT_NEW_PER_DAY, DEFAULT_SESSION_MINUTES};
use reword::types::Mode;

fn file(minutes: Option<u32>, per_day: Option<u32>, mode: Option<&str>) -> FileSettings {
    FileSettings { session_minutes: minutes, new_per_day: per_day, mode: mode.map(String::from) }
}

#[test]
fn settings_default_and_override() {
    let s = settle(&file(None, None, None)).unwrap();
    assert_eq!(s.session_minutes, 10);
    assert_eq!(s.session_minutes, DEFAULT_SESSION_MINUTES);
    assert_eq!(s.new_per_day, DEFAULT_NEW_PER_DAY);
    assert_eq!(s.mode, None);
    let s = settle(&file(Some(5), Some(3), Some("typed"))).unwrap();
    assert_eq!(s.session_minutes, 5);
    assert_eq!(s.new_per_day, 3);
    assert_eq!(s.mode, Some(Mode::Typed));
}

#[test]
fn settings_refuse_bad_values() {
    let e = settle(&file(None, None, Some("both"))).unwrap_err();
    assert_eq!(e.message, "config.toml: mode = \"both\" is not \"recall\" or \"typed\"");
    let e = settle(&file(Some(0), None, Some("both"))).unwrap_err();
    assert_eq!(e.message, "config.toml: session_minutes must be at least 1");
}
