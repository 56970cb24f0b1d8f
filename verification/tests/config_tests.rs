use cat_history::config::{theme_display_label, theme_menu_label, Config};

#[test]
fn default_config_values() {
    let c = Config::default();
    assert_eq!(c.max_history_items, 100);
    assert!(!c.auto_start);
    assert_eq!(c.theme, "auto");
    assert_eq!(c.hotkey, "CommandOrControl+Shift+V");
}

#[test]
fn sanitize_clamps_the_history_bound() {
    let mut c = Config::default();
    c.max_history_items = 0;
    c.sanitize();
    assert_eq!(c.max_history_items, 1);
    c.max_history_items = 10_000;
    c.sanitize();
    assert_eq!(c.max_history_items, 5_000);
    c.max_history_items = 250;
    c.sanitize();
    assert_eq!(c.max_history_items, 250);
}

#[test]
fn sanitize_fixes_theme_and_hotkey() {
    let mut c = Config::default();
    c.theme = "purple".to_string();
    c.hotkey = "   ".to_string();
    c.sanitize();
    assert_eq!(c.theme, "auto");
    assert_eq!(c.hotkey, "CommandOrControl+Shift+V");
    let mut d = Config::default();
    d.theme = "dark".to_string();
    d.hotkey = "Ctrl+H".to_string();
    d.sanitize();
    assert_eq!(d.theme, "dark");
    assert_eq!(d.hotkey, "Ctrl+H");
}

#[test]
fn sanitized_returns_a_fixed_copy() {
    let mut c = Config::default();
    c.max_history_items = -5;
    c.theme = "light".to_string();
    let s = c.sanitized();
    assert_eq!(s.max_history_items, 1);
    assert_eq!(s.theme, "light");
}

#[test]
fn theme_labels() {
    assert_eq!(theme_display_label("light"), "浅色");
    assert_eq!(theme_display_label("dark"), "深色");
    assert_eq!(theme_display_label("auto"), "自动");
    assert_eq!(theme_display_label("anything"), "自动");
    assert_eq!(theme_menu_label("dark"), "切换主题（当前：深色）");
}
