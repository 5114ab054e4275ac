use aphorme::config::{AppCFG, Config, GuiCFG, UIFramework};

#[test]
fn gui_defaults_show_icons_and_keep_focus() {
    let gui = GuiCFG::default();
    assert!(gui.icon);
    assert!(gui.retain_focus);
    assert!(gui.ui_framework.is_none());
}

#[test]
fn app_defaults_scan_the_known_paths_with_ceiling_ten() {
    let app = AppCFG::default();
    assert!(app.paths.is_empty());
    assert_eq!(app.use_default_paths, Some(true));
    assert_eq!(app.preferred_apps.max_weight, 10);
}

#[test]
fn config_defaults_have_no_app_settings() {
    let config = Config::default();
    assert!(config.app_cfg.is_none());
    assert!(config.gui_cfg.icon);
}

#[test]
fn default_framework_is_egui() {
    assert_eq!(UIFramework::default(), UIFramework::Egui);
}
