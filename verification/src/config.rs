//! Settings of the launcher, with the values used when none are configured.

use vstd::prelude::*;

verus! {

/// The toolkit that draws the launcher window.
#[derive(Clone, Copy, Debug, PartialEq, Eq, Structural)]
pub enum UIFramework {
    Egui,
    Iced,
}

impl Default for UIFramework {
    fn default() -> (r: Self)
        ensures
            r == UIFramework::Egui,
    {
        UIFramework::Egui
    }
}

/// Settings of the window.
#[derive(Clone, Debug)]
pub struct GuiCFG {
    /// Whether icons are shown beside the names.
    pub icon: bool,
    pub ui_framework: Option<UIFramework>,
    /// Whether the window asks for the focus again on every frame.
    pub retain_focus: bool,
}

impl Default for GuiCFG {
    fn default() -> (r: Self)
        ensures
            r.icon,
            r.ui_framework is None,
            r.retain_focus,
    {
        GuiCFG { icon: true, ui_framework: None, retain_focus: true }
    }
}

/// Settings of the preference store.
#[derive(Clone, Debug)]
pub struct PrefCFG {
    /// The ceiling that a learned weight never grows past.
    pub max_weight: i64,
}

/// Settings of the application manager.
#[derive(Clone, Debug)]
pub struct AppCFG {
    /// Directories to scan, before the well-known ones.
    pub paths: Vec<String>,
    /// Whether the well-known directories are scanned too; unset means yes.
    pub use_default_paths: Option<bool>,
    pub preferred_apps: PrefCFG,
}

impl Default for AppCFG {
    fn default() -> (r: Self)
        ensures
            r.paths@.len() == 0,
            r.use_default_paths == Some(true),
            r.preferred_apps.max_weight == 10,
    {
        AppCFG {
            paths: Vec::new(),
            use_default_paths: Some(true),
            preferred_apps: PrefCFG { max_weight: 10 },
        }
    }
}

/// All settings of the launcher.
#[derive(Clone, Debug)]
pub struct Config {
    pub gui_cfg: GuiCFG,
    pub app_cfg: Option<AppCFG>,
}

impl Default for Config {
    fn default() -> (r: Self)
        ensures
            r.gui_cfg.icon,
            r.gui_cfg.ui_framework is None,
            r.gui_cfg.retain_focus,
            r.app_cfg is None,
    {
        Config { gui_cfg: GuiCFG::default(), app_cfg: None }
    }
}

} // verus!
