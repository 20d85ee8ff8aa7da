//! The hand-edited settings file.
//!
//! ```toml
//! # ~/.config/wlrix/desktop.toml
//! snap_to_grid = false    # icons drop where released; true aligns them to cells
//! output = "DP-1"         # which monitor gets the icons; default is the leftmost
//!
//! [appearance]
//! palette = "gotham"      # the color scheme; default is "classic"
//! icon_theme = "Adwaita"  # where an `Icon=` name is looked up; "" for none
//!
//! [metrics]
//! icon = 64               # the icon artwork, square
//! cell_width = 96         # one cell: the icon plus its label
//! cell_height = 92
//! gap = 8                 # between cells
//! margin = 12             # between the outermost cells and the screen edge
//! ```
//!
//! The program finds and reads the file; what its settings mean is decided here. These are
//! *defaults*: the live snap setting is in the state file, which wins; see [`crate::state`].

use vstd::prelude::*;

use crate::layout::{default_metrics, Metrics};
use crate::strings::{chars_of, copy_strings, string_of};

verus! {

/// The settings file, as read.
#[derive(Debug, Clone, PartialEq, Eq)]
pub struct Config {
    /// Whether a dropped icon aligns to a grid cell; only the starting value.
    pub snap_to_grid: bool,
    /// Which monitor the icons appear on, by connector name. Absent means "work it out".
    pub output: Option<String>,
    /// What opens a file or a URL, as a command and its leading arguments; the target is
    /// appended. Empty means the default, `xdg-open`.
    pub open: Vec<String>,
    /// What wraps a `Terminal=true` launcher, as a command and its leading arguments; the
    /// program is appended. Empty means work it out.
    pub terminal: Vec<String>,
    pub metrics: MetricsConfig,
    pub appearance: AppearanceConfig,
}

/// Which color scheme to draw in, and where icons are looked up.
#[derive(Debug, Clone, PartialEq, Eq)]
pub struct AppearanceConfig {
    /// A scheme id: `classic`, `classic-g10`, `classic-g24`, `gotham`.
    pub palette: Option<String>,
    /// The icon theme an `Icon=` name is looked up in first; empty for none.
    pub icon_theme: Option<String>,
}

/// Cell geometry. Every field is optional and falls back to [`Metrics::default`], so a file
/// that only wants bigger icons says only that.
#[derive(Debug, Clone, Copy, PartialEq, Eq)]
pub struct MetricsConfig {
    pub icon: Option<i32>,
    pub cell_width: Option<i32>,
    pub cell_height: Option<i32>,
    pub gap: Option<i32>,
    pub margin: Option<i32>,
}

/// What the icon theme is when the file does not say: Adwaita, because it is what a GTK
/// application would pick and therefore what an installed desktop already has icons for.
pub const DEFAULT_ICON_THEME: &'static str = "Adwaita";

/// The opener when none is configured.
pub const DEFAULT_OPENER: &'static str = "xdg-open";

/// The value, or `default` when there is none.
pub open spec fn or_default(v: Option<i32>, default: i32) -> i32 {
    match v {
        Some(x) => x,
        None => default,
    }
}

/// The larger of the two.
pub open spec fn at_least(v: i32, floor: i32) -> i32 {
    if v >= floor {
        v
    } else {
        floor
    }
}

/// The configured metrics: anything unset left at the default, and every value floored at a
/// sane minimum rather than rejected -- an icon of at least 8 pixels, cells that hold their
/// icon, and no negative gap or margin.
pub open spec fn resolved(m: MetricsConfig) -> Metrics {
    let base = default_metrics();
    let icon = at_least(or_default(m.icon, base.icon), 8);
    Metrics {
        icon,
        cell_w: at_least(or_default(m.cell_width, base.cell_w), icon),
        cell_h: at_least(or_default(m.cell_height, base.cell_h), icon),
        gap: at_least(or_default(m.gap, base.gap), 0),
        margin: at_least(or_default(m.margin, base.margin), 0),
    }
}

fn pick(v: Option<i32>, default: i32, floor: i32) -> (r: i32)
    ensures
        r == at_least(or_default(v, default), floor),
{
    let x = match v {
        Some(x) => x,
        None => default,
    };
    if x >= floor {
        x
    } else {
        floor
    }
}

impl MetricsConfig {
    /// Nothing set.
    pub fn empty() -> (r: Self)
        ensures
            r.icon is None && r.cell_width is None && r.cell_height is None && r.gap is None
                && r.margin is None,
    {
        MetricsConfig { icon: None, cell_width: None, cell_height: None, gap: None, margin: None }
    }

    /// The configured metrics, with anything unset left at the default.
    pub fn resolve(&self) -> (r: Metrics)
        ensures
            r == resolved(*self),
    {
        let base = Metrics::default();
        let icon = pick(self.icon, base.icon, 8);
        Metrics {
            icon,
            cell_w: pick(self.cell_width, base.cell_w, icon),
            cell_h: pick(self.cell_height, base.cell_h, icon),
            gap: pick(self.gap, base.gap, 0),
            margin: pick(self.margin, base.margin, 0),
        }
    }
}

impl Default for MetricsConfig {
    /// Nothing set.
    fn default() -> (r: Self)
        ensures
            r.icon is None && r.cell_width is None && r.cell_height is None && r.gap is None
                && r.margin is None,
    {
        MetricsConfig::empty()
    }
}

impl AppearanceConfig {
    /// Nothing set.
    pub fn empty() -> (r: Self)
        ensures
            r.palette is None,
            r.icon_theme is None,
    {
        AppearanceConfig { palette: None, icon_theme: None }
    }

    /// The icon theme to search first: the configured one, even if empty, else Adwaita.
    pub fn icon_theme(&self) -> (r: &str)
        ensures
            r@ == match self.icon_theme {
                Some(t) => t@,
                None => DEFAULT_ICON_THEME@,
            },
    {
        match &self.icon_theme {
            Some(t) => t.as_str(),
            None => DEFAULT_ICON_THEME,
        }
    }
}

impl Default for AppearanceConfig {
    /// Nothing set.
    fn default() -> (r: Self)
        ensures
            r.palette is None,
            r.icon_theme is None,
    {
        AppearanceConfig::empty()
    }
}

impl Config {
    /// The settings of a desktop with no file: every default.
    pub fn empty() -> (r: Self)
        ensures
            !r.snap_to_grid,
            r.output is None,
            r.open@.len() == 0,
            r.terminal@.len() == 0,
            r.metrics == MetricsConfig::empty_spec(),
            r.appearance.palette is None,
            r.appearance.icon_theme is None,
    {
        Config {
            snap_to_grid: false,
            output: None,
            open: Vec::new(),
            terminal: Vec::new(),
            metrics: MetricsConfig::empty(),
            appearance: AppearanceConfig::empty(),
        }
    }

    /// The opener command, falling back to `xdg-open`.
    pub fn open_command(&self) -> (r: Vec<String>)
        ensures
            r.deep_view() == opener(self.open.deep_view()),
    {
        if self.open.len() == 0 {
            let mut r: Vec<String> = Vec::new();
            r.push(string_of(chars_of(DEFAULT_OPENER).as_slice()));
            assert(r.deep_view() =~= seq![DEFAULT_OPENER@]);
            return r;
        }
        copy_strings(&self.open)
    }

    /// The configured terminal wrapper, if there is one. `None` means "work it out".
    pub fn terminal_command(&self) -> (r: Option<Vec<String>>)
        ensures
            match r {
                Some(t) => self.terminal@.len() > 0 && t.deep_view() == self.terminal.deep_view(),
                None => self.terminal@.len() == 0,
            },
    {
        if self.terminal.len() == 0 {
            None
        } else {
            Some(copy_strings(&self.terminal))
        }
    }
}

/// The opener command a configured `open` list gives.
pub open spec fn opener(open: Seq<Seq<char>>) -> Seq<Seq<char>> {
    if open.len() == 0 {
        seq![DEFAULT_OPENER@]
    } else {
        open
    }
}

impl MetricsConfig {
    /// Nothing set.
    pub open spec fn empty_spec() -> MetricsConfig {
        MetricsConfig { icon: None, cell_width: None, cell_height: None, gap: None, margin: None }
    }
}

impl Default for Config {
    /// The settings of a desktop with no file: every default.
    fn default() -> (r: Self)
        ensures
            !r.snap_to_grid,
            r.output is None,
            r.open@.len() == 0,
            r.terminal@.len() == 0,
            r.metrics == MetricsConfig::empty_spec(),
            r.appearance.palette is None,
            r.appearance.icon_theme is None,
    {
        Config::empty()
    }
}

/// Floored metrics make a cell that holds its icon, and leave no negative gap or margin.
pub proof fn law_resolved_metrics_are_sane(m: MetricsConfig)
    ensures
        resolved(m).icon >= 8,
        resolved(m).cell_w >= resolved(m).icon,
        resolved(m).cell_h >= resolved(m).icon,
        resolved(m).gap >= 0,
        resolved(m).margin >= 0,
{
}

} // verus!
