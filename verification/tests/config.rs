use wlrix_desktop::config::{AppearanceConfig, Config, MetricsConfig};
use wlrix_desktop::layout::Metrics;

#[test]
fn nothing_configured_is_all_defaults() {
    let config = Config::default();
    assert!(!config.snap_to_grid);
    assert_eq!(config.output, None);
    assert_eq!(config.metrics.resolve(), Metrics::default());
}

#[test]
fn one_metric_overrides_only_itself() {
    let metrics = MetricsConfig { icon: Some(48), ..MetricsConfig::default() }.resolve();
    assert_eq!(metrics.icon, 48);
    assert_eq!(metrics.gap, Metrics::default().gap);
    assert_eq!(metrics.margin, Metrics::default().margin);
}

#[test]
fn nonsense_metrics_are_floored() {
    let metrics = MetricsConfig {
        icon: Some(-10),
        cell_width: Some(1),
        cell_height: Some(1),
        gap: Some(-5),
        margin: Some(-5),
    }
    .resolve();
    assert_eq!(metrics, Metrics { icon: 8, cell_w: 8, cell_h: 8, gap: 0, margin: 0 });
}

#[test]
fn every_metric_can_be_set() {
    let metrics = MetricsConfig {
        icon: Some(48),
        cell_width: Some(80),
        cell_height: Some(76),
        gap: Some(4),
        margin: Some(20),
    }
    .resolve();
    assert_eq!(metrics, Metrics { icon: 48, cell_w: 80, cell_h: 76, gap: 4, margin: 20 });
}

#[test]
fn the_icon_theme_has_a_default_that_can_be_overridden_or_turned_off() {
    assert_eq!(Config::default().appearance.icon_theme(), "Adwaita");
    let named = AppearanceConfig { icon_theme: Some("Papirus".to_owned()), ..AppearanceConfig::default() };
    assert_eq!(named.icon_theme(), "Papirus");
    let off = AppearanceConfig { icon_theme: Some(String::new()), ..AppearanceConfig::default() };
    assert_eq!(off.icon_theme(), "");
}

#[test]
fn the_opener_falls_back_to_xdg_open() {
    assert_eq!(Config::default().open_command(), ["xdg-open"]);
    let config = Config { open: vec!["/usr/bin/touch".to_owned(), "marker".to_owned()], ..Config::default() };
    assert_eq!(config.open_command(), ["/usr/bin/touch", "marker"]);
}

#[test]
fn no_terminal_configured_means_work_it_out() {
    assert_eq!(Config::default().terminal_command(), None);
    let config = Config { terminal: vec!["myterm".to_owned()], ..Config::default() };
    assert_eq!(config.terminal_command(), Some(vec!["myterm".to_owned()]));
}
