use rom::types::{Config, DisplayFormat, InputMode, LegendStyle, LogPrefixStyle, SummaryStyle};

#[test]
fn types_test_config_default() {
    let config = Config::default();
    assert!(!config.piping);
    assert!(!config.silent);
    assert_eq!(config.input_mode, InputMode::Human);
    assert!(config.show_timers);
    assert_eq!(config.format, DisplayFormat::Tree);
    assert_eq!(config.log_prefix_style, LogPrefixStyle::Short);
    assert_eq!(config.log_line_limit, None);
}

#[test]
fn types_test_input_mode_comparison() {
    assert_eq!(InputMode::Json, InputMode::Json);
    assert_ne!(InputMode::Json, InputMode::Human);
}

#[test]
fn test_config_default() {
    let config = Config::default();
    assert!(!config.piping);
    assert!(!config.silent);
    assert_eq!(config.input_mode, InputMode::Human);
    assert!(config.show_timers);
    assert_eq!(config.format, DisplayFormat::Tree);
    assert_eq!(config.log_prefix_style, LogPrefixStyle::Short);
    assert_eq!(config.log_line_limit, None);
}

#[test]
fn test_input_mode_comparison() {
    assert_eq!(InputMode::Json, InputMode::Json);
    assert_ne!(InputMode::Json, InputMode::Human);
}

#[test]
fn config_default_names_legend_and_summary() {
    let config = Config::default();
    assert_eq!(config.legend_style, "table");
    assert_eq!(config.summary_style, "concise");
    assert_eq!(config.width, None);
}

#[test]
fn styles_parse_case_insensitively() {
    assert_eq!(DisplayFormat::from_str("PLAIN"), DisplayFormat::Plain);
    assert_eq!(DisplayFormat::from_str("dashboard"), DisplayFormat::Dashboard);
    assert_eq!(DisplayFormat::from_str("whatever"), DisplayFormat::Tree);
    assert_eq!(LogPrefixStyle::from_str("Full"), LogPrefixStyle::Full);
    assert_eq!(LogPrefixStyle::from_str("none"), LogPrefixStyle::Off);
    assert_eq!(SummaryStyle::from_str("TABLE"), SummaryStyle::Table);
    assert_eq!(SummaryStyle::from_str("nope"), SummaryStyle::Concise);
    assert_eq!(LegendStyle::from_str("verbose"), LegendStyle::Verbose);
}
