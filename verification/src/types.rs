//! Display and input settings of the monitor.
use vstd::prelude::*;
use vstd::string::StringExecFns;
use crate::lowercase::{lowercase, to_lowercase};
use crate::text::str_eq;

verus! {

/// Display format for output.
#[derive(Debug, Clone, Copy, PartialEq, Eq, Structural)]
pub enum DisplayFormat {
    /// Show dependency tree graph
    Tree,
    /// Plain text output
    Plain,
    /// Dashboard summary view
    Dashboard,
}

/// Log prefix style for build logs.
#[derive(Debug, Clone, Copy, PartialEq, Eq, Structural)]
pub enum LogPrefixStyle {
    /// Just package name (pname)
    Short,
    /// Full derivation name with version
    Full,
    /// No prefix
    Off,
}

/// Summary display style.
#[derive(Debug, Clone, Copy, PartialEq, Eq, Structural)]
pub enum SummaryStyle {
    /// Concise single-line summary
    Concise,
    /// Table with host breakdown
    Table,
    /// Full detailed summary
    Full,
}

/// Legend display style.
#[derive(Debug, Clone, Copy, PartialEq, Eq, Structural)]
pub enum LegendStyle {
    Compact,
    Table,
    Verbose,
}

/// Input parsing mode.
#[derive(Debug, Clone, Copy, PartialEq, Eq, Structural)]
pub enum InputMode {
    /// Parse JSON output from nix --log-format=internal-json
    Json,
    /// Parse human-readable nix output
    Human,
}

/// The summary style a lower-cased name selects; unknown names select the
/// concise summary.
pub open spec fn summary_style_of(l: Seq<char>) -> SummaryStyle {
    if l == "concise"@ {
        SummaryStyle::Concise
    } else if l == "table"@ {
        SummaryStyle::Table
    } else if l == "full"@ {
        SummaryStyle::Full
    } else {
        SummaryStyle::Concise
    }
}

/// The log prefix style a lower-cased name selects; unknown names select the
/// short prefix.
pub open spec fn log_prefix_style_of(l: Seq<char>) -> LogPrefixStyle {
    if l == "short"@ {
        LogPrefixStyle::Short
    } else if l == "full"@ {
        LogPrefixStyle::Full
    } else if l == "none"@ {
        LogPrefixStyle::Off
    } else {
        LogPrefixStyle::Short
    }
}

/// The display format a lower-cased name selects; unknown names select the
/// tree.
pub open spec fn display_format_of(l: Seq<char>) -> DisplayFormat {
    if l == "tree"@ {
        DisplayFormat::Tree
    } else if l == "plain"@ {
        DisplayFormat::Plain
    } else if l == "dashboard"@ {
        DisplayFormat::Dashboard
    } else {
        DisplayFormat::Tree
    }
}

/// The legend style a lower-cased name selects; unknown names select the
/// table.
pub open spec fn legend_style_of(l: Seq<char>) -> LegendStyle {
    if l == "compact"@ {
        LegendStyle::Compact
    } else if l == "verbose"@ {
        LegendStyle::Verbose
    } else {
        LegendStyle::Table
    }
}

impl SummaryStyle {
    /// Selects the style named by an already lower-cased text.
    pub fn from_lowercase(l: &str) -> (r: Self)
        ensures
            r == summary_style_of(l@),
    {
        if str_eq(l, "concise") {
            SummaryStyle::Concise
        } else if str_eq(l, "table") {
            SummaryStyle::Table
        } else if str_eq(l, "full") {
            SummaryStyle::Full
        } else {
            SummaryStyle::Concise
        }
    }

    /// Selects the style named by `s`, ignoring case.
    pub fn from_str(s: &str) -> (r: Self)
        ensures
            r == summary_style_of(lowercase(s@)),
    {
        let l = to_lowercase(s);
        Self::from_lowercase(l.as_str())
    }
}

impl LogPrefixStyle {
    /// Selects the style named by an already lower-cased text.
    pub fn from_lowercase(l: &str) -> (r: Self)
        ensures
            r == log_prefix_style_of(l@),
    {
        if str_eq(l, "short") {
            LogPrefixStyle::Short
        } else if str_eq(l, "full") {
            LogPrefixStyle::Full
        } else if str_eq(l, "none") {
            LogPrefixStyle::Off
        } else {
            LogPrefixStyle::Short
        }
    }

    /// Selects the style named by `s`, ignoring case.
    pub fn from_str(s: &str) -> (r: Self)
        ensures
            r == log_prefix_style_of(lowercase(s@)),
    {
        let l = to_lowercase(s);
        Self::from_lowercase(l.as_str())
    }
}

impl DisplayFormat {
    /// Selects the format named by an already lower-cased text.
    pub fn from_lowercase(l: &str) -> (r: Self)
        ensures
            r == display_format_of(l@),
    {
        if str_eq(l, "tree") {
            DisplayFormat::Tree
        } else if str_eq(l, "plain") {
            DisplayFormat::Plain
        } else if str_eq(l, "dashboard") {
            DisplayFormat::Dashboard
        } else {
            DisplayFormat::Tree
        }
    }

    /// Selects the format named by `s`, ignoring case.
    pub fn from_str(s: &str) -> (r: Self)
        ensures
            r == display_format_of(lowercase(s@)),
    {
        let l = to_lowercase(s);
        Self::from_lowercase(l.as_str())
    }
}

impl LegendStyle {
    /// Selects the style named by an already lower-cased text.
    pub fn from_lowercase(l: &str) -> (r: Self)
        ensures
            r == legend_style_of(l@),
    {
        if str_eq(l, "compact") {
            LegendStyle::Compact
        } else if str_eq(l, "verbose") {
            LegendStyle::Verbose
        } else {
            LegendStyle::Table
        }
    }

    /// Selects the style named by `s`, ignoring case.
    pub fn from_str(s: &str) -> (r: Self)
        ensures
            r == legend_style_of(lowercase(s@)),
    {
        let l = to_lowercase(s);
        Self::from_lowercase(l.as_str())
    }
}

/// Configuration for the monitor.
#[derive(Debug, Clone)]
pub struct Config {
    /// Whether we're piping output through
    pub piping: bool,
    /// Silent mode - minimal output
    pub silent: bool,
    /// Input parsing mode
    pub input_mode: InputMode,
    /// Show completion times
    pub show_timers: bool,
    /// Terminal width override
    pub width: Option<usize>,
    /// Display format
    pub format: DisplayFormat,
    /// Legend display style
    pub legend_style: String,
    /// Summary display style
    pub summary_style: String,
    /// Log prefix style for build logs
    pub log_prefix_style: LogPrefixStyle,
    /// Maximum number of log lines to display (None = unlimited)
    pub log_line_limit: Option<usize>,
}

impl Default for Config {
    /// Human input, tree format, timers shown, table legend, concise summary,
    /// short log prefixes, no width override and no log line limit.
    fn default() -> (r: Self)
        ensures
            !r.piping,
            !r.silent,
            r.input_mode == InputMode::Human,
            r.show_timers,
            r.width is None,
            r.format == DisplayFormat::Tree,
            r.legend_style@ == "table"@,
            r.summary_style@ == "concise"@,
            r.log_prefix_style == LogPrefixStyle::Short,
            r.log_line_limit is None,
    {
        Config {
            piping: false,
            silent: false,
            input_mode: InputMode::Human,
            show_timers: true,
            width: None,
            format: DisplayFormat::Tree,
            legend_style: String::from_str("table"),
            summary_style: String::from_str("concise"),
            log_prefix_style: LogPrefixStyle::Short,
            log_line_limit: None,
        }
    }
}

} // verus!
