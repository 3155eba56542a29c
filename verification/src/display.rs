//! The display's configuration and the bookkeeping of its refreshes: which
//! log lines are new, what is cleared, how many graph lines are shown.
use vstd::prelude::*;
use vstd::string::{StringExecFns, StringSliceAdditionalSpecFns};
use vstd::utf8::is_char_boundary;
use vstd::utf8::{decode_utf8, encode_utf8};
use crate::icons::{unicode, is_unicode, Icons};
use crate::render::Palette;
use crate::types::{DisplayFormat, LegendStyle, SummaryStyle};

verus! {

/// How the display renders.
#[derive(Debug, Clone, Copy)]
pub struct DisplayConfig {
    pub show_timers: bool,
    pub max_tree_depth: usize,
    pub max_visible_lines: usize,
    pub use_color: bool,
    pub format: DisplayFormat,
    pub legend_style: LegendStyle,
    pub summary_style: SummaryStyle,
    pub icons: Icons,
}

impl DisplayConfig {
    /// The usual configuration with the given icons: timers shown, trees ten
    /// deep, at most a hundred lines, in color, as a tree with a table legend
    /// and a concise summary.
    pub fn with_icons(icons: Icons) -> (r: Self)
        ensures
            r.show_timers,
            r.max_tree_depth == 10,
            r.max_visible_lines == 100,
            r.use_color,
            r.format == DisplayFormat::Tree,
            r.legend_style == LegendStyle::Table,
            r.summary_style == SummaryStyle::Concise,
            r.icons == icons,
    {
        DisplayConfig {
            show_timers: true,
            max_tree_depth: 10,
            max_visible_lines: 100,
            use_color: true,
            format: DisplayFormat::Tree,
            legend_style: LegendStyle::Table,
            summary_style: SummaryStyle::Concise,
            icons,
        }
    }
}

impl Default for DisplayConfig {
    /// The usual configuration with Unicode icons.
    fn default() -> (r: Self)
        ensures
            r.show_timers,
            r.max_tree_depth == 10,
            r.max_visible_lines == 100,
            r.use_color,
            r.format == DisplayFormat::Tree,
            r.legend_style == LegendStyle::Table,
            r.summary_style == SummaryStyle::Concise,
            is_unicode(r.icons),
    {
        Self::with_icons(unicode())
    }
}

/// The display: its configuration, the graph lines printed last (cleared at
/// the next refresh) and the log lines printed so far (which stay).
#[derive(Debug)]
pub struct Display {
    pub config: DisplayConfig,
    pub palette: Palette,
    pub last_lines: usize,
    pub printed_log_lines: usize,
}

/// What one refresh prints: the log lines from `logs_from` on (none when it
/// equals the number of logs), after clearing `clear_before_logs` graph lines;
/// then the first `graph_lines` graph lines, after clearing
/// `clear_before_graph` lines.
#[derive(Debug, Clone, Copy, PartialEq, Eq, Structural)]
pub struct Frame {
    pub logs_from: usize,
    pub clear_before_logs: usize,
    pub clear_before_graph: usize,
    pub graph_lines: usize,
}

impl Display {
    /// A display that has printed nothing yet.
    pub fn new(config: DisplayConfig) -> (r: Self)
        ensures
            r.config == config,
            r.palette.wf(),
            r.last_lines == 0,
            r.printed_log_lines == 0,
    {
        Display { config, palette: Palette::new(), last_lines: 0, printed_log_lines: 0 }
    }

    /// The number of graph lines the next clear removes.
    pub fn lines_to_clear(&self) -> (r: usize)
        ensures
            r == self.last_lines,
    {
        self.last_lines
    }

    /// A refresh with `logs` log lines in all and a graph of `graph` lines:
    /// new log lines are printed once, above the graph, after clearing the
    /// previous graph; the graph is cut to the most lines shown and replaces
    /// the previous one.
    pub fn next_frame(&mut self, logs: usize, graph: usize) -> (f: Frame)
        ensures
            f.logs_from == if old(self).printed_log_lines < logs {
                old(self).printed_log_lines
            } else {
                logs
            },
            f.clear_before_logs == if f.logs_from < logs {
                old(self).last_lines
            } else {
                0
            },
            f.clear_before_graph == if f.logs_from < logs {
                0
            } else {
                old(self).last_lines
            },
            f.graph_lines == if graph <= old(self).config.max_visible_lines {
                graph
            } else {
                old(self).config.max_visible_lines
            },
            final(self).config == old(self).config,
            final(self).palette == old(self).palette,
            final(self).last_lines == f.graph_lines,
            final(self).printed_log_lines == if f.logs_from < logs {
                logs
            } else {
                old(self).printed_log_lines
            },
    {
        let from = if self.printed_log_lines < logs {
            self.printed_log_lines
        } else {
            logs
        };
        let mut clear_before_logs: usize = 0;
        if from < logs {
            clear_before_logs = self.last_lines;
            self.printed_log_lines = logs;
            self.last_lines = 0;
        }
        let clear_before_graph = self.last_lines;
        let shown = if graph <= self.config.max_visible_lines {
            graph
        } else {
            self.config.max_visible_lines
        };
        self.last_lines = shown;
        Frame { logs_from: from, clear_before_logs, clear_before_graph, graph_lines: shown }
    }
}

/// A name cut to `max_len` bytes: unchanged when it fits, else the text of
/// its first `max_len - 1` bytes and an ellipsis.
pub open spec fn cut(name: Seq<char>, max_len: nat) -> Seq<char> {
    if encode_utf8(name).len() <= max_len {
        name
    } else {
        decode_utf8(encode_utf8(name).subrange(0, max_len - 1)) + "\u{2026}"@
    }
}

/// A name can be cut to `max_len` bytes: it fits, or its first
/// `max_len - 1` bytes end on a character.
pub open spec fn cuttable(name: Seq<char>, max_len: nat) -> bool {
    encode_utf8(name).len() > max_len ==> max_len >= 1 && is_char_boundary(
        encode_utf8(name),
        max_len - 1,
    )
}

/// Cuts a name to `max_len` bytes, marking the cut with an ellipsis.
pub fn truncate_name(name: &str, max_len: usize) -> (r: String)
    requires
        cuttable(name@, max_len as nat),
    ensures
        r@ == cut(name@, max_len as nat),
{
    let bytes = name.as_bytes();
    if bytes.len() <= max_len {
        return String::from_str(name);
    }
    let (a, _) = name.split_at(max_len - 1);
    let mut s = String::from_str(a);
    s.append("\u{2026}");
    proof {
        assert(encode_utf8(a@) == encode_utf8(name@).subrange(0, max_len - 1));
        vstd::utf8::encode_utf8_decode_utf8(a@);
    }
    s
}

} // verus!
