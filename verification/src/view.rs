//! What the display shows as a whole: the graph of a refresh (the tree and
//! its legend, the plain view or the dashboard, cut to the most lines shown)
//! and the final output of a run.
use vstd::prelude::*;
use crate::display::{Display, Frame};
use crate::render::{
    compact_legend, idle, dashboard_final, dashboard_view, final_host, finished_line, full_summary,
    is_longest, is_widest, live_host, longest_first, table_fits, name_width, plain_view, running_order, sorted_set,
    summary_hosts, table_legend, table_summary, texts, transfer_keys, verbose_fits, verbose_legend,
};
use crate::state::State;
use crate::tree::{has_tree, tree_fits, tree_names_fit, tree_shown, tree_view};
use crate::types::{DisplayFormat, LegendStyle, SummaryStyle};

verus! {

/// The first `n` lines, or all of them when there are fewer.
pub open spec fn capped(lines: Seq<Seq<char>>, n: nat) -> Seq<Seq<char>> {
    if lines.len() > n {
        lines.take(n as int)
    } else {
        lines
    }
}

/// `leg` is the legend the display's style draws, below a tree when
/// `has_tree`.
pub open spec fn legend_result(d: Display, st: State, has_tree: bool, now: u64, leg: Seq<Seq<char>>) -> bool {
    match d.config.legend_style {
        LegendStyle::Compact => leg == compact_legend(d, st, has_tree, now),
        LegendStyle::Table => exists|bs: Seq<usize>, ds: Seq<usize>, us: Seq<usize>, m: nat|
            #![trigger longest_first(st, bs), transfer_keys(st, st.full_summary@.running_downloads, ds), transfer_keys(st, st.full_summary@.running_uploads, us), is_widest(st, m)]
            longest_first(st, bs) && transfer_keys(st, st.full_summary@.running_downloads, ds)
                && transfer_keys(st, st.full_summary@.running_uploads, us) && is_widest(st, m)
                && leg == table_legend(d, st, has_tree, now, bs, ds, us, name_width(m)),
        LegendStyle::Verbose => exists|bs: Seq<usize>, ds: Seq<usize>, m: nat|
            #![trigger running_order(st, bs), transfer_keys(st, st.full_summary@.running_downloads, ds), is_longest(st, m)]
            running_order(st, bs) && transfer_keys(st, st.full_summary@.running_downloads, ds)
                && is_longest(st, m) && leg == verbose_legend(d, st, has_tree, now, bs, ds, name_width(m)),
    }
}

/// `g` is the graph the display's format draws.
pub open spec fn graph_result(d: Display, st: State, now: u64, g: Seq<Seq<char>>) -> bool {
    match d.config.format {
        DisplayFormat::Tree => exists|leg: Seq<Seq<char>>|
            legend_result(d, st, tree_view(d, st, now).len() > 0, now, leg) && g == tree_view(d, st, now) + leg,
        DisplayFormat::Plain => exists|bs: Seq<usize>, ds: Seq<usize>, us: Seq<usize>|
            #![trigger running_order(st, bs), transfer_keys(st, st.full_summary@.running_downloads, ds), transfer_keys(st, st.full_summary@.running_uploads, us)]
            running_order(st, bs) && transfer_keys(st, st.full_summary@.running_downloads, ds)
                && transfer_keys(st, st.full_summary@.running_uploads, us) && g == (if idle(st) {
                Seq::empty()
            } else {
                plain_view(d, st, now, bs, ds, us)
            }),
        DisplayFormat::Dashboard => exists|h: Seq<char>| live_host(st, h) && g == dashboard_view(d, st, now, h),
    }
}

/// `s` is the final summary the display's style draws for a run that ended
/// at the clock text `at`.
pub open spec fn summary_result(d: Display, st: State, now: u64, at: Seq<char>, s: Seq<Seq<char>>) -> bool {
    match d.config.summary_style {
        SummaryStyle::Concise => s == seq![finished_line(d, st, now, at)],
        SummaryStyle::Table => exists|hs: Seq<Seq<char>>|
            sorted_set(hs, summary_hosts(st)) && s == table_summary(d, st, now, at, hs),
        SummaryStyle::Full => s == full_summary(d, st, now, at),
    }
}

/// `f` is the final output the display's format draws for a run that ended
/// at the clock text `at`.
pub open spec fn final_result(d: Display, st: State, now: u64, at: Seq<char>, f: Seq<Seq<char>>) -> bool {
    match d.config.format {
        DisplayFormat::Tree => exists|s: Seq<Seq<char>>|
            summary_result(d, st, now, at, s) && f == tree_view(d, st, now) + s,
        DisplayFormat::Plain => exists|bs: Seq<usize>, ds: Seq<usize>, us: Seq<usize>, s: Seq<Seq<char>>|
            #![trigger running_order(st, bs), transfer_keys(st, st.full_summary@.running_downloads, ds), transfer_keys(st, st.full_summary@.running_uploads, us), summary_result(d, st, now, at, s)]
            running_order(st, bs) && transfer_keys(st, st.full_summary@.running_downloads, ds)
                && transfer_keys(st, st.full_summary@.running_uploads, us) && summary_result(d, st, now, at, s)
                && f == (if idle(st) {
                Seq::empty()
            } else {
                plain_view(d, st, now, bs, ds, us)
            }) + s,
        DisplayFormat::Dashboard => exists|h: Seq<char>| final_host(st, h) && f == dashboard_final(d, st, now, h),
    }
}

/// What the display can draw without cutting a name inside a character.
pub open spec fn drawable(d: Display, st: State) -> bool {
    &&& st.wf()
    &&& d.config.format == DisplayFormat::Tree ==> tree_fits(st)
    &&& d.config.format == DisplayFormat::Tree && d.config.legend_style == LegendStyle::Verbose
        && !has_tree(st) ==> verbose_fits(st)
    &&& d.config.format == DisplayFormat::Tree && d.config.legend_style == LegendStyle::Table
        && !has_tree(st) ==> table_fits(st)
}

impl Display {
    /// Whether the display can draw the state without cutting a name inside
    /// a character.
    pub fn can_draw(&self, state: &State) -> (r: bool)
        requires
            state.wf(),
        ensures
            r == drawable(*self, *state),
    {
        match self.config.format {
            DisplayFormat::Tree => {
                let names = tree_names_fit(state);
                match self.config.legend_style {
                    LegendStyle::Verbose => names && (tree_shown(state) || self.verbose_legend_fits(state)),
                    LegendStyle::Table => names && (tree_shown(state) || self.table_legend_fits(state)),
                    _ => names,
                }
            },
            _ => true,
        }
    }

    /// The legend in the display's style, below a tree when `has_tree`.
    pub fn render_legend(&self, state: &State, has_tree: bool, now: u64) -> (r: Vec<String>)
        requires
            state.wf(),
            !has_tree && self.config.legend_style == LegendStyle::Verbose ==> verbose_fits(*state),
            !has_tree && self.config.legend_style == LegendStyle::Table ==> table_fits(*state),
        ensures
            legend_result(*self, *state, has_tree, now, texts(r@)),
    {
        match self.config.legend_style {
            LegendStyle::Compact => self.render_compact_legend(state, has_tree, now),
            LegendStyle::Table => self.render_table_legend(state, has_tree, now),
            LegendStyle::Verbose => self.render_verbose_legend(state, has_tree, now),
        }
    }

    /// The graph of a refresh in the display's format.
    pub fn render_graph(&self, state: &State, now: u64) -> (r: Vec<String>)
        requires
            drawable(*self, *state),
        ensures
            graph_result(*self, *state, now, texts(r@)),
    {
        match self.config.format {
            DisplayFormat::Tree => {
                let mut g = self.render_tree_view(state, now);
                let ghost tv = texts(g@);
                let shown = g.len() > 0;
                assert(texts(g@).len() == g@.len());
                assert(tree_view(*self, *state, now).len() > 0 <==> has_tree(*state));
                assert(shown == has_tree(*state));
                let leg = self.render_legend(state, shown, now);
                let mut i: usize = 0;
                while i < leg.len()
                    invariant
                        i <= leg@.len(),
                        texts(g@) == tv + texts(leg@).take(i as int),
                    decreases leg@.len() - i,
                {
                    let ghost before = texts(g@);
                    g.push(leg[i].clone());
                    assert(texts(g@) =~= before.push(leg@[i as int]@));
                    assert(texts(leg@).take(i + 1) =~= texts(leg@).take(i as int).push(leg@[i as int]@));
                    i += 1;
                }
                assert(texts(leg@).take(leg@.len() as int) =~= texts(leg@));
                assert(legend_result(*self, *state, tree_view(*self, *state, now).len() > 0, now, texts(leg@)));
                g
            },
            DisplayFormat::Plain => self.render_plain_view(state, now),
            DisplayFormat::Dashboard => self.render_dashboard_view(state, now),
        }
    }

    /// One refresh with `logs` log lines in all: which logs to print, what to
    /// clear, and the graph lines to show (cut to the most lines shown).
    pub fn render(&mut self, state: &State, logs: usize, now: u64) -> (r: (Frame, Vec<String>))
        requires
            drawable(*old(self), *state),
        ensures
            exists|g: Seq<Seq<char>>|
                graph_result(*old(self), *state, now, g) && r.0.graph_lines == capped(
                    g,
                    old(self).config.max_visible_lines as nat,
                ).len() && texts(r.1@) == capped(g, old(self).config.max_visible_lines as nat),
            r.0.logs_from == if old(self).printed_log_lines < logs {
                old(self).printed_log_lines
            } else {
                logs
            },
            r.0.clear_before_logs == if r.0.logs_from < logs {
                old(self).last_lines
            } else {
                0
            },
            r.0.clear_before_graph == if r.0.logs_from < logs {
                0
            } else {
                old(self).last_lines
            },
            final(self).config == old(self).config,
            final(self).palette == old(self).palette,
            final(self).last_lines == r.0.graph_lines,
            final(self).printed_log_lines == if r.0.logs_from < logs {
                logs
            } else {
                old(self).printed_log_lines
            },
    {
        let mut g = self.render_graph(state, now);
        let ghost gv = texts(g@);
        let f = self.next_frame(logs, g.len());
        if g.len() > f.graph_lines {
            g.truncate(f.graph_lines);
        }
        proof {
            assert(texts(g@) =~= capped(gv, old(self).config.max_visible_lines as nat));
        }
        (f, g)
    }

    /// The final summary in the display's style for a run that ended at the
    /// clock text `at`.
    pub fn render_final_summary(&self, state: &State, now: u64, at: &str) -> (r: Vec<String>)
        ensures
            summary_result(*self, *state, now, at@, texts(r@)),
    {
        match self.config.summary_style {
            SummaryStyle::Concise => self.render_finished_line(state, now, at),
            SummaryStyle::Table => self.render_table_summary(state, now, at),
            SummaryStyle::Full => self.render_full_summary(state, now, at),
        }
    }

    /// The final output of a run that ended at the clock text `at`.
    pub fn render_final(&self, state: &State, now: u64, at: &str) -> (r: Vec<String>)
        requires
            drawable(*self, *state),
        ensures
            final_result(*self, *state, now, at@, texts(r@)),
    {
        match self.config.format {
            DisplayFormat::Tree => {
                let mut lines = self.render_tree_view(state, now);
                let s = self.render_final_summary(state, now, at);
                let ghost before = texts(lines@);
                append_lines(&mut lines, &s);
                assert(summary_result(*self, *state, now, at@, texts(s@)));
                lines
            },
            DisplayFormat::Plain => {
                let mut lines = self.render_plain_view(state, now);
                let s = self.render_final_summary(state, now, at);
                append_lines(&mut lines, &s);
                assert(summary_result(*self, *state, now, at@, texts(s@)));
                lines
            },
            DisplayFormat::Dashboard => self.render_dashboard_final(state, now),
        }
    }
}

/// Appends copies of lines.
fn append_lines(lines: &mut Vec<String>, more: &Vec<String>)
    ensures
        texts(final(lines)@) == texts(old(lines)@) + texts(more@),
{
    let ghost start = texts(lines@);
    let mut i: usize = 0;
    while i < more.len()
        invariant
            i <= more@.len(),
            texts(lines@) == start + texts(more@).take(i as int),
        decreases more@.len() - i,
    {
        let ghost before = texts(lines@);
        lines.push(more[i].clone());
        assert(texts(lines@) =~= before.push(more@[i as int]@));
        assert(texts(more@).take(i + 1) =~= texts(more@).take(i as int).push(more@[i as int]@));
        i += 1;
    }
    assert(texts(more@).take(more@.len() as int) =~= texts(more@));
}

} // verus!
