//! The text the display shows: colored counters, durations, byte sizes, the
//! legends, the plain and dashboard views, the dependency tree and the final
//! summaries.  Times are milliseconds since 1970-01-01 UTC; the clock text of
//! a finish line is the caller's.
use vstd::prelude::*;
use vstd::string::StringExecFns;
use vstd::seq_lib::group_to_multiset_ensures;
use vstd::utf8::encode_utf8;
use crossterm::style::{Color, ResetColor, SetForegroundColor};
use std::collections::HashMap;
use crate::calendar::{decimal, digit_char, digit_of};
use crate::display::{cut, cuttable, truncate_name, Display};
use crate::nix::{host_name, Host, HostView};
use crate::state::State;
use crate::summary::{map_keys, BuildInfo, CompletedBuildInfo, FailedBuildInfo, TransferInfo};
use crate::text::{chars_of, push_char, str_eq, string_from_chars};

verus! {

broadcast use vstd::std_specs::hash::group_hash_axioms;

/// The colors the display paints with: the dark red, green, blue, yellow and
/// magenta of the terminal's palette, and its two greys.
#[derive(Debug, Clone, Copy, PartialEq, Eq, Structural)]
pub enum Shade {
    Red,
    Green,
    Blue,
    Yellow,
    DarkGrey,
    Magenta,
    Grey,
}

/// The number of a color in the 256-color palette.
pub open spec fn shade_number(s: Shade) -> Seq<char> {
    match s {
        Shade::Red => "1"@,
        Shade::Green => "2"@,
        Shade::Blue => "4"@,
        Shade::Yellow => "3"@,
        Shade::DarkGrey => "8"@,
        Shade::Magenta => "5"@,
        Shade::Grey => "7"@,
    }
}

/// The sequence that sets the foreground to a color of the 256-color palette.
pub open spec fn foreground_seq(s: Shade) -> Seq<char> {
    "\u{1b}[38;5;"@ + shade_number(s) + "m"@
}

/// What crossterm writes for a foreground color once colors are turned off.
pub open spec fn colors_off_seq() -> Seq<char> {
    "\u{1b}[m"@
}

/// The sequence that resets every color.
pub open spec fn reset_seq() -> Seq<char> {
    "\u{1b}[0m"@
}

/// The colors in the order a palette keeps them.
pub open spec fn shade_at(i: int) -> Shade {
    if i == 0 {
        Shade::Red
    } else if i == 1 {
        Shade::Green
    } else if i == 2 {
        Shade::Blue
    } else if i == 3 {
        Shade::Yellow
    } else if i == 4 {
        Shade::DarkGrey
    } else if i == 5 {
        Shade::Magenta
    } else {
        Shade::Grey
    }
}

/// crossterm's `SetForegroundColor` written out for each color, in the order
/// of `shade_at`: `ESC [ 38;5;N m` with the color's palette number, or, for
/// every color alike, `ESC [ m` when crossterm found `NO_COLOR` set in the
/// environment.  crossterm reads that setting once per process
/// (`Colored::ansi_color_disabled_memoized`), so all seven agree; which of
/// the two holds is not stated.
#[verifier::external_body]
fn foreground_texts() -> (r: Vec<String>)
    ensures
        r@.len() == 7,
        (forall|i: int| 0 <= i < 7 ==> #[trigger] r@[i]@ == foreground_seq(shade_at(i)))
            || (forall|i: int| 0 <= i < 7 ==> #[trigger] r@[i]@ == colors_off_seq()),
{
    [
        Color::DarkRed,
        Color::DarkGreen,
        Color::DarkBlue,
        Color::DarkYellow,
        Color::DarkGrey,
        Color::DarkMagenta,
        Color::Grey,
    ].iter().map(|c| SetForegroundColor(*c).to_string()).collect()
}

/// crossterm's `ResetColor` written out: `ESC [ 0 m`.
#[verifier::external_body]
fn reset_text() -> (r: String)
    ensures
        r@ == reset_seq(),
{
    ResetColor.to_string()
}

/// The color sequences the display writes, fetched once.
#[derive(Debug)]
pub struct Palette {
    pub red: String,
    pub green: String,
    pub blue: String,
    pub yellow: String,
    pub dark_grey: String,
    pub magenta: String,
    pub grey: String,
    pub reset: String,
}

impl Palette {
    /// The sequence kept for a color.
    pub open spec fn seq_of(&self, s: Shade) -> Seq<char> {
        match s {
            Shade::Red => self.red@,
            Shade::Green => self.green@,
            Shade::Blue => self.blue@,
            Shade::Yellow => self.yellow@,
            Shade::DarkGrey => self.dark_grey@,
            Shade::Magenta => self.magenta@,
            Shade::Grey => self.grey@,
        }
    }

    /// Every color is crossterm's sequence for it, or every color is the
    /// sequence crossterm writes once colors are off; the reset is the reset
    /// sequence.
    pub open spec fn wf(&self) -> bool {
        &&& (forall|s: Shade| #[trigger] self.seq_of(s) == foreground_seq(s)) || (forall|s: Shade|
            #[trigger] self.seq_of(s) == colors_off_seq())
        &&& self.reset@ == reset_seq()
    }

    /// The sequences crossterm writes for the display's colors.
    pub fn new() -> (r: Self)
        ensures
            r.wf(),
    {
        let mut v = foreground_texts();
        let grey = v.pop().unwrap();
        let magenta = v.pop().unwrap();
        let dark_grey = v.pop().unwrap();
        let yellow = v.pop().unwrap();
        let blue = v.pop().unwrap();
        let green = v.pop().unwrap();
        let red = v.pop().unwrap();
        let r = Palette { red, green, blue, yellow, dark_grey, magenta, grey, reset: reset_text() };
        proof {
            assert(shade_at(0) == Shade::Red && shade_at(1) == Shade::Green && shade_at(2) == Shade::Blue
                && shade_at(3) == Shade::Yellow && shade_at(4) == Shade::DarkGrey && shade_at(5)
                == Shade::Magenta && shade_at(6) == Shade::Grey);
        }
        r
    }

    /// The sequence kept for a color.
    pub fn of(&self, s: Shade) -> (r: &String)
        ensures
            r@ == self.seq_of(s),
    {
        match s {
            Shade::Red => &self.red,
            Shade::Green => &self.green,
            Shade::Blue => &self.blue,
            Shade::Yellow => &self.yellow,
            Shade::DarkGrey => &self.dark_grey,
            Shade::Magenta => &self.magenta,
            Shade::Grey => &self.grey,
        }
    }
}

/// `text` in a color, then the colors reset; the bare text without colors.
pub open spec fn tinted(p: Palette, use_color: bool, text: Seq<char>, s: Shade) -> Seq<char> {
    if use_color {
        p.seq_of(s) + text + p.reset@
    } else {
        text
    }
}

/// `text` in a color, then the colors reset; the bare text without colors.
pub fn tint(p: &Palette, use_color: bool, text: &str, s: Shade) -> (r: String)
    ensures
        r@ == tinted(*p, use_color, text@, s),
{
    if use_color {
        let mut out = p.of(s).clone();
        out.append(text);
        out.append(p.reset.as_str());
        out
    } else {
        String::from_str(text)
    }
}

/// The decimal digits of a number as a `String`.
pub fn decimal_string(n: u128) -> (r: String)
    ensures
        r@ == decimal(n as nat),
{
    let mut ds: Vec<char> = Vec::new();
    let mut k: u128 = n;
    // digits come least significant first
    loop
        invariant_except_break
            decimal(n as nat) == decimal(k as nat) + ds@.reverse(),
        ensures
            decimal(n as nat) == ds@.reverse(),
        decreases k,
    {
        let c = digit_of((k % 10) as u64);
        assert(digit_char((k % 10) as nat) == digit_char(k as nat));
        let ghost before = ds@;
        ds.push(c);
        assert(ds@.reverse() =~= seq![c] + before.reverse());
        if k < 10 {
            assert(decimal(k as nat) =~= seq![c]);
            assert(decimal(n as nat) =~= ds@.reverse());
            break ;
        }
        assert(decimal(k as nat) == decimal((k / 10) as nat).push(c));
        assert(decimal(n as nat) =~= decimal((k / 10) as nat) + ds@.reverse());
        k = k / 10;
    }
    let mut out: Vec<char> = Vec::new();
    let mut j = ds.len();
    while j > 0
        invariant
            j <= ds@.len(),
            out@ == ds@.reverse().take((ds@.len() - j) as int),
        decreases j,
    {
        j -= 1;
        out.push(ds[j]);
        assert(out@ =~= ds@.reverse().take((ds@.len() - j) as int));
    }
    assert(ds@.reverse().take(ds@.len() as int) =~= ds@.reverse());
    string_from_chars(out.as_slice())
}

/// `n / d` rounded to the nearest integer, ties to the even one: how a number
/// is printed with no decimals.
pub open spec fn round_even(n: nat, d: nat) -> nat
    recommends
        d > 0,
{
    let q = n / d;
    let r = n % d;
    if 2 * r > d || (2 * r == d && q % 2 == 1) {
        q + 1
    } else {
        q
    }
}

/// `n / d` rounded to the nearest integer, ties to the even one.
pub fn round_even_exec(n: u128, d: u128) -> (r: u128)
    requires
        d > 1,
    ensures
        r == round_even(n as nat, d as nat),
{
    let q = n / d;
    let rem = n % d;
    proof {
        assert(q <= n / 2) by (nonlinear_arith)
            requires
                q == n / d,
                d > 1,
        ;
    }
    if rem > d - rem || (rem == d - rem && q % 2 == 1) {
        q + 1
    } else {
        q
    }
}

/// A duration of `n / u` seconds as the display shows it: whole seconds under
/// a minute, whole minutes and seconds under an hour, else whole hours and
/// minutes.  The leading unit counts whole units; the seconds (or minutes)
/// after it are rounded to the nearest integer, ties to the even one.
pub open spec fn duration_text(n: nat, u: nat) -> Seq<char> {
    if n < 60 * u {
        decimal(round_even(n, u)) + "s"@
    } else if n < 3600 * u {
        decimal(n / (60 * u)) + "m"@ + decimal(round_even(n % (60 * u), u)) + "s"@
    } else {
        decimal(n / (3600 * u)) + "h"@ + decimal(round_even(n % (3600 * u), 60 * u)) + "m"@
    }
}

/// A duration of `ms` milliseconds as the display shows it.
pub open spec fn ms_text(ms: nat) -> Seq<char> {
    duration_text(ms, 1000)
}

/// A duration of `s` whole seconds as the display shows it.
pub open spec fn secs_text(s: nat) -> Seq<char> {
    duration_text(s, 1)
}

fn rounded_string(n: u128, d: u128) -> (r: String)
    requires
        d >= 1,
    ensures
        r@ == decimal(round_even(n as nat, d as nat)),
{
    if d == 1 {
        assert(round_even(n as nat, 1) == n);
        decimal_string(n)
    } else {
        decimal_string(round_even_exec(n, d))
    }
}

/// A duration of `n / u` seconds as the display shows it.
fn duration_string(n: u64, u: u64) -> (r: String)
    requires
        u == 1 || u == 1000,
    ensures
        r@ == duration_text(n as nat, u as nat),
{
    let n = n as u128;
    let u = u as u128;
    if n < 60 * u {
        let mut out = rounded_string(n, u);
        out.append("s");
        out
    } else if n < 3600 * u {
        let mut out = decimal_string(n / (60 * u));
        out.append("m");
        let s = rounded_string(n % (60 * u), u);
        out.append(s.as_str());
        out.append("s");
        out
    } else {
        let mut out = decimal_string(n / (3600 * u));
        out.append("h");
        let m = rounded_string(n % (3600 * u), 60 * u);
        out.append(m.as_str());
        out.append("m");
        out
    }
}

/// A duration of `ms` milliseconds as the display shows it.
pub fn format_duration(ms: u64) -> (r: String)
    ensures
        r@ == ms_text(ms as nat),
{
    duration_string(ms, 1000)
}

/// A duration of `s` whole seconds as the display shows it.
pub fn format_secs(s: u64) -> (r: String)
    ensures
        r@ == secs_text(s as nat),
{
    duration_string(s, 1)
}

/// `b / d` with one decimal, rounded to the nearest tenth, ties to the even
/// tenth.
pub open spec fn one_decimal(b: nat, d: nat) -> Seq<char> {
    let t = round_even(10 * b, d);
    decimal(t / 10) + "."@ + decimal(t % 10)
}

/// A byte count as the display shows it: bytes under a KiB, else KB, MB or GB
/// with one decimal.
pub open spec fn size_text(b: nat) -> Seq<char> {
    if b < 1024 {
        decimal(b) + " B"@
    } else if b < 1048576 {
        one_decimal(b, 1024) + " KB"@
    } else if b < 1073741824 {
        one_decimal(b, 1048576) + " MB"@
    } else {
        one_decimal(b, 1073741824) + " GB"@
    }
}

/// Progress of a transfer: both sizes and the whole percentage done, or the
/// size alone when the total is zero.
pub open spec fn bytes_text(bytes: nat, total: nat) -> Seq<char> {
    if total > 0 {
        size_text(bytes) + "/"@ + size_text(total) + " ("@ + decimal(round_even(100 * bytes, total))
            + "%)"@
    } else {
        size_text(bytes)
    }
}

fn one_decimal_string(b: u64, d: u128) -> (r: String)
    requires
        d > 1,
    ensures
        r@ == one_decimal(b as nat, d as nat),
{
    let t = round_even_exec(10 * (b as u128), d);
    let mut out = decimal_string(t / 10);
    out.append(".");
    let f = decimal_string(t % 10);
    out.append(f.as_str());
    out
}

fn size_string(b: u64) -> (r: String)
    ensures
        r@ == size_text(b as nat),
{
    let mut out = if b < 1024 {
        decimal_string(b as u128)
    } else if b < 1048576 {
        one_decimal_string(b, 1024)
    } else if b < 1073741824 {
        one_decimal_string(b, 1048576)
    } else {
        one_decimal_string(b, 1073741824)
    };
    if b < 1024 {
        out.append(" B");
    } else if b < 1048576 {
        out.append(" KB");
    } else if b < 1073741824 {
        out.append(" MB");
    } else {
        out.append(" GB");
    }
    out
}

/// Progress of a transfer of `total` bytes with `bytes` done.
pub fn format_bytes(bytes: u64, total: u64) -> (r: String)
    ensures
        r@ == bytes_text(bytes as nat, total as nat),
{
    let mut out = size_string(bytes);
    if total > 0 {
        out.append("/");
        let t = size_string(total);
        out.append(t.as_str());
        out.append(" (");
        let pct = if total == 1 {
            assert(round_even(100 * bytes as nat, 1) == 100 * bytes);
            100 * (bytes as u128)
        } else {
            round_even_exec(100 * (bytes as u128), total as u128)
        };
        let p = decimal_string(pct);
        out.append(p.as_str());
        out.append("%)");
    }
    out
}

/// The texts of a list of strings.
pub open spec fn texts(v: Seq<String>) -> Seq<Seq<char>> {
    v.map_values(|s: String| s@)
}

/// The parts one after the other with `sep` between each two.
pub open spec fn joined(parts: Seq<Seq<char>>, sep: Seq<char>) -> Seq<char>
    decreases parts.len(),
{
    if parts.len() == 0 {
        Seq::empty()
    } else if parts.len() == 1 {
        parts[0]
    } else {
        joined(parts.drop_last(), sep) + sep + parts.last()
    }
}

/// `Vec::join`: the parts one after the other with `sep` between each two.
pub fn join(parts: &Vec<String>, sep: &str) -> (r: String)
    ensures
        r@ == joined(texts(parts@), sep@),
{
    let mut out = String::new();
    let mut i: usize = 0;
    while i < parts.len()
        invariant
            i <= parts@.len(),
            out@ == joined(texts(parts@).take(i as int), sep@),
        decreases parts@.len() - i,
    {
        let ghost before = texts(parts@).take(i as int);
        if i > 0 {
            out.append(sep);
        }
        out.append(parts[i].as_str());
        i += 1;
        proof {
            let now = texts(parts@).take(i as int);
            assert(now.drop_last() =~= before);
            assert(now.last() == parts@[i - 1]@);
            if i == 1 {
                assert(before.len() == 0);
            }
        }
    }
    assert(texts(parts@).take(parts@.len() as int) =~= texts(parts@));
    out
}

/// One part when the condition holds, none otherwise.
pub open spec fn opt(c: bool, part: Seq<char>) -> Seq<Seq<char>> {
    if c {
        seq![part]
    } else {
        Seq::empty()
    }
}

/// An icon in a color, a space and a count.
pub open spec fn counter(d: Display, icon: Seq<char>, s: Shade, n: nat) -> Seq<char> {
    tinted(d.palette, d.config.use_color, icon, s) + " "@ + decimal(n)
}

/// Text in a color of the display (bare when the display does not color).
pub open spec fn tx(d: Display, text: Seq<char>, s: Shade) -> Seq<char> {
    tinted(d.palette, d.config.use_color, text, s)
}

/// Milliseconds from `t` to `now`, none when `now` is earlier.
pub open spec fn since(now: u64, t: u64) -> nat {
    if now >= t {
        (now - t) as nat
    } else {
        0
    }
}

/// The display's counter: an icon in a color, a space and a count.
fn counter_string(d: &Display, icon: &str, s: Shade, n: usize) -> (r: String)
    ensures
        r@ == counter(*d, icon@, s, n as nat),
{
    let mut out = tint(&d.palette, d.config.use_color, icon, s);
    out.append(" ");
    let c = decimal_string(n as u128);
    out.append(c.as_str());
    out
}

/// A count as the legends show it.
fn bold_count_string(d: &Display, n: usize) -> (r: String)
    ensures
        r@ == bold_count(*d, n as nat),
{
    let c = decimal_string(n as u128);
    if d.config.use_color && n > 0 {
        let mut out = String::from_str("\u{1b}[1m");
        out.append(c.as_str());
        out.append("\u{1b}[0m");
        out
    } else {
        c
    }
}

/// An icon in its color, a space and a count.
fn count_part_string(d: &Display, icon: &str, s: Shade, n: usize) -> (r: String)
    ensures
        r@ == count_part(*d, icon@, s, n as nat),
{
    let mut out = tint(&d.palette, d.config.use_color, icon, s);
    out.append(" ");
    let c = bold_count_string(d, n);
    out.append(c.as_str());
    out
}

/// Text in a color of the display.
pub(crate) fn tx_string(d: &Display, text: &str, s: Shade) -> (r: String)
    ensures
        r@ == tx(*d, text@, s),
{
    tint(&d.palette, d.config.use_color, text, s)
}

/// A count as the legends show it: bold when there is color and the count
/// is not zero.
pub open spec fn bold_count(d: Display, n: nat) -> Seq<char> {
    if d.config.use_color && n > 0 {
        "\u{1b}[1m"@ + decimal(n) + "\u{1b}[0m"@
    } else {
        decimal(n)
    }
}

/// An icon in its color, a space and a count (bold when not zero).
pub open spec fn count_part(d: Display, icon: Seq<char>, s: Shade, n: nat) -> Seq<char> {
    tx(d, icon, s) + " "@ + bold_count(d, n)
}

/// The counts of running, done, failed and planned builds, zeros included.
pub open spec fn build_counts(d: Display, st: State) -> Seq<Seq<char>> {
    let v = st.full_summary@;
    seq![
        count_part(d, d.config.icons.running@, Shade::Yellow, v.running_builds.len()),
        count_part(d, d.config.icons.done@, Shade::Green, v.completed_builds.len()),
        count_part(d, d.config.icons.failed@, Shade::Red, v.failed_builds.len()),
        count_part(d, d.config.icons.planned@, Shade::Grey, v.planned_builds.len()),
    ]
}

/// The clock icon and the time since the start.
pub open spec fn clock_part(d: Display, st: State, now: u64) -> Seq<char> {
    tx(d, d.config.icons.clock@, Shade::DarkGrey) + " "@ + tx(d, ms_text(since(now, st.start_time)), Shade::DarkGrey)
}

/// The build counts, the running downloads and uploads (each when there are
/// any) and the time since the start.
pub open spec fn compact_parts(d: Display, st: State, now: u64) -> Seq<Seq<char>> {
    let v = st.full_summary@;
    let dl = v.running_downloads.len();
    let ul = v.running_uploads.len();
    build_counts(d, st) + opt(dl > 0, counter(d, d.config.icons.download@, Shade::Yellow, dl)) + opt(
        ul > 0,
        counter(d, d.config.icons.upload@, Shade::Yellow, ul),
    ) + seq![clock_part(d, st, now)]
}

/// The columns of the compact legend: the four build counts (zeros
/// included), then a download counter with the number of running downloads
/// whenever one runs, then an upload counter likewise, then the clock.
pub proof fn law_compact_columns(d: Display, st: State, now: u64)
    ensures
        ({
            let p = compact_parts(d, st, now);
            let dl = st.full_summary@.running_downloads.len();
            let ul = st.full_summary@.running_uploads.len();
            let nd: int = if dl > 0 { 1 } else { 0 };
            &&& p.len() == 5 + nd + (if ul > 0 { 1int } else { 0 })
            &&& p.take(4) == build_counts(d, st)
            &&& dl > 0 ==> p[4] == tx(d, d.config.icons.download@, Shade::Yellow) + " "@ + decimal(dl)
            &&& ul > 0 ==> p[4 + nd] == tx(d, d.config.icons.upload@, Shade::Yellow) + " "@ + decimal(ul)
            &&& p.last() == clock_part(d, st, now)
        }),
{
    let p = compact_parts(d, st, now);
    let bc = build_counts(d, st);
    assert(p.take(4) =~= bc);
}

/// Nothing is planned, running or done, downloading or uploading.
pub open spec fn idle(st: State) -> bool {
    let v = st.full_summary@;
    v.running_builds.len() + v.completed_builds.len() + v.planned_builds.len()
        + v.running_downloads.len() + v.running_uploads.len() == 0
}

/// The corner a legend's header starts with: a tee below a tree, else a
/// top corner.
pub open spec fn legend_corner(has_tree: bool) -> Seq<char> {
    if has_tree {
        "\u{2523}\u{2501}\u{2501}\u{2501}"@
    } else {
        "\u{250f}\u{2501}\u{2501}\u{2501}"@
    }
}

/// The compact legend: below a tree, one line of counts; alone, a `Builds`
/// header above it.  Nothing when there is nothing to count.
pub open spec fn compact_legend(d: Display, st: State, has_tree: bool, now: u64) -> Seq<Seq<char>> {
    if idle(st) {
        Seq::empty()
    } else {
        let head = if has_tree {
            Seq::empty()
        } else {
            seq![tx(d, legend_corner(false), Shade::Blue) + " Builds"@]
        };
        head + seq![tx(d, "\u{2517}\u{2501}"@, Shade::Blue) + " "@ + joined(compact_parts(d, st, now), " \u{2502} "@)]
    }
}

/// The noun for `n` things: singular for one, plural otherwise.
pub open spec fn noun(n: nat, one: Seq<char>, many: Seq<char>) -> Seq<char> {
    if n == 1 {
        one
    } else {
        many
    }
}

/// The final line: the number of failed builds, or of nix errors, with the
/// clock text `at` and the time since the start, in red; else when it finished
/// and after how long, in green, with the number of builds done.
pub open spec fn finished_line(d: Display, st: State, now: u64, at: Seq<char>) -> Seq<char> {
    let v = st.full_summary@;
    let failed = v.failed_builds.len();
    let completed = v.completed_builds.len();
    let errs = st.nix_errors@.len();
    let dur = ms_text(since(now, st.start_time));
    if failed > 0 {
        tx(d, "\u{26a0}"@, Shade::Red) + " "@ + tx(
            d,
            "Exited after "@ + decimal(failed) + " build "@ + noun(failed, "failure"@, "failures"@),
            Shade::Red,
        ) + " at "@ + tx(d, at, Shade::Red) + " after "@ + tx(d, dur, Shade::Red)
    } else if errs > 0 {
        tx(d, "\u{26a0}"@, Shade::Red) + " "@ + tx(
            d,
            "Exited with "@ + decimal(errs) + " nix "@ + noun(errs, "error"@, "errors"@),
            Shade::Red,
        ) + " at "@ + tx(d, at, Shade::Red) + " after "@ + tx(d, dur, Shade::Red)
    } else {
        tx(d, "Finished at "@ + at, Shade::Green) + " after "@ + tx(d, dur, Shade::Green) + if completed
            > 0 {
            "  "@ + tx(d, d.config.icons.done@, Shade::Green) + " "@ + decimal(completed)
        } else {
            Seq::empty()
        }
    }
}

impl Display {
    /// The build counts, zeros included.
    fn build_count_strings(&self, state: &State) -> (r: Vec<String>)
        ensures
            texts(r@) == build_counts(*self, *state),
    {
        let mut parts: Vec<String> = Vec::new();
        parts.push(count_part_string(self, self.config.icons.running, Shade::Yellow, state.full_summary.running_builds.len()));
        parts.push(count_part_string(self, self.config.icons.done, Shade::Green, state.full_summary.completed_builds.len()));
        parts.push(count_part_string(self, self.config.icons.failed, Shade::Red, state.full_summary.failed_builds.len()));
        parts.push(count_part_string(self, self.config.icons.planned, Shade::Grey, state.full_summary.planned_builds.len()));
        assert(texts(parts@) =~= build_counts(*self, *state));
        parts
    }

    /// The clock icon and the time since the start.
    fn clock_part_string(&self, state: &State, now: u64) -> (r: String)
        ensures
            r@ == clock_part(*self, *state, now),
    {
        let mut out = tx_string(self, self.config.icons.clock, Shade::DarkGrey);
        out.append(" ");
        let el = format_duration(now.saturating_sub(state.start_time));
        let t = tx_string(self, el.as_str(), Shade::DarkGrey);
        out.append(t.as_str());
        out
    }

    /// The build counts, the running downloads and uploads, and the time since
    /// the start.
    fn compact_part_strings(&self, state: &State, now: u64) -> (r: Vec<String>)
        ensures
            texts(r@) == compact_parts(*self, *state, now),
    {
        let dl = state.full_summary.running_downloads.len();
        let ul = state.full_summary.running_uploads.len();
        let mut parts = self.build_count_strings(state);
        if dl > 0 {
            parts.push(counter_string(self, self.config.icons.download, Shade::Yellow, dl));
        }
        if ul > 0 {
            parts.push(counter_string(self, self.config.icons.upload, Shade::Yellow, ul));
        }
        parts.push(self.clock_part_string(state, now));
        assert(texts(parts@) =~= compact_parts(*self, *state, now));
        parts
    }

    /// The compact legend, below a tree when `has_tree`.
    pub fn render_compact_legend(&self, state: &State, has_tree: bool, now: u64) -> (r: Vec<String>)
        ensures
            texts(r@) == compact_legend(*self, *state, has_tree, now),
    {
        let running = state.full_summary.running_builds.len();
        let completed = state.full_summary.completed_builds.len();
        let planned = state.full_summary.planned_builds.len();
        let dl = state.full_summary.running_downloads.len();
        let ul = state.full_summary.running_uploads.len();
        let mut r: Vec<String> = Vec::new();
        if running == 0 && completed == 0 && planned == 0 && dl == 0 && ul == 0 {
            assert(texts(r@) =~= compact_legend(*self, *state, has_tree, now));
            return r;
        }
        if !has_tree {
            let mut head = tx_string(self, "\u{250f}\u{2501}\u{2501}\u{2501}", Shade::Blue);
            head.append(" Builds");
            r.push(head);
        }
        let parts = self.compact_part_strings(state, now);
        let mut line = tx_string(self, "\u{2517}\u{2501}", Shade::Blue);
        line.append(" ");
        let j = join(&parts, " \u{2502} ");
        line.append(j.as_str());
        r.push(line);
        assert(texts(r@) =~= compact_legend(*self, *state, has_tree, now));
        r
    }

    /// The final line of a run: how it ended, at the clock text `at`, and
    /// after how long.
    pub fn render_finished_line(&self, state: &State, now: u64, at: &str) -> (r: Vec<String>)
        ensures
            texts(r@) == seq![finished_line(*self, *state, now, at@)],
    {
        let failed = state.full_summary.failed_builds.len();
        let completed = state.full_summary.completed_builds.len();
        let errs = state.nix_errors.len();
        let dur = format_duration(now.saturating_sub(state.start_time));
        let mut line: String;
        if failed > 0 || errs > 0 {
            line = tx_string(self, "\u{26a0}", Shade::Red);
            line.append(" ");
            let mut what = if failed > 0 {
                String::from_str("Exited after ")
            } else {
                String::from_str("Exited with ")
            };
            let n = decimal_string(if failed > 0 { failed as u128 } else { errs as u128 });
            what.append(n.as_str());
            if failed > 0 {
                what.append(" build ");
                what.append(if failed == 1 { "failure" } else { "failures" });
            } else {
                what.append(" nix ");
                what.append(if errs == 1 { "error" } else { "errors" });
            }
            let w = tx_string(self, what.as_str(), Shade::Red);
            line.append(w.as_str());
            line.append(" at ");
            let a = tx_string(self, at, Shade::Red);
            line.append(a.as_str());
            line.append(" after ");
            let t = tx_string(self, dur.as_str(), Shade::Red);
            line.append(t.as_str());
            proof {
                if failed > 0 {
                    assert(what@ =~= "Exited after "@ + decimal(failed as nat) + " build "@ + noun(failed as nat, "failure"@, "failures"@));
                } else {
                    assert(what@ =~= "Exited with "@ + decimal(errs as nat) + " nix "@ + noun(errs as nat, "error"@, "errors"@));
                }
            }
            assert(line@ =~= finished_line(*self, *state, now, at@));
        } else {
            let mut fin = String::from_str("Finished at ");
            fin.append(at);
            line = tx_string(self, fin.as_str(), Shade::Green);
            line.append(" after ");
            let t = tx_string(self, dur.as_str(), Shade::Green);
            line.append(t.as_str());
            if completed > 0 {
                line.append("  ");
                let ct = tx_string(self, self.config.icons.done, Shade::Green);
                line.append(ct.as_str());
                line.append(" ");
                let n = decimal_string(completed as u128);
                line.append(n.as_str());
            }
            assert(line@ =~= finished_line(*self, *state, now, at@));
        }
        let mut r: Vec<String> = Vec::new();
        r.push(line);
        proof {
            assert(texts(r@) =~= seq![finished_line(*self, *state, now, at@)]);
        }
        r
    }
}

/// Text `a` comes before text `b` in character order (that of `String`).
pub open spec fn text_lt(a: Seq<char>, b: Seq<char>) -> bool
    decreases a.len(),
{
    if b.len() == 0 {
        false
    } else if a.len() == 0 {
        true
    } else if a[0] != b[0] {
        a[0] < b[0]
    } else {
        text_lt(a.drop_first(), b.drop_first())
    }
}

/// Character order is transitive.
pub proof fn lemma_text_lt_trans(a: Seq<char>, b: Seq<char>, c: Seq<char>)
    requires
        text_lt(a, b),
        text_lt(b, c),
    ensures
        text_lt(a, c),
    decreases a.len(),
{
    if a.len() > 0 && b.len() > 0 && c.len() > 0 && a[0] == b[0] && b[0] == c[0] {
        lemma_text_lt_trans(a.drop_first(), b.drop_first(), c.drop_first());
    }
}

/// No text comes before itself.
pub proof fn lemma_text_lt_irrefl(a: Seq<char>)
    ensures
        !text_lt(a, a),
    decreases a.len(),
{
    if a.len() > 0 {
        lemma_text_lt_irrefl(a.drop_first());
    }
}

/// Two different texts are ordered one way or the other, never both.
pub proof fn lemma_text_lt_total(a: Seq<char>, b: Seq<char>)
    ensures
        a != b ==> text_lt(a, b) || text_lt(b, a),
        !(text_lt(a, b) && text_lt(b, a)),
    decreases a.len(),
{
    if a.len() > 0 && b.len() > 0 && a[0] == b[0] {
        assert(a =~= seq![a[0]] + a.drop_first());
        assert(b =~= seq![b[0]] + b.drop_first());
        lemma_text_lt_total(a.drop_first(), b.drop_first());
    } else if a.len() == 0 && b.len() == 0 {
        assert(a =~= b);
    }
}

/// Whether text `a` comes before text `b` in character order.
pub fn text_less(a: &str, b: &str) -> (r: bool)
    ensures
        r == text_lt(a@, b@),
{
    let x = chars_of(a);
    let y = chars_of(b);
    let mut i: usize = 0;
    assert(x@.skip(0) =~= x@);
    assert(y@.skip(0) =~= y@);
    while i < x.len() && i < y.len() && x[i] == y[i]
        invariant
            i <= x@.len(),
            i <= y@.len(),
            text_lt(a@, b@) == text_lt(x@.skip(i as int), y@.skip(i as int)),
        decreases x@.len() - i,
    {
        assert(x@.skip(i as int).drop_first() =~= x@.skip(i + 1));
        assert(y@.skip(i as int).drop_first() =~= y@.skip(i + 1));
        i += 1;
    }
    if i == y.len() {
        false
    } else if i == x.len() {
        true
    } else {
        x[i] < y[i]
    }
}

/// Strictly increasing in character order.
pub open spec fn ascending(v: Seq<Seq<char>>) -> bool {
    forall|i: int, j: int| 0 <= i < j < v.len() ==> text_lt(#[trigger] v[i], #[trigger] v[j])
}

/// The texts of a set, each once, in character order.
pub open spec fn sorted_set(v: Seq<Seq<char>>, s: Set<Seq<char>>) -> bool {
    &&& ascending(v)
    &&& v.no_duplicates()
    &&& v.to_set() == s
}

/// A list with the same elements as a list without duplicates has none.
proof fn lemma_same_multiset_no_dup(a: Seq<Seq<char>>, b: Seq<Seq<char>>)
    requires
        a.no_duplicates(),
        a.to_multiset() == b.to_multiset(),
    ensures
        b.no_duplicates(),
        a.to_set() == b.to_set(),
{
    a.lemma_multiset_has_no_duplicates();
    b.lemma_multiset_has_no_duplicates_conv();
    assert forall|t: Seq<char>| a.to_set().contains(t) <==> b.to_set().contains(t) by {
        broadcast use group_to_multiset_ensures;
        assert(a.contains(t) <==> a.to_multiset().count(t) > 0);
        assert(b.contains(t) <==> b.to_multiset().count(t) > 0);
    }
    assert(a.to_set() =~= b.to_set());
}

/// Sorts distinct texts in character order.
fn sort_texts(v: &mut Vec<String>)
    requires
        texts(old(v)@).no_duplicates(),
    ensures
        ascending(texts(final(v)@)),
        texts(final(v)@).no_duplicates(),
        texts(final(v)@).to_set() == texts(old(v)@).to_set(),
{
    let n = v.len();
    if n == 0 {
        return;
    }
    let mut i: usize = 1;
    while i < n
        invariant
            1 <= i <= n,
            n == v@.len(),
            texts(v@).to_multiset() == texts(old(v)@).to_multiset(),
            texts(old(v)@).no_duplicates(),
            forall|a: int, b: int| 0 <= a < b < i ==> text_lt(#[trigger] v@[a]@, #[trigger] v@[b]@),
        decreases n - i,
    {
        let mut j = i;
        while j > 0 && text_less(v[j].as_str(), v[j - 1].as_str())
            invariant
                0 <= j <= i < n,
                n == v@.len(),
                texts(v@).to_multiset() == texts(old(v)@).to_multiset(),
                texts(old(v)@).no_duplicates(),
                forall|a: int, b: int|
                    0 <= a < b <= i && a != j && b != j ==> text_lt(#[trigger] v@[a]@, #[trigger] v@[b]@),
                forall|b: int| j < b <= i ==> text_lt(v@[j as int]@, #[trigger] v@[b]@),
            decreases j,
        {
            let x = v[j - 1].clone();
            let y = v[j].clone();
            let ghost before = v@;
            v.set(j - 1, y);
            v.set(j, x);
            proof {
                broadcast use vstd::seq_lib::to_multiset_update;
                broadcast use vstd::multiset::group_multiset_axioms;
                let t0 = texts(before);
                let t1 = t0.update(j - 1, y@);
                assert(texts(v@) =~= t1.update(j as int, x@));
                assert(t0[j - 1] == x@);
                assert(t0[j as int] == y@);
                assert(t1[j as int] == y@);
                assert(t1.to_multiset() == t0.to_multiset().insert(y@).remove(x@));
                assert(t1.update(j as int, x@).to_multiset() == t1.to_multiset().insert(x@).remove(y@));
                assert(t0.to_multiset().count(x@) > 0) by {
                    broadcast use group_to_multiset_ensures;
                    assert(t0.contains(x@));
                }
                assert(t1.update(j as int, x@).to_multiset() =~= t0.to_multiset());
                assert forall|b: int| j - 1 < b <= i implies text_lt(v@[j - 1]@, #[trigger] v@[b]@) by {
                    if b > j {
                        assert(v@[b] == before[b]);
                    }
                }
                assert forall|a: int, b: int|
                    0 <= a < b <= i && a != j - 1 && b != j - 1 implies text_lt(
                    #[trigger] v@[a]@,
                    #[trigger] v@[b]@,
                ) by {
                    if a == j {
                        assert(v@[b] == before[b]);
                        assert(text_lt(before[j - 1]@, before[b]@));
                    } else if b == j {
                        assert(v@[a] == before[a]);
                        assert(text_lt(before[a]@, before[j - 1]@));
                    } else {
                        assert(v@[a] == before[a]);
                        assert(v@[b] == before[b]);
                    }
                }
            }
            j -= 1;
        }
        proof {
            if j > 0 {
                lemma_same_multiset_no_dup(texts(old(v)@), texts(v@));
                assert(texts(v@)[j - 1] == v@[j - 1]@);
                assert(texts(v@)[j as int] == v@[j as int]@);
                lemma_text_lt_total(v@[j as int]@, v@[j - 1]@);
                assert(text_lt(v@[j - 1]@, v@[j as int]@));
            }
            assert forall|a: int, b: int| 0 <= a < b < i + 1 implies text_lt(#[trigger] v@[a]@, #[trigger] v@[b]@) by {
                if b == j && a < j - 1 {
                    lemma_text_lt_trans(v@[a]@, v@[j - 1]@, v@[j as int]@);
                }
            }
        }
        i += 1;
    }
    proof {
        lemma_same_multiset_no_dup(texts(old(v)@), texts(v@));
        assert forall|a: int, b: int| 0 <= a < b < texts(v@).len() implies text_lt(#[trigger] texts(v@)[a], #[trigger] texts(v@)[b]) by {
            assert(texts(v@)[a] == v@[a]@);
            assert(texts(v@)[b] == v@[b]@);
        }
    }
}

/// A record of something done on a build host.
pub trait OnHost {
    /// The host it was done on.
    spec fn host_view(&self) -> HostView;

    /// The host it was done on.
    fn host_ref(&self) -> (r: &Host)
        ensures
            r@ == self.host_view(),
    ;
}

impl OnHost for BuildInfo {
    open spec fn host_view(&self) -> HostView {
        self.host@
    }

    fn host_ref(&self) -> (r: &Host) {
        &self.host
    }
}

impl OnHost for CompletedBuildInfo {
    open spec fn host_view(&self) -> HostView {
        self.host@
    }

    fn host_ref(&self) -> (r: &Host) {
        &self.host
    }
}

impl OnHost for FailedBuildInfo {
    open spec fn host_view(&self) -> HostView {
        self.host@
    }

    fn host_ref(&self) -> (r: &Host) {
        &self.host
    }
}

/// The name of the host of entry `k` of a table.
pub open spec fn host_of<V: OnHost>(m: Map<usize, V>) -> spec_fn(usize) -> Seq<char> {
    |k: usize| host_name(m[k].host_view())
}

/// The names of the hosts of the entries of a table.
pub open spec fn hosts_in<V: OnHost>(m: Map<usize, V>) -> Set<Seq<char>> {
    m.dom().map(host_of(m))
}

/// Entry `k` of a table is on host `h`.
pub open spec fn on_host<V: OnHost>(m: Map<usize, V>, h: Seq<char>) -> spec_fn(usize) -> bool {
    |k: usize| host_name(m[k].host_view()) == h
}

/// The number of entries of a table on host `h`.
pub open spec fn count_on<V: OnHost>(m: Map<usize, V>, h: Seq<char>) -> nat {
    m.dom().filter(on_host(m, h)).len()
}

proof fn lemma_filter_insert<A>(s: Set<A>, x: A, p: spec_fn(A) -> bool)
    requires
        s.finite(),
        !s.contains(x),
    ensures
        s.insert(x).filter(p).len() == s.filter(p).len() + (if p(x) {
            1int
        } else {
            0int
        }),
{
    s.lemma_len_filter(p);
    if p(x) {
        assert(s.insert(x).filter(p) =~= s.filter(p).insert(x));
        assert(!s.filter(p).contains(x));
    } else {
        assert(s.insert(x).filter(p) =~= s.filter(p));
    }
}

proof fn lemma_take_to_set(ks: Seq<usize>, i: int)
    requires
        0 <= i < ks.len(),
        ks.no_duplicates(),
    ensures
        ks.take(i + 1).to_set() == ks.take(i).to_set().insert(ks[i]),
        !ks.take(i).to_set().contains(ks[i]),
        ks.take(i).to_set().finite(),
{
    broadcast use vstd::seq_lib::seq_to_set_is_finite;
    assert(ks.take(i + 1) =~= ks.take(i).push(ks[i]));
    ks.take(i).lemma_push_to_set_commute(ks[i]);
    if ks.take(i).contains(ks[i]) {
        let j = choose|j: int| 0 <= j < i && ks.take(i)[j] == ks[i];
        assert(ks[j] == ks[i]);
    }
}

/// The number of entries of a table on host `h`.
fn count_on_host<V: OnHost>(m: &HashMap<usize, V>, h: &str) -> (r: usize)
    ensures
        r == count_on(m@, h@),
{
    let ks = map_keys(m);
    let mut cnt: usize = 0;
    let mut i: usize = 0;
    assert(ks@.take(0).to_set() =~= Set::<usize>::empty());
    assert(Set::<usize>::empty().filter(on_host(m@, h@)) =~= Set::<usize>::empty());
    while i < ks.len()
        invariant
            i <= ks@.len(),
            ks@.to_set() == m@.dom(),
            ks@.no_duplicates(),
            cnt <= i,
            cnt == ks@.take(i as int).to_set().filter(on_host(m@, h@)).len(),
        decreases ks@.len() - i,
    {
        let k = ks[i];
        proof {
            lemma_take_to_set(ks@, i as int);
            lemma_filter_insert(ks@.take(i as int).to_set(), k, on_host(m@, h@));
            assert(ks@.to_set().contains(k));
        }
        match m.get(&k) {
            Some(v) => {
                if str_eq(v.host_ref().name(), h) {
                    cnt += 1;
                }
            },
            None => {},
        }
        i += 1;
    }
    assert(ks@.take(ks@.len() as int) =~= ks@);
    cnt
}

/// Whether text `t` is one of the texts of `v`.
fn has_text(v: &Vec<String>, t: &str) -> (r: bool)
    ensures
        r == texts(v@).contains(t@),
{
    let mut i: usize = 0;
    while i < v.len()
        invariant
            i <= v@.len(),
            forall|j: int| 0 <= j < i ==> v@[j]@ != t@,
        decreases v@.len() - i,
    {
        if str_eq(v[i].as_str(), t) {
            assert(texts(v@)[i as int] == t@);
            return true;
        }
        i += 1;
    }
    proof {
        if texts(v@).contains(t@) {
            let j = choose|j: int| 0 <= j < texts(v@).len() && texts(v@)[j] == t@;
            assert(v@[j]@ == t@);
        }
    }
    false
}

/// Adds the names of the hosts of a table's entries that are not there yet.
fn add_hosts<V: OnHost>(m: &HashMap<usize, V>, acc: &mut Vec<String>)
    requires
        texts(old(acc)@).no_duplicates(),
    ensures
        texts(final(acc)@).no_duplicates(),
        texts(final(acc)@).to_set() == texts(old(acc)@).to_set() + hosts_in(m@),
{
    let ks = map_keys(m);
    let ghost start = texts(acc@).to_set();
    let mut i: usize = 0;
    assert(ks@.take(0).to_set() =~= Set::<usize>::empty());
    assert(texts(acc@).to_set() =~= start + Set::<usize>::empty().map(host_of(m@)));
    while i < ks.len()
        invariant
            i <= ks@.len(),
            ks@.to_set() == m@.dom(),
            ks@.no_duplicates(),
            texts(acc@).no_duplicates(),
            start == texts(old(acc)@).to_set(),
            texts(acc@).to_set() == start + ks@.take(i as int).to_set().map(host_of(m@)),
        decreases ks@.len() - i,
    {
        let k = ks[i];
        proof {
            lemma_take_to_set(ks@, i as int);
            assert(ks@.to_set().contains(k));
        }
        let ghost before = texts(acc@);
        match m.get(&k) {
            Some(v) => {
                let name = v.host_ref().name();
                if !has_text(acc, name) {
                    acc.push(String::from_str(name));
                    proof {
                        assert(texts(acc@) =~= before.push(name@));
                        before.lemma_push_to_set_commute(name@);
                    }
                } else {
                    assert(before.to_set().insert(name@) =~= before.to_set());
                }
            },
            None => {},
        }
        proof {
            let f = host_of(m@);
            let a = ks@.take(i as int).to_set();
            assert(a.insert(k).map(f) =~= a.map(f).insert(f(k))) by {
                assert forall|b: Seq<char>| a.insert(k).map(f).contains(b) implies a.map(f).insert(f(k)).contains(b) by {
                    let w = choose|w: usize| a.insert(k).contains(w) && f(w) == b;
                    if w != k {
                        assert(a.contains(w));
                    }
                }
                assert forall|b: Seq<char>| a.map(f).insert(f(k)).contains(b) implies a.insert(k).map(f).contains(b) by {
                    if b == f(k) {
                        assert(a.insert(k).contains(k));
                    } else {
                        let w = choose|w: usize| a.contains(w) && f(w) == b;
                        assert(a.insert(k).contains(w));
                    }
                }
            }
            assert(texts(acc@).to_set() =~= start + ks@.take(i + 1).to_set().map(host_of(m@)));
        }
        i += 1;
    }
    assert(ks@.take(ks@.len() as int) =~= ks@);
}

/// The parts joined with `sep` as one part, or no part when there are none.
pub open spec fn group(parts: Seq<Seq<char>>, sep: Seq<char>) -> Seq<Seq<char>> {
    if parts.len() > 0 {
        seq![joined(parts, sep)]
    } else {
        Seq::empty()
    }
}

/// The row of the final table for host `h`: its builds done and failed.
pub open spec fn summary_host_row(d: Display, st: State, h: Seq<char>) -> Seq<char> {
    let v = st.full_summary@;
    let done = count_on(v.completed_builds, h);
    let fail = count_on(v.failed_builds, h);
    tx(d, "\u{2503}"@, Shade::Blue) + "  "@ + joined(
        opt(done > 0, counter(d, d.config.icons.done@, Shade::Green, done)) + opt(
            fail > 0,
            counter(d, d.config.icons.failed@, Shade::Red, fail),
        ),
        "  "@,
    ) + "  "@ + tx(d, h, Shade::Magenta)
}

/// The rows of the final table for the hosts `hs`, in order.
pub open spec fn summary_host_rows(d: Display, st: State, hs: Seq<Seq<char>>) -> Seq<Seq<char>>
    decreases hs.len(),
{
    if hs.len() == 0 {
        Seq::empty()
    } else {
        summary_host_rows(d, st, hs.drop_last()).push(summary_host_row(d, st, hs.last()))
    }
}

/// The hosts of the builds done and failed.
pub open spec fn summary_hosts(st: State) -> Set<Seq<char>> {
    hosts_in(st.full_summary@.completed_builds) + hosts_in(st.full_summary@.failed_builds)
}

/// The final table: a header naming what there is (builds, downloads,
/// uploads), a row per host (in the order of `hs`) when there are several,
/// and a line of counts with how the run ended, at `at`, after how long; the
/// final line alone when nothing was done.
pub open spec fn table_summary(
    d: Display,
    st: State,
    now: u64,
    at: Seq<char>,
    hs: Seq<Seq<char>>,
) -> Seq<Seq<char>> {
    let v = st.full_summary@;
    if v.completed_builds.len() + v.failed_builds.len() + v.completed_downloads.len()
        + v.completed_uploads.len() == 0 {
        seq![finished_line(d, st, now, at)]
    } else {
        let rows = if summary_hosts(st).len() > 1 {
            summary_host_rows(d, st, hs)
        } else {
            Seq::empty()
        };
        seq![summary_header(d, st)] + rows + seq![summary_last(d, st, now, at)]
    }
}

/// The names of the hosts of a run's builds done and failed, each once, in
/// character order.
fn summary_host_names(state: &State) -> (r: Vec<String>)
    ensures
        sorted_set(texts(r@), summary_hosts(*state)),
{
    let mut names: Vec<String> = Vec::new();
    assert(texts(names@) =~= Seq::<Seq<char>>::empty());
    add_hosts(&state.full_summary.completed_builds, &mut names);
    add_hosts(&state.full_summary.failed_builds, &mut names);
    assert(texts(names@).to_set() =~= summary_hosts(*state));
    sort_texts(&mut names);
    names
}

/// The header of the final table: what was done.
pub open spec fn summary_header(d: Display, st: State) -> Seq<char> {
    let v = st.full_summary@;
    tx(d, "\u{250f}\u{2501}\u{2501}\u{2501}"@, Shade::Blue) + " "@ + joined(
        opt(v.completed_builds.len() + v.failed_builds.len() > 0, "Builds"@) + opt(
            v.completed_downloads.len() > 0,
            "Downloads"@,
        ) + opt(v.completed_uploads.len() > 0, "Uploads"@),
        "  "@,
    )
}

/// The last line of the final table: the counts and how the run ended.
pub open spec fn summary_last(d: Display, st: State, now: u64, at: Seq<char>) -> Seq<char> {
    let v = st.full_summary@;
    let completed = v.completed_builds.len();
    let failed = v.failed_builds.len();
    let dl_done = v.completed_downloads.len();
    let ul_done = v.completed_uploads.len();
    let dur = ms_text(since(now, st.start_time));
    let finish = if failed > 0 || st.nix_errors@.len() > 0 {
        tx(d, "Exited at "@ + at + " after "@ + dur, Shade::Red)
    } else {
        tx(d, "Finished at "@ + at + " after "@ + dur, Shade::Green)
    };
    let sum = opt(completed > 0, counter(d, d.config.icons.done@, Shade::Green, completed)) + opt(
        failed > 0,
        counter(d, d.config.icons.failed@, Shade::Red, failed),
    ) + opt(dl_done > 0, counter(d, d.config.icons.download@, Shade::Green, dl_done)) + opt(
        ul_done > 0,
        counter(d, d.config.icons.upload@, Shade::Green, ul_done),
    ) + seq![finish];
    tx(d, "\u{2517}\u{2501}"@, Shade::Blue) + " \u{2211} "@ + joined(sum, "  \u{2502}  "@)
}

impl Display {
    fn summary_header_string(&self, state: &State) -> (r: String)
        ensures
            r@ == summary_header(*self, *state),
    {
        let completed = state.full_summary.completed_builds.len();
        let failed = state.full_summary.failed_builds.len();
        let dl_done = state.full_summary.completed_downloads.len();
        let ul_done = state.full_summary.completed_uploads.len();
        let mut hdr: Vec<String> = Vec::new();
        if completed > 0 || failed > 0 {
            hdr.push(String::from_str("Builds"));
        }
        if dl_done > 0 {
            hdr.push(String::from_str("Downloads"));
        }
        if ul_done > 0 {
            hdr.push(String::from_str("Uploads"));
        }
        let mut header = tx_string(self, "\u{250f}\u{2501}\u{2501}\u{2501}", Shade::Blue);
        header.append(" ");
        let hj = join(&hdr, "  ");
        header.append(hj.as_str());
        proof {
            let v = state.full_summary@;
            assert(texts(hdr@) =~= opt(v.completed_builds.len() + v.failed_builds.len() > 0, "Builds"@)
                + opt(v.completed_downloads.len() > 0, "Downloads"@) + opt(v.completed_uploads.len() > 0, "Uploads"@));
        }
        header
    }

    fn summary_last_string(&self, state: &State, now: u64, at: &str) -> (r: String)
        ensures
            r@ == summary_last(*self, *state, now, at@),
    {
        let completed = state.full_summary.completed_builds.len();
        let failed = state.full_summary.failed_builds.len();
        let dl_done = state.full_summary.completed_downloads.len();
        let ul_done = state.full_summary.completed_uploads.len();
        let dur = format_duration(now.saturating_sub(state.start_time));
        let mut sum: Vec<String> = Vec::new();
        if completed > 0 {
            sum.push(counter_string(self, self.config.icons.done, Shade::Green, completed));
        }
        if failed > 0 {
            sum.push(counter_string(self, self.config.icons.failed, Shade::Red, failed));
        }
        if dl_done > 0 {
            sum.push(counter_string(self, self.config.icons.download, Shade::Green, dl_done));
        }
        if ul_done > 0 {
            sum.push(counter_string(self, self.config.icons.upload, Shade::Green, ul_done));
        }
        let mut fin = if failed > 0 || state.nix_errors.len() > 0 {
            String::from_str("Exited at ")
        } else {
            String::from_str("Finished at ")
        };
        fin.append(at);
        fin.append(" after ");
        fin.append(dur.as_str());
        let finish = if failed > 0 || state.nix_errors.len() > 0 {
            tx_string(self, fin.as_str(), Shade::Red)
        } else {
            tx_string(self, fin.as_str(), Shade::Green)
        };
        let ghost before = texts(sum@);
        sum.push(finish);
        let mut last = tx_string(self, "\u{2517}\u{2501}", Shade::Blue);
        last.append(" \u{2211} ");
        let sj = join(&sum, "  \u{2502}  ");
        last.append(sj.as_str());
        proof {
            let v = state.full_summary@;
            assert(before =~= opt(v.completed_builds.len() > 0, counter(*self, self.config.icons.done@, Shade::Green, v.completed_builds.len())) + opt(
                v.failed_builds.len() > 0,
                counter(*self, self.config.icons.failed@, Shade::Red, v.failed_builds.len()),
            ) + opt(v.completed_downloads.len() > 0, counter(*self, self.config.icons.download@, Shade::Green, v.completed_downloads.len())) + opt(
                v.completed_uploads.len() > 0,
                counter(*self, self.config.icons.upload@, Shade::Green, v.completed_uploads.len()),
            ));
            assert(texts(sum@) =~= before.push(finish@));
            let dv = ms_text(since(now, state.start_time));
            assert(dur@ == dv);
            let fs = if v.failed_builds.len() > 0 || state.nix_errors@.len() > 0 {
                tx(*self, "Exited at "@ + at@ + " after "@ + dv, Shade::Red)
            } else {
                tx(*self, "Finished at "@ + at@ + " after "@ + dv, Shade::Green)
            };
            if v.failed_builds.len() > 0 || state.nix_errors@.len() > 0 {
                assert(fin@ =~= "Exited at "@ + at@ + " after "@ + dv);
            } else {
                assert(fin@ =~= "Finished at "@ + at@ + " after "@ + dv);
            }
            assert(finish@ == fs);
            assert(texts(sum@) =~= opt(v.completed_builds.len() > 0, counter(*self, self.config.icons.done@, Shade::Green, v.completed_builds.len())) + opt(
                v.failed_builds.len() > 0,
                counter(*self, self.config.icons.failed@, Shade::Red, v.failed_builds.len()),
            ) + opt(v.completed_downloads.len() > 0, counter(*self, self.config.icons.download@, Shade::Green, v.completed_downloads.len())) + opt(
                v.completed_uploads.len() > 0,
                counter(*self, self.config.icons.upload@, Shade::Green, v.completed_uploads.len()),
            ) + seq![fs]);
            assert(last@ =~= summary_last(*self, *state, now, at@));
        }
        last
    }

    fn summary_rows(&self, state: &State, names: &Vec<String>, out: &mut Vec<String>)
        ensures
            texts(final(out)@) == texts(old(out)@) + summary_host_rows(*self, *state, texts(names@)),
    {
        let ghost hs = texts(names@);
        let ghost start = texts(out@);
        let mut i: usize = 0;
        assert(hs.take(0) =~= Seq::<Seq<char>>::empty());
        assert(texts(out@) =~= start + summary_host_rows(*self, *state, hs.take(0)));
        while i < names.len()
            invariant
                i <= names@.len(),
                hs == texts(names@),
                texts(out@) == start + summary_host_rows(*self, *state, hs.take(i as int)),
            decreases names@.len() - i,
        {
            let h = names[i].as_str();
            let done = count_on_host(&state.full_summary.completed_builds, h);
            let fail = count_on_host(&state.full_summary.failed_builds, h);
            let mut parts: Vec<String> = Vec::new();
            if done > 0 {
                parts.push(counter_string(self, self.config.icons.done, Shade::Green, done));
            }
            if fail > 0 {
                parts.push(counter_string(self, self.config.icons.failed, Shade::Red, fail));
            }
            let mut row = tx_string(self, "\u{2503}", Shade::Blue);
            row.append("  ");
            let pj = join(&parts, "  ");
            row.append(pj.as_str());
            row.append("  ");
            let ht = tx_string(self, h, Shade::Magenta);
            row.append(ht.as_str());
            let ghost before = texts(out@);
            out.push(row);
            proof {
                let v = state.full_summary@;
                assert(texts(parts@) =~= opt(count_on(v.completed_builds, h@) > 0, counter(*self, self.config.icons.done@, Shade::Green, count_on(v.completed_builds, h@)))
                    + opt(count_on(v.failed_builds, h@) > 0, counter(*self, self.config.icons.failed@, Shade::Red, count_on(v.failed_builds, h@))));
                assert(hs.take(i + 1).drop_last() =~= hs.take(i as int));
                assert(hs.take(i + 1).last() == h@);
                assert(texts(out@) =~= before.push(row@));
                assert(texts(out@) =~= start + summary_host_rows(*self, *state, hs.take(i + 1)));
            }
            i += 1;
        }
        assert(hs.take(names@.len() as int) =~= hs);
    }

    /// The final table of a run that ended at the clock text `at`.
    pub fn render_table_summary(&self, state: &State, now: u64, at: &str) -> (r: Vec<String>)
        ensures
            exists|hs: Seq<Seq<char>>|
                sorted_set(hs, summary_hosts(*state)) && texts(r@) == table_summary(
                    *self,
                    *state,
                    now,
                    at@,
                    hs,
                ),
    {
        let names = summary_host_names(state);
        let ghost hs = texts(names@);
        if state.full_summary.completed_builds.len() == 0 && state.full_summary.failed_builds.len() == 0
            && state.full_summary.completed_downloads.len() == 0
            && state.full_summary.completed_uploads.len() == 0 {
            let r = self.render_finished_line(state, now, at);
            assert(texts(r@) == table_summary(*self, *state, now, at@, hs));
            return r;
        }
        let header = self.summary_header_string(state);
        let ghost header_v = header@;
        let mut lines: Vec<String> = Vec::new();
        lines.push(header);
        assert(texts(lines@) =~= seq![header_v]);
        proof {
            hs.unique_seq_to_set();
        }
        if names.len() > 1 {
            self.summary_rows(state, &names, &mut lines);
        }
        let last = self.summary_last_string(state, now, at);
        let ghost before = texts(lines@);
        lines.push(last);
        proof {
            assert(texts(lines@) =~= before.push(last@));
            assert(hs.len() == summary_hosts(*state).len());
            assert(texts(lines@) =~= table_summary(*self, *state, now, at@, hs));
        }
        lines
    }
}

/// Builds run, ran or are planned (failed builds alone show no build row).
pub open spec fn shows_builds(st: State) -> bool {
    let v = st.full_summary@;
    v.running_builds.len() + v.completed_builds.len() + v.planned_builds.len() > 0
}

/// Downloads run or ran.
pub open spec fn shows_downloads(st: State) -> bool {
    let v = st.full_summary@;
    v.running_downloads.len() + v.completed_downloads.len() > 0
}

/// Uploads run or ran.
pub open spec fn shows_uploads(st: State) -> bool {
    let v = st.full_summary@;
    v.running_uploads.len() + v.completed_uploads.len() > 0
}

/// The header of the table legend: what is going on (builds, downloads,
/// uploads), below a tree or not.
pub open spec fn legend_header(d: Display, st: State, has_tree: bool) -> Seq<char> {
    let header_parts = opt(shows_builds(st), "Builds"@) + opt(shows_downloads(st), "Downloads"@)
        + opt(shows_uploads(st), "Uploads"@);
    tx(d, legend_corner(has_tree), Shade::Blue) + " "@ + joined(header_parts, "  "@)
}

/// A transfer column of the last line: its icon, then the running and the
/// finished transfers (each when there are any).
pub open spec fn transfer_sum(d: Display, icon: Seq<char>, running: nat, done: nat) -> Seq<char> {
    tx(d, icon, Shade::DarkGrey) + " "@ + joined(
        opt(running > 0, count_part(d, d.config.icons.running@, Shade::Yellow, running)) + opt(
            done > 0,
            count_part(d, d.config.icons.done@, Shade::Green, done),
        ),
        " "@,
    )
}

/// The columns of the last line of the table legend: the build counts (zeros
/// included) when builds are shown, the downloads and uploads when shown, and
/// the time since the start.
pub open spec fn legend_sum(d: Display, st: State, now: u64) -> Seq<Seq<char>> {
    let v = st.full_summary@;
    (if shows_builds(st) {
        build_counts(d, st)
    } else {
        Seq::empty()
    }) + opt(
        shows_downloads(st),
        transfer_sum(d, d.config.icons.download@, v.running_downloads.len(), v.completed_downloads.len()),
    ) + opt(
        shows_uploads(st),
        transfer_sum(d, d.config.icons.upload@, v.running_uploads.len(), v.completed_uploads.len()),
    ) + seq![clock_part(d, st, now)]
}

/// Whether builds are shown.
fn shows_builds_exec(state: &State) -> (r: bool)
    ensures
        r == shows_builds(*state),
{
    let v = &state.full_summary;
    v.running_builds.len() > 0 || v.completed_builds.len() > 0 || v.planned_builds.len() > 0
}

/// Whether downloads are shown.
fn shows_downloads_exec(state: &State) -> (r: bool)
    ensures
        r == shows_downloads(*state),
{
    state.full_summary.running_downloads.len() > 0 || state.full_summary.completed_downloads.len() > 0
}

/// Whether uploads are shown.
fn shows_uploads_exec(state: &State) -> (r: bool)
    ensures
        r == shows_uploads(*state),
{
    state.full_summary.running_uploads.len() > 0 || state.full_summary.completed_uploads.len() > 0
}

/// The running uploads of known store paths.
pub open spec fn known_uploads(st: State) -> Set<usize> {
    st.full_summary@.running_uploads.dom().filter(below(st.paths().len()))
}

/// `m` is the greatest byte length of the names of the running builds of
/// known derivations and of the running downloads of known store paths (zero
/// when there are none).
pub open spec fn is_widest(st: State, m: nat) -> bool {
    &&& forall|k: usize| #[trigger] known_running(st).contains(k) ==> byte_len(drv_name(st, k)) <= m
    &&& forall|k: usize| #[trigger] known_downloads(st).contains(k) ==> byte_len(path_name(st, k)) <= m
    &&& (m == 0 || (exists|k: usize| #[trigger] known_running(st).contains(k) && byte_len(drv_name(st, k)) == m)
        || (exists|k: usize| #[trigger] known_downloads(st).contains(k) && byte_len(path_name(st, k)) == m))
}

/// Every name the rows of the table legend show can be cut to width `w`.
pub open spec fn table_cuttable(st: State, w: nat) -> bool {
    &&& forall|k: usize| #[trigger] known_running(st).contains(k) ==> cuttable(drv_name(st, k), w)
    &&& forall|k: usize| #[trigger] known_downloads(st).contains(k) ==> cuttable(path_name(st, k), w)
    &&& forall|k: usize| #[trigger] known_uploads(st).contains(k) ==> cuttable(path_name(st, k), w)
}

/// The names the rows of the table legend show can be cut to its column
/// width.
pub open spec fn table_fits(st: State) -> bool {
    forall|m: nat| is_widest(st, m) ==> table_cuttable(st, name_width(m))
}

/// The running builds of known derivations, each once, the longest running
/// (earliest started) first.
pub open spec fn longest_first(st: State, bs: Seq<usize>) -> bool {
    &&& bs.no_duplicates()
    &&& bs.to_set() == known_running(st)
    &&& forall|i: int, j: int|
        0 <= i < j < bs.len() ==> st.full_summary@.running_builds[#[trigger] bs[i]].start
            <= st.full_summary@.running_builds[#[trigger] bs[j]].start
}

/// The row of the table legend for running build `k`, its name in a column
/// `w` wide.
pub open spec fn table_build_line(d: Display, st: State, now: u64, w: nat, k: usize) -> Seq<char> {
    let b = st.full_summary@.running_builds[k];
    let host_label = match b.host@ {
        HostView::Remote(h) => "  on "@ + tx(d, h, Shade::Magenta),
        HostView::Localhost => Seq::empty(),
    };
    tx(d, "\u{2503}"@, Shade::Blue) + "  "@ + tx(d, d.config.icons.running@, Shade::Yellow) + " "@ + padded_right(
        cut(drv_name(st, k), w),
        w,
    ) + "  "@ + tx(d, d.config.icons.clock@, Shade::DarkGrey) + " "@ + tx(d, ms_text(since(now, b.start)), Shade::DarkGrey)
        + host_label
}

/// The row of the table legend for the download of store path `k`.
pub open spec fn table_download_line(d: Display, st: State, now: u64, w: nat, k: usize) -> Seq<char> {
    let t = st.full_summary@.running_downloads[k];
    tx(d, "\u{2503}"@, Shade::Blue) + "  "@ + tx(d, d.config.icons.download@, Shade::Yellow) + " "@ + padded_right(
        cut(path_name(st, k), w),
        w,
    ) + "  "@ + tx(d, transfer_size(t), Shade::DarkGrey) + " "@ + tx(d, d.config.icons.clock@, Shade::DarkGrey) + " "@
        + tx(d, ms_text(since(now, t.start)), Shade::DarkGrey)
}

/// The row of the table legend for the upload of store path `k`.
pub open spec fn table_upload_line(d: Display, st: State, now: u64, w: nat, k: usize) -> Seq<char> {
    let t = st.full_summary@.running_uploads[k];
    tx(d, "\u{2503}"@, Shade::Blue) + "  "@ + tx(d, d.config.icons.upload@, Shade::Yellow) + " "@ + padded_right(
        cut(path_name(st, k), w),
        w,
    ) + "  "@ + tx(d, d.config.icons.clock@, Shade::DarkGrey) + " "@ + tx(d, ms_text(since(now, t.start)), Shade::DarkGrey)
}

/// The table legend: a header naming what is going on; when there is no tree
/// above, a row per running build (longest running first, `bs`), per running
/// download (`ds`) and per running upload (`us`), names in a column `w` wide;
/// and a last line of counts with the time since the start.  Nothing when no
/// build, download or upload is to be shown.
pub open spec fn table_legend(
    d: Display,
    st: State,
    has_tree: bool,
    now: u64,
    bs: Seq<usize>,
    ds: Seq<usize>,
    us: Seq<usize>,
    w: nat,
) -> Seq<Seq<char>> {
    if !shows_builds(st) && !shows_downloads(st) && !shows_uploads(st) {
        Seq::empty()
    } else {
        let rows = if has_tree {
            Seq::empty()
        } else {
            Seq::new(bs.len(), |i: int| table_build_line(d, st, now, w, bs[i])) + Seq::new(
                ds.len(),
                |i: int| table_download_line(d, st, now, w, ds[i]),
            ) + Seq::new(us.len(), |i: int| table_upload_line(d, st, now, w, us[i]))
        };
        seq![legend_header(d, st, has_tree)] + rows + seq![
            tx(d, "\u{2517}\u{2501}"@, Shade::Blue) + " "@ + tx(d, d.config.icons.summary@, Shade::DarkGrey) + " "@
                + joined(legend_sum(d, st, now), " \u{2502} "@),
        ]
    }
}

/// The shape of the table legend (drawn without colors): nothing when no
/// build, download or upload is to be shown; otherwise a header starting with
/// `┣━━━ ` below a tree and `┏━━━ ` alone, and a last line starting with `┗━ `;
/// below a tree nothing between them, alone one row per running build of a
/// known derivation, longest running first, then one per running download and
/// per running upload of a known store path.
pub proof fn law_table_legend_shape(
    d: Display,
    st: State,
    has_tree: bool,
    now: u64,
    bs: Seq<usize>,
    ds: Seq<usize>,
    us: Seq<usize>,
    w: nat,
)
    requires
        !d.config.use_color,
        longest_first(st, bs),
        transfer_keys(st, st.full_summary@.running_downloads, ds),
        transfer_keys(st, st.full_summary@.running_uploads, us),
    ensures
        ({
            let r = table_legend(d, st, has_tree, now, bs, ds, us, w);
            &&& !shows_builds(st) && !shows_downloads(st) && !shows_uploads(st) ==> r.len() == 0
            &&& shows_builds(st) || shows_downloads(st) || shows_uploads(st) ==> {
                &&& r.len() == if has_tree {
                    2
                } else {
                    2 + known_running(st).len() + known_downloads(st).len() + known_uploads(st).len()
                }
                &&& crate::text::starts_with(
                    r[0],
                    if has_tree {
                        "\u{2523}\u{2501}\u{2501}\u{2501} "@
                    } else {
                        "\u{250f}\u{2501}\u{2501}\u{2501} "@
                    },
                )
                &&& crate::text::starts_with(r.last(), "\u{2517}\u{2501} "@)
                &&& !has_tree ==> forall|i: int|
                    0 <= i < bs.len() ==> r[1 + i] == table_build_line(d, st, now, w, #[trigger] bs[i])
            }
        }),
{
    let r = table_legend(d, st, has_tree, now, bs, ds, us, w);
    bs.unique_seq_to_set();
    ds.unique_seq_to_set();
    us.unique_seq_to_set();
    if shows_builds(st) || shows_downloads(st) || shows_uploads(st) {
        let head = legend_header(d, st, has_tree);
        let corner = legend_corner(has_tree);
        reveal_strlit("\u{2523}\u{2501}\u{2501}\u{2501}");
        reveal_strlit("\u{250f}\u{2501}\u{2501}\u{2501}");
        reveal_strlit("\u{2523}\u{2501}\u{2501}\u{2501} ");
        reveal_strlit("\u{250f}\u{2501}\u{2501}\u{2501} ");
        reveal_strlit("\u{2517}\u{2501}");
        reveal_strlit("\u{2517}\u{2501} ");
        reveal_strlit(" ");
        let p0: Seq<char> = if has_tree {
            "\u{2523}\u{2501}\u{2501}\u{2501} "@
        } else {
            "\u{250f}\u{2501}\u{2501}\u{2501} "@
        };
        assert(head == corner + " "@ + joined(
            opt(shows_builds(st), "Builds"@) + opt(shows_downloads(st), "Downloads"@) + opt(
                shows_uploads(st),
                "Uploads"@,
            ),
            "  "@,
        ));
        assert(head.subrange(0, 5) =~= p0);
        assert(r[0] == head);
        let last = "\u{2517}\u{2501}"@ + " "@ + d.config.icons.summary@ + " "@ + joined(
            legend_sum(d, st, now),
            " \u{2502} "@,
        );
        assert(r.last() == last);
        assert(last.subrange(0, 3) =~= "\u{2517}\u{2501} "@);
    }
}

/// Sorts running builds by start time, keeping the order of those started
/// together.
fn sort_by_start(state: &State, v: &mut Vec<usize>)
    requires
        forall|i: int| 0 <= i < old(v)@.len() ==> state.full_summary@.running_builds.contains_key(
            #[trigger] old(v)@[i],
        ),
    ensures
        forall|a: int, b: int|
            0 <= a < b < final(v)@.len() ==> state.full_summary@.running_builds[#[trigger] final(v)@[a]].start
                <= state.full_summary@.running_builds[#[trigger] final(v)@[b]].start,
        final(v)@.to_multiset() == old(v)@.to_multiset(),
{
    broadcast use group_to_multiset_ensures;
    let ghost rb = state.full_summary@.running_builds;
    let n = v.len();
    if n == 0 {
        return;
    }
    let mut i: usize = 1;
    while i < n
        invariant
            1 <= i <= n,
            n == v@.len(),
            rb == state.full_summary@.running_builds,
            v@.to_multiset() == old(v)@.to_multiset(),
            forall|k: int| 0 <= k < v@.len() ==> rb.contains_key(#[trigger] v@[k]),
            forall|a: int, b: int| 0 <= a < b < i ==> rb[#[trigger] v@[a]].start <= rb[#[trigger] v@[b]].start,
        decreases n - i,
    {
        let mut j = i;
        while j > 0 && state.full_summary.running_builds.get(&v[j]).unwrap().start
            < state.full_summary.running_builds.get(&v[j - 1]).unwrap().start
            invariant
                0 <= j <= i < n,
                n == v@.len(),
                rb == state.full_summary@.running_builds,
                v@.to_multiset() == old(v)@.to_multiset(),
                forall|k: int| 0 <= k < v@.len() ==> rb.contains_key(#[trigger] v@[k]),
                forall|a: int, b: int|
                    0 <= a < b <= i && a != j && b != j ==> rb[#[trigger] v@[a]].start <= rb[#[trigger] v@[b]].start,
                forall|b: int| j < b <= i ==> rb[v@[j as int]].start <= rb[#[trigger] v@[b]].start,
            decreases j,
        {
            let x = v[j - 1];
            let y = v[j];
            let ghost before = v@;
            v.set(j - 1, y);
            v.set(j, x);
            proof {
                broadcast use vstd::seq_lib::to_multiset_update;
                broadcast use vstd::multiset::group_multiset_axioms;
                let t1 = before.update(j - 1, y);
                assert(v@ =~= t1.update(j as int, x));
                assert(t1.to_multiset() == before.to_multiset().insert(y).remove(x));
                assert(t1.update(j as int, x).to_multiset() == t1.to_multiset().insert(x).remove(y));
                assert(before.to_multiset().count(x) > 0) by {
                    broadcast use group_to_multiset_ensures;
                    assert(before[j - 1] == x);
                    assert(before.contains(x));
                }
                assert(t1.update(j as int, x).to_multiset() =~= before.to_multiset());
                assert forall|k: int| 0 <= k < v@.len() implies rb.contains_key(#[trigger] v@[k]) by {
                    if k == j - 1 {
                        assert(before[j as int] == y);
                    } else if k == j {
                        assert(before[j - 1] == x);
                    } else {
                        assert(v@[k] == before[k]);
                    }
                }
                assert forall|b: int| j - 1 < b <= i implies rb[v@[j - 1]].start <= rb[#[trigger] v@[b]].start by {
                    if b > j {
                        assert(v@[b] == before[b]);
                    }
                }
                assert forall|a: int, b: int|
                    0 <= a < b <= i && a != j - 1 && b != j - 1 implies rb[#[trigger] v@[a]].start
                    <= rb[#[trigger] v@[b]].start by {
                    if a == j {
                        assert(v@[b] == before[b]);
                    } else if b == j {
                        assert(v@[a] == before[a]);
                    } else {
                        assert(v@[a] == before[a]);
                        assert(v@[b] == before[b]);
                    }
                }
            }
            j -= 1;
        }
        i += 1;
    }
}

/// The running builds of known derivations, longest running first.
fn running_longest_first(state: &State) -> (r: Vec<usize>)
    requires
        state.wf(),
    ensures
        longest_first(*state, r@),
        forall|i: int| 0 <= i < r@.len() ==> #[trigger] r@[i] < state.drvs().len(),
{
    let mut v = keys_below(&state.full_summary.running_builds, state.next_derivation_id);
    proof {
        assert forall|i: int| 0 <= i < v@.len() implies state.full_summary@.running_builds.contains_key(
            #[trigger] v@[i],
        ) by {
            assert(v@.to_set().contains(v@[i]));
        }
    }
    let ghost before = v@;
    sort_by_start(state, &mut v);
    proof {
        lemma_same_multiset_no_dup_keys(before, v@);
        assert forall|i: int| 0 <= i < v@.len() implies #[trigger] v@[i] < state.drvs().len() by {
            assert(v@.to_set().contains(v@[i]));
            assert(before.to_set().contains(v@[i]));
        }
    }
    v
}

/// The greatest byte length of the names of store paths `ks`.
fn longest_path_name(state: &State, ks: &Vec<usize>) -> (m: usize)
    requires
        state.wf(),
        ks@.to_set() == known_downloads(*state),
    ensures
        forall|k: usize| #[trigger] known_downloads(*state).contains(k) ==> byte_len(path_name(*state, k)) <= m,
        m == 0 || exists|k: usize| #[trigger] known_downloads(*state).contains(k) && byte_len(path_name(*state, k)) == m,
{
    let mut m: usize = 0;
    let mut i: usize = 0;
    while i < ks.len()
        invariant
            i <= ks@.len(),
            state.wf(),
            ks@.to_set() == known_downloads(*state),
            forall|j: int| 0 <= j < i ==> byte_len(path_name(*state, #[trigger] ks@[j])) <= m,
            m == 0 || exists|j: int| 0 <= j < i && byte_len(path_name(*state, #[trigger] ks@[j])) == m,
        decreases ks@.len() - i,
    {
        assert(ks@.to_set().contains(ks@[i as int]));
        let l = state.get_store_path_info(ks[i]).unwrap().name.name.as_str().as_bytes().len();
        assert(byte_len(path_name(*state, ks@[i as int])) == l);
        if l > m {
            m = l;
        }
        i += 1;
    }
    proof {
        assert forall|k: usize| #[trigger] known_downloads(*state).contains(k) implies byte_len(path_name(*state, k)) <= m by {
            assert(ks@.to_set().contains(k));
            let j = choose|j: int| 0 <= j < ks@.len() && ks@[j] == k;
        }
        if m != 0 {
            let j = choose|j: int| 0 <= j < ks@.len() && byte_len(path_name(*state, #[trigger] ks@[j])) == m;
            assert(ks@.to_set().contains(ks@[j]));
        }
    }
    m
}

/// Only one length is the greatest.
proof fn lemma_widest_unique(st: State, a: nat, b: nat)
    requires
        is_widest(st, a),
        is_widest(st, b),
    ensures
        a == b,
{
    if a != 0 {
        if exists|k: usize| #[trigger] known_running(st).contains(k) && byte_len(drv_name(st, k)) == a {
            let k = choose|k: usize| #[trigger] known_running(st).contains(k) && byte_len(drv_name(st, k)) == a;
            assert(a <= b);
        } else {
            let k = choose|k: usize| #[trigger] known_downloads(st).contains(k) && byte_len(path_name(st, k)) == a;
            assert(a <= b);
        }
    }
    if b != 0 {
        if exists|k: usize| #[trigger] known_running(st).contains(k) && byte_len(drv_name(st, k)) == b {
            let k = choose|k: usize| #[trigger] known_running(st).contains(k) && byte_len(drv_name(st, k)) == b;
            assert(b <= a);
        } else {
            let k = choose|k: usize| #[trigger] known_downloads(st).contains(k) && byte_len(path_name(st, k)) == b;
            assert(b <= a);
        }
    }
}

/// Whether a name can be cut to `w` bytes.
fn name_cuttable(name: &str, w: usize) -> (r: bool)
    ensures
        r == cuttable(name@, w as nat),
{
    name.as_bytes().len() <= w || (w >= 1 && name.is_char_boundary(w - 1))
}

/// Whether every name of the store paths `ks` can be cut to `w` bytes.
fn path_names_cuttable(state: &State, ks: &Vec<usize>, w: usize) -> (r: bool)
    requires
        state.wf(),
        forall|j: int| 0 <= j < ks@.len() ==> #[trigger] ks@[j] < state.paths().len(),
    ensures
        r == forall|j: int| 0 <= j < ks@.len() ==> cuttable(path_name(*state, #[trigger] ks@[j]), w as nat),
{
    let mut i: usize = 0;
    while i < ks.len()
        invariant
            i <= ks@.len(),
            state.wf(),
            forall|j: int| 0 <= j < ks@.len() ==> #[trigger] ks@[j] < state.paths().len(),
            forall|j: int| 0 <= j < i ==> cuttable(path_name(*state, #[trigger] ks@[j]), w as nat),
        decreases ks@.len() - i,
    {
        if !name_cuttable(state.get_store_path_info(ks[i]).unwrap().name.name.as_str(), w) {
            return false;
        }
        i += 1;
    }
    true
}

/// Whether every name of the derivations `bs` can be cut to `w` bytes.
fn drv_names_cuttable(state: &State, bs: &Vec<usize>, w: usize) -> (r: bool)
    requires
        state.wf(),
        forall|j: int| 0 <= j < bs@.len() ==> #[trigger] bs@[j] < state.drvs().len(),
    ensures
        r == forall|j: int| 0 <= j < bs@.len() ==> cuttable(drv_name(*state, #[trigger] bs@[j]), w as nat),
{
    let mut i: usize = 0;
    while i < bs.len()
        invariant
            i <= bs@.len(),
            state.wf(),
            forall|j: int| 0 <= j < bs@.len() ==> #[trigger] bs@[j] < state.drvs().len(),
            forall|j: int| 0 <= j < i ==> cuttable(drv_name(*state, #[trigger] bs@[j]), w as nat),
        decreases bs@.len() - i,
    {
        if !name_cuttable(state.get_derivation_info(bs[i]).unwrap().name.name.as_str(), w) {
            return false;
        }
        i += 1;
    }
    true
}

/// The parts of the rows and the column width of the table legend.
struct TableRows {
    bs: Vec<usize>,
    ds: Vec<usize>,
    us: Vec<usize>,
    w: usize,
}

/// The running builds (longest running first), downloads and uploads the
/// table legend lists, and its column width.
fn table_rows(state: &State) -> (r: (TableRows, Ghost<nat>))
    requires
        state.wf(),
    ensures
        longest_first(*state, r.0.bs@),
        forall|i: int| 0 <= i < r.0.bs@.len() ==> #[trigger] r.0.bs@[i] < state.drvs().len(),
        transfer_keys(*state, state.full_summary@.running_downloads, r.0.ds@),
        transfer_keys(*state, state.full_summary@.running_uploads, r.0.us@),
        is_widest(*state, r.1@),
        r.0.w == name_width(r.1@),
{
    let bs = running_longest_first(state);
    let m1 = longest_name(state, &bs);
    let ds = keys_below(&state.full_summary.running_downloads, state.next_store_path_id);
    let us = keys_below(&state.full_summary.running_uploads, state.next_store_path_id);
    let m2 = longest_path_name(state, &ds);
    let m = if m1 < m2 { m2 } else { m1 };
    let w: usize = if m < 48 { m } else { 48 };
    proof {
        if m1 != 0 && m == m1 {
            let k = choose|k: usize| #[trigger] known_running(*state).contains(k) && byte_len(drv_name(*state, k)) == m1;
        }
        if m2 != 0 && m == m2 {
            let k = choose|k: usize| #[trigger] known_downloads(*state).contains(k) && byte_len(path_name(*state, k)) == m2;
        }
    }
    (TableRows { bs, ds, us, w }, Ghost(m as nat))
}

impl Display {
    /// Whether every name the rows of the table legend would show can be cut
    /// to its column width.
    pub fn table_legend_fits(&self, state: &State) -> (r: bool)
        requires
            state.wf(),
        ensures
            r == table_fits(*state),
    {
        let (t, Ghost(m)) = table_rows(state);
        proof {
            assert forall|j: int| 0 <= j < t.ds@.len() implies #[trigger] t.ds@[j] < state.paths().len() by {
                assert(t.ds@.to_set().contains(t.ds@[j]));
            }
            assert forall|j: int| 0 <= j < t.us@.len() implies #[trigger] t.us@[j] < state.paths().len() by {
                assert(t.us@.to_set().contains(t.us@[j]));
            }
        }
        let a = drv_names_cuttable(state, &t.bs, t.w);
        let b = path_names_cuttable(state, &t.ds, t.w);
        let c = path_names_cuttable(state, &t.us, t.w);
        proof {
            let w = t.w as nat;
            if a && b && c {
                assert forall|k: usize| #[trigger] known_running(*state).contains(k) implies cuttable(drv_name(*state, k), w) by {
                    assert(t.bs@.to_set().contains(k));
                    let j = choose|j: int| 0 <= j < t.bs@.len() && t.bs@[j] == k;
                    assert(cuttable(drv_name(*state, t.bs@[j]), w));
                }
                assert forall|k: usize| #[trigger] known_downloads(*state).contains(k) implies cuttable(path_name(*state, k), w) by {
                    assert(t.ds@.to_set().contains(k));
                    let j = choose|j: int| 0 <= j < t.ds@.len() && t.ds@[j] == k;
                    assert(cuttable(path_name(*state, t.ds@[j]), w));
                }
                assert forall|k: usize| #[trigger] known_uploads(*state).contains(k) implies cuttable(path_name(*state, k), w) by {
                    assert(t.us@.to_set().contains(k));
                    let j = choose|j: int| 0 <= j < t.us@.len() && t.us@[j] == k;
                    assert(cuttable(path_name(*state, t.us@[j]), w));
                }
                assert(table_cuttable(*state, w));
            }
            if table_cuttable(*state, w) {
                assert forall|j: int| 0 <= j < t.bs@.len() implies cuttable(drv_name(*state, #[trigger] t.bs@[j]), w) by {
                    assert(t.bs@.to_set().contains(t.bs@[j]));
                    assert(known_running(*state).contains(t.bs@[j]));
                }
                assert forall|j: int| 0 <= j < t.ds@.len() implies cuttable(path_name(*state, #[trigger] t.ds@[j]), w) by {
                    assert(t.ds@.to_set().contains(t.ds@[j]));
                    assert(known_downloads(*state).contains(t.ds@[j]));
                }
                assert forall|j: int| 0 <= j < t.us@.len() implies cuttable(path_name(*state, #[trigger] t.us@[j]), w) by {
                    assert(t.us@.to_set().contains(t.us@[j]));
                    assert(known_uploads(*state).contains(t.us@[j]));
                }
            }
            assert forall|m2: nat| is_widest(*state, m2) implies m2 == m by {
                lemma_widest_unique(*state, m, m2);
            }
            assert(table_fits(*state) == table_cuttable(*state, w));
        }
        a && b && c
    }

    fn table_build_string(&self, state: &State, now: u64, w: usize, k: usize) -> (r: String)
        requires
            state.wf(),
            k < state.drvs().len(),
            state.full_summary@.running_builds.contains_key(k),
            cuttable(drv_name(*state, k), w as nat),
        ensures
            r@ == table_build_line(*self, *state, now, w as nat, k),
    {
        let b = state.full_summary.running_builds.get(&k).unwrap();
        let name = state.get_derivation_info(k).unwrap().name.name.as_str();
        let mut line = tx_string(self, "\u{2503}", Shade::Blue);
        line.append("  ");
        let icon = tx_string(self, self.config.icons.running, Shade::Yellow);
        line.append(icon.as_str());
        line.append(" ");
        let col = pad_right(truncate_name(name, w), w);
        line.append(col.as_str());
        line.append("  ");
        let c = tx_string(self, self.config.icons.clock, Shade::DarkGrey);
        line.append(c.as_str());
        line.append(" ");
        let e = format_duration(now.saturating_sub(b.start));
        let et = tx_string(self, e.as_str(), Shade::DarkGrey);
        line.append(et.as_str());
        let ghost l0 = line@;
        match &b.host {
            Host::Remote(h) => {
                line.append("  on ");
                let ht = tx_string(self, h.as_str(), Shade::Magenta);
                line.append(ht.as_str());
            },
            Host::Localhost => {},
        }
        proof {
            let bv = state.full_summary@.running_builds[k];
            assert(*b == bv);
            let host_label = match bv.host@ {
                HostView::Remote(h) => "  on "@ + tx(*self, h, Shade::Magenta),
                HostView::Localhost => Seq::empty(),
            };
            assert(line@ =~= l0 + host_label);
            assert(line@ =~= table_build_line(*self, *state, now, w as nat, k));
        }
        line
    }

    fn table_transfer_string(&self, state: &State, now: u64, w: usize, k: usize, upload: bool) -> (r: String)
        requires
            state.wf(),
            k < state.paths().len(),
            upload ==> state.full_summary@.running_uploads.contains_key(k),
            !upload ==> state.full_summary@.running_downloads.contains_key(k),
            cuttable(path_name(*state, k), w as nat),
        ensures
            upload ==> r@ == table_upload_line(*self, *state, now, w as nat, k),
            !upload ==> r@ == table_download_line(*self, *state, now, w as nat, k),
    {
        let t = if upload {
            state.full_summary.running_uploads.get(&k).unwrap()
        } else {
            state.full_summary.running_downloads.get(&k).unwrap()
        };
        let name = state.get_store_path_info(k).unwrap().name.name.as_str();
        let mut line = tx_string(self, "\u{2503}", Shade::Blue);
        line.append("  ");
        let icon = if upload {
            tx_string(self, self.config.icons.upload, Shade::Yellow)
        } else {
            tx_string(self, self.config.icons.download, Shade::Yellow)
        };
        line.append(icon.as_str());
        line.append(" ");
        let col = pad_right(truncate_name(name, w), w);
        line.append(col.as_str());
        line.append("  ");
        if !upload {
            let size = transfer_size_string(t);
            let st = tx_string(self, size.as_str(), Shade::DarkGrey);
            line.append(st.as_str());
            line.append(" ");
        }
        let c = tx_string(self, self.config.icons.clock, Shade::DarkGrey);
        line.append(c.as_str());
        line.append(" ");
        let e = format_duration(now.saturating_sub(t.start));
        let et = tx_string(self, e.as_str(), Shade::DarkGrey);
        line.append(et.as_str());
        line
    }

    /// The header of the table legend.
    fn legend_header_string(&self, state: &State, has_tree: bool) -> (r: String)
        ensures
            r@ == legend_header(*self, *state, has_tree),
    {
        let mut header_parts: Vec<String> = Vec::new();
        if shows_builds_exec(state) {
            header_parts.push(String::from_str("Builds"));
        }
        if shows_downloads_exec(state) {
            header_parts.push(String::from_str("Downloads"));
        }
        if shows_uploads_exec(state) {
            header_parts.push(String::from_str("Uploads"));
        }
        let mut out = if has_tree {
            tx_string(self, "\u{2523}\u{2501}\u{2501}\u{2501}", Shade::Blue)
        } else {
            tx_string(self, "\u{250f}\u{2501}\u{2501}\u{2501}", Shade::Blue)
        };
        out.append(" ");
        let j = join(&header_parts, "  ");
        out.append(j.as_str());
        assert(texts(header_parts@) =~= opt(shows_builds(*state), "Builds"@) + opt(shows_downloads(*state), "Downloads"@)
            + opt(shows_uploads(*state), "Uploads"@));
        out
    }

    /// A transfer column of the last line.
    fn transfer_sum_string(&self, icon: &str, running: usize, done: usize) -> (r: String)
        ensures
            r@ == transfer_sum(*self, icon@, running as nat, done as nat),
    {
        let mut ps: Vec<String> = Vec::new();
        if running > 0 {
            ps.push(count_part_string(self, self.config.icons.running, Shade::Yellow, running));
        }
        if done > 0 {
            ps.push(count_part_string(self, self.config.icons.done, Shade::Green, done));
        }
        let mut out = tx_string(self, icon, Shade::DarkGrey);
        out.append(" ");
        let j = join(&ps, " ");
        out.append(j.as_str());
        assert(texts(ps@) =~= opt(running > 0, count_part(*self, self.config.icons.running@, Shade::Yellow, running as nat)) + opt(
            done > 0,
            count_part(*self, self.config.icons.done@, Shade::Green, done as nat),
        ));
        out
    }

    /// The columns of the last line of the table legend.
    fn legend_sum_parts(&self, state: &State, now: u64) -> (r: Vec<String>)
        ensures
            texts(r@) == legend_sum(*self, *state, now),
    {
        let v = &state.full_summary;
        let mut parts: Vec<String> = if shows_builds_exec(state) {
            self.build_count_strings(state)
        } else {
            Vec::new()
        };
        if shows_downloads_exec(state) {
            parts.push(self.transfer_sum_string(self.config.icons.download, v.running_downloads.len(), v.completed_downloads.len()));
        }
        if shows_uploads_exec(state) {
            parts.push(self.transfer_sum_string(self.config.icons.upload, v.running_uploads.len(), v.completed_uploads.len()));
        }
        parts.push(self.clock_part_string(state, now));
        assert(texts(parts@) =~= legend_sum(*self, *state, now));
        parts
    }

    /// The table legend, below a tree when `has_tree`.
    pub fn render_table_legend(&self, state: &State, has_tree: bool, now: u64) -> (r: Vec<String>)
        requires
            state.wf(),
            !has_tree ==> table_fits(*state),
        ensures
            exists|bs: Seq<usize>, ds: Seq<usize>, us: Seq<usize>, m: nat|
                #![trigger longest_first(*state, bs), transfer_keys(*state, state.full_summary@.running_downloads, ds), transfer_keys(*state, state.full_summary@.running_uploads, us), is_widest(*state, m)]
                longest_first(*state, bs) && transfer_keys(*state, state.full_summary@.running_downloads, ds)
                    && transfer_keys(*state, state.full_summary@.running_uploads, us) && is_widest(*state, m)
                    && texts(r@) == table_legend(*self, *state, has_tree, now, bs, ds, us, name_width(m)),
    {
        let (t, Ghost(m)) = table_rows(state);
        let w = t.w;
        let mut lines: Vec<String> = Vec::new();
        if !shows_builds_exec(state) && !shows_downloads_exec(state) && !shows_uploads_exec(state) {
            assert(texts(lines@) =~= table_legend(*self, *state, has_tree, now, t.bs@, t.ds@, t.us@, w as nat));
            return lines;
        }
        let header = self.legend_header_string(state, has_tree);
        let ghost head_v = header@;
        lines.push(header);
        let ghost rows: Seq<Seq<char>> = Seq::empty();
        if !has_tree {
            proof {
                assert(table_cuttable(*state, w as nat));
            }
            let mut i: usize = 0;
            while i < t.bs.len()
                invariant
                    i <= t.bs@.len(),
                    state.wf(),
                    longest_first(*state, t.bs@),
                    forall|j: int| 0 <= j < t.bs@.len() ==> #[trigger] t.bs@[j] < state.drvs().len(),
                    table_cuttable(*state, w as nat),
                    texts(lines@) == seq![head_v] + Seq::new(i as nat, |j: int| table_build_line(*self, *state, now, w as nat, t.bs@[j])),
                decreases t.bs@.len() - i,
            {
                let k = t.bs[i];
                assert(t.bs@.to_set().contains(k));
                assert(known_running(*state).contains(k));
                let l = self.table_build_string(state, now, w, k);
                let ghost before = texts(lines@);
                lines.push(l);
                assert(texts(lines@) =~= before.push(l@));
                i += 1;
                assert(texts(lines@) =~= seq![head_v] + Seq::new(i as nat, |j: int| table_build_line(*self, *state, now, w as nat, t.bs@[j])));
            }
            let ghost mid = texts(lines@);
            let mut i: usize = 0;
            assert(texts(lines@) =~= mid + Seq::new(0, |j: int| table_download_line(*self, *state, now, w as nat, t.ds@[j])));
            while i < t.ds.len()
                invariant
                    i <= t.ds@.len(),
                    state.wf(),
                    transfer_keys(*state, state.full_summary@.running_downloads, t.ds@),
                    table_cuttable(*state, w as nat),
                    texts(lines@) == mid + Seq::new(i as nat, |j: int| table_download_line(*self, *state, now, w as nat, t.ds@[j])),
                decreases t.ds@.len() - i,
            {
                let k = t.ds[i];
                assert(t.ds@.to_set().contains(k));
                assert(known_downloads(*state).contains(k));
                let l = self.table_transfer_string(state, now, w, k, false);
                let ghost before = texts(lines@);
                lines.push(l);
                assert(texts(lines@) =~= before.push(l@));
                i += 1;
                assert(texts(lines@) =~= mid + Seq::new(i as nat, |j: int| table_download_line(*self, *state, now, w as nat, t.ds@[j])));
            }
            let ghost mid2 = texts(lines@);
            let mut i: usize = 0;
            assert(texts(lines@) =~= mid2 + Seq::new(0, |j: int| table_upload_line(*self, *state, now, w as nat, t.us@[j])));
            while i < t.us.len()
                invariant
                    i <= t.us@.len(),
                    state.wf(),
                    transfer_keys(*state, state.full_summary@.running_uploads, t.us@),
                    table_cuttable(*state, w as nat),
                    texts(lines@) == mid2 + Seq::new(i as nat, |j: int| table_upload_line(*self, *state, now, w as nat, t.us@[j])),
                decreases t.us@.len() - i,
            {
                let k = t.us[i];
                assert(t.us@.to_set().contains(k));
                assert(known_uploads(*state).contains(k));
                let l = self.table_transfer_string(state, now, w, k, true);
                let ghost before = texts(lines@);
                lines.push(l);
                assert(texts(lines@) =~= before.push(l@));
                i += 1;
                assert(texts(lines@) =~= mid2 + Seq::new(i as nat, |j: int| table_upload_line(*self, *state, now, w as nat, t.us@[j])));
            }
            proof {
                rows = Seq::new(t.bs@.len(), |j: int| table_build_line(*self, *state, now, w as nat, t.bs@[j]))
                    + Seq::new(t.ds@.len(), |j: int| table_download_line(*self, *state, now, w as nat, t.ds@[j]))
                    + Seq::new(t.us@.len(), |j: int| table_upload_line(*self, *state, now, w as nat, t.us@[j]));
                assert(texts(lines@) =~= seq![head_v] + rows);
            }
        } else {
            assert(texts(lines@) =~= seq![head_v] + rows);
        }
        let sum_parts = self.legend_sum_parts(state, now);
        let mut last = tx_string(self, "\u{2517}\u{2501}", Shade::Blue);
        last.append(" ");
        let sg = tx_string(self, self.config.icons.summary, Shade::DarkGrey);
        last.append(sg.as_str());
        last.append(" ");
        let j = join(&sum_parts, " \u{2502} ");
        last.append(j.as_str());
        let ghost before = texts(lines@);
        lines.push(last);
        proof {
            assert(texts(lines@) =~= before.push(last@));
            assert(texts(lines@) =~= table_legend(*self, *state, has_tree, now, t.bs@, t.ds@, t.us@, w as nat));
        }
        lines
    }
}

/// The middle lines of the full summary: builds done and failed, downloads
/// fetched, uploads pushed and nix errors, each when there are any.
pub open spec fn full_counts(d: Display, st: State) -> Seq<Seq<char>> {
    let v = st.full_summary@;
    let completed = v.completed_builds.len();
    let failed = v.failed_builds.len();
    let total_dl = v.completed_downloads.len() + v.running_downloads.len();
    let total_ul = v.completed_uploads.len() + v.running_uploads.len();
    let errs = st.nix_errors@.len();
    let bar = tx(d, "\u{2503}"@, Shade::Blue);
    let builds = opt(completed > 0, tx(d, d.config.icons.done@, Shade::Green) + " "@ + decimal(completed)
        + " built"@) + opt(failed > 0, tx(d, d.config.icons.failed@, Shade::Red) + " "@ + decimal(failed)
        + " failed"@);
    opt(completed > 0 || failed > 0, bar + "  Builds:     "@ + joined(builds, "  "@)) + opt(
        total_dl > 0,
        bar + "  Downloads:  "@ + tx(d, decimal(total_dl), Shade::Green) + " fetched"@,
    ) + opt(total_ul > 0, bar + "  Uploads:    "@ + tx(d, decimal(total_ul), Shade::Green) + " pushed"@)
        + opt(errs > 0, bar + "  "@ + tx(d, "\u{26a0}"@, Shade::Red) + " "@ + decimal(errs) + " nix error(s)"@)
}

/// The last line of the full summary: how the run ended, at `at`, after how
/// long.
pub open spec fn full_last(d: Display, st: State, now: u64, at: Seq<char>) -> Seq<char> {
    let finish_label = if st.full_summary@.failed_builds.len() > 0 || st.nix_errors@.len() > 0 {
        tx(d, "Exited at "@ + at, Shade::Red)
    } else {
        tx(d, "Finished at "@ + at, Shade::Green)
    };
    tx(d, "\u{2517}\u{2501}"@, Shade::Blue) + " "@ + finish_label + " after "@ + tx(
        d,
        ms_text(since(now, st.start_time)),
        Shade::DarkGrey,
    )
}

/// The full summary: a title, the counts of what was done, then how the run
/// ended, at `at`, after how long.
pub open spec fn full_summary(d: Display, st: State, now: u64, at: Seq<char>) -> Seq<Seq<char>> {
    seq![tx(d, "\u{250f}\u{2501}\u{2501}\u{2501}"@, Shade::Blue) + " Build Summary"@] + full_counts(d, st)
        + seq![full_last(d, st, now, at)]
}

/// A count of something, after an icon in a color.
fn count_line(d: &Display, icon: &str, s: Shade, n: usize, what: &str) -> (r: String)
    ensures
        r@ == tx(*d, icon@, s) + " "@ + decimal(n as nat) + what@,
{
    let mut out = tx_string(d, icon, s);
    out.append(" ");
    let c = decimal_string(n as u128);
    out.append(c.as_str());
    out.append(what);
    out
}

/// A line of the full summary: the bar, a label and a number in green.
fn total_line(d: &Display, bar: &String, label: &str, n: u128, what: &str) -> (r: String)
    ensures
        r@ == bar@ + label@ + tx(*d, decimal(n as nat), Shade::Green) + what@,
{
    let mut l = bar.clone();
    l.append(label);
    let s = decimal_string(n);
    let t = tx_string(d, s.as_str(), Shade::Green);
    l.append(t.as_str());
    l.append(what);
    l
}

/// Adds a line when the condition holds.
fn push_if(lines: &mut Vec<String>, c: bool, l: String)
    ensures
        texts(final(lines)@) == texts(old(lines)@) + opt(c, l@),
{
    let ghost before = texts(lines@);
    if c {
        lines.push(l);
        assert(texts(lines@) =~= before + opt(c, l@));
    } else {
        assert(texts(lines@) =~= before + opt(c, l@));
    }
}

impl Display {
    fn builds_line(&self, state: &State, bar: &String) -> (r: String)
        ensures
            r@ == bar@ + "  Builds:     "@ + joined(
                opt(state.full_summary@.completed_builds.len() > 0, tx(*self, self.config.icons.done@, Shade::Green) + " "@ + decimal(state.full_summary@.completed_builds.len())
                    + " built"@) + opt(state.full_summary@.failed_builds.len() > 0, tx(*self, self.config.icons.failed@, Shade::Red) + " "@ + decimal(state.full_summary@.failed_builds.len())
                    + " failed"@),
                "  "@,
            ),
    {
        let completed = state.full_summary.completed_builds.len();
        let failed = state.full_summary.failed_builds.len();
        let mut bp: Vec<String> = Vec::new();
        if completed > 0 {
            bp.push(count_line(self, self.config.icons.done, Shade::Green, completed, " built"));
        }
        if failed > 0 {
            bp.push(count_line(self, self.config.icons.failed, Shade::Red, failed, " failed"));
        }
        let mut l = bar.clone();
        l.append("  Builds:     ");
        let j = join(&bp, "  ");
        l.append(j.as_str());
        proof {
            let v = state.full_summary@;
            assert(texts(bp@) =~= opt(completed > 0, tx(*self, self.config.icons.done@, Shade::Green) + " "@ + decimal(v.completed_builds.len())
                + " built"@) + opt(failed > 0, tx(*self, self.config.icons.failed@, Shade::Red) + " "@ + decimal(v.failed_builds.len())
                + " failed"@));
        }
        l
    }

    fn full_count_lines(&self, state: &State, lines: &mut Vec<String>)
        ensures
            texts(final(lines)@) == texts(old(lines)@) + full_counts(*self, *state),
    {
        let completed = state.full_summary.completed_builds.len();
        let failed = state.full_summary.failed_builds.len();
        let total_dl = state.full_summary.completed_downloads.len() as u128
            + state.full_summary.running_downloads.len() as u128;
        let total_ul = state.full_summary.completed_uploads.len() as u128
            + state.full_summary.running_uploads.len() as u128;
        let errs = state.nix_errors.len();
        let bar = tx_string(self, "\u{2503}", Shade::Blue);
        let ghost l0 = texts(lines@);
        let bl = self.builds_line(state, &bar);
        let ghost a = bl@;
        push_if(lines, completed > 0 || failed > 0, bl);
        let dl = total_line(self, &bar, "  Downloads:  ", total_dl, " fetched");
        let ghost b = dl@;
        push_if(lines, total_dl > 0, dl);
        let ul = total_line(self, &bar, "  Uploads:    ", total_ul, " pushed");
        let ghost c = ul@;
        push_if(lines, total_ul > 0, ul);
        let mut el = bar.clone();
        el.append("  ");
        let w = count_line(self, "\u{26a0}", Shade::Red, errs, " nix error(s)");
        el.append(w.as_str());
        let ghost e = el@;
        push_if(lines, errs > 0, el);
        proof {
            let d = *self;
            let bv = tx(d, "\u{2503}"@, Shade::Blue);
            assert(e =~= bv + "  "@ + tx(d, "\u{26a0}"@, Shade::Red) + " "@ + decimal(errs as nat) + " nix error(s)"@);
            assert(texts(lines@) =~= l0 + (opt(completed > 0 || failed > 0, a) + opt(total_dl > 0, b) + opt(total_ul > 0, c) + opt(errs > 0, e)));
            assert(texts(lines@) =~= l0 + full_counts(*self, *state));
        }
    }

    /// The full summary of a run that ended at the clock text `at`.
    pub fn render_full_summary(&self, state: &State, now: u64, at: &str) -> (r: Vec<String>)
        ensures
            texts(r@) == full_summary(*self, *state, now, at@),
    {
        let mut lines: Vec<String> = Vec::new();
        let mut head = tx_string(self, "\u{250f}\u{2501}\u{2501}\u{2501}", Shade::Blue);
        head.append(" Build Summary");
        lines.push(head);
        self.full_count_lines(state, &mut lines);
        let ghost l4 = texts(lines@);
        let mut fin = if state.full_summary.failed_builds.len() > 0 || state.nix_errors.len() > 0 {
            String::from_str("Exited at ")
        } else {
            String::from_str("Finished at ")
        };
        fin.append(at);
        let label = if state.full_summary.failed_builds.len() > 0 || state.nix_errors.len() > 0 {
            tx_string(self, fin.as_str(), Shade::Red)
        } else {
            tx_string(self, fin.as_str(), Shade::Green)
        };
        let mut last = tx_string(self, "\u{2517}\u{2501}", Shade::Blue);
        last.append(" ");
        last.append(label.as_str());
        last.append(" after ");
        let dur = format_duration(now.saturating_sub(state.start_time));
        let dt = tx_string(self, dur.as_str(), Shade::DarkGrey);
        last.append(dt.as_str());
        let ghost last_v = last@;
        lines.push(last);
        proof {
            assert(last_v =~= full_last(*self, *state, now, at@));
            assert(texts(lines@) =~= l4.push(last_v));
            assert(texts(lines@) =~= full_summary(*self, *state, now, at@));
        }
        lines
    }
}

/// A rule of 44 box-drawing dashes.
pub open spec fn rule() -> Seq<char> {
    Seq::new(44, |i: int| '\u{2500}')
}

fn rule_string() -> (r: String)
    ensures
        r@ == rule(),
{
    let mut v: Vec<char> = Vec::new();
    let mut i: usize = 0;
    while i < 44
        invariant
            i <= 44,
            v@ == Seq::new(i as nat, |j: int| '\u{2500}'),
        decreases 44 - i,
    {
        v.push('\u{2500}');
        i += 1;
        assert(v@ =~= Seq::new(i as nat, |j: int| '\u{2500}'));
    }
    string_from_chars(v.as_slice())
}

/// The derivation the dashboard is about: the first root of the forest.
pub open spec fn primary(st: State) -> Option<crate::state::DerivationInfo> {
    if st.forest_roots@.len() > 0 && st.forest_roots@[0] < st.drvs().len() {
        Some(st.drvs()[st.forest_roots@[0] as int])
    } else {
        None
    }
}

/// The host the live dashboard names: that of one of the running builds, or
/// when none runs, of one of the builds done, else `localhost`.
pub open spec fn live_host(st: State, h: Seq<char>) -> bool {
    let v = st.full_summary@;
    if v.running_builds.len() > 0 {
        hosts_in(v.running_builds).contains(h)
    } else if v.completed_builds.len() > 0 {
        hosts_in(v.completed_builds).contains(h)
    } else {
        h == "localhost"@
    }
}

/// The host the final dashboard names: that of one of the builds done, else
/// `localhost`.
pub open spec fn final_host(st: State, h: Seq<char>) -> bool {
    let v = st.full_summary@;
    if v.completed_builds.len() > 0 {
        hosts_in(v.completed_builds).contains(h)
    } else {
        h == "localhost"@
    }
}

/// The dashboard lines for the derivation named `name`, on host `h`, with
/// the status text, the jobs counted and the time since the start.
pub open spec fn dashboard_lines(
    name: Seq<char>,
    h: Seq<char>,
    status: Seq<char>,
    jobs: nat,
    completed: nat,
    failed: nat,
    dur: Seq<char>,
) -> Seq<Seq<char>> {
    seq![
        "BUILD GRAPH: "@ + name,
        rule(),
        "Host        \u{2502} "@ + h,
        "Status      \u{2502} "@ + status,
        "Duration    \u{2502} "@ + dur,
        rule(),
        "Summary     \u{2502} jobs="@ + decimal(jobs) + "  ok="@ + decimal(completed) + "  failed="@
            + decimal(failed) + "  total="@ + dur,
    ]
}

/// The live dashboard: the first root, a host, the status (building, failed,
/// success or planned), the time since the start (in tenths of seconds) and
/// the jobs; nothing without a root.
pub open spec fn dashboard_view(d: Display, st: State, now: u64, h: Seq<char>) -> Seq<Seq<char>> {
    let v = st.full_summary@;
    let running = v.running_builds.len();
    let completed = v.completed_builds.len();
    let failed = v.failed_builds.len();
    match primary(st) {
        None => Seq::empty(),
        Some(info) => {
            let status = if running > 0 {
                tx(d, d.config.icons.running@, Shade::Yellow) + " building"@
            } else if failed > 0 {
                tx(d, d.config.icons.failed@, Shade::Red) + " failed"@
            } else if completed > 0 {
                tx(d, d.config.icons.done@, Shade::Green) + " success"@
            } else {
                tx(d, d.config.icons.planned@, Shade::Grey) + " planned"@
            };
            dashboard_lines(
                info.name.name@,
                h,
                status,
                running + completed + failed,
                completed,
                failed,
                tenths_text(since(now, st.start_time)),
            )
        },
    }
}

/// The final dashboard: the first root, a host, the status (failed, success
/// or unknown), the time since the start (in tenths of seconds) and the jobs;
/// nothing without a root.
pub open spec fn dashboard_final(d: Display, st: State, now: u64, h: Seq<char>) -> Seq<Seq<char>> {
    let v = st.full_summary@;
    let completed = v.completed_builds.len();
    let failed = v.failed_builds.len();
    match primary(st) {
        None => Seq::empty(),
        Some(info) => {
            let status = if failed > 0 {
                tx(d, d.config.icons.failed@, Shade::Red) + " failed"@
            } else if completed > 0 {
                tx(d, d.config.icons.done@, Shade::Green) + " success"@
            } else {
                "unknown"@
            };
            dashboard_lines(
                info.name.name@,
                h,
                status,
                completed + failed,
                completed,
                failed,
                tenths_text(since(now, st.start_time)),
            )
        },
    }
}

/// The name of the host of one entry of a table, or `localhost` for an
/// empty table.
fn some_host<V: OnHost>(m: &HashMap<usize, V>) -> (r: String)
    ensures
        m@.len() > 0 ==> hosts_in(m@).contains(r@),
        m@.len() == 0 ==> r@ == "localhost"@,
{
    let ks = map_keys(m);
    if ks.len() == 0 {
        proof {
            if m@.len() > 0 {
                let k = m@.dom().choose();
                assert(m@.dom().contains(k));
                assert(ks@.to_set().contains(k));
            }
        }
        return String::from_str("localhost");
    }
    let k = ks[0];
    assert(ks@.to_set().contains(k));
    match m.get(&k) {
        Some(v) => {
            let h = v.host_ref().name();
            proof {
                assert(m@.dom().contains(k));
                assert(host_of(m@)(k) == h@);
                assert(hosts_in(m@).contains(h@));
                vstd::set_lib::lemma_set_empty_equivalency_len(m@.dom());
            }
            String::from_str(h)
        },
        None => String::from_str("localhost"),
    }
}

/// The dashboard lines, built.
fn dashboard_strings(
    name: &str,
    h: &str,
    status: &str,
    jobs: u128,
    completed: usize,
    failed: usize,
    dur: &str,
) -> (r: Vec<String>)
    ensures
        texts(r@) == dashboard_lines(
            name@,
            h@,
            status@,
            jobs as nat,
            completed as nat,
            failed as nat,
            dur@,
        ),
{
    let mut lines: Vec<String> = Vec::new();
    let mut l1 = String::from_str("BUILD GRAPH: ");
    l1.append(name);
    lines.push(l1);
    lines.push(rule_string());
    let mut l3 = String::from_str("Host        \u{2502} ");
    l3.append(h);
    lines.push(l3);
    let mut l4 = String::from_str("Status      \u{2502} ");
    l4.append(status);
    lines.push(l4);
    let mut l5 = String::from_str("Duration    \u{2502} ");
    l5.append(dur);
    lines.push(l5);
    lines.push(rule_string());
    let mut l7 = String::from_str("Summary     \u{2502} jobs=");
    let j = decimal_string(jobs);
    l7.append(j.as_str());
    l7.append("  ok=");
    let c = decimal_string(completed as u128);
    l7.append(c.as_str());
    l7.append("  failed=");
    let f = decimal_string(failed as u128);
    l7.append(f.as_str());
    l7.append("  total=");
    l7.append(dur);
    lines.push(l7);
    assert(texts(lines@) =~= dashboard_lines(
        name@,
        h@,
        status@,
        jobs as nat,
        completed as nat,
        failed as nat,
        dur@,
    ));
    lines
}

impl Display {
    /// The name of the first root of the forest, if it is a known derivation.
    fn primary_name(&self, state: &State) -> (r: Option<String>)
        requires
            state.wf(),
        ensures
            match primary(*state) {
                Some(info) => r matches Some(n) && n@ == info.name.name@,
                None => r is None,
            },
    {
        if state.forest_roots.len() == 0 {
            return None;
        }
        match state.get_derivation_info(state.forest_roots[0]) {
            Some(info) => Some(info.name.name.clone()),
            None => None,
        }
    }

    /// The live dashboard.
    pub fn render_dashboard_view(&self, state: &State, now: u64) -> (r: Vec<String>)
        requires
            state.wf(),
        ensures
            exists|h: Seq<char>| live_host(*state, h) && texts(r@) == dashboard_view(*self, *state, now, h),
    {
        let host = if state.full_summary.running_builds.len() > 0 {
            some_host(&state.full_summary.running_builds)
        } else {
            some_host(&state.full_summary.completed_builds)
        };
        let name = match self.primary_name(state) {
            Some(n) => n,
            None => {
                let r: Vec<String> = Vec::new();
                assert(live_host(*state, host@));
                assert(texts(r@) =~= dashboard_view(*self, *state, now, host@));
                return r;
            },
        };
        let running = state.full_summary.running_builds.len();
        let completed = state.full_summary.completed_builds.len();
        let failed = state.full_summary.failed_builds.len();
        let status = if running > 0 {
            let mut t = tx_string(self, self.config.icons.running, Shade::Yellow);
            t.append(" building");
            t
        } else if failed > 0 {
            let mut t = tx_string(self, self.config.icons.failed, Shade::Red);
            t.append(" failed");
            t
        } else if completed > 0 {
            let mut t = tx_string(self, self.config.icons.done, Shade::Green);
            t.append(" success");
            t
        } else {
            let mut t = tx_string(self, self.config.icons.planned, Shade::Grey);
            t.append(" planned");
            t
        };
        let dur = tenths_string(now.saturating_sub(state.start_time));
        let jobs = running as u128 + completed as u128 + failed as u128;
        let r = dashboard_strings(name.as_str(), host.as_str(), status.as_str(), jobs, completed, failed, dur.as_str());
        assert(live_host(*state, host@));
        assert(texts(r@) == dashboard_view(*self, *state, now, host@));
        r
    }

    /// The final dashboard.
    pub fn render_dashboard_final(&self, state: &State, now: u64) -> (r: Vec<String>)
        requires
            state.wf(),
        ensures
            exists|h: Seq<char>| final_host(*state, h) && texts(r@) == dashboard_final(*self, *state, now, h),
    {
        let host = some_host(&state.full_summary.completed_builds);
        let name = match self.primary_name(state) {
            Some(n) => n,
            None => {
                let r: Vec<String> = Vec::new();
                assert(final_host(*state, host@));
                assert(texts(r@) =~= dashboard_final(*self, *state, now, host@));
                return r;
            },
        };
        let completed = state.full_summary.completed_builds.len();
        let failed = state.full_summary.failed_builds.len();
        let status = if failed > 0 {
            let mut t = tx_string(self, self.config.icons.failed, Shade::Red);
            t.append(" failed");
            t
        } else if completed > 0 {
            let mut t = tx_string(self, self.config.icons.done, Shade::Green);
            t.append(" success");
            t
        } else {
            String::from_str("unknown")
        };
        let dur = tenths_string(now.saturating_sub(state.start_time));
        let jobs = completed as u128 + failed as u128;
        let r = dashboard_strings(name.as_str(), host.as_str(), status.as_str(), jobs, completed, failed, dur.as_str());
        assert(final_host(*state, host@));
        assert(texts(r@) == dashboard_final(*self, *state, now, host@));
        r
    }
}

/// Is below `n`.
pub open spec fn below(n: nat) -> spec_fn(usize) -> bool {
    |k: usize| k < n
}

/// The keys of a table that are below `n`, each once.
fn keys_below<V>(m: &HashMap<usize, V>, n: usize) -> (r: Vec<usize>)
    ensures
        r@.no_duplicates(),
        r@.to_set() == m@.dom().filter(below(n as nat)),
{
    let ks = map_keys(m);
    let mut r: Vec<usize> = Vec::new();
    let mut i: usize = 0;
    while i < ks.len()
        invariant
            i <= ks@.len(),
            ks@.to_set() == m@.dom(),
            ks@.no_duplicates(),
            r@.no_duplicates(),
            r@.to_set() == ks@.take(i as int).to_set().filter(below(n as nat)),
        decreases ks@.len() - i,
    {
        let k = ks[i];
        proof {
            lemma_take_to_set(ks@, i as int);
        }
        let ghost before = r@;
        if k < n {
            r.push(k);
            proof {
                before.lemma_push_to_set_commute(k);
                assert(r@ =~= before.push(k));
                assert forall|a: int, b: int| 0 <= a < b < r@.len() implies r@[a] != r@[b] by {
                    if b == r@.len() - 1 {
                        assert(before.to_set().contains(r@[a]));
                    }
                }
            }
        }
        assert(r@.to_set() =~= ks@.take(i + 1).to_set().filter(below(n as nat)));
        i += 1;
    }
    assert(ks@.take(ks@.len() as int) =~= ks@);
    r
}

/// The name of derivation `k`.
pub open spec fn drv_name(st: State, k: usize) -> Seq<char> {
    st.drvs()[k as int].name.name@
}

/// The derivations `bs` in order of name (those of the same name in any
/// order).
pub open spec fn by_name(st: State, bs: Seq<usize>) -> bool {
    forall|i: int, j: int|
        0 <= i < j < bs.len() ==> !text_lt(drv_name(st, #[trigger] bs[j]), drv_name(st, #[trigger] bs[i]))
}

/// The running builds of known derivations, each once, in order of name.
pub open spec fn running_order(st: State, bs: Seq<usize>) -> bool {
    &&& bs.no_duplicates()
    &&& bs.to_set() == st.full_summary@.running_builds.dom().filter(below(st.drvs().len()))
    &&& by_name(st, bs)
}

/// The transfers of a table whose store paths are known, each once.
pub open spec fn transfer_keys(st: State, m: Map<usize, TransferInfo>, ks: Seq<usize>) -> bool {
    &&& ks.no_duplicates()
    &&& ks.to_set() == m.dom().filter(below(st.paths().len()))
}

proof fn lemma_text_le_trans(a: Seq<char>, b: Seq<char>, c: Seq<char>)
    requires
        !text_lt(b, a),
        !text_lt(c, b),
    ensures
        !text_lt(c, a),
{
    lemma_text_lt_total(a, b);
    lemma_text_lt_total(b, c);
    if text_lt(c, a) {
        if a == b {
        } else {
            assert(text_lt(a, b));
            lemma_text_lt_trans(c, a, b);
        }
    }
}

/// Sorts derivations by name, keeping the order of those of the same name.
fn sort_by_name(state: &State, v: &mut Vec<usize>)
    requires
        state.wf(),
        forall|i: int| 0 <= i < old(v)@.len() ==> #[trigger] old(v)@[i] < state.drvs().len(),
    ensures
        by_name(*state, final(v)@),
        final(v)@.to_multiset() == old(v)@.to_multiset(),
{
    broadcast use group_to_multiset_ensures;
    let n = v.len();
    if n == 0 {
        return;
    }
    let mut i: usize = 1;
    while i < n
        invariant
            1 <= i <= n,
            n == v@.len(),
            state.wf(),
            v@.to_multiset() == old(v)@.to_multiset(),
            forall|k: int| 0 <= k < v@.len() ==> #[trigger] v@[k] < state.drvs().len(),
            forall|a: int, b: int|
                0 <= a < b < i ==> !text_lt(drv_name(*state, #[trigger] v@[b]), drv_name(*state, #[trigger] v@[a])),
        decreases n - i,
    {
        let mut j = i;
        while j > 0 && text_less(
            state.get_derivation_info(v[j]).unwrap().name.name.as_str(),
            state.get_derivation_info(v[j - 1]).unwrap().name.name.as_str(),
        )
            invariant
                0 <= j <= i < n,
                n == v@.len(),
                state.wf(),
                v@.to_multiset() == old(v)@.to_multiset(),
                forall|k: int| 0 <= k < v@.len() ==> #[trigger] v@[k] < state.drvs().len(),
                forall|a: int, b: int|
                    0 <= a < b <= i && a != j && b != j ==> !text_lt(drv_name(*state, #[trigger] v@[b]), drv_name(*state, #[trigger] v@[a])),
                forall|b: int| j < b <= i ==> !text_lt(drv_name(*state, #[trigger] v@[b]), drv_name(*state, v@[j as int])),
            decreases j,
        {
            let x = v[j - 1];
            let y = v[j];
            let ghost before = v@;
            proof {
                lemma_text_lt_total(drv_name(*state, y), drv_name(*state, x));
            }
            v.set(j - 1, y);
            v.set(j, x);
            proof {
                broadcast use vstd::seq_lib::to_multiset_update;
                broadcast use vstd::multiset::group_multiset_axioms;
                let t1 = before.update(j - 1, y);
                assert(v@ =~= t1.update(j as int, x));
                assert(t1.to_multiset() == before.to_multiset().insert(y).remove(x));
                assert(t1.update(j as int, x).to_multiset() == t1.to_multiset().insert(x).remove(y));
                assert(before.to_multiset().count(x) > 0) by {
                    broadcast use group_to_multiset_ensures;
                    assert(before[j - 1] == x);
                    assert(before.contains(x));
                }
                assert(t1.update(j as int, x).to_multiset() =~= before.to_multiset());
                assert forall|b: int| j - 1 < b <= i implies !text_lt(drv_name(*state, #[trigger] v@[b]), drv_name(*state, v@[j - 1])) by {
                    if b > j {
                        assert(v@[b] == before[b]);
                    }
                }
                assert forall|a: int, b: int|
                    0 <= a < b <= i && a != j - 1 && b != j - 1 implies !text_lt(drv_name(*state, #[trigger] v@[b]), drv_name(*state, #[trigger] v@[a])) by {
                    if a == j {
                        assert(v@[b] == before[b]);
                        assert(!text_lt(drv_name(*state, before[b]), drv_name(*state, before[j - 1])));
                    } else if b == j {
                        assert(v@[a] == before[a]);
                        assert(!text_lt(drv_name(*state, before[j - 1]), drv_name(*state, before[a])));
                    } else {
                        assert(v@[a] == before[a]);
                        assert(v@[b] == before[b]);
                    }
                }
            }
            j -= 1;
        }
        proof {
            assert forall|a: int, b: int| 0 <= a < b < i + 1 implies !text_lt(drv_name(*state, #[trigger] v@[b]), drv_name(*state, #[trigger] v@[a])) by {
                if b == j && a < j - 1 {
                    lemma_text_le_trans(drv_name(*state, v@[a]), drv_name(*state, v@[j - 1]), drv_name(*state, v@[j as int]));
                }
            }
        }
        i += 1;
    }
}

/// The running builds of known derivations, each once, in order of name.
fn running_in_order(state: &State) -> (r: Vec<usize>)
    requires
        state.wf(),
    ensures
        running_order(*state, r@),
        forall|i: int| 0 <= i < r@.len() ==> #[trigger] r@[i] < state.drvs().len(),
{
    let mut v = keys_below(&state.full_summary.running_builds, state.next_derivation_id);
    proof {
        assert(state.next_derivation_id == state.drvs().len());
        assert forall|i: int| 0 <= i < v@.len() implies #[trigger] v@[i] < state.drvs().len() by {
            assert(v@.to_set().contains(v@[i]));
        }
    }
    let ghost before = v@;
    sort_by_name(state, &mut v);
    proof {
        lemma_same_multiset_no_dup_keys(before, v@);
        assert forall|i: int| 0 <= i < v@.len() implies #[trigger] v@[i] < state.drvs().len() by {
            assert(v@.to_set().contains(v@[i]));
            assert(before.to_set().contains(v@[i]));
        }
    }
    v
}

/// A list with the same elements as a list without duplicates has none.
proof fn lemma_same_multiset_no_dup_keys(a: Seq<usize>, b: Seq<usize>)
    requires
        a.no_duplicates(),
        a.to_multiset() == b.to_multiset(),
    ensures
        b.no_duplicates(),
        a.to_set() == b.to_set(),
{
    a.lemma_multiset_has_no_duplicates();
    b.lemma_multiset_has_no_duplicates_conv();
    assert forall|t: usize| a.to_set().contains(t) <==> b.to_set().contains(t) by {
        broadcast use group_to_multiset_ensures;
        assert(a.contains(t) <==> a.to_multiset().count(t) > 0);
        assert(b.contains(t) <==> b.to_multiset().count(t) > 0);
    }
    assert(a.to_set() =~= b.to_set());
}

/// `a - b`, or zero when `b` is larger.
pub open spec fn sat_sub(a: nat, b: nat) -> nat {
    if a >= b {
        (a - b) as nat
    } else {
        0
    }
}

/// The line of the plain view for running build `k`: its name, the time it
/// has run, the time its estimate leaves and its remote host, if any.
pub open spec fn plain_build_line(d: Display, st: State, now: u64, k: usize) -> Seq<char> {
    let b = st.full_summary@.running_builds[k];
    let elapsed = since(now, b.start);
    let suffix = match b.estimate {
        Some(est) => " "@ + tx(d, d.config.icons.estimate@, Shade::DarkGrey) + " "@ + tx(
            d,
            secs_text(sat_sub(est as nat, elapsed / 1000)),
            Shade::DarkGrey,
        ),
        None => Seq::empty(),
    };
    let host_label = match b.host@ {
        HostView::Remote(h) => " "@ + tx(d, h, Shade::Magenta),
        HostView::Localhost => Seq::empty(),
    };
    "  "@ + tx(d, d.config.icons.running@, Shade::Yellow) + " "@ + drv_name(st, k) + " "@ + tx(
        d,
        ms_text(elapsed),
        Shade::DarkGrey,
    ) + suffix + host_label
}

/// A running build with an estimate shows in the plain view, after its name
/// and the time it has run, the whole seconds its estimate leaves: the
/// estimate less the whole seconds it has run, and zero once the estimate has
/// passed.  (Here for a local build, which shows no host.)
pub proof fn law_plain_estimate_left(d: Display, st: State, now: u64, k: usize)
    requires
        st.full_summary@.running_builds.contains_key(k),
        st.full_summary@.running_builds[k].estimate is Some,
        st.full_summary@.running_builds[k].host@ == HostView::Localhost,
    ensures
        ({
            let b = st.full_summary@.running_builds[k];
            let e = b.estimate.unwrap() as int;
            let ms = since(now, b.start) as int;
            exists|left: nat|
                {
                    &&& left * 1000 + ms >= e * 1000
                    &&& left > 0 ==> left * 1000 + ms < (e + 1) * 1000
                    &&& plain_build_line(d, st, now, k) == "  "@ + tx(d, d.config.icons.running@, Shade::Yellow) + " "@
                        + drv_name(st, k) + " "@ + tx(d, ms_text(ms as nat), Shade::DarkGrey) + " "@ + tx(
                        d,
                        d.config.icons.estimate@,
                        Shade::DarkGrey,
                    ) + " "@ + tx(d, #[trigger] secs_text(left), Shade::DarkGrey)
                }
        }),
{
    let b = st.full_summary@.running_builds[k];
    let e = b.estimate.unwrap() as nat;
    let ms = since(now, b.start);
    let left = sat_sub(e, ms / 1000);
    assert(left * 1000 + ms >= e * 1000 && (left > 0 ==> left * 1000 + ms < (e + 1) * 1000)) by (nonlinear_arith)
        requires
            left == (if e >= ms / 1000 {
                (e - ms / 1000) as nat
            } else {
                0nat
            }),
            ms >= 0,
    {
        assert(ms == (ms / 1000) * 1000 + ms % 1000);
    }
    assert(plain_build_line(d, st, now, k) =~= "  "@ + tx(d, d.config.icons.running@, Shade::Yellow) + " "@
        + drv_name(st, k) + " "@ + tx(d, ms_text(ms), Shade::DarkGrey) + " "@ + tx(
        d,
        d.config.icons.estimate@,
        Shade::DarkGrey,
    ) + " "@ + tx(d, secs_text(left), Shade::DarkGrey));
}

/// The size text of a transfer: its progress when the total is known, else
/// the bytes done.
pub open spec fn transfer_size(t: TransferInfo) -> Seq<char> {
    match t.total_bytes {
        Some(total) => bytes_text(t.bytes_transferred as nat, total as nat),
        None => decimal(t.bytes_transferred as nat) + " B"@,
    }
}

/// The line of the plain view for a transfer of store path `k`.
pub open spec fn plain_transfer_line(
    d: Display,
    st: State,
    icon: Seq<char>,
    t: TransferInfo,
    k: usize,
) -> Seq<char> {
    "  "@ + tx(d, icon, Shade::Yellow) + " "@ + st.paths()[k as int].name.name@ + " "@ + tx(
        d,
        transfer_size(t),
        Shade::DarkGrey,
    )
}

/// The lines of the plain view for the running builds `bs`, in order.
pub open spec fn build_lines(d: Display, st: State, now: u64, bs: Seq<usize>) -> Seq<Seq<char>> {
    Seq::new(bs.len(), |i: int| plain_build_line(d, st, now, bs[i]))
}

/// The lines of the plain view for the transfers `ks` of a table, in order.
pub open spec fn transfer_lines(
    d: Display,
    st: State,
    icon: Seq<char>,
    m: Map<usize, TransferInfo>,
    ks: Seq<usize>,
) -> Seq<Seq<char>> {
    Seq::new(ks.len(), |i: int| plain_transfer_line(d, st, icon, m[ks[i]], ks[i]))
}

/// A time of `ms` milliseconds in seconds with one decimal (tenths cut, not
/// rounded), as `8.1s`.
pub open spec fn tenths_text(ms: nat) -> Seq<char> {
    decimal(ms / 1000) + "."@ + seq![digit_char((ms / 100) % 10)] + "s"@
}

/// The first line of the plain view: the planned builds, running downloads
/// and running uploads (each when there are any, with what they count), then
/// the time since the start in tenths of seconds.
pub open spec fn plain_summary(d: Display, st: State, now: u64) -> Seq<char> {
    let v = st.full_summary@;
    let p = v.planned_builds.len();
    let dl = v.running_downloads.len();
    let ul = v.running_uploads.len();
    let parts = opt(p > 0, counter(d, d.config.icons.planned@, Shade::Grey, p) + " planned"@) + opt(
        dl > 0,
        counter(d, d.config.icons.download@, Shade::Yellow, dl) + " downloading"@,
    ) + opt(ul > 0, counter(d, d.config.icons.upload@, Shade::Yellow, ul) + " uploading"@) + seq![
        tx(d, tenths_text(since(now, st.start_time)), Shade::DarkGrey),
    ];
    tx(d, "\u{2501}"@, Shade::Blue) + " "@ + tx(d, d.config.icons.clock@, Shade::DarkGrey) + " "@ + joined(parts, " "@)
}

/// The plain view: the summary line, then a line per running download and
/// per running upload (in the orders `ds`, `us`), then per running build in
/// order of name (`bs`).
pub open spec fn plain_view(
    d: Display,
    st: State,
    now: u64,
    bs: Seq<usize>,
    ds: Seq<usize>,
    us: Seq<usize>,
) -> Seq<Seq<char>> {
    let v = st.full_summary@;
    seq![plain_summary(d, st, now)] + transfer_lines(d, st, d.config.icons.download@, v.running_downloads, ds)
        + transfer_lines(d, st, d.config.icons.upload@, v.running_uploads, us) + build_lines(d, st, now, bs)
}

/// A time in tenths of seconds.
fn tenths_string(ms: u64) -> (r: String)
    ensures
        r@ == tenths_text(ms as nat),
{
    let mut out = decimal_string((ms / 1000) as u128);
    out.append(".");
    let c = digit_of((ms / 100) % 10);
    assert(digit_char(((ms / 100) % 10) as nat) == digit_char((ms / 100) as nat));
    push_char(&mut out, c);
    out.append("s");
    out
}

/// The size text of a transfer.
fn transfer_size_string(t: &TransferInfo) -> (r: String)
    ensures
        r@ == transfer_size(*t),
{
    match t.total_bytes {
        Some(total) => format_bytes(t.bytes_transferred, total),
        None => {
            let mut s = decimal_string(t.bytes_transferred as u128);
            s.append(" B");
            s
        },
    }
}

impl Display {
    fn plain_build_string(&self, state: &State, now: u64, k: usize) -> (r: String)
        requires
            state.wf(),
            k < state.drvs().len(),
            state.full_summary@.running_builds.contains_key(k),
        ensures
            r@ == plain_build_line(*self, *state, now, k),
    {
        let b = state.full_summary.running_builds.get(&k).unwrap();
        let name = &state.get_derivation_info(k).unwrap().name.name;
        let elapsed = now.saturating_sub(b.start);
        let mut line = String::from_str("  ");
        let icon = tx_string(self, self.config.icons.running, Shade::Yellow);
        line.append(icon.as_str());
        line.append(" ");
        line.append(name.as_str());
        line.append(" ");
        let e = format_duration(elapsed);
        let et = tx_string(self, e.as_str(), Shade::DarkGrey);
        line.append(et.as_str());
        let ghost l0 = line@;
        match b.estimate {
            Some(est) => {
                line.append(" ");
                let g = tx_string(self, self.config.icons.estimate, Shade::DarkGrey);
                line.append(g.as_str());
                line.append(" ");
                let rem = format_secs(est.saturating_sub(elapsed / 1000));
                let rt = tx_string(self, rem.as_str(), Shade::DarkGrey);
                line.append(rt.as_str());
            },
            None => {},
        }
        let ghost l1 = line@;
        match &b.host {
            Host::Remote(h) => {
                line.append(" ");
                let ht = tx_string(self, h.as_str(), Shade::Magenta);
                line.append(ht.as_str());
            },
            Host::Localhost => {},
        }
        proof {
            let bv = state.full_summary@.running_builds[k];
            assert(*b == bv);
            let suffix = match bv.estimate {
                Some(est) => " "@ + tx(*self, self.config.icons.estimate@, Shade::DarkGrey) + " "@ + tx(
                    *self,
                    secs_text(sat_sub(est as nat, since(now, bv.start) / 1000)),
                    Shade::DarkGrey,
                ),
                None => Seq::empty(),
            };
            assert(l1 =~= l0 + suffix);
            let host_label = match bv.host@ {
                HostView::Remote(h) => " "@ + tx(*self, h, Shade::Magenta),
                HostView::Localhost => Seq::empty(),
            };
            assert(line@ =~= l1 + host_label);
            assert(line@ =~= plain_build_line(*self, *state, now, k));
        }
        line
    }

    fn plain_transfer_string(&self, state: &State, icon: &str, t: &TransferInfo, k: usize) -> (r: String)
        requires
            state.wf(),
            k < state.paths().len(),
        ensures
            r@ == plain_transfer_line(*self, *state, icon@, *t, k),
    {
        let name = &state.get_store_path_info(k).unwrap().name.name;
        let mut line = String::from_str("  ");
        let it = tx_string(self, icon, Shade::Yellow);
        line.append(it.as_str());
        line.append(" ");
        line.append(name.as_str());
        line.append(" ");
        let size = transfer_size_string(t);
        let st = tx_string(self, size.as_str(), Shade::DarkGrey);
        line.append(st.as_str());
        line
    }

    fn push_transfer_lines(
        &self,
        state: &State,
        icon: &str,
        m: &HashMap<usize, TransferInfo>,
        lines: &mut Vec<String>,
    ) -> (ks: Ghost<Seq<usize>>)
        requires
            state.wf(),
        ensures
            ks@.no_duplicates(),
            ks@.to_set() == m@.dom().filter(below(state.paths().len())),
            texts(final(lines)@) == texts(old(lines)@) + transfer_lines(*self, *state, icon@, m@, ks@),
    {
        let keys = keys_below(m, state.next_store_path_id);
        let ghost start = texts(lines@);
        let mut i: usize = 0;
        assert(transfer_lines(*self, *state, icon@, m@, keys@.take(0)) =~= Seq::<Seq<char>>::empty());
        assert(texts(lines@) =~= start + transfer_lines(*self, *state, icon@, m@, keys@.take(0)));
        while i < keys.len()
            invariant
                i <= keys@.len(),
                state.wf(),
                keys@.to_set() == m@.dom().filter(below(state.paths().len())),
                texts(lines@) == start + transfer_lines(*self, *state, icon@, m@, keys@.take(i as int)),
            decreases keys@.len() - i,
        {
            let k = keys[i];
            assert(keys@.to_set().contains(k));
            let t = m.get(&k).unwrap();
            let l = self.plain_transfer_string(state, icon, t, k);
            let ghost before = texts(lines@);
            lines.push(l);
            proof {
                assert(texts(lines@) =~= before.push(l@));
                assert(transfer_lines(*self, *state, icon@, m@, keys@.take(i + 1)) =~= transfer_lines(*self, *state, icon@, m@, keys@.take(i as int)).push(plain_transfer_line(*self, *state, icon@, m@[k], k)));
            }
            i += 1;
        }
        assert(keys@.take(keys@.len() as int) =~= keys@);
        Ghost(keys@)
    }

    /// The first line of the plain view.
    fn plain_summary_string(&self, state: &State, now: u64) -> (r: String)
        ensures
            r@ == plain_summary(*self, *state, now),
    {
        let p = state.full_summary.planned_builds.len();
        let dl = state.full_summary.running_downloads.len();
        let ul = state.full_summary.running_uploads.len();
        let mut parts: Vec<String> = Vec::new();
        if p > 0 {
            let mut x = counter_string(self, self.config.icons.planned, Shade::Grey, p);
            x.append(" planned");
            parts.push(x);
        }
        if dl > 0 {
            let mut x = counter_string(self, self.config.icons.download, Shade::Yellow, dl);
            x.append(" downloading");
            parts.push(x);
        }
        if ul > 0 {
            let mut x = counter_string(self, self.config.icons.upload, Shade::Yellow, ul);
            x.append(" uploading");
            parts.push(x);
        }
        let t = tenths_string(now.saturating_sub(state.start_time));
        parts.push(tx_string(self, t.as_str(), Shade::DarkGrey));
        let mut out = tx_string(self, "\u{2501}", Shade::Blue);
        out.append(" ");
        let c = tx_string(self, self.config.icons.clock, Shade::DarkGrey);
        out.append(c.as_str());
        out.append(" ");
        let j = join(&parts, " ");
        out.append(j.as_str());
        proof {
            let v = state.full_summary@;
            let sp = opt(p > 0, counter(*self, self.config.icons.planned@, Shade::Grey, p as nat) + " planned"@) + opt(
                dl > 0,
                counter(*self, self.config.icons.download@, Shade::Yellow, dl as nat) + " downloading"@,
            ) + opt(ul > 0, counter(*self, self.config.icons.upload@, Shade::Yellow, ul as nat) + " uploading"@) + seq![
                tx(*self, tenths_text(since(now, state.start_time)), Shade::DarkGrey),
            ];
            assert(texts(parts@) =~= sp);
        }
        out
    }

    /// The plain view: the summary line, running downloads and uploads, and
    /// running builds.
    pub fn render_plain_view(&self, state: &State, now: u64) -> (r: Vec<String>)
        requires
            state.wf(),
        ensures
            exists|bs: Seq<usize>, ds: Seq<usize>, us: Seq<usize>|
                #![trigger running_order(*state, bs), transfer_keys(*state, state.full_summary@.running_downloads, ds), transfer_keys(*state, state.full_summary@.running_uploads, us)]
                running_order(*state, bs) && transfer_keys(*state, state.full_summary@.running_downloads, ds)
                    && transfer_keys(*state, state.full_summary@.running_uploads, us) && texts(r@)
                    == (if idle(*state) {
                    Seq::empty()
                } else {
                    plain_view(*self, *state, now, bs, ds, us)
                }),
    {
        let bs = running_in_order(state);
        let mut lines: Vec<String> = Vec::new();
        let first = self.plain_summary_string(state, now);
        lines.push(first);
        let ds = self.push_transfer_lines(state, self.config.icons.download, &state.full_summary.running_downloads, &mut lines);
        let us = self.push_transfer_lines(state, self.config.icons.upload, &state.full_summary.running_uploads, &mut lines);
        let ghost mid = texts(lines@);
        let mut i: usize = 0;
        assert(build_lines(*self, *state, now, bs@.take(0)) =~= Seq::<Seq<char>>::empty());
        assert(texts(lines@) =~= mid + build_lines(*self, *state, now, bs@.take(0)));
        while i < bs.len()
            invariant
                i <= bs@.len(),
                state.wf(),
                running_order(*state, bs@),
                forall|j: int| 0 <= j < bs@.len() ==> #[trigger] bs@[j] < state.drvs().len(),
                texts(lines@) == mid + build_lines(*self, *state, now, bs@.take(i as int)),
            decreases bs@.len() - i,
        {
            let k = bs[i];
            assert(bs@.to_set().contains(k));
            let l = self.plain_build_string(state, now, k);
            let ghost before = texts(lines@);
            lines.push(l);
            proof {
                assert(texts(lines@) =~= before.push(l@));
                assert(build_lines(*self, *state, now, bs@.take(i + 1)) =~= build_lines(*self, *state, now, bs@.take(i as int)).push(plain_build_line(*self, *state, now, k)));
            }
            i += 1;
        }
        assert(bs@.take(bs@.len() as int) =~= bs@);
        if state.full_summary.running_builds.len() == 0 && state.full_summary.completed_builds.len() == 0
            && state.full_summary.planned_builds.len() == 0
            && state.full_summary.running_downloads.len() == 0
            && state.full_summary.running_uploads.len() == 0 {
            lines = Vec::new();
        }
        proof {
            if !idle(*state) {
                assert(texts(lines@) =~= plain_view(*self, *state, now, bs@, ds@, us@));
            } else {
                assert(texts(lines@) =~= Seq::<Seq<char>>::empty());
            }
            assert(running_order(*state, bs@));
            assert(transfer_keys(*state, state.full_summary@.running_downloads, ds@));
            assert(transfer_keys(*state, state.full_summary@.running_uploads, us@));
        }
        lines
    }
}

/// The number of bytes of a text.
pub open spec fn byte_len(s: Seq<char>) -> nat {
    encode_utf8(s).len()
}

/// The running builds of known derivations.
pub open spec fn known_running(st: State) -> Set<usize> {
    st.full_summary@.running_builds.dom().filter(below(st.drvs().len()))
}

/// The running downloads of known store paths.
pub open spec fn known_downloads(st: State) -> Set<usize> {
    st.full_summary@.running_downloads.dom().filter(below(st.paths().len()))
}

/// The name of store path `k`.
pub open spec fn path_name(st: State, k: usize) -> Seq<char> {
    st.paths()[k as int].name.name@
}

/// `m` is the greatest byte length of the names of the running builds of
/// known derivations (zero when there are none).
pub open spec fn is_longest(st: State, m: nat) -> bool {
    &&& forall|k: usize| #[trigger] known_running(st).contains(k) ==> byte_len(drv_name(st, k)) <= m
    &&& (m == 0 || exists|k: usize| #[trigger] known_running(st).contains(k) && byte_len(drv_name(st, k)) == m)
}

/// The width of the name column of the verbose legend.
pub open spec fn name_width(m: nat) -> nat {
    if m < 48 {
        m
    } else {
        48
    }
}

/// Every name the verbose legend shows can be cut to width `w`.
pub open spec fn verbose_cuttable(st: State, w: nat) -> bool {
    &&& forall|k: usize| #[trigger] known_running(st).contains(k) ==> cuttable(drv_name(st, k), w)
    &&& forall|k: usize| #[trigger] known_downloads(st).contains(k) ==> cuttable(path_name(st, k), w)
}

/// The names the verbose legend shows can be cut to its column width.
pub open spec fn verbose_fits(st: State) -> bool {
    forall|m: nat| is_longest(st, m) ==> verbose_cuttable(st, name_width(m))
}

/// A text padded with spaces to `w` characters.
pub open spec fn padded_right(t: Seq<char>, w: nat) -> Seq<char> {
    if t.len() < w {
        t + Seq::new((w - t.len()) as nat, |i: int| ' ')
    } else {
        t
    }
}

/// The line of the verbose legend for running build `k`, its name in a
/// column `w` wide.
pub open spec fn verbose_build_line(d: Display, st: State, now: u64, w: nat, k: usize) -> Seq<char> {
    let b = st.full_summary@.running_builds[k];
    let host_label = match b.host@ {
        HostView::Remote(h) => "  "@ + tx(d, h, Shade::Magenta),
        HostView::Localhost => Seq::empty(),
    };
    tx(d, "\u{2503}"@, Shade::Blue) + "  "@ + tx(d, d.config.icons.running@, Shade::Yellow) + " "@ + padded_right(
        cut(drv_name(st, k), w),
        w,
    ) + "  "@ + tx(d, ms_text(since(now, b.start)), Shade::DarkGrey) + host_label
}

/// The line of the verbose legend for the download of store path `k`, its
/// name in a column `w` wide.
pub open spec fn verbose_download_line(d: Display, st: State, now: u64, w: nat, k: usize) -> Seq<char> {
    let t = st.full_summary@.running_downloads[k];
    tx(d, "\u{2503}"@, Shade::Blue) + "  "@ + tx(d, d.config.icons.download@, Shade::Yellow) + " "@ + padded_right(
        cut(path_name(st, k), w),
        w,
    ) + "  "@ + tx(d, transfer_size(t), Shade::DarkGrey) + " "@ + tx(
        d,
        ms_text(since(now, t.start)),
        Shade::DarkGrey,
    )
}

/// The counts of the verbose legend, each with what it counts: running,
/// completed, failed and planned builds, running downloads and uploads (each
/// when there are any), and the time since the start.
pub open spec fn verbose_parts(d: Display, st: State, now: u64) -> Seq<Seq<char>> {
    let v = st.full_summary@;
    let dl = v.running_downloads.len();
    let ul = v.running_uploads.len();
    let c = build_counts(d, st);
    seq![
        c[0] + " running"@,
        c[1] + " completed"@,
        c[2] + " failed"@,
        c[3] + " planned"@,
    ] + opt(dl > 0, counter(d, d.config.icons.download@, Shade::Yellow, dl) + " downloading"@) + opt(
        ul > 0,
        counter(d, d.config.icons.upload@, Shade::Yellow, ul) + " uploading"@,
    ) + seq![clock_part(d, st, now)]
}

/// The verbose legend: a `Build Summary:` header, then, when there is no tree
/// above, a line per running build in order of name and a line per running
/// download (in the order `ds`), names in a column `w` wide; last the counts
/// with words.  Nothing when nothing is going on.
pub open spec fn verbose_legend(
    d: Display,
    st: State,
    has_tree: bool,
    now: u64,
    bs: Seq<usize>,
    ds: Seq<usize>,
    w: nat,
) -> Seq<Seq<char>> {
    if idle(st) {
        Seq::empty()
    } else {
        let rows = if has_tree {
            Seq::empty()
        } else {
            Seq::new(bs.len(), |i: int| verbose_build_line(d, st, now, w, bs[i])) + Seq::new(
                ds.len(),
                |i: int| verbose_download_line(d, st, now, w, ds[i]),
            )
        };
        seq![tx(d, legend_corner(has_tree), Shade::Blue) + " Build Summary:"@] + rows + seq![
            tx(d, "\u{2517}\u{2501}"@, Shade::Blue) + " "@ + joined(verbose_parts(d, st, now), " \u{2502} "@),
        ]
    }
}

/// A text padded with spaces to `w` characters.
fn pad_right(t: String, w: usize) -> (r: String)
    ensures
        r@ == padded_right(t@, w as nat),
{
    let n = chars_of(t.as_str()).len();
    let mut out = t;
    let mut i = n;
    while i < w
        invariant
            n == t@.len(),
            n <= i <= w || (i == n && n >= w),
            out@ == t@ + Seq::new((i - n) as nat, |j: int| ' '),
        decreases w - i,
    {
        out.append(" ");
        proof {
            reveal_strlit(" ");
        }
        i += 1;
        assert(out@ =~= t@ + Seq::new((i - n) as nat, |j: int| ' '));
    }
    assert(n >= w ==> out@ =~= t@);
    out
}

/// The greatest byte length of the names of derivations `bs`.
fn longest_name(state: &State, bs: &Vec<usize>) -> (m: usize)
    requires
        state.wf(),
        forall|i: int| 0 <= i < bs@.len() ==> #[trigger] bs@[i] < state.drvs().len(),
        bs@.to_set() == known_running(*state),
    ensures
        is_longest(*state, m as nat),
{
    let mut m: usize = 0;
    let mut i: usize = 0;
    while i < bs.len()
        invariant
            i <= bs@.len(),
            state.wf(),
            forall|j: int| 0 <= j < bs@.len() ==> #[trigger] bs@[j] < state.drvs().len(),
            bs@.to_set() == known_running(*state),
            forall|j: int| 0 <= j < i ==> byte_len(drv_name(*state, #[trigger] bs@[j])) <= m,
            m == 0 || exists|j: int| 0 <= j < i && byte_len(drv_name(*state, #[trigger] bs@[j])) == m,
        decreases bs@.len() - i,
    {
        let l = state.get_derivation_info(bs[i]).unwrap().name.name.as_str().as_bytes().len();
        assert(byte_len(drv_name(*state, bs@[i as int])) == l);
        if l > m {
            m = l;
        }
        i += 1;
    }
    proof {
        assert forall|k: usize| #[trigger] known_running(*state).contains(k) implies byte_len(drv_name(*state, k)) <= m by {
            assert(bs@.to_set().contains(k));
            let j = choose|j: int| 0 <= j < bs@.len() && bs@[j] == k;
        }
        if m != 0 {
            let j = choose|j: int| 0 <= j < bs@.len() && byte_len(drv_name(*state, #[trigger] bs@[j])) == m;
            assert(bs@.to_set().contains(bs@[j]));
        }
    }
    m
}

/// Only one length is the greatest.
proof fn lemma_longest_unique(st: State, a: nat, b: nat)
    requires
        is_longest(st, a),
        is_longest(st, b),
    ensures
        a == b,
{
    if a != 0 {
        let k = choose|k: usize| #[trigger] known_running(st).contains(k) && byte_len(drv_name(st, k)) == a;
        assert(a <= b);
    }
    if b != 0 {
        let k = choose|k: usize| #[trigger] known_running(st).contains(k) && byte_len(drv_name(st, k)) == b;
        assert(b <= a);
    }
}

impl Display {
    fn verbose_build_string(&self, state: &State, now: u64, w: usize, k: usize) -> (r: String)
        requires
            state.wf(),
            k < state.drvs().len(),
            state.full_summary@.running_builds.contains_key(k),
            cuttable(drv_name(*state, k), w as nat),
        ensures
            r@ == verbose_build_line(*self, *state, now, w as nat, k),
    {
        let b = state.full_summary.running_builds.get(&k).unwrap();
        let name = state.get_derivation_info(k).unwrap().name.name.as_str();
        let mut line = tx_string(self, "\u{2503}", Shade::Blue);
        line.append("  ");
        let icon = tx_string(self, self.config.icons.running, Shade::Yellow);
        line.append(icon.as_str());
        line.append(" ");
        let col = pad_right(truncate_name(name, w), w);
        line.append(col.as_str());
        line.append("  ");
        let e = format_duration(now.saturating_sub(b.start));
        let et = tx_string(self, e.as_str(), Shade::DarkGrey);
        line.append(et.as_str());
        let ghost l0 = line@;
        match &b.host {
            Host::Remote(h) => {
                line.append("  ");
                let ht = tx_string(self, h.as_str(), Shade::Magenta);
                line.append(ht.as_str());
            },
            Host::Localhost => {},
        }
        proof {
            let bv = state.full_summary@.running_builds[k];
            assert(*b == bv);
            let host_label = match bv.host@ {
                HostView::Remote(h) => "  "@ + tx(*self, h, Shade::Magenta),
                HostView::Localhost => Seq::empty(),
            };
            assert(line@ =~= l0 + host_label);
            assert(line@ =~= verbose_build_line(*self, *state, now, w as nat, k));
        }
        line
    }

    fn verbose_download_string(&self, state: &State, now: u64, w: usize, k: usize) -> (r: String)
        requires
            state.wf(),
            k < state.paths().len(),
            state.full_summary@.running_downloads.contains_key(k),
            cuttable(path_name(*state, k), w as nat),
        ensures
            r@ == verbose_download_line(*self, *state, now, w as nat, k),
    {
        let t = state.full_summary.running_downloads.get(&k).unwrap();
        let name = state.get_store_path_info(k).unwrap().name.name.as_str();
        let mut line = tx_string(self, "\u{2503}", Shade::Blue);
        line.append("  ");
        let icon = tx_string(self, self.config.icons.download, Shade::Yellow);
        line.append(icon.as_str());
        line.append(" ");
        let col = pad_right(truncate_name(name, w), w);
        line.append(col.as_str());
        line.append("  ");
        let size = transfer_size_string(t);
        let st = tx_string(self, size.as_str(), Shade::DarkGrey);
        line.append(st.as_str());
        line.append(" ");
        let e = format_duration(now.saturating_sub(t.start));
        let et = tx_string(self, e.as_str(), Shade::DarkGrey);
        line.append(et.as_str());
        line
    }

    /// Whether every name the verbose legend would show can be cut to its
    /// column width.
    pub fn verbose_legend_fits(&self, state: &State) -> (r: bool)
        requires
            state.wf(),
        ensures
            r == verbose_fits(*state),
    {
        let bs = running_in_order(state);
        let m = longest_name(state, &bs);
        let w: usize = if m < 48 { m } else { 48 };
        let ds = keys_below(&state.full_summary.running_downloads, state.next_store_path_id);
        let mut ok = true;
        let mut i: usize = 0;
        while i < bs.len()
            invariant
                i <= bs@.len(),
                state.wf(),
                forall|j: int| 0 <= j < bs@.len() ==> #[trigger] bs@[j] < state.drvs().len(),
                ok == forall|j: int| 0 <= j < i ==> cuttable(drv_name(*state, #[trigger] bs@[j]), w as nat),
            decreases bs@.len() - i,
        {
            let name = state.get_derivation_info(bs[i]).unwrap().name.name.as_str();
            let c = name.as_bytes().len() <= w || (w >= 1 && name.is_char_boundary(w - 1));
            assert(c == cuttable(drv_name(*state, bs@[i as int]), w as nat));
            proof {
                assert((forall|j: int| 0 <= j < i + 1 ==> cuttable(drv_name(*state, #[trigger] bs@[j]), w as nat)) == ((forall|j: int| 0 <= j < i ==> cuttable(drv_name(*state, #[trigger] bs@[j]), w as nat)) && c));
            }
            ok = ok && c;
            i += 1;
        }
        let mut ok2 = true;
        let mut i: usize = 0;
        while i < ds.len()
            invariant
                i <= ds@.len(),
                state.wf(),
                ds@.to_set() == state.full_summary@.running_downloads.dom().filter(below(state.paths().len())),
                ok2 == forall|j: int| 0 <= j < i ==> cuttable(path_name(*state, #[trigger] ds@[j]), w as nat),
            decreases ds@.len() - i,
        {
            assert(ds@.to_set().contains(ds[i as int]));
            let name = state.get_store_path_info(ds[i]).unwrap().name.name.as_str();
            let c = name.as_bytes().len() <= w || (w >= 1 && name.is_char_boundary(w - 1));
            assert(c == cuttable(path_name(*state, ds@[i as int]), w as nat));
            proof {
                assert((forall|j: int| 0 <= j < i + 1 ==> cuttable(path_name(*state, #[trigger] ds@[j]), w as nat)) == ((forall|j: int| 0 <= j < i ==> cuttable(path_name(*state, #[trigger] ds@[j]), w as nat)) && c));
            }
            ok2 = ok2 && c;
            i += 1;
        }
        proof {
            assert forall|mm: nat| is_longest(*state, mm) implies name_width(mm) == w by {
                lemma_longest_unique(*state, mm, m as nat);
            }
            if ok && ok2 {
                assert forall|k: usize| #[trigger] known_running(*state).contains(k) implies cuttable(drv_name(*state, k), w as nat) by {
                    assert(bs@.to_set().contains(k));
                    let j = choose|j: int| 0 <= j < bs@.len() && bs@[j] == k;
                }
                assert forall|k: usize| #[trigger] known_downloads(*state).contains(k) implies cuttable(path_name(*state, k), w as nat) by {
                    assert(ds@.to_set().contains(k));
                    let j = choose|j: int| 0 <= j < ds@.len() && ds@[j] == k;
                }
                assert(verbose_cuttable(*state, w as nat));
            } else {
                assert(is_longest(*state, m as nat));
                if !ok {
                    assert(!(forall|j: int| 0 <= j < bs@.len() ==> cuttable(drv_name(*state, #[trigger] bs@[j]), w as nat)));
                    let j = choose|j: int| 0 <= j < bs@.len() && !cuttable(drv_name(*state, #[trigger] bs@[j]), w as nat);
                    assert(bs@.to_set().contains(bs@[j]));
                    assert(known_running(*state).contains(bs@[j]));
                } else {
                    assert(!(forall|j: int| 0 <= j < ds@.len() ==> cuttable(path_name(*state, #[trigger] ds@[j]), w as nat)));
                    let j = choose|j: int| 0 <= j < ds@.len() && !cuttable(path_name(*state, #[trigger] ds@[j]), w as nat);
                    assert(ds@.to_set().contains(ds@[j]));
                    assert(known_downloads(*state).contains(ds@[j]));
                }
                assert(!verbose_cuttable(*state, w as nat));
            }
        }
        ok && ok2
    }
}

impl Display {
    /// The counts of the verbose legend, with words.
    fn verbose_part_strings(&self, state: &State, now: u64) -> (r: Vec<String>)
        ensures
            texts(r@) == verbose_parts(*self, *state, now),
    {
        let dl = state.full_summary.running_downloads.len();
        let ul = state.full_summary.running_uploads.len();
        let mut parts: Vec<String> = Vec::new();
        let mut p0 = count_part_string(self, self.config.icons.running, Shade::Yellow, state.full_summary.running_builds.len());
        p0.append(" running");
        parts.push(p0);
        let mut p1 = count_part_string(self, self.config.icons.done, Shade::Green, state.full_summary.completed_builds.len());
        p1.append(" completed");
        parts.push(p1);
        let mut p2 = count_part_string(self, self.config.icons.failed, Shade::Red, state.full_summary.failed_builds.len());
        p2.append(" failed");
        parts.push(p2);
        let mut p3 = count_part_string(self, self.config.icons.planned, Shade::Grey, state.full_summary.planned_builds.len());
        p3.append(" planned");
        parts.push(p3);
        if dl > 0 {
            let mut p = counter_string(self, self.config.icons.download, Shade::Yellow, dl);
            p.append(" downloading");
            parts.push(p);
        }
        if ul > 0 {
            let mut p = counter_string(self, self.config.icons.upload, Shade::Yellow, ul);
            p.append(" uploading");
            parts.push(p);
        }
        parts.push(self.clock_part_string(state, now));
        assert(texts(parts@) =~= verbose_parts(*self, *state, now));
        parts
    }

    /// The verbose legend, below a tree when `has_tree`.
    pub fn render_verbose_legend(&self, state: &State, has_tree: bool, now: u64) -> (r: Vec<String>)
        requires
            state.wf(),
            !has_tree ==> verbose_fits(*state),
        ensures
            exists|bs: Seq<usize>, ds: Seq<usize>, m: nat|
                #![trigger running_order(*state, bs), transfer_keys(*state, state.full_summary@.running_downloads, ds), is_longest(*state, m)]
                running_order(*state, bs) && transfer_keys(*state, state.full_summary@.running_downloads, ds)
                    && is_longest(*state, m) && texts(r@) == verbose_legend(
                    *self,
                    *state,
                    has_tree,
                    now,
                    bs,
                    ds,
                    name_width(m),
                ),
    {
        let bs = running_in_order(state);
        let m = longest_name(state, &bs);
        let w: usize = if m < 48 { m } else { 48 };
        let ds = keys_below(&state.full_summary.running_downloads, state.next_store_path_id);
        let mut lines: Vec<String> = Vec::new();
        if state.full_summary.running_builds.len() == 0 && state.full_summary.completed_builds.len() == 0
            && state.full_summary.planned_builds.len() == 0
            && state.full_summary.running_downloads.len() == 0
            && state.full_summary.running_uploads.len() == 0 {
            assert(texts(lines@) =~= verbose_legend(*self, *state, has_tree, now, bs@, ds@, w as nat));
            assert(running_order(*state, bs@) && transfer_keys(*state, state.full_summary@.running_downloads, ds@)
                && is_longest(*state, m as nat));
            return lines;
        }
        let mut head = if has_tree {
            tx_string(self, "\u{2523}\u{2501}\u{2501}\u{2501}", Shade::Blue)
        } else {
            tx_string(self, "\u{250f}\u{2501}\u{2501}\u{2501}", Shade::Blue)
        };
        head.append(" Build Summary:");
        let ghost head_v = head@;
        lines.push(head);
        if has_tree {
            let parts = self.verbose_part_strings(state, now);
            let mut last = tx_string(self, "\u{2517}\u{2501}", Shade::Blue);
            last.append(" ");
            let j = join(&parts, " \u{2502} ");
            last.append(j.as_str());
            lines.push(last);
            proof {
                assert(texts(lines@) =~= verbose_legend(*self, *state, has_tree, now, bs@, ds@, w as nat));
                assert(running_order(*state, bs@) && transfer_keys(*state, state.full_summary@.running_downloads, ds@)
                    && is_longest(*state, m as nat));
            }
            return lines;
        }
        proof {
            assert(verbose_cuttable(*state, w as nat));
        }
        let mut i: usize = 0;
        assert(texts(lines@) =~= seq![head_v] + Seq::new(0, |j: int| verbose_build_line(*self, *state, now, w as nat, bs@[j])));
        while i < bs.len()
            invariant
                i <= bs@.len(),
                state.wf(),
                running_order(*state, bs@),
                forall|j: int| 0 <= j < bs@.len() ==> #[trigger] bs@[j] < state.drvs().len(),
                verbose_cuttable(*state, w as nat),
                texts(lines@) == seq![head_v] + Seq::new(i as nat, |j: int| verbose_build_line(*self, *state, now, w as nat, bs@[j])),
            decreases bs@.len() - i,
        {
            let k = bs[i];
            assert(bs@.to_set().contains(k));
            assert(known_running(*state).contains(k));
            let l = self.verbose_build_string(state, now, w, k);
            let ghost before = texts(lines@);
            lines.push(l);
            assert(texts(lines@) =~= before.push(l@));
            i += 1;
            assert(texts(lines@) =~= seq![head_v] + Seq::new(i as nat, |j: int| verbose_build_line(*self, *state, now, w as nat, bs@[j])));
        }
        let ghost mid = texts(lines@);
        let mut i: usize = 0;
        assert(texts(lines@) =~= mid + Seq::new(0, |j: int| verbose_download_line(*self, *state, now, w as nat, ds@[j])));
        while i < ds.len()
            invariant
                i <= ds@.len(),
                state.wf(),
                ds@.to_set() == state.full_summary@.running_downloads.dom().filter(below(state.paths().len())),
                verbose_cuttable(*state, w as nat),
                texts(lines@) == mid + Seq::new(i as nat, |j: int| verbose_download_line(*self, *state, now, w as nat, ds@[j])),
            decreases ds@.len() - i,
        {
            let k = ds[i];
            assert(ds@.to_set().contains(k));
            assert(known_downloads(*state).contains(k));
            let l = self.verbose_download_string(state, now, w, k);
            let ghost before = texts(lines@);
            lines.push(l);
            assert(texts(lines@) =~= before.push(l@));
            i += 1;
            assert(texts(lines@) =~= mid + Seq::new(i as nat, |j: int| verbose_download_line(*self, *state, now, w as nat, ds@[j])));
        }
        let parts = self.verbose_part_strings(state, now);
        let mut last = tx_string(self, "\u{2517}\u{2501}", Shade::Blue);
        last.append(" ");
        let j = join(&parts, " \u{2502} ");
        last.append(j.as_str());
        let ghost before = texts(lines@);
        lines.push(last);
        proof {
            assert(texts(lines@) =~= before.push(last@));
            assert(texts(lines@) =~= verbose_legend(*self, *state, has_tree, now, bs@, ds@, w as nat));
            assert(running_order(*state, bs@) && transfer_keys(*state, state.full_summary@.running_downloads, ds@)
                && is_longest(*state, m as nat));
        }
        lines
    }
}

} // verus!
