//! Terminal control by ANSI escape sequences: colors, clearing the lines of
//! the previous frame, synchronized updates and the cursor.
use vstd::prelude::*;
use crate::calendar::{decimal, push_padded};
use crate::text::{chars_of, string_from_chars};

verus! {

/// ANSI colors; `Default` is the terminal's default foreground.
#[derive(Debug, Clone, Copy, PartialEq, Eq, Structural)]
pub enum Color {
    Default,
    DarkRed,
    DarkGreen,
    DarkYellow,
    DarkBlue,
    DarkMagenta,
    DarkCyan,
    DarkGrey,
    Red,
    Green,
    Yellow,
    Blue,
    Magenta,
    Cyan,
    White,
}

/// The SGR code of a color.
pub open spec fn color_code(c: Color) -> Seq<char> {
    match c {
        Color::Default => "39"@,
        Color::DarkRed => "31"@,
        Color::DarkGreen => "32"@,
        Color::DarkYellow => "33"@,
        Color::DarkBlue => "34"@,
        Color::DarkMagenta => "35"@,
        Color::DarkCyan => "36"@,
        Color::DarkGrey => "90"@,
        Color::Red => "91"@,
        Color::Green => "92"@,
        Color::Yellow => "93"@,
        Color::Blue => "94"@,
        Color::Magenta => "95"@,
        Color::Cyan => "96"@,
        Color::White => "97"@,
    }
}

impl Color {
    /// The SGR code of this color.
    pub fn code(self) -> (r: &'static str)
        ensures
            r@ == color_code(self),
    {
        match self {
            Color::Default => "39",
            Color::DarkRed => "31",
            Color::DarkGreen => "32",
            Color::DarkYellow => "33",
            Color::DarkBlue => "34",
            Color::DarkMagenta => "35",
            Color::DarkCyan => "36",
            Color::DarkGrey => "90",
            Color::Red => "91",
            Color::Green => "92",
            Color::Yellow => "93",
            Color::Blue => "94",
            Color::Magenta => "95",
            Color::Cyan => "96",
            Color::White => "97",
        }
    }
}

/// The escape character.
pub open spec fn esc() -> Seq<char> {
    seq!['\u{1b}']
}

/// `text` in the color, then every attribute reset.
pub open spec fn painted(text: Seq<char>, c: Color) -> Seq<char> {
    esc() + "["@ + color_code(c) + "m"@ + text + esc() + "[0m"@
}

/// `text` in the color and bold, then every attribute reset.
pub open spec fn painted_bold(text: Seq<char>, c: Color) -> Seq<char> {
    esc() + "["@ + color_code(c) + ";1m"@ + text + esc() + "[0m"@
}

/// Appends the characters of `s`.
fn push_str(out: &mut Vec<char>, s: &str)
    ensures
        final(out)@ == old(out)@ + s@,
{
    let v = chars_of(s);
    let ghost start = out@;
    let mut i: usize = 0;
    while i < v.len()
        invariant
            i <= v@.len(),
            v@ == s@,
            out@ == start + v@.take(i as int),
        decreases v@.len() - i,
    {
        out.push(v[i]);
        i += 1;
        assert(v@.take(i as int) =~= v@.take(i - 1).push(v@[i - 1]));
        assert(out@ =~= start + v@.take(i as int));
    }
    assert(v@.take(v@.len() as int) =~= v@);
}

/// Wraps `text` in an SGR foreground color, with a reset at the end.
pub fn paint(text: &str, color: Color) -> (r: String)
    ensures
        r@ == painted(text@, color),
{
    let mut out: Vec<char> = Vec::new();
    out.push('\u{1b}');
    push_str(&mut out, "[");
    push_str(&mut out, color.code());
    push_str(&mut out, "m");
    push_str(&mut out, text);
    out.push('\u{1b}');
    push_str(&mut out, "[0m");
    let r = string_from_chars(out.as_slice());
    assert(r@ =~= painted(text@, color));
    r
}

/// Wraps `text` in an SGR foreground color and bold, with a reset at the end.
pub fn paint_bold(text: &str, color: Color) -> (r: String)
    ensures
        r@ == painted_bold(text@, color),
{
    let mut out: Vec<char> = Vec::new();
    out.push('\u{1b}');
    push_str(&mut out, "[");
    push_str(&mut out, color.code());
    push_str(&mut out, ";1m");
    push_str(&mut out, text);
    out.push('\u{1b}');
    push_str(&mut out, "[0m");
    let r = string_from_chars(out.as_slice());
    assert(r@ =~= painted_bold(text@, color));
    r
}

/// What clears the `n` previous lines: cursor up `n`, to column one, and
/// clear to the end of the display; nothing for no lines.
pub open spec fn clear_lines_text(n: nat) -> Seq<char> {
    if n == 0 {
        Seq::empty()
    } else {
        esc() + "["@ + decimal(n) + "A"@ + esc() + "[G"@ + esc() + "[J"@
    }
}

/// The escape sequence that clears the `n` previous lines and puts the cursor
/// at column one for the next frame.
pub fn clear_lines(n: usize) -> (r: String)
    ensures
        r@ == clear_lines_text(n as nat),
{
    let mut out: Vec<char> = Vec::new();
    if n == 0 {
        return string_from_chars(out.as_slice());
    }
    out.push('\u{1b}');
    push_str(&mut out, "[");
    push_padded(&mut out, n as u64, 1);
    proof {
        assert(decimal(n as nat).len() >= 1);
    }
    push_str(&mut out, "A");
    out.push('\u{1b}');
    push_str(&mut out, "[G");
    out.push('\u{1b}');
    push_str(&mut out, "[J");
    let r = string_from_chars(out.as_slice());
    assert(r@ =~= clear_lines_text(n as nat));
    r
}

/// The escape sequence that begins a synchronized update.
pub fn begin_sync() -> (r: String)
    ensures
        r@ == esc() + "[?2026h"@,
{
    let mut out: Vec<char> = Vec::new();
    out.push('\u{1b}');
    push_str(&mut out, "[?2026h");
    string_from_chars(out.as_slice())
}

/// The escape sequence that ends a synchronized update.
pub fn end_sync() -> (r: String)
    ensures
        r@ == esc() + "[?2026l"@,
{
    let mut out: Vec<char> = Vec::new();
    out.push('\u{1b}');
    push_str(&mut out, "[?2026l");
    string_from_chars(out.as_slice())
}

/// The escape sequence that hides the cursor.
pub fn hide_cursor() -> (r: String)
    ensures
        r@ == esc() + "[?25l"@,
{
    let mut out: Vec<char> = Vec::new();
    out.push('\u{1b}');
    push_str(&mut out, "[?25l");
    string_from_chars(out.as_slice())
}

/// The escape sequence that shows the cursor.
pub fn show_cursor() -> (r: String)
    ensures
        r@ == esc() + "[?25h"@,
{
    let mut out: Vec<char> = Vec::new();
    out.push('\u{1b}');
    push_str(&mut out, "[?25h");
    string_from_chars(out.as_slice())
}

/// Whether the cursor is to be shown again when a run ends: set when it was
/// hidden, clear for a silent run.
#[derive(Debug)]
pub struct CursorGuard {
    pub active: bool,
}

impl CursorGuard {
    /// A guard for a cursor that was hidden.
    pub fn hidden() -> (r: Self)
        ensures
            r.active,
    {
        CursorGuard { active: true }
    }

    /// A guard that restores nothing, for the silent path.
    pub fn noop() -> (r: Self)
        ensures
            !r.active,
    {
        CursorGuard { active: false }
    }

    /// What to write when the guard ends: the cursor shown, or nothing.
    pub fn release_text(&self) -> (r: String)
        ensures
            r@ == if self.active {
                esc() + "[?25h"@
            } else {
                Seq::empty()
            },
    {
        if self.active {
            show_cursor()
        } else {
            string_from_chars(Vec::new().as_slice())
        }
    }
}

} // verus!
