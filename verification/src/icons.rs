//! Icon sets for the display: plain Unicode, or Nerd Font glyphs.
use vstd::prelude::*;
use crate::text::str_eq;

verus! {

/// A complete set of display icons.
#[derive(Debug, Clone, Copy)]
pub struct Icons {
    pub running: &'static str,
    pub done: &'static str,
    pub planned: &'static str,
    pub failed: &'static str,
    pub download: &'static str,
    pub upload: &'static str,
    pub clock: &'static str,
    pub estimate: &'static str,
    pub summary: &'static str,
}

/// The standard Unicode icons.
pub open spec fn is_unicode(r: Icons) -> bool {
    &&& r.running@ == "\u{23f5}"@
    &&& r.done@ == "\u{2714}"@
    &&& r.planned@ == "\u{23f8}"@
    &&& r.failed@ == "\u{2717}"@
    &&& r.download@ == "\u{2193}"@
    &&& r.upload@ == "\u{2191}"@
    &&& r.clock@ == "\u{23f1}"@
    &&& r.estimate@ == "\u{2205}"@
    &&& r.summary@ == "\u{2211}"@
}

/// The Nerd Font icons.
pub open spec fn is_nerd(r: Icons) -> bool {
    &&& r.running@ == "\u{f04b}"@
    &&& r.done@ == "\u{f00c}"@
    &&& r.planned@ == "\u{f04c}"@
    &&& r.failed@ == "\u{f071}"@
    &&& r.download@ == "\u{f063}"@
    &&& r.upload@ == "\u{f062}"@
    &&& r.clock@ == "\u{f1da}"@
    &&& r.estimate@ == "\u{f252}"@
    &&& r.summary@ == "\u{f04a0}"@
}

/// The standard Unicode icons, which need no special font.
pub fn unicode() -> (r: Icons)
    ensures
        is_unicode(r),
{
    Icons {
        running: "\u{23f5}",
        done: "\u{2714}",
        planned: "\u{23f8}",
        failed: "\u{2717}",
        download: "\u{2193}",
        upload: "\u{2191}",
        clock: "\u{23f1}",
        estimate: "\u{2205}",
        summary: "\u{2211}",
    }
}

/// The Nerd Font icons, which need a patched font.
pub fn nerd() -> (r: Icons)
    ensures
        is_nerd(r),
{
    Icons {
        running: "\u{f04b}",
        done: "\u{f00c}",
        planned: "\u{f04c}",
        failed: "\u{f071}",
        download: "\u{f063}",
        upload: "\u{f062}",
        clock: "\u{f1da}",
        estimate: "\u{f252}",
        summary: "\u{f04a0}",
    }
}

/// The value of `NERD_FONTS` asks for Nerd Font icons.
pub open spec fn asks_nerd(v: Option<Seq<char>>) -> bool {
    v matches Some(s) && (s == "1"@ || s == "true"@ || s == "yes"@)
}

/// The icon set the value of the `NERD_FONTS` variable selects: Nerd Font
/// icons for `1`, `true` or `yes`, else Unicode ones.
pub fn select(nerd_fonts: Option<&str>) -> (r: Icons)
    ensures
        asks_nerd(match nerd_fonts {
            Some(s) => Some(s@),
            None => None,
        }) ==> is_nerd(r),
        !asks_nerd(match nerd_fonts {
            Some(s) => Some(s@),
            None => None,
        }) ==> is_unicode(r),
{
    match nerd_fonts {
        Some(s) => {
            if str_eq(s, "1") || str_eq(s, "true") || str_eq(s, "yes") {
                nerd()
            } else {
                unicode()
            }
        },
        None => unicode(),
    }
}

} // verus!
