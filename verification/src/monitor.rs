//! Reading nix's human-readable build output: the lines that start or finish
//! builds and downloads, and the errors that fail them.
use vstd::prelude::*;
use crate::cache::{all_digits, digits_value_chars, parse_u64, parse_u64_spec};
use crate::nix::Host;
use crate::paths::{derivation_name_of, store_path_parts, Derivation, StorePath};
use crate::state::{
    first_from, is_drv, is_path, lemma_first_from_some, lemma_wf_frame,
    with_status, State,
};
use crate::summary::{
    cleared, recorded, summary_holds, BuildFail, BuildInfo, BuildStatus, CompletedTransferInfo, Duplicate, FailType, StorePathId,
    SummaryView, TransferInfo,
};
use crate::text::{
    chars_of, contains, find, is_ascii_alnum, is_digit, split_words, starts_with, str_contains,
    str_starts_with, string_of_range, trim, trim_string, words,
};
use crate::update::{first_word, quoted_in, running_info, store_dir};

verus! {

broadcast use vstd::std_specs::hash::group_hash_axioms;

/// A character kept at the ends of an unquoted store path.
pub open spec fn path_char(c: char) -> bool {
    is_ascii_alnum(c) || c == '/' || c == '-' || c == '.'
}

/// Number of leading characters that are not path characters.
pub open spec fn lead_junk(s: Seq<char>) -> nat
    decreases s.len(),
{
    if s.len() > 0 && !path_char(s[0]) {
        1 + lead_junk(s.drop_first())
    } else {
        0
    }
}

/// Number of trailing characters that are not path characters.
pub open spec fn trail_junk(s: Seq<char>) -> nat
    decreases s.len(),
{
    if s.len() > 0 && !path_char(s.last()) {
        1 + trail_junk(s.drop_last())
    } else {
        0
    }
}

/// A word without the non-path characters at its ends.
pub open spec fn trim_junk(s: Seq<char>) -> Seq<char> {
    let t = s.skip(lead_junk(s) as int);
    t.take(t.len() - trail_junk(t))
}

/// A word that starts with `/nix/store/`.
pub open spec fn is_store_word() -> spec_fn(Seq<char>) -> bool {
    |w: Seq<char>| starts_with(w, store_dir())
}

/// The path a message line names: the text between its first two single
/// quotes, else its first word starting with `/nix/store/` without the
/// non-path characters at its ends.
pub open spec fn path_in_message(t: Seq<char>) -> Option<Seq<char>> {
    match quoted_in(t) {
        Some(q) => Some(q),
        None => match first_from(words(t), is_store_word(), 0) {
            Some(i) => Some(trim_junk(words(t)[i])),
            None => None,
        },
    }
}

/// Bounds of a word without the non-path characters at its ends.
fn junk_bounds(s: &Vec<char>) -> (r: (usize, usize))
    ensures
        r.0 <= r.1 <= s@.len(),
        s@.subrange(r.0 as int, r.1 as int) == trim_junk(s@),
{
    let mut a: usize = 0;
    assert(s@.skip(0) =~= s@);
    while a < s.len() && !(is_alnum_char(s[a]) || s[a] == '/' || s[a] == '-' || s[a] == '.')
        invariant
            a <= s@.len(),
            lead_junk(s@) == a + lead_junk(s@.skip(a as int)),
        decreases s@.len() - a,
    {
        assert(s@.skip(a as int).drop_first() =~= s@.skip(a + 1));
        a += 1;
    }
    assert(lead_junk(s@.skip(a as int)) == 0);
    let ghost t = s@.skip(a as int);
    let mut b: usize = s.len();
    while b > a && !(is_alnum_char(s[b - 1]) || s[b - 1] == '/' || s[b - 1] == '-' || s[b - 1] == '.')
        invariant
            a <= b <= s@.len(),
            t == s@.skip(a as int),
            trail_junk(t) == (s@.len() - b) + trail_junk(s@.subrange(a as int, b as int)),
        decreases b - a,
    {
        let ghost u = s@.subrange(a as int, b as int);
        assert(u.drop_last() =~= s@.subrange(a as int, b - 1));
        assert(u.last() == s@[b - 1]);
        b -= 1;
    }
    proof {
        let u = s@.subrange(a as int, b as int);
        if b > a {
            assert(u.last() == s@[b - 1]);
        }
        assert(trail_junk(u) == 0);
        assert(t.take(t.len() - trail_junk(t)) =~= u);
    }
    (a, b)
}

/// Exact test of `char::is_ascii_alphanumeric`.
fn is_alnum_char(c: char) -> (r: bool)
    ensures
        r == is_ascii_alnum(c),
{
    ('0' <= c && c <= '9') || ('a' <= c && c <= 'z') || ('A' <= c && c <= 'Z')
}

/// The path a message line names, if it names one.
pub fn extract_path_from_message(line: &str) -> (r: Option<String>)
    ensures
        match path_in_message(line@) {
            Some(p) => r matches Some(s) && s@ == p,
            None => r is None,
        },
{
    if let Some(q) = crate::update::extract_file_name(line) {
        return Some(q);
    }
    assert(quoted_in(line@) is None);
    let t = chars_of(line);
    let ws = split_words(&t);
    let dir = chars_of("/nix/store/");
    proof {
        reveal_strlit("/nix/store/");
    }
    assert(dir@ =~= store_dir());
    let mut i: usize = 0;
    while i < ws.len()
        invariant
            i <= ws@.len(),
            ws@.len() == words(t@).len(),
            t@ == line@,
            quoted_in(line@) is None,
            dir@ == store_dir(),
            forall|k: int| 0 <= k < ws@.len() ==> (#[trigger] ws@[k])@ == words(t@)[k],
            first_from(words(t@), is_store_word(), 0) == first_from(words(t@), is_store_word(), i as int),
        decreases ws@.len() - i,
    {
        let w = &ws[i];
        assert(w@ == words(t@)[i as int]);
        if crate::text::matches_at(w, &dir, 0) {
            assert(is_store_word()(words(t@)[i as int]));
            assert(first_from(words(t@), is_store_word(), i as int) == Some(i as int));
            let (a, b) = junk_bounds(w);
            let r = string_of_range(w, a, b);
            assert(r@ == trim_junk(words(t@)[i as int]));
            assert(path_in_message(line@) == Some(trim_junk(words(t@)[i as int])));
            return Some(r);
        }
        assert(!is_store_word()(words(t@)[i as int]));
        i += 1;
    }
    assert(first_from(words(t@), is_store_word(), i as int) is None);
    None
}

/// The words of a line that may carry a byte size, each with the multiplier of
/// the unit that follows it (`B`, `KiB`, `MiB`, `GiB`, `TiB`, `PiB`), in order.
pub open spec fn unit_multiplier(u: Seq<char>) -> Option<u64> {
    if u == "B"@ {
        Some(1)
    } else if u == "KiB"@ {
        Some(1024)
    } else if u == "MiB"@ {
        Some(1048576)
    } else if u == "GiB"@ {
        Some(1073741824)
    } else if u == "TiB"@ {
        Some(1099511627776)
    } else if u == "PiB"@ {
        Some(1125899906842624)
    } else {
        None
    }
}

/// The multiplier of a size unit.
pub fn size_unit(u: &str) -> (r: Option<u64>)
    ensures
        r == unit_multiplier(u@),
{
    proof {
        reveal_strlit("B");
        reveal_strlit("KiB");
        reveal_strlit("MiB");
        reveal_strlit("GiB");
        reveal_strlit("TiB");
        reveal_strlit("PiB");
    }
    if crate::text::str_eq(u, "B") {
        Some(1)
    } else if crate::text::str_eq(u, "KiB") {
        Some(1024)
    } else if crate::text::str_eq(u, "MiB") {
        Some(1048576)
    } else if crate::text::str_eq(u, "GiB") {
        Some(1073741824)
    } else if crate::text::str_eq(u, "TiB") {
        Some(1099511627776)
    } else if crate::text::str_eq(u, "PiB") {
        Some(1125899906842624)
    } else {
        None
    }
}

/// The binary size units, smallest first.
pub open spec fn size_units() -> Seq<Seq<char>> {
    seq!["B"@, "KiB"@, "MiB"@, "GiB"@, "TiB"@, "PiB"@]
}

/// The size units and their multipliers: a byte counts one, each of `KiB`,
/// `MiB`, `GiB`, `TiB`, `PiB` counts 1024 of the unit before it, and no other
/// word is a unit.
pub proof fn law_size_units()
    ensures
        unit_multiplier(size_units()[0]) == Some(1u64),
        forall|i: int|
            1 <= i < size_units().len() ==> {
                &&& (#[trigger] unit_multiplier(size_units()[i])) is Some
                &&& unit_multiplier(size_units()[i - 1]) is Some
                &&& unit_multiplier(size_units()[i]).unwrap() == 1024 * unit_multiplier(size_units()[i - 1]).unwrap()
            },
        forall|u: Seq<char>| #[trigger] unit_multiplier(u) is Some ==> size_units().contains(u),
{
    reveal_strlit("B");
    reveal_strlit("KiB");
    reveal_strlit("MiB");
    reveal_strlit("GiB");
    reveal_strlit("TiB");
    reveal_strlit("PiB");
    let us = size_units();
    assert(us[0] == "B"@ && us[1] == "KiB"@ && us[2] == "MiB"@ && us[3] == "GiB"@ && us[4] == "TiB"@ && us[5]
        == "PiB"@);
    assert("B"@ =~= seq!['B']);
    assert("KiB"@ =~= seq!['K', 'i', 'B']);
    assert("MiB"@ =~= seq!['M', 'i', 'B']);
    assert("GiB"@ =~= seq!['G', 'i', 'B']);
    assert("TiB"@ =~= seq!['T', 'i', 'B']);
    assert("PiB"@ =~= seq!['P', 'i', 'B']);
    assert("KiB"@ != "B"@ && "MiB"@ != "B"@ && "MiB"@ != "KiB"@) by {
        assert("KiB"@.len() != "B"@.len() && "MiB"@.len() != "B"@.len());
        assert("MiB"@[0] != "KiB"@[0]);
    }
    assert(unit_multiplier(us[1]) == Some(1024u64));
    assert(unit_multiplier(us[2]) == Some(1048576u64));
    assert(unit_multiplier(us[3]) == Some(1073741824u64));
    assert(unit_multiplier(us[4]) == Some(1099511627776u64));
    assert(unit_multiplier(us[5]) == Some(1125899906842624u64));
    assert forall|i: int| 1 <= i < us.len() implies {
        &&& (#[trigger] unit_multiplier(us[i])) is Some
        &&& unit_multiplier(us[i - 1]) is Some
        &&& unit_multiplier(us[i]).unwrap() == 1024 * unit_multiplier(us[i - 1]).unwrap()
    } by {
        assert(i == 1 || i == 2 || i == 3 || i == 4 || i == 5);
    }
    assert forall|u: Seq<char>| #[trigger] unit_multiplier(u) is Some implies us.contains(u) by {
        if u == "B"@ {
            assert(us[0] == u);
        } else if u == "KiB"@ {
            assert(us[1] == u);
        } else if u == "MiB"@ {
            assert(us[2] == u);
        } else if u == "GiB"@ {
            assert(us[3] == u);
        } else if u == "TiB"@ {
            assert(us[4] == u);
        } else {
            assert(us[5] == u);
        }
    }
}

/// The words from position `i` on that are followed by a size unit, each
/// with that unit's multiplier, in order.
pub open spec fn candidates_from(ws: Seq<Seq<char>>, i: int) -> Seq<(Seq<char>, u64)>
    decreases ws.len() - i,
{
    if i < 0 || i + 1 >= ws.len() {
        Seq::empty()
    } else {
        match unit_multiplier(ws[i + 1]) {
            Some(m) => seq![(ws[i], m)] + candidates_from(ws, i + 1),
            None => candidates_from(ws, i + 1),
        }
    }
}

/// The view of a list of candidates.
pub open spec fn candidates_view(r: Seq<(String, u64)>) -> Seq<(Seq<char>, u64)> {
    r.map_values(|e: (String, u64)| (e.0@, e.1))
}

/// The words of a line each followed by a size unit, with that unit's
/// multiplier, in the order of the line: the places a byte size may be given.
pub fn size_candidates(line: &str) -> (r: Vec<(String, u64)>)
    ensures
        candidates_view(r@) == candidates_from(words(line@), 0),
{
    let t = chars_of(line);
    let ws = split_words(&t);
    let ghost wv = words(line@);
    let mut r: Vec<(String, u64)> = Vec::new();
    let mut i: usize = 0;
    while ws.len() > 0 && i < ws.len() - 1
        invariant
            ws@.len() == wv.len(),
            wv == words(line@),
            forall|k: int| 0 <= k < ws@.len() ==> (#[trigger] ws@[k])@ == wv[k],
            i <= ws@.len(),
            candidates_view(r@) + candidates_from(wv, i as int) == candidates_from(wv, 0),
        decreases ws@.len() - i,
    {
        let u = string_of_range(&ws[i + 1], 0, ws[i + 1].len());
        assert(ws@[i + 1]@.subrange(0, ws@[i + 1]@.len() as int) =~= ws@[i + 1]@);
        let ghost before = candidates_view(r@);
        if let Some(m) = size_unit(u.as_str()) {
            let w = string_of_range(&ws[i], 0, ws[i].len());
            assert(ws@[i as int]@.subrange(0, ws@[i as int]@.len() as int) =~= ws@[i as int]@);
            r.push((w, m));
            assert(candidates_view(r@) =~= before.push((wv[i as int], m)));
            assert(candidates_from(wv, i as int) == seq![(wv[i as int], m)] + candidates_from(wv, i + 1));
            assert(candidates_view(r@) + candidates_from(wv, i + 1) =~= before + candidates_from(wv, i as int));
        } else {
            assert(candidates_from(wv, i as int) == candidates_from(wv, i + 1));
        }
        i += 1;
    }
    assert(candidates_from(wv, i as int) =~= Seq::<(Seq<char>, u64)>::empty());
    assert(candidates_view(r@) + candidates_from(wv, i as int) =~= candidates_view(r@));
    r
}

/// Number of trailing characters that are not ASCII digits.
pub open spec fn trail_nondigits(s: Seq<char>) -> nat
    decreases s.len(),
{
    if s.len() > 0 && !is_digit(s.last()) {
        1 + trail_nondigits(s.drop_last())
    } else {
        0
    }
}

/// `i32::from_str`: an optional sign, then at least one ASCII digit and
/// nothing else, with a value that fits in 32 bits.
pub open spec fn parse_i32_spec(s: Seq<char>) -> Option<i32> {
    let neg = s.len() > 0 && s[0] == '-';
    let d = if s.len() > 0 && (s[0] == '-' || s[0] == '+') {
        s.skip(1)
    } else {
        s
    };
    if d.len() > 0 && all_digits(d) {
        let v = digits_value_chars(d);
        if neg && v <= 2147483648 {
            Some((-v) as i32)
        } else if !neg && v <= 2147483647 {
            Some(v as i32)
        } else {
            None
        }
    } else {
        None
    }
}

/// Position of `exit code` in a line.
pub open spec fn exit_code_at(t: Seq<char>) -> int {
    find(t, "exit code"@).unwrap()
}

/// The exit code a failed builder's message gives: the first word after
/// `exit code` and the character after it, without trailing non-digits.
pub open spec fn exit_code_in(t: Seq<char>) -> Option<i32> {
    match first_word(t.skip(exit_code_at(t) + 10)) {
        Some(w) => parse_i32_spec(w.take(w.len() - trail_nondigits(w))),
        None => None,
    }
}

/// The line names a failed builder and its exit code.
pub open spec fn names_exit_code(t: Seq<char>) -> bool {
    &&& !(contains(t, "hash mismatch"@) || (contains(t, "output path"@) && (contains(t, "hash"@)
        || contains(t, "differs"@))))
    &&& !(contains(t, "timed out"@) || contains(t, "timeout"@))
    &&& !(contains(t, "dependency failed"@) || contains(t, "dependencies failed"@))
    &&& contains(t, "builder for"@) && contains(t, "failed with exit code"@)
}

/// The text after `exit code` can be cut one character on: that character is
/// there and takes one byte.
pub open spec fn exit_code_cut_ok(t: Seq<char>) -> bool {
    let p = exit_code_at(t);
    p + 9 < t.len() && (t[p + 9] as u32) < 128
}

/// Why a build failed, as a human-readable error line tells it.
pub open spec fn human_fail_type(t: Seq<char>) -> FailType {
    if contains(t, "hash mismatch"@) || (contains(t, "output path"@) && (contains(t, "hash"@)
        || contains(t, "differs"@))) {
        FailType::HashMismatch
    } else if contains(t, "timed out"@) || contains(t, "timeout"@) {
        FailType::Timeout
    } else if contains(t, "dependency failed"@) || contains(t, "dependencies failed"@) {
        FailType::DependencyFailed
    } else if contains(t, "builder for"@) && contains(t, "failed with exit code"@) {
        match exit_code_in(t) {
            Some(c) => FailType::BuildFailed(c),
            None => FailType::Unknown,
        }
    } else {
        FailType::Unknown
    }
}

/// Parses a text as `i32::from_str` does.
pub fn parse_i32(s: &Vec<char>, from: usize, to: usize) -> (r: Option<i32>)
    requires
        from <= to <= s@.len(),
    ensures
        r == parse_i32_spec(s@.subrange(from as int, to as int)),
{
    let ghost t = s@.subrange(from as int, to as int);
    let neg = from < to && s[from] == '-';
    let start = if from < to && (s[from] == '-' || s[from] == '+') {
        from + 1
    } else {
        from
    };
    let ghost d = s@.subrange(start as int, to as int);
    assert(d =~= (if t.len() > 0 && (t[0] == '-' || t[0] == '+') { t.skip(1) } else { t }));
    if start == to || s[start] == '+' {
        proof {
            if start < to {
                assert(!is_digit(d[0]));
            }
        }
        return None;
    }
    let v = match parse_u64(s, start, to) {
        Some(v) => v,
        None => {
            proof {
                if d.len() > 0 && all_digits(d) {
                    assert(digits_value_chars(d) > u64::MAX) by {
                        crate::cache::lemma_digits_value_chars_nonneg(d);
                        assert(!(d.len() > 0 && d[0] == '+'));
                    }
                }
            }
            return None;
        },
    };
    assert(!(d.len() > 0 && d[0] == '+'));
    assert(all_digits(d) && d.len() > 0);
    assert(v == digits_value_chars(d));
    if neg {
        if v <= 2147483648 {
            if v == 2147483648 {
                Some(-2147483647i32 - 1)
            } else {
                Some(-(v as i32))
            }
        } else {
            None
        }
    } else {
        if v <= 2147483647 {
            Some(v as i32)
        } else {
            None
        }
    }
}

/// Why a build failed, read from a human-readable error line.
pub fn parse_human_fail_type(t: &str) -> (r: FailType)
    requires
        names_exit_code(t@) ==> exit_code_cut_ok(t@),
    ensures
        r == human_fail_type(t@),
{
    if str_contains(t, "hash mismatch") || (str_contains(t, "output path") && (str_contains(
        t,
        "hash",
    ) || str_contains(t, "differs"))) {
        FailType::HashMismatch
    } else if str_contains(t, "timed out") || str_contains(t, "timeout") {
        FailType::Timeout
    } else if str_contains(t, "dependency failed") || str_contains(t, "dependencies failed") {
        FailType::DependencyFailed
    } else if str_contains(t, "builder for") && str_contains(t, "failed with exit code") {
        match exit_code_exec(t) {
            Some(c) => FailType::BuildFailed(c),
            None => FailType::Unknown,
        }
    } else {
        FailType::Unknown
    }
}

/// The exit code a failed builder's message gives.
fn exit_code_exec(t: &str) -> (r: Option<i32>)
    requires
        contains(t@, "failed with exit code"@),
        exit_code_cut_ok(t@),
    ensures
        r == exit_code_in(t@),
{
    let v = chars_of(t);
    let key = chars_of("exit code");
    proof {
        reveal_strlit("exit code");
        reveal_strlit("failed with exit code");
        crate::text::lemma_find_from_bound(t@, "failed with exit code"@, 0);
        let q = find(t@, "failed with exit code"@).unwrap();
        assert("failed with exit code"@.subrange(12, 21) =~= "exit code"@);
        assert(t@.subrange(q + 12, q + 21) =~= t@.subrange(q, q + 21).subrange(12, 21));
        lemma_find_exists(t@, "exit code"@, q + 12);
    }
    let p = match crate::text::find_chars(&v, &key) {
        Some(p) => p,
        None => return None,
    };
    let start = p + 10;
    let a = crate::text::skip_ws(&v, start);
    proof {
        crate::text::lemma_lead_ws_bound(v@.skip(start as int));
        assert(v@.skip(a as int) =~= v@.skip(start as int).skip(crate::text::lead_ws(v@.skip(start as int)) as int));
    }
    if a >= v.len() {
        return None;
    }
    let b = crate::text::skip_word(&v, a);
    let ghost w = v@.subrange(a as int, b as int);
    assert(w =~= v@.skip(start as int).skip(crate::text::lead_ws(v@.skip(start as int)) as int).take(
        crate::text::word_len(v@.skip(a as int)) as int,
    ));
    let mut e = b;
    while e > a && !('0' <= v[e - 1] && v[e - 1] <= '9')
        invariant
            a <= e <= b <= v@.len(),
            w == v@.subrange(a as int, b as int),
            trail_nondigits(w) == (b - e) + trail_nondigits(v@.subrange(a as int, e as int)),
        decreases e - a,
    {
        let ghost u = v@.subrange(a as int, e as int);
        assert(u.drop_last() =~= v@.subrange(a as int, e - 1));
        assert(u.last() == v@[e - 1]);
        e -= 1;
    }
    proof {
        let u = v@.subrange(a as int, e as int);
        if e > a {
            assert(u.last() == v@[e - 1]);
        }
        assert(trail_nondigits(u) == 0);
        assert(w.take(w.len() - trail_nondigits(w)) =~= u);
    }
    parse_i32(&v, a, e)
}

/// Whether a human-readable line that names a failed builder's exit code can
/// be cut after `exit code` and the character that follows, as reading the
/// code does.
pub fn exit_code_cuttable(t: &str) -> (r: bool)
    ensures
        r == (names_exit_code(t@) ==> exit_code_cut_ok(t@)),
{
    let names = !(str_contains(t, "hash mismatch") || (str_contains(t, "output path") && (
    str_contains(t, "hash") || str_contains(t, "differs"))))
        && !(str_contains(t, "timed out") || str_contains(t, "timeout"))
        && !(str_contains(t, "dependency failed") || str_contains(t, "dependencies failed"))
        && str_contains(t, "builder for") && str_contains(t, "failed with exit code");
    if !names {
        return true;
    }
    let v = chars_of(t);
    let key = chars_of("exit code");
    proof {
        reveal_strlit("exit code");
        reveal_strlit("failed with exit code");
        crate::text::lemma_find_from_bound(t@, "failed with exit code"@, 0);
        let q = find(t@, "failed with exit code"@).unwrap();
        assert("failed with exit code"@.subrange(12, 21) =~= "exit code"@);
        assert(t@.subrange(q + 12, q + 21) =~= t@.subrange(q, q + 21).subrange(12, 21));
        lemma_find_exists(t@, "exit code"@, q + 12);
    }
    match crate::text::find_chars(&v, &key) {
        Some(p) => {
            if p >= v.len() || v.len() - p <= 9 {
                false
            } else {
                (v[p + 9] as u32) < 128
            }
        },
        None => false,
    }
}

/// A text that occurs somewhere is found.
proof fn lemma_find_exists(s: Seq<char>, p: Seq<char>, k: int)
    requires
        0 <= k,
        k + p.len() <= s.len(),
        s.subrange(k, k + p.len()) == p,
    ensures
        find(s, p) is Some,
{
    lemma_find_from_exists(s, p, 0, k);
}

proof fn lemma_find_from_exists(s: Seq<char>, p: Seq<char>, i: int, k: int)
    requires
        0 <= i <= k,
        k + p.len() <= s.len(),
        s.subrange(k, k + p.len()) == p,
    ensures
        crate::text::find_from(s, p, i) is Some,
    decreases k - i,
{
    if i < k && !crate::text::occurs_at(s, p, i) {
        lemma_find_from_exists(s, p, i + 1, k);
    }
}

/// A derivation with the given path and name.
pub open spec fn drv_named(p: Seq<char>, n: Seq<char>) -> spec_fn(Derivation) -> bool {
    |d: Derivation| d.path@ == p && d.name@ == n
}

/// A store path with the given path, hash and name.
pub open spec fn path_named(p: Seq<char>, h: Seq<char>, n: Seq<char>) -> spec_fn(StorePath) -> bool {
    |q: StorePath| q.path@ == p && q.hash@ == h && q.name@ == n
}

/// The identifier of the derivation at `.drv` path `p`, if it has one.
pub open spec fn drv_index(s: State, p: Seq<char>) -> Option<int> {
    first_from(s.drv_names(), drv_named(p, derivation_name_of(p).unwrap()), 0)
}

/// The identifier of the store path `p`, if it has one.
pub open spec fn path_index(s: State, p: Seq<char>) -> Option<int> {
    first_from(
        s.path_names(),
        path_named(p, store_path_parts(p).unwrap().0, store_path_parts(p).unwrap().1),
        0,
    )
}

/// `starts_with(t, w) || contains(t, w + " '")`: a line that reports `w`.
pub open spec fn reports(t: Seq<char>, w: Seq<char>) -> bool {
    starts_with(t, w) || contains(t, w + " '"@)
}

/// The kinds of human-readable lines the monitor acts on.
pub enum HumanLine {
    Empty,
    Building(Seq<char>),
    Downloading(Seq<char>),
    Downloaded(Seq<char>, int),
    Checking(Seq<char>),
    Copying,
    Error,
    Built(int),
    Other,
}

/// `i32`-free test that a word is a count: what `usize::from_str` accepts.
pub open spec fn is_count(w: Seq<char>) -> bool {
    parse_u64_spec(w) matches Some(v) && v <= usize::MAX
}

/// What a trimmed human-readable line is, in the state `s`.
pub open spec fn human_line(s: State, t: Seq<char>) -> HumanLine {
    let p = path_in_message(t);
    if t.len() == 0 {
        HumanLine::Empty
    } else if reports(t, "building"@) && p is Some && derivation_name_of(p.unwrap()) is Some {
        HumanLine::Building(p.unwrap())
    } else if reports(t, "downloading"@) && p is Some && store_path_parts(p.unwrap()) is Some {
        HumanLine::Downloading(p.unwrap())
    } else if reports(t, "downloaded"@) && p is Some && store_path_parts(p.unwrap()) is Some
        && path_index(s, p.unwrap()) is Some {
        HumanLine::Downloaded(p.unwrap(), path_index(s, p.unwrap()).unwrap())
    } else if contains(t, "checking outputs of"@) && p is Some && derivation_name_of(p.unwrap()) is Some {
        HumanLine::Checking(p.unwrap())
    } else if starts_with(t, "copying"@) && contains(t, "paths"@) && words(t).len() >= 2 && is_count(
        words(t)[1],
    ) {
        HumanLine::Copying
    } else if starts_with(t, "error:"@) || contains(t, "error:"@) {
        HumanLine::Error
    } else if reports(t, "built"@) && p is Some && derivation_name_of(p.unwrap()) is Some && drv_index(
        s,
        p.unwrap(),
    ) is Some && s.drvs()[drv_index(s, p.unwrap()).unwrap()].build_status is Building {
        HumanLine::Built(drv_index(s, p.unwrap()).unwrap())
    } else {
        HumanLine::Other
    }
}

/// What a human-readable line does to the state.
pub open spec fn human_effect(
    before: State,
    after: State,
    t: Seq<char>,
    now: u64,
    bytes: Option<u64>,
    r: bool,
) -> bool {
    match human_line(before, t) {
        HumanLine::Building(p) => {
            let b = BuildStatus::Building(
                BuildInfo { start: now, host: Host::Localhost, estimate: None, activity_id: None },
            );
            &&& r
            &&& drv_index(after, p) matches Some(d) && {
                &&& after.drvs()[d].name.path@ == p
                &&& after.drvs()[d].build_status == b
                &&& (drv_index(before, p) matches Some(e) ==> d == e && after.drvs()
                    == before.drvs().update(d, with_status(before.drvs()[d], b))
                    && after.full_summary@ == recorded(
                    cleared(before.full_summary@, d as usize, before.drvs()[d].build_status),
                    d as usize,
                    b,
                ))
                &&& (drv_index(before, p) is None ==> d == before.drvs().len() && after.drvs().len()
                    == d + 1 && after.drvs().take(d) == before.drvs()
                    && after.full_summary@ == recorded(before.full_summary@, d as usize, b))
                &&& after.touched_ids@ == before.touched_ids@.insert(d as usize)
            }
            &&& after == (State {
                derivation_infos: after.derivation_infos,
                next_derivation_id: after.next_derivation_id,
                full_summary: after.full_summary,
                touched_ids: after.touched_ids,
                ..before
            })
        },
        HumanLine::Downloading(p) => r && exists|k: StorePathId|
            #![trigger after.full_summary@.running_downloads[k]]
            k < after.paths().len() && after.paths()[k as int].name.path@ == p
                && after.full_summary@ == (SummaryView {
                running_downloads: before.full_summary@.running_downloads.insert(
                    k,
                    TransferInfo {
                        start: now,
                        host: Host::Localhost,
                        activity_id: 0,
                        bytes_transferred: 0,
                        total_bytes: bytes,
                    },
                ),
                ..before.full_summary@
            }) && after == (State {
                store_path_infos: after.store_path_infos,
                next_store_path_id: after.next_store_path_id,
                full_summary: after.full_summary,
                ..before
            }) && after.drvs() == before.drvs() && (path_index(before, p) matches Some(e) ==> k == e
                && after.paths() == before.paths()) && (path_index(before, p) is None ==> k
                == before.paths().len() && after.paths().take(k as int) == before.paths()),
        HumanLine::Downloaded(p, k) => {
            let rd = before.full_summary@.running_downloads;
            &&& r
            &&& after.full_summary@ == (SummaryView {
                running_downloads: rd.remove(k as usize),
                completed_downloads: before.full_summary@.completed_downloads.insert(
                    k as usize,
                    CompletedTransferInfo {
                        start: if rd.contains_key(k as usize) {
                            rd[k as usize].start
                        } else {
                            now
                        },
                        end: now,
                        host: Host::Localhost,
                        total_bytes: match bytes {
                            Some(n) => n,
                            None => 0,
                        },
                    },
                ),
                ..before.full_summary@
            })
            &&& after == (State { full_summary: after.full_summary, ..before })
        },
        HumanLine::Checking(p) => {
            &&& r
            &&& drv_index(after, p) matches Some(d) && {
                &&& after.touched_ids@ == before.touched_ids@.insert(d as usize)
                &&& (drv_index(before, p) matches Some(e) ==> d == e && after.drvs() == before.drvs())
                &&& (drv_index(before, p) is None ==> d == before.drvs().len() && after.drvs().len()
                    == d + 1 && after.drvs().take(d) == before.drvs())
            }
            &&& after == (State {
                derivation_infos: after.derivation_infos,
                next_derivation_id: after.next_derivation_id,
                touched_ids: after.touched_ids,
                ..before
            })
        },
        HumanLine::Copying => r && after == before,
        HumanLine::Error => {
            &&& r
            &&& after.nix_errors@.len() == before.nix_errors@.len() + 1
            &&& after.nix_errors@.take(before.nix_errors@.len() as int) == before.nix_errors@
            &&& after.nix_errors@.last()@ == t
            &&& match path_in_message(t) {
                Some(p) => if derivation_name_of(p) is Some && drv_index(before, p) is Some
                    && before.drvs()[drv_index(before, p).unwrap()].build_status is Building {
                    let d = drv_index(before, p).unwrap();
                    let f = BuildStatus::Failed {
                        info: running_info(before.drvs()[d].build_status),
                        fail: BuildFail { at: now, fail_type: human_fail_type(t) },
                    };
                    &&& after.drvs() == before.drvs().update(d, with_status(before.drvs()[d], f))
                    &&& after.full_summary@ == recorded(
                        cleared(before.full_summary@, d as usize, before.drvs()[d].build_status),
                        d as usize,
                        f,
                    )
                    &&& after.touched_ids@ == before.touched_ids@.insert(d as usize)
                } else {
                    after.derivation_infos == before.derivation_infos && after.full_summary
                        == before.full_summary && after.touched_ids == before.touched_ids
                },
                None => after.derivation_infos == before.derivation_infos && after.full_summary
                    == before.full_summary && after.touched_ids == before.touched_ids,
            }
            &&& after == (State {
                nix_errors: after.nix_errors,
                derivation_infos: after.derivation_infos,
                full_summary: after.full_summary,
                touched_ids: after.touched_ids,
                ..before
            })
        },
        HumanLine::Built(d) => {
            let f = BuildStatus::Built { info: running_info(before.drvs()[d].build_status), end: now };
            &&& r
            &&& after.drvs() == before.drvs().update(d, with_status(before.drvs()[d], f))
            &&& after.full_summary@ == recorded(
                cleared(before.full_summary@, d as usize, before.drvs()[d].build_status),
                d as usize,
                f,
            )
            &&& after.touched_ids@ == before.touched_ids@.insert(d as usize)
            &&& after == (State {
                derivation_infos: after.derivation_infos,
                full_summary: after.full_summary,
                touched_ids: after.touched_ids,
                ..before
            })
        },
        _ => !r && after == before,
    }
}

/// Reading a line cuts the text after `exit code` only for a failed builder's
/// error line; such a line must be cut at a character boundary.
pub open spec fn human_line_cuttable(s: State, t: Seq<char>) -> bool {
    human_line(s, t) is Error && names_exit_code(t) ==> exit_code_cut_ok(t)
}

/// Whether a line reports `w`: it starts with `w`, or holds `w` and a quote.
fn reports_exec(t: &str, w: &str, wq: &str) -> (r: bool)
    requires
        wq@ == w@ + " '"@,
    ensures
        r == reports(t@, w@),
{
    str_starts_with(t, w) || str_contains(t, wq)
}

/// The identifier of a derivation, looked up by its path.
fn drv_lookup(state: &State, drv: &Derivation) -> (r: Option<usize>)
    requires
        state.wf(),
        derivation_name_of(drv.path@) == Some(drv.name@),
    ensures
        r == (match drv_index(*state, drv.path@) {
            Some(i) => Some(i as usize),
            None => None::<usize>,
        }),
        r matches Some(d) ==> d < state.drvs().len() && drv_index(*state, drv.path@) == Some(d as int),
        r is None ==> drv_index(*state, drv.path@) is None,
{
    assert(is_drv(*drv) =~= drv_named(drv.path@, derivation_name_of(drv.path@).unwrap()));
    let r = state.find_derivation_id(drv);
    proof {
        if let Some(i) = drv_index(*state, drv.path@) {
            assert(0 <= i < state.drvs().len());
            assert(state.drvs().len() == state.next_derivation_id);
            assert((i as usize) as int == i);
        }
    }
    r
}

/// A human-readable line of nix's output, received at `now`; `bytes` is the
/// byte size the line gives, as the caller reads it.  Returns whether the
/// state changed.
#[verifier::rlimit(60)]
pub fn process_human_line(state: &mut State, line: &str, now: u64, bytes: Option<u64>) -> (r: bool)
    requires
        old(state).wf(),
        old(state).has_room(),
        human_line_cuttable(*old(state), trim(line@)),
    ensures
        final(state).wf(),
        old(state).summary_consistent() ==> final(state).summary_consistent(),
        human_effect(*old(state), *final(state), trim(line@), now, bytes, r),
{
    let ghost s0 = *state;
    let t = trim_string(line);
    let ghost tv = t@;
    let tc = chars_of(t.as_str());
    if tc.len() == 0 {
        return false;
    }
    proof {
        reveal_strlit("building");
        reveal_strlit("building '");
        reveal_strlit("downloading");
        reveal_strlit("downloading '");
        reveal_strlit("downloaded");
        reveal_strlit("downloaded '");
        reveal_strlit("built");
        reveal_strlit("built '");
        reveal_strlit(" '");
        assert("building '"@ =~= "building"@ + " '"@);
        assert("downloading '"@ =~= "downloading"@ + " '"@);
        assert("downloaded '"@ =~= "downloaded"@ + " '"@);
        assert("built '"@ =~= "built"@ + " '"@);
    }
    let path = extract_path_from_message(t.as_str());
    if reports_exec(t.as_str(), "building", "building '") {
        if let Some(p) = &path {
            if let Some(drv) = Derivation::parse(p.as_str()) {
                let ghost dv = drv;
                proof {
                    assert(is_drv(dv) =~= drv_named(p@, derivation_name_of(p@).unwrap()));
                }
                let d = state.get_or_create_derivation_id(drv);
                let ghost s1 = *state;
                proof {
                    lemma_first_from_some(state.drv_names(), is_drv(dv), 0);
                    assert(state.drv_names()[d as int] == state.drvs()[d as int].name);
                }
                let info = BuildInfo { start: now, host: Host::Localhost, estimate: None, activity_id: None };
                state.update_build_status(d, BuildStatus::Building(info));
                proof {
                    assert(state.drv_names() == s1.drv_names());
                    assert(drv_index(*state, p@) == Some(d as int));
                    if drv_index(s0, p@) is None {
                        assert(s1.drvs().take(d as int) =~= s0.drvs());
                        assert(state.drvs().take(d as int) =~= s1.drvs().take(d as int));
                    }
                }
                assert(state.drvs()[d as int].name.path@ == p@);
                return true;
            }
        }
    }
    if reports_exec(t.as_str(), "downloading", "downloading '") {
        if let Some(p) = &path {
            if let Some(sp) = StorePath::parse(p.as_str()) {
                let ghost spv = sp;
                proof {
                    assert(is_path(spv) =~= path_named(
                        p@,
                        store_path_parts(p@).unwrap().0,
                        store_path_parts(p@).unwrap().1,
                    ));
                }
                let k = state.get_or_create_store_path_id(sp);
                proof {
                    lemma_first_from_some(state.path_names(), is_path(spv), 0);
                    assert(state.path_names()[k as int] == state.paths()[k as int].name);
                }
                let ghost s1 = *state;
                let tr = TransferInfo {
                    start: now,
                    host: Host::Localhost,
                    activity_id: 0,
                    bytes_transferred: 0,
                    total_bytes: bytes,
                };
                state.full_summary.running_downloads.insert(k, tr);
                proof {
                    lemma_wf_frame(&s1, state);
                    summary_kept(&s1, state);
                    assert(state.full_summary@.running_downloads[k] == tr);
                    assert(state.paths() == s1.paths());
                    if path_index(s0, p@) is None {
                        assert(s1.paths().take(k as int) =~= s0.paths());
                    }
                }
                return true;
            }
        }
    }
    if reports_exec(t.as_str(), "downloaded", "downloaded '") {
        if let Some(p) = &path {
            if let Some(sp) = StorePath::parse(p.as_str()) {
                proof {
                    assert(is_path(sp) =~= path_named(
                        p@,
                        store_path_parts(p@).unwrap().0,
                        store_path_parts(p@).unwrap().1,
                    ));
                }
                if let Some(k) = state.find_store_path_id(&sp) {
                    let total = match bytes {
                        Some(n) => n,
                        None => 0,
                    };
                    let start = match state.full_summary.running_downloads.get(&k) {
                        Some(tr) => tr.start,
                        None => now,
                    };
                    let c = CompletedTransferInfo { start, end: now, host: Host::Localhost, total_bytes: total };
                    state.full_summary.running_downloads.remove(&k);
                    state.full_summary.completed_downloads.insert(k, c);
                    proof {
                        lemma_wf_frame(&s0, state);
                        summary_kept(&s0, state);
                    }
                    return true;
                }
            }
        }
    }
    if str_contains(t.as_str(), "checking outputs of") {
        if let Some(p) = &path {
            if let Some(drv) = Derivation::parse(p.as_str()) {
                let ghost dv = drv;
                proof {
                    assert(is_drv(dv) =~= drv_named(p@, derivation_name_of(p@).unwrap()));
                }
                let d = state.get_or_create_derivation_id(drv);
                proof {
                    lemma_first_from_some(state.drv_names(), is_drv(dv), 0);
                    assert(state.drv_names()[d as int] == state.drvs()[d as int].name);
                }
                let ghost s1 = *state;
                state.touched_ids.insert(d);
                proof {
                    lemma_wf_frame(&s1, state);
                    summary_kept(&s1, state);
                    assert(state.drv_names() == s1.drv_names());
                    assert(drv_index(*state, p@) == Some(d as int));
                    if drv_index(s0, p@) is None {
                        assert(s1.drvs().take(d as int) =~= s0.drvs());
                    }
                }
                return true;
            }
        }
    }
    if str_starts_with(t.as_str(), "copying") && str_contains(t.as_str(), "paths") {
        let ws = split_words(&tc);
        if ws.len() >= 2 {
            if let Some(v) = parse_u64(&ws[1], 0, ws[1].len()) {
                assert(ws@[1]@.subrange(0, ws@[1]@.len() as int) =~= ws@[1]@);
                if v as u128 <= usize::MAX as u128 {
                    return true;
                }
            } else {
                assert(ws@[1]@.subrange(0, ws@[1]@.len() as int) =~= ws@[1]@);
            }
        }
    }
    if str_starts_with(t.as_str(), "error:") || str_contains(t.as_str(), "error:") {
        assert(!(reports(tv, "building"@) && path_in_message(tv) is Some && derivation_name_of(path_in_message(tv).unwrap()) is Some));
        assert(!(reports(tv, "downloading"@) && path_in_message(tv) is Some && store_path_parts(path_in_message(tv).unwrap()) is Some));
        assert(!(reports(tv, "downloaded"@) && path_in_message(tv) is Some && store_path_parts(path_in_message(tv).unwrap()) is Some && path_index(s0, path_in_message(tv).unwrap()) is Some));
        assert(!(contains(tv, "checking outputs of"@) && path_in_message(tv) is Some && derivation_name_of(path_in_message(tv).unwrap()) is Some));
        assert(!(starts_with(tv, "copying"@) && contains(tv, "paths"@) && words(tv).len() >= 2 && is_count(words(tv)[1])));
        assert(human_line(s0, tv) is Error);
        let ghost s1 = *state;
        state.nix_errors.push(t.clone());
        proof {
            lemma_wf_frame(&s1, state);
            summary_kept(&s1, state);
        }
        let fail_type = parse_human_fail_type(t.as_str());
        if let Some(p) = &path {
            if let Some(drv) = Derivation::parse(p.as_str()) {
                if let Some(d) = drv_lookup(state, &drv) {
                    let running = match state.get_derivation_info(d) {
                        Some(info) => match &info.build_status {
                            BuildStatus::Building(b) => Some(b.duplicate()),
                            _ => None,
                        },
                        None => None,
                    };
                    if let Some(b) = running {
                        state.update_build_status(
                            d,
                            BuildStatus::Failed { info: b, fail: BuildFail { at: now, fail_type } },
                        );
                    }
                }
            }
        }
        assert(state.nix_errors@.len() == s0.nix_errors@.len() + 1);
        assert(state.nix_errors@.take(s0.nix_errors@.len() as int) =~= s0.nix_errors@);
        assert(state.nix_errors@.last()@ == tv);
        return true;
    }
    if reports_exec(t.as_str(), "built", "built '") {
        if let Some(p) = &path {
            if let Some(drv) = Derivation::parse(p.as_str()) {
                if let Some(d) = drv_lookup(state, &drv) {
                    let running = match state.get_derivation_info(d) {
                        Some(info) => match &info.build_status {
                            BuildStatus::Building(b) => Some(b.duplicate()),
                            _ => None,
                        },
                        None => None,
                    };
                    if let Some(b) = running {
                        state.update_build_status(d, BuildStatus::Built { info: b, end: now });
                        return true;
                    }
                }
            }
        }
    }
    false
}

/// Whether a human-readable line is read as an error line: it holds `error:`
/// and no kind of line tried before it matches.
pub fn human_line_is_error(state: &State, line: &str) -> (r: bool)
    requires
        state.wf(),
    ensures
        r == (human_line(*state, trim(line@)) is Error),
{
    let t = trim_string(line);
    let ghost tv = t@;
    let tc = chars_of(t.as_str());
    if tc.len() == 0 {
        return false;
    }
    proof {
        reveal_strlit("building");
        reveal_strlit("building '");
        reveal_strlit("downloading");
        reveal_strlit("downloading '");
        reveal_strlit("downloaded");
        reveal_strlit("downloaded '");
        reveal_strlit(" '");
        assert("building '"@ =~= "building"@ + " '"@);
        assert("downloading '"@ =~= "downloading"@ + " '"@);
        assert("downloaded '"@ =~= "downloaded"@ + " '"@);
    }
    let path = extract_path_from_message(t.as_str());
    if reports_exec(t.as_str(), "building", "building '") {
        if let Some(p) = &path {
            if Derivation::parse(p.as_str()).is_some() {
                return false;
            }
        }
    }
    if reports_exec(t.as_str(), "downloading", "downloading '") {
        if let Some(p) = &path {
            if StorePath::parse(p.as_str()).is_some() {
                return false;
            }
        }
    }
    if reports_exec(t.as_str(), "downloaded", "downloaded '") {
        if let Some(p) = &path {
            if let Some(sp) = StorePath::parse(p.as_str()) {
                proof {
                    assert(is_path(sp) =~= path_named(
                        p@,
                        store_path_parts(p@).unwrap().0,
                        store_path_parts(p@).unwrap().1,
                    ));
                }
                if state.find_store_path_id(&sp).is_some() {
                    return false;
                }
            }
        }
    }
    if str_contains(t.as_str(), "checking outputs of") {
        if let Some(p) = &path {
            if Derivation::parse(p.as_str()).is_some() {
                return false;
            }
        }
    }
    if str_starts_with(t.as_str(), "copying") && str_contains(t.as_str(), "paths") {
        let ws = split_words(&tc);
        if ws.len() >= 2 {
            if let Some(v) = parse_u64(&ws[1], 0, ws[1].len()) {
                assert(ws@[1]@.subrange(0, ws@[1]@.len() as int) =~= ws@[1]@);
                if v as u128 <= usize::MAX as u128 {
                    return false;
                }
            } else {
                assert(ws@[1]@.subrange(0, ws@[1]@.len() as int) =~= ws@[1]@);
            }
        }
    }
    str_starts_with(t.as_str(), "error:") || str_contains(t.as_str(), "error:")
}

/// Whether `process_human_line` can read a line in this state: a failed
/// builder's error line must have a one-byte character after `exit code`,
/// where the code is cut off.
pub fn human_line_readable(state: &State, line: &str) -> (r: bool)
    requires
        state.wf(),
    ensures
        r == human_line_cuttable(*state, trim(line@)),
{
    if !human_line_is_error(state, line) {
        return true;
    }
    let t = trim_string(line);
    exit_code_cuttable(t.as_str())
}

/// A state whose derivations and build entries are those of another keeps its
/// agreement between summary and build statuses.
proof fn summary_kept(a: &State, b: &State)
    requires
        a.drvs() == b.drvs(),
        a.full_summary@.planned_builds == b.full_summary@.planned_builds,
        a.full_summary@.running_builds == b.full_summary@.running_builds,
        a.full_summary@.completed_builds == b.full_summary@.completed_builds,
        a.full_summary@.failed_builds == b.full_summary@.failed_builds,
    ensures
        a.summary_consistent() ==> b.summary_consistent(),
{
    if a.summary_consistent() {
        assert forall|j: int| 0 <= j < b.drvs().len() implies summary_holds(
            b.full_summary@,
            j as usize,
            #[trigger] b.drvs()[j].build_status,
        ) by {
            assert(summary_holds(a.full_summary@, j as usize, a.drvs()[j].build_status));
        }
    }
}

} // verus!
