//! Character-level text operations with their mathematical models.
//!
//! Strings are modelled by their `Seq<char>` view.  Positions are character
//! positions; every function here works on characters, never on bytes.
use vstd::prelude::*;

verus! {

/// `p` occurs in `s` starting at character position `i`.
pub open spec fn occurs_at(s: Seq<char>, p: Seq<char>, i: int) -> bool {
    &&& 0 <= i
    &&& i + p.len() <= s.len()
    &&& s.subrange(i, i + p.len()) == p
}

/// First position at or after `i` where `p` occurs in `s`.
pub open spec fn find_from(s: Seq<char>, p: Seq<char>, i: int) -> Option<int>
    decreases s.len() + 1 - i,
{
    if i < 0 || i + p.len() > s.len() {
        None
    } else if occurs_at(s, p, i) {
        Some(i)
    } else {
        find_from(s, p, i + 1)
    }
}

/// First position where `p` occurs in `s`.
pub open spec fn find(s: Seq<char>, p: Seq<char>) -> Option<int> {
    find_from(s, p, 0)
}

/// `s` contains `p`.
pub open spec fn contains(s: Seq<char>, p: Seq<char>) -> bool {
    find(s, p) is Some
}

/// Last position at or before `i` where `p` occurs in `s`.
pub open spec fn rfind_upto(s: Seq<char>, p: Seq<char>, i: int) -> Option<int>
    decreases i + 1,
{
    if i < 0 {
        None
    } else if occurs_at(s, p, i) {
        Some(i)
    } else {
        rfind_upto(s, p, i - 1)
    }
}

/// Last position where `p` occurs in `s`.
pub open spec fn rfind(s: Seq<char>, p: Seq<char>) -> Option<int> {
    rfind_upto(s, p, s.len() - p.len())
}

pub open spec fn starts_with(s: Seq<char>, p: Seq<char>) -> bool {
    occurs_at(s, p, 0)
}

pub open spec fn ends_with(s: Seq<char>, p: Seq<char>) -> bool {
    occurs_at(s, p, s.len() - p.len())
}

/// First position at or after `i` holding the character `c`.
pub open spec fn find_char_from(s: Seq<char>, c: char, i: int) -> Option<int>
    decreases s.len() - i,
{
    if i < 0 || i >= s.len() {
        None
    } else if s[i] == c {
        Some(i)
    } else {
        find_char_from(s, c, i + 1)
    }
}

/// Unicode `White_Space` property, as `char::is_whitespace` documents it.
pub open spec fn is_ws(c: char) -> bool {
    ||| ('\u{9}' <= c && c <= '\u{d}')
    ||| c == ' '
    ||| c == '\u{85}'
    ||| c == '\u{a0}'
    ||| c == '\u{1680}'
    ||| ('\u{2000}' <= c && c <= '\u{200a}')
    ||| c == '\u{2028}'
    ||| c == '\u{2029}'
    ||| c == '\u{202f}'
    ||| c == '\u{205f}'
    ||| c == '\u{3000}'
}

pub open spec fn is_digit(c: char) -> bool {
    '0' <= c && c <= '9'
}

pub open spec fn is_ascii_alnum(c: char) -> bool {
    ||| ('0' <= c && c <= '9')
    ||| ('a' <= c && c <= 'z')
    ||| ('A' <= c && c <= 'Z')
}

/// Number of leading whitespace characters.
pub open spec fn lead_ws(s: Seq<char>) -> nat
    decreases s.len(),
{
    if s.len() > 0 && is_ws(s[0]) {
        1 + lead_ws(s.drop_first())
    } else {
        0
    }
}

/// Number of trailing whitespace characters.
pub open spec fn trail_ws(s: Seq<char>) -> nat
    decreases s.len(),
{
    if s.len() > 0 && is_ws(s.last()) {
        1 + trail_ws(s.drop_last())
    } else {
        0
    }
}

/// `str::trim`: the text without leading and trailing whitespace.
pub open spec fn trim(s: Seq<char>) -> Seq<char> {
    let t = s.skip(lead_ws(s) as int);
    t.take(t.len() - trail_ws(t))
}

/// Length of the run of non-whitespace characters at the front of `s`.
pub open spec fn word_len(s: Seq<char>) -> nat
    decreases s.len(),
{
    if s.len() > 0 && !is_ws(s[0]) {
        1 + word_len(s.drop_first())
    } else {
        0
    }
}

/// `str::split_whitespace`: the maximal runs of non-whitespace characters.
pub open spec fn words(s: Seq<char>) -> Seq<Seq<char>>
    decreases s.len(),
{
    if s.len() == 0 {
        seq![]
    } else if is_ws(s[0]) {
        words(s.drop_first())
    } else {
        let n = word_len(s);
        proof {
            lemma_word_len_bound(s);
        }
        seq![s.take(n as int)] + words(s.skip(n as int))
    }
}

pub proof fn lemma_lead_ws_bound(s: Seq<char>)
    ensures
        lead_ws(s) <= s.len(),
        forall|i: int| 0 <= i < lead_ws(s) ==> is_ws(#[trigger] s[i]),
        lead_ws(s) < s.len() ==> !is_ws(s[lead_ws(s) as int]),
    decreases s.len(),
{
    if s.len() > 0 && is_ws(s[0]) {
        lemma_lead_ws_bound(s.drop_first());
        assert forall|i: int| 0 <= i < lead_ws(s) implies is_ws(#[trigger] s[i]) by {
            if i > 0 {
                assert(s[i] == s.drop_first()[i - 1]);
            }
        }
    }
}

pub proof fn lemma_trail_ws_bound(s: Seq<char>)
    ensures
        trail_ws(s) <= s.len(),
        forall|i: int| s.len() - trail_ws(s) <= i < s.len() ==> is_ws(#[trigger] s[i]),
        trail_ws(s) < s.len() ==> !is_ws(s[s.len() - trail_ws(s) - 1]),
    decreases s.len(),
{
    if s.len() > 0 && is_ws(s.last()) {
        lemma_trail_ws_bound(s.drop_last());
        assert forall|i: int| s.len() - trail_ws(s) <= i < s.len() implies is_ws(#[trigger] s[i]) by {
            if i < s.len() - 1 {
                assert(s[i] == s.drop_last()[i]);
            }
        }
    }
}

pub proof fn lemma_word_len_bound(s: Seq<char>)
    ensures
        word_len(s) <= s.len(),
        forall|i: int| 0 <= i < word_len(s) ==> !is_ws(#[trigger] s[i]),
        word_len(s) < s.len() ==> is_ws(s[word_len(s) as int]),
    decreases s.len(),
{
    if s.len() > 0 && !is_ws(s[0]) {
        lemma_word_len_bound(s.drop_first());
        assert forall|i: int| 0 <= i < word_len(s) implies !is_ws(#[trigger] s[i]) by {
            if i > 0 {
                assert(s[i] == s.drop_first()[i - 1]);
            }
        }
    }
}


/// Where `find_from` finds `p`, `p` occurs, at or after `i`.
pub proof fn lemma_find_from_bound(s: Seq<char>, p: Seq<char>, i: int)
    ensures
        find_from(s, p, i) matches Some(k) ==> i <= k && k + p.len() <= s.len() && occurs_at(
            s,
            p,
            k,
        ),
    decreases s.len() + 1 - i,
{
    if !(i < 0 || i + p.len() > s.len()) && !occurs_at(s, p, i) {
        lemma_find_from_bound(s, p, i + 1);
    }
}

/// Where `rfind_upto` finds `p`, `p` occurs, at or before `i`.
pub proof fn lemma_rfind_upto_bound(s: Seq<char>, p: Seq<char>, i: int)
    ensures
        rfind_upto(s, p, i) matches Some(k) ==> 0 <= k <= i && k + p.len() <= s.len() && occurs_at(
            s,
            p,
            k,
        ),
    decreases i + 1,
{
    if i >= 0 && !occurs_at(s, p, i) {
        lemma_rfind_upto_bound(s, p, i - 1);
    }
}

/// Where `rfind` finds `p`, `p` occurs.
pub proof fn lemma_rfind_bound(s: Seq<char>, p: Seq<char>)
    ensures
        rfind(s, p) matches Some(k) ==> 0 <= k && k + p.len() <= s.len() && occurs_at(s, p, k),
{
    lemma_rfind_upto_bound(s, p, s.len() - p.len());
}

/// An occurrence at or before `j` is found searching back from `j`.
pub proof fn lemma_rfind_upto_some(s: Seq<char>, p: Seq<char>, k: int, j: int)
    requires
        occurs_at(s, p, k),
        k <= j,
    ensures
        rfind_upto(s, p, j) is Some,
    decreases j - k,
{
    if j > k && !occurs_at(s, p, j) {
        lemma_rfind_upto_some(s, p, k, j - 1);
    }
}

/// A text that contains `p` has a last occurrence of it.
pub proof fn lemma_contains_rfind(s: Seq<char>, p: Seq<char>)
    requires
        contains(s, p),
    ensures
        rfind(s, p) is Some,
{
    lemma_find_from_bound(s, p, 0);
    lemma_rfind_upto_some(s, p, find(s, p).unwrap(), s.len() - p.len());
}

/// Position of the first `c` in `s` at or after `i`.
pub fn find_char(s: &Vec<char>, c: char, i: usize) -> (r: Option<usize>)
    requires
        i <= s@.len(),
    ensures
        r == (match find_char_from(s@, c, i as int) {
            Some(k) => Some(k as usize),
            None => None::<usize>,
        }),
        r matches Some(k) ==> i <= k < s@.len() && s@[k as int] == c && find_char_from(
            s@,
            c,
            i as int,
        ) == Some(k as int),
        r is None ==> find_char_from(s@, c, i as int) is None,
        find_char_from(s@, c, i as int) matches Some(k) ==> i <= k < s@.len(),
{
    let mut k = i;
    while k < s.len()
        invariant
            i <= k <= s@.len(),
            find_char_from(s@, c, i as int) == find_char_from(s@, c, k as int),
            forall|j: int| i <= j < k ==> s@[j] != c,
        decreases s@.len() - k,
    {
        if s[k] == c {
            return Some(k);
        }
        k += 1;
    }
    None
}

/// Exact test of `char::is_whitespace`.
pub fn char_is_ws(c: char) -> (r: bool)
    ensures
        r == is_ws(c),
{
    ('\u{9}' <= c && c <= '\u{d}') || c == ' ' || c == '\u{85}' || c == '\u{a0}' || c
        == '\u{1680}' || ('\u{2000}' <= c && c <= '\u{200a}') || c == '\u{2028}' || c
        == '\u{2029}' || c == '\u{202f}' || c == '\u{205f}' || c == '\u{3000}'
}

/// The characters of `s`, in order.
pub fn chars_of(s: &str) -> (r: Vec<char>)
    ensures
        r@ == s@,
        r@.len() <= usize::MAX,
{
    let n = s.unicode_len();
    let mut r: Vec<char> = Vec::new();
    for i in 0..n
        invariant
            n == s@.len(),
            r@ == s@.take(i as int),
    {
        r.push(s.get_char(i));
        assert(r@ =~= s@.take(i + 1));
    }
    assert(r@ =~= s@);
    r
}

/// Builds a `String` holding exactly the characters of `v`.
#[verifier::external_body]
pub fn string_from_chars(v: &[char]) -> (r: String)
    ensures
        r@ == v@,
{
    v.iter().collect()
}

/// Appends one character to a `String` (`String::push`).
#[verifier::external_body]
pub fn push_char(s: &mut String, c: char)
    ensures
        final(s)@ == old(s)@.push(c),
{
    s.push(c)
}

/// The characters `v[from..to]` as a `String`.
pub fn string_of_range(v: &Vec<char>, from: usize, to: usize) -> (r: String)
    requires
        from <= to <= v@.len(),
    ensures
        r@ == v@.subrange(from as int, to as int),
{
    let mut out: Vec<char> = Vec::new();
    let mut i = from;
    while i < to
        invariant
            from <= i <= to <= v@.len(),
            out@ == v@.subrange(from as int, i as int),
        decreases to - i,
    {
        out.push(v[i]);
        i += 1;
        assert(out@ =~= v@.subrange(from as int, i as int));
    }
    string_from_chars(out.as_slice())
}

/// Copies a `String` keeping its characters.
pub fn copy_string(s: &String) -> (r: String)
    ensures
        r@ == s@,
{
    s.clone()
}

/// Does `p` occur in `s` at position `i`?
pub fn matches_at(s: &Vec<char>, p: &Vec<char>, i: usize) -> (r: bool)
    ensures
        r == occurs_at(s@, p@, i as int),
{
    if p.len() > s.len() || i > s.len() - p.len() {
        return false;
    }
    let mut j: usize = 0;
    while j < p.len()
        invariant
            i + p@.len() <= s@.len(),
            j <= p@.len(),
            forall|k: int| 0 <= k < j ==> s@[i + k] == p@[k],
        decreases p@.len() - j,
    {
        assert(i + j < s.len());
        if s[i + j] != p[j] {
            assert(s@.subrange(i as int, i + p@.len())[j as int] != p@[j as int]);
            return false;
        }
        j += 1;
    }
    assert(s@.subrange(i as int, i + p@.len()) =~= p@);
    true
}

/// First occurrence of `p` in `s` at or after `from`.
pub fn find_chars_from(s: &Vec<char>, p: &Vec<char>, from: usize) -> (r: Option<usize>)
    ensures
        r == (match find_from(s@, p@, from as int) {
            Some(i) => Some(i as usize),
            None => None::<usize>,
        }),
        r matches Some(k) ==> find_from(s@, p@, from as int) == Some(k as int) && from <= k && k
            + p@.len() <= s@.len() && occurs_at(s@, p@, k as int),
        r is None ==> find_from(s@, p@, from as int) is None,
{
    let mut i = from;
    if p.len() > s.len() {
        return None;
    }
    let last = s.len() - p.len();
    if i > last {
        return None;
    }
    loop
        invariant
            last == s@.len() - p@.len(),
            from <= i <= last,
            find_from(s@, p@, from as int) == find_from(s@, p@, i as int),
        decreases last - i,
    {
        if matches_at(s, p, i) {
            proof {
                lemma_find_from_bound(s@, p@, from as int);
            }
            return Some(i);
        }
        if i == last {
            proof {
                reveal_with_fuel(find_from, 2);
            }
            return None;
        }
        i += 1;
    }
}

/// First occurrence of `p` in `s`.
pub fn find_chars(s: &Vec<char>, p: &Vec<char>) -> (r: Option<usize>)
    ensures
        r == (match find(s@, p@) {
            Some(i) => Some(i as usize),
            None => None::<usize>,
        }),
        r matches Some(k) ==> find(s@, p@) == Some(k as int) && k + p@.len() <= s@.len()
            && occurs_at(s@, p@, k as int),
        r is None ==> find(s@, p@) is None,
{
    find_chars_from(s, p, 0)
}

/// Last occurrence of `p` in `s`.
pub fn rfind_chars(s: &Vec<char>, p: &Vec<char>) -> (r: Option<usize>)
    ensures
        r == (match rfind(s@, p@) {
            Some(i) => Some(i as usize),
            None => None::<usize>,
        }),
        r matches Some(k) ==> rfind(s@, p@) == Some(k as int) && k + p@.len() <= s@.len(),
        r is None ==> rfind(s@, p@) is None,
{
    if p.len() > s.len() {
        return None;
    }
    let mut i: usize = s.len() - p.len();
    loop
        invariant
            i <= s@.len() - p@.len(),
            rfind(s@, p@) == rfind_upto(s@, p@, i as int),
        decreases i,
    {
        if matches_at(s, p, i) {
            proof {
                lemma_rfind_bound(s@, p@);
            }
            return Some(i);
        }
        if i == 0 {
            proof {
                reveal_with_fuel(rfind_upto, 2);
            }
            return None;
        }
        i -= 1;
    }
}

/// Does `s` contain `p`?
pub fn contains_chars(s: &Vec<char>, p: &Vec<char>) -> (r: bool)
    ensures
        r == contains(s@, p@),
{
    find_chars(s, p).is_some()
}

/// Does the text `s` contain the text `p`?
pub fn str_contains(s: &str, p: &str) -> (r: bool)
    ensures
        r == contains(s@, p@),
{
    let sv = chars_of(s);
    let pv = chars_of(p);
    contains_chars(&sv, &pv)
}

/// Does `s` start with `p`?
pub fn str_starts_with(s: &str, p: &str) -> (r: bool)
    ensures
        r == starts_with(s@, p@),
{
    let sv = chars_of(s);
    let pv = chars_of(p);
    matches_at(&sv, &pv, 0)
}

/// Do the two texts hold the same characters?
pub fn str_eq(a: &str, b: &str) -> (r: bool)
    ensures
        r == (a@ == b@),
{
    let av = chars_of(a);
    let bv = chars_of(b);
    if av.len() != bv.len() {
        return false;
    }
    let r = matches_at(&av, &bv, 0);
    assert(av@.subrange(0, bv@.len() as int) =~= av@);
    r
}

/// Position of the first non-whitespace character at or after `i`
/// (or the length of `s`).
pub fn skip_ws(s: &Vec<char>, i: usize) -> (r: usize)
    requires
        i <= s@.len(),
    ensures
        r == i + lead_ws(s@.skip(i as int)),
        r <= s@.len(),
{
    let mut j = i;
    proof {
        lemma_lead_ws_bound(s@.skip(i as int));
    }
    while j < s.len() && char_is_ws(s[j])
        invariant
            i <= j <= s@.len(),
            lead_ws(s@.skip(i as int)) == (j - i) + lead_ws(s@.skip(j as int)),
        decreases s@.len() - j,
    {
        assert(s@.skip(j as int).drop_first() =~= s@.skip(j + 1));
        j += 1;
    }
    j
}

/// Position just after the run of non-whitespace characters starting at `i`.
pub fn skip_word(s: &Vec<char>, i: usize) -> (r: usize)
    requires
        i <= s@.len(),
    ensures
        r == i + word_len(s@.skip(i as int)),
        r <= s@.len(),
{
    let mut j = i;
    while j < s.len() && !char_is_ws(s[j])
        invariant
            i <= j <= s@.len(),
            word_len(s@.skip(i as int)) == (j - i) + word_len(s@.skip(j as int)),
        decreases s@.len() - j,
    {
        assert(s@.skip(j as int).drop_first() =~= s@.skip(j + 1));
        j += 1;
    }
    j
}

/// The whitespace-separated words of `s` (`str::split_whitespace`).
pub fn split_words(s: &Vec<char>) -> (r: Vec<Vec<char>>)
    ensures
        r@.len() == words(s@).len(),
        forall|k: int| 0 <= k < r@.len() ==> (#[trigger] r@[k])@ == words(s@)[k],
{
    let mut out: Vec<Vec<char>> = Vec::new();
    let mut i: usize = 0;
    assert(s@.skip(0) =~= s@);
    while i < s.len()
        invariant
            i <= s@.len(),
            words(s@) =~= out@.map_values(|w: Vec<char>| w@) + words(s@.skip(i as int)),
        decreases s@.len() - i,
    {
        let ghost rest = s@.skip(i as int);
        if char_is_ws(s[i]) {
            assert(rest.drop_first() =~= s@.skip(i + 1));
            i += 1;
        } else {
            let j = skip_word(s, i);
            proof {
                lemma_word_len_bound(rest);
            }
            let mut w: Vec<char> = Vec::new();
            let mut k = i;
            while k < j
                invariant
                    i <= k <= j <= s@.len(),
                    w@ == s@.subrange(i as int, k as int),
                decreases j - k,
            {
                w.push(s[k]);
                k += 1;
                assert(w@ =~= s@.subrange(i as int, k as int));
            }
            assert(rest.take(word_len(rest) as int) =~= w@);
            assert(rest.skip(word_len(rest) as int) =~= s@.skip(j as int));
            let ghost before = out@;
            out.push(w);
            assert(out@.map_values(|w: Vec<char>| w@) =~= before.map_values(|w: Vec<char>| w@).push(
                w@,
            ));
            i = j;
        }
    }
    assert(s@.skip(i as int) =~= Seq::<char>::empty());
    out
}

/// `str::trim` on a character vector: returns the bounds of the trimmed text.
pub fn trim_bounds(s: &Vec<char>) -> (r: (usize, usize))
    ensures
        r.0 <= r.1 <= s@.len(),
        s@.subrange(r.0 as int, r.1 as int) == trim(s@),
{
    let a = skip_ws(s, 0);
    assert(s@.skip(0) =~= s@);
    let ghost t = s@.skip(a as int);
    let mut b = s.len();
    proof {
        lemma_trail_ws_bound(t);
        lemma_lead_ws_bound(s@);
    }
    while b > a && char_is_ws(s[b - 1])
        invariant
            a <= b <= s@.len(),
            t == s@.skip(a as int),
            trail_ws(t) == (s@.len() - b) + trail_ws(s@.subrange(a as int, b as int)),
        decreases b,
    {
        let ghost u = s@.subrange(a as int, b as int);
        assert(u.last() == s@[b - 1]);
        assert(u.drop_last() =~= s@.subrange(a as int, b - 1));
        b -= 1;
    }
    proof {
        assert(t =~= s@.subrange(a as int, s@.len() as int));
        let u = s@.subrange(a as int, b as int);
        if b > a {
            assert(u.last() == s@[b - 1]);
        }
        assert(trail_ws(u) == 0);
        assert(t.take(t.len() - trail_ws(t)) =~= u);
    }
    (a, b)
}

/// `str::trim` on a text.
pub fn trim_string(s: &str) -> (r: String)
    ensures
        r@ == trim(s@),
{
    let v = chars_of(s);
    let (a, b) = trim_bounds(&v);
    string_of_range(&v, a, b)
}

} // verus!
