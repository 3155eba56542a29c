//! Nix store paths and derivation paths.
use vstd::prelude::*;
use crate::text::{
    chars_of, ends_with, find_char_from, matches_at, starts_with, str_eq,
    string_of_range,
};

verus! {

/// Position of the last `/` before `end`, if any.
pub open spec fn last_slash_before(p: Seq<char>, end: int) -> Option<int>
    decreases end,
{
    if end <= 0 {
        None
    } else if p[end - 1] == '/' {
        Some(end - 1)
    } else {
        last_slash_before(p, end - 1)
    }
}

/// `Path::file_name` of the first `end` characters of a Unix path: the last
/// component when it is a name.  Repeated and trailing separators and `.`
/// components are skipped; a path ending in `..`, the root and an empty path
/// have no file name.
pub open spec fn file_name_upto(p: Seq<char>, end: int) -> Option<Seq<char>>
    decreases end,
{
    if end <= 0 || end > p.len() {
        None
    } else if p[end - 1] == '/' {
        file_name_upto(p, end - 1)
    } else {
        proof {
            lemma_last_slash_bound(p, end);
        }
        let start = match last_slash_before(p, end) {
            Some(k) => k + 1,
            None => 0,
        };
        let seg = p.subrange(start, end);
        if seg == seq!['.'] {
            if start == 0 {
                None
            } else {
                file_name_upto(p, start - 1)
            }
        } else if seg == seq!['.', '.'] {
            None
        } else {
            Some(seg)
        }
    }
}

pub open spec fn file_name(p: Seq<char>) -> Option<Seq<char>> {
    file_name_upto(p, p.len() as int)
}

pub proof fn lemma_last_slash_bound(p: Seq<char>, end: int)
    requires
        0 <= end <= p.len(),
    ensures
        last_slash_before(p, end) matches Some(k) ==> 0 <= k < end && p[k] == '/',
        last_slash_before(p, end) matches Some(k) ==> forall|j: int| k < j < end ==> p[j] != '/',
        last_slash_before(p, end) is None ==> forall|j: int| 0 <= j < end ==> p[j] != '/',
    decreases end,
{
    if end > 0 && p[end - 1] != '/' {
        lemma_last_slash_bound(p, end - 1);
    }
}

/// The file name of a path given as characters: its bounds in `p`.
pub fn file_name_bounds(p: &Vec<char>) -> (r: Option<(usize, usize)>)
    ensures
        match file_name(p@) {
            Some(f) => r matches Some((a, b)) && a <= b <= p@.len() && p@.subrange(
                a as int,
                b as int,
            ) == f,
            None => r is None,
        },
{
    let mut end = p.len();
    loop
        invariant
            end <= p@.len(),
            file_name(p@) == file_name_upto(p@, end as int),
        decreases end,
    {
        if end == 0 {
            return None;
        }
        if p[end - 1] == '/' {
            end -= 1;
            continue ;
        }
        let mut start = end - 1;
        while start > 0 && p[start - 1] != '/'
            invariant
                start < end <= p@.len(),
                last_slash_before(p@, end as int) == last_slash_before(p@, start as int),
                forall|j: int| start <= j < end ==> p@[j] != '/',
            decreases start,
        {
            start -= 1;
        }
        proof {
            lemma_last_slash_bound(p@, start as int);
            if start > 0 {
                assert(last_slash_before(p@, start as int) == Some(start - 1));
            }
            assert(match last_slash_before(p@, end as int) {
                Some(k) => k + 1,
                None => 0,
            } == start);
        }
        let is_dot = end - start == 1 && p[start] == '.';
        let is_dotdot = end - start == 2 && p[start] == '.' && p[start + 1] == '.';
        proof {
            let seg = p@.subrange(start as int, end as int);
            if is_dot {
                assert(seg =~= seq!['.']);
            } else {
                assert(seg != seq!['.']) by {
                    if seg.len() == 1 {
                        assert(seg[0] == p@[start as int]);
                    }
                }
            }
            if is_dotdot {
                assert(seg =~= seq!['.', '.']);
            } else {
                assert(seg != seq!['.', '.']) by {
                    if seg.len() == 2 {
                        assert(seg[0] == p@[start as int]);
                        assert(seg[1] == p@[start + 1]);
                    }
                }
            }
        }
        if is_dot {
            if start == 0 {
                return None;
            }
            end = start - 1;
            continue ;
        }
        if is_dotdot {
            return None;
        }
        return Some((start, end));
    }
}

/// A store path `/nix/store/<hash>-<name>`.
#[derive(Debug, Clone)]
pub struct StorePath {
    pub path: String,
    pub hash: String,
    pub name: String,
}

/// A derivation, by its `.drv` path and display name.
#[derive(Debug, Clone)]
pub struct Derivation {
    pub path: String,
    pub name: String,
}

pub open spec fn store_prefix() -> Seq<char> {
    seq!['/', 'n', 'i', 'x', '/', 's', 't', 'o', 'r', 'e', '/']
}

pub open spec fn drv_suffix() -> Seq<char> {
    seq!['.', 'd', 'r', 'v']
}

/// How a store path splits: under `/nix/store/`, its file name cut at the
/// first `-` into hash and name (a file name without `-` is no store path).
pub open spec fn store_path_parts(p: Seq<char>) -> Option<(Seq<char>, Seq<char>)> {
    if !starts_with(p, store_prefix()) {
        None
    } else {
        match file_name(p) {
            None => None,
            Some(f) => match find_char_from(f, '-', 0) {
                None => None,
                Some(k) => Some((f.subrange(0, k), f.subrange(k + 1, f.len() as int))),
            },
        }
    }
}

/// The display name of a derivation path: its file name, which must end in
/// `.drv`, without that suffix and without the hash before the first `-`
/// (kept whole when it has no `-`).
pub open spec fn derivation_name_of(p: Seq<char>) -> Option<Seq<char>> {
    match file_name(p) {
        None => None,
        Some(f) => if !ends_with(f, drv_suffix()) {
            None
        } else {
            let n = f.subrange(0, f.len() - 4);
            match find_char_from(n, '-', 0) {
                Some(k) => Some(n.subrange(k + 1, n.len() as int)),
                None => Some(n),
            }
        },
    }
}

pub proof fn lemma_find_char_shift(s: Seq<char>, c: char, a: int, b: int, i: int)
    requires
        0 <= a <= i <= b <= s.len(),
    ensures
        find_char_from(s.subrange(a, b), c, i - a) == match find_char_from_upto(s, c, i, b) {
            Some(k) => Some(k - a),
            None => None::<int>,
        },
    decreases b - i,
{
    if i < b {
        lemma_find_char_shift(s, c, a, b, i + 1);
    }
}

/// First position of `c` in `s[i..b]`.
pub open spec fn find_char_from_upto(s: Seq<char>, c: char, i: int, b: int) -> Option<int>
    decreases b - i,
{
    if i < 0 || i >= b {
        None
    } else if s[i] == c {
        Some(i)
    } else {
        find_char_from_upto(s, c, i + 1, b)
    }
}

/// First position of `c` in `s[i..b]`.
fn find_char_between(s: &Vec<char>, c: char, i: usize, b: usize) -> (r: Option<usize>)
    requires
        i <= b <= s@.len(),
    ensures
        r == (match find_char_from_upto(s@, c, i as int, b as int) {
            Some(k) => Some(k as usize),
            None => None::<usize>,
        }),
        find_char_from_upto(s@, c, i as int, b as int) matches Some(k) ==> i <= k < b,
{
    let mut k = i;
    while k < b
        invariant
            i <= k <= b <= s@.len(),
            find_char_from_upto(s@, c, i as int, b as int) == find_char_from_upto(
                s@,
                c,
                k as int,
                b as int,
            ),
        decreases b - k,
    {
        if s[k] == c {
            return Some(k);
        }
        k += 1;
    }
    None
}

impl StorePath {
    /// Parses `/nix/store/<hash>-<name>`.
    pub fn parse(path: &str) -> (r: Option<Self>)
        ensures
            match store_path_parts(path@) {
                Some((h, n)) => r matches Some(sp) && sp.path@ == path@ && sp.hash@ == h
                    && sp.name@ == n,
                None => r is None,
            },
    {
        let p = chars_of(path);
        let prefix = chars_of("/nix/store/");
        proof {
            reveal_strlit("/nix/store/");
        }
        assert(prefix@ =~= store_prefix());
        if !matches_at(&p, &prefix, 0) {
            return None;
        }
        let (a, b) = match file_name_bounds(&p) {
            Some(t) => t,
            None => return None,
        };
        let ghost f = p@.subrange(a as int, b as int);
        proof {
            lemma_find_char_shift(p@, '-', a as int, b as int, a as int);
        }
        let k = match find_char_between(&p, '-', a, b) {
            Some(k) => k,
            None => return None,
        };
        assert(f.subrange(0, k - a) =~= p@.subrange(a as int, k as int));
        assert(f.subrange(k - a + 1, f.len() as int) =~= p@.subrange(k + 1, b as int));
        Some(
            StorePath {
                path: copy_str(path),
                hash: string_of_range(&p, a, k),
                name: string_of_range(&p, k + 1, b),
            },
        )
    }

    /// A copy of this store path.
    pub fn copy(&self) -> (r: Self)
        ensures
            r == *self,
    {
        StorePath {
            path: self.path.clone(),
            hash: self.hash.clone(),
            name: self.name.clone(),
        }
    }
}

/// An owned copy of a text.
pub fn copy_str(s: &str) -> (r: String)
    ensures
        r@ == s@,
{
    let v = chars_of(s);
    string_of_range(&v, 0, v.len())
}

impl Derivation {
    /// Parses a `.drv` path; the display name drops the hash and the suffix.
    pub fn parse(path: &str) -> (r: Option<Self>)
        ensures
            match derivation_name_of(path@) {
                Some(n) => r matches Some(d) && d.path@ == path@ && d.name@ == n,
                None => r is None,
            },
    {
        let p = chars_of(path);
        let (a, b) = match file_name_bounds(&p) {
            Some(t) => t,
            None => return None,
        };
        let ghost f = p@.subrange(a as int, b as int);
        let suffix = chars_of(".drv");
        proof {
            reveal_strlit(".drv");
        }
        assert(suffix@ =~= drv_suffix());
        if b - a < 4 || !matches_at(&p, &suffix, b - 4) {
            proof {
                if b - a >= 4 {
                    assert(f.subrange(f.len() - 4, f.len() as int) =~= p@.subrange(b - 4, b as int));
                }
            }
            return None;
        }
        assert(f.subrange(f.len() - 4, f.len() as int) =~= p@.subrange(b - 4, b as int));
        let e = b - 4;
        let ghost n = f.subrange(0, f.len() - 4);
        assert(n =~= p@.subrange(a as int, e as int));
        proof {
            lemma_find_char_shift(p@, '-', a as int, e as int, a as int);
        }
        let name = match find_char_between(&p, '-', a, e) {
            Some(k) => {
                assert(n.subrange(k - a + 1, n.len() as int) =~= p@.subrange(k + 1, e as int));
                string_of_range(&p, k + 1, e)
            },
            None => string_of_range(&p, a, e),
        };
        Some(Derivation { path: copy_str(path), name })
    }

    /// A copy of this derivation.
    pub fn copy(&self) -> (r: Self)
        ensures
            r == *self,
    {
        Derivation { path: self.path.clone(), name: self.name.clone() }
    }

    /// Whether two derivations are the same: same path and same name.
    pub fn same(&self, other: &Derivation) -> (r: bool)
        ensures
            r == (self.path@ == other.path@ && self.name@ == other.name@),
    {
        str_eq(self.path.as_str(), other.path.as_str()) && str_eq(
            self.name.as_str(),
            other.name.as_str(),
        )
    }
}

impl StorePath {
    /// Whether two store paths are the same.
    pub fn same(&self, other: &StorePath) -> (r: bool)
        ensures
            r == (self.path@ == other.path@ && self.hash@ == other.hash@ && self.name@
                == other.name@),
    {
        str_eq(self.path.as_str(), other.path.as_str()) && str_eq(
            self.hash.as_str(),
            other.hash.as_str(),
        ) && str_eq(self.name.as_str(), other.name.as_str())
    }
}

} // verus!
