//! Build report cache: history rows, their text format, and build time
//! estimates from the median of past builds.
use vstd::prelude::*;
use vstd::relations::{sorted_by, total_ordering};
use vstd::seq_lib::{lemma_sorted_unique, group_to_multiset_ensures};
use vstd::string::StringExecFns;
use vstd::utf8::encode_utf8;
use crate::calendar::{
    decimal, digit_char, format_utc_time, is_utc_text_of, law_utc_roundtrip, lemma_utc_text_no_comma,
    parse_utc_spec, parse_utc_time, push_padded,
};
use crate::text::{chars_of, find_char, find_char_from, is_digit, is_ws, lead_ws, starts_with, trail_ws, str_starts_with, push_char, str_eq, string_of_range, trim, trim_bounds};

verus! {

broadcast use group_to_multiset_ensures;

/// Maximum number of historical builds to keep per derivation.
pub const HISTORY_LIMIT: usize = 10;

/// One finished build, as the cache keeps it.  Durations and times are whole
/// seconds (times since 1970-01-01 UTC).
#[derive(Debug, Clone)]
pub struct BuildReport {
    pub derivation_name: String,
    pub platform: String,
    pub duration_secs: u64,
    pub completed_at: u64,
    pub host: String,
    pub success: bool,
}

/// Build report cache kept as a text file.
pub struct BuildReportCache {
    pub cache_path: String,
}

pub open spec fn u64_leq() -> spec_fn(u64, u64) -> bool {
    |a: u64, b: u64| a <= b
}

/// The durations of a list of reports.
pub open spec fn durations(r: Seq<BuildReport>) -> Seq<u64> {
    r.map_values(|b: BuildReport| b.duration_secs)
}

/// Median of a sorted list: the middle element, or the mean of the two middle
/// elements rounded down.
pub open spec fn median_of_sorted(s: Seq<u64>) -> int {
    if s.len() % 2 == 1 {
        s[(s.len() / 2) as int] as int
    } else {
        (s[s.len() / 2 - 1] + s[(s.len() / 2) as int]) / 2
    }
}

/// Median build time of a list of reports, `None` for none.
pub open spec fn median_spec(r: Seq<BuildReport>) -> Option<int> {
    if r.len() == 0 {
        None
    } else {
        Some(median_of_sorted(durations(r).sort_by(u64_leq())))
    }
}

proof fn lemma_u64_leq_total()
    ensures
        total_ordering(u64_leq()),
{
}

/// Sorts a list of durations in ascending order.
fn sort_durations(v: &mut Vec<u64>)
    ensures
        sorted_by(final(v)@, u64_leq()),
        final(v)@.to_multiset() == old(v)@.to_multiset(),
{
    let n = v.len();
    let mut i: usize = 1;
    if n == 0 {
        return;
    }
    while i < n
        invariant
            1 <= i <= n,
            n == v@.len(),
            v@.to_multiset() == old(v)@.to_multiset(),
            forall|a: int, b: int| 0 <= a < b < i ==> v@[a] <= v@[b],
        decreases n - i,
    {
        let mut j = i;
        while j > 0 && v[j - 1] > v[j]
            invariant
                0 <= j <= i < n,
                n == v@.len(),
                v@.to_multiset() == old(v)@.to_multiset(),
                forall|a: int, b: int| 0 <= a < b <= i && a != j && b != j ==> v@[a] <= v@[b],
                forall|b: int| j < b <= i ==> v@[j as int] <= v@[b],
            decreases j,
        {
            let x = v[j - 1];
            let y = v[j];
            let ghost before = v@;
            v.set(j - 1, y);
            v.set(j, x);
            assert(v@ == before.update(j - 1, y).update(j as int, x));
            j -= 1;
        }
        i += 1;
    }
}

/// The median depends only on which durations there are, not on their order.
pub proof fn law_median_order_free(a: Seq<BuildReport>, b: Seq<BuildReport>)
    requires
        durations(a).to_multiset() == durations(b).to_multiset(),
    ensures
        median_spec(a) == median_spec(b),
{
    lemma_u64_leq_total();
    durations(a).lemma_sort_by_ensures(u64_leq());
    durations(b).lemma_sort_by_ensures(u64_leq());
    lemma_sorted_unique(durations(a).sort_by(u64_leq()), durations(b).sort_by(u64_leq()), u64_leq());
    vstd::seq_lib::to_multiset_len(durations(a));
    vstd::seq_lib::to_multiset_len(durations(b));
    assert(a.len() == durations(a).len());
    assert(b.len() == durations(b).len());
}

/// The median lies between the shortest and the longest duration.
pub proof fn law_median_bounds(r: Seq<BuildReport>)
    requires
        r.len() > 0,
    ensures
        exists|i: int| 0 <= i < r.len() && r[i].duration_secs <= median_spec(r).unwrap(),
        exists|i: int| 0 <= i < r.len() && median_spec(r).unwrap() <= r[i].duration_secs,
{
    let d = durations(r);
    lemma_u64_leq_total();
    d.lemma_sort_by_ensures(u64_leq());
    let s = d.sort_by(u64_leq());
    assert(s.len() == d.len()) by {
        vstd::seq_lib::to_multiset_len(s);
        vstd::seq_lib::to_multiset_len(d);
    }
    let lo: int = if s.len() % 2 == 1 { (s.len() / 2) as int } else { s.len() / 2 - 1 };
    let hi: int = (s.len() / 2) as int;
    assert(s.contains(s[lo as int]));
    assert(s.contains(s[hi as int]));
    assert(d.contains(s[lo as int]));
    assert(d.contains(s[hi as int]));
    let i = choose|i: int| 0 <= i < d.len() && d[i] == s[lo as int];
    let j = choose|j: int| 0 <= j < d.len() && d[j] == s[hi as int];
    assert(r[i].duration_secs == d[i]);
    assert(r[j].duration_secs == d[j]);
    if lo < hi {
        assert(u64_leq()(s[lo as int], s[hi as int]));
    }
}


/// History of one host/derivation pair, newest build first.
#[derive(Debug, Clone)]
pub struct HistoryEntry {
    pub host: String,
    pub derivation_name: String,
    pub reports: Vec<BuildReport>,
}

/// Build history keyed by host and derivation name.
#[derive(Debug, Clone)]
pub struct BuildHistory {
    pub entries: Vec<HistoryEntry>,
}

/// The reports kept for a host and derivation, if any: those of the first
/// entry with that key.
pub open spec fn lookup_from(
    e: Seq<HistoryEntry>,
    host: Seq<char>,
    drv: Seq<char>,
    i: int,
) -> Option<Seq<BuildReport>>
    decreases e.len() - i,
{
    if i < 0 || i >= e.len() {
        None
    } else if e[i].host@ == host && e[i].derivation_name@ == drv {
        Some(e[i].reports@)
    } else {
        lookup_from(e, host, drv, i + 1)
    }
}

impl BuildHistory {
    pub open spec fn lookup(&self, host: Seq<char>, drv: Seq<char>) -> Option<Seq<BuildReport>> {
        lookup_from(self.entries@, host, drv, 0)
    }

    /// No two entries share a host and derivation name.
    pub open spec fn wf(&self) -> bool {
        forall|i: int, j: int|
            0 <= i < j < self.entries@.len() ==> !(self.entries@[i].host@
                == self.entries@[j].host@ && self.entries@[i].derivation_name@
                == self.entries@[j].derivation_name@)
    }

    /// An empty history.
    pub fn new() -> (r: Self)
        ensures
            r.entries@.len() == 0,
            r.wf(),
    {
        BuildHistory { entries: Vec::new() }
    }

    /// Position of the entry for a host and derivation name.
    pub fn position(&self, host: &str, drv: &str) -> (r: Option<usize>)
        ensures
            match r {
                Some(i) => i < self.entries@.len() && self.entries@[i as int].host@ == host@
                    && self.entries@[i as int].derivation_name@ == drv@ && self.lookup(host@, drv@)
                    == Some(self.entries@[i as int].reports@),
                None => self.lookup(host@, drv@) is None,
            },
    {
        let mut i: usize = 0;
        while i < self.entries.len()
            invariant
                i <= self.entries@.len(),
                self.lookup(host@, drv@) == lookup_from(self.entries@, host@, drv@, i as int),
            decreases self.entries@.len() - i,
        {
            if str_eq(self.entries[i].host.as_str(), host) && str_eq(
                self.entries[i].derivation_name.as_str(),
                drv,
            ) {
                return Some(i);
            }
            i += 1;
        }
        None
    }

    /// The reports kept for a host and derivation name.
    pub fn get(&self, host: &str, drv: &str) -> (r: Option<&Vec<BuildReport>>)
        ensures
            match self.lookup(host@, drv@) {
                Some(rs) => r matches Some(v) && v@ == rs,
                None => r is None,
            },
    {
        match self.position(host, drv) {
            Some(i) => Some(&self.entries[i].reports),
            None => None,
        }
    }
}

impl BuildReportCache {
    /// Median of historical build durations; `None` when there are no reports.
    pub fn calculate_median(reports: &[BuildReport]) -> (r: Option<u64>)
        ensures
            match median_spec(reports@) {
                Some(m) => r == Some(m as u64),
                None => r is None,
            },
    {
        if reports.len() == 0 {
            return None;
        }
        let mut ds: Vec<u64> = Vec::new();
        for i in 0..reports.len()
            invariant
                ds@ == durations(reports@).take(i as int),
        {
            ds.push(reports[i].duration_secs);
            assert(ds@ =~= durations(reports@).take(i + 1));
        }
        assert(ds@ =~= durations(reports@));
        let ghost unsorted = ds@;
        sort_durations(&mut ds);
        proof {
            lemma_u64_leq_total();
            unsorted.lemma_sort_by_ensures(u64_leq());
            lemma_sorted_unique(ds@, unsorted.sort_by(u64_leq()), u64_leq());
            vstd::seq_lib::to_multiset_len(ds@);
            vstd::seq_lib::to_multiset_len(unsorted);
        }
        assert(ds@.len() == reports@.len());
        let len = ds.len();
        if len % 2 == 1 {
            Some(ds[len / 2])
        } else {
            let a = ds[len / 2 - 1];
            let b = ds[len / 2];
            Some(a / 2 + b / 2 + (a % 2 + b % 2) / 2)
        }
    }

    /// A cache kept at the given path.
    pub fn new(cache_path: String) -> (r: Self)
        ensures
            r.cache_path@ == cache_path@,
    {
        BuildReportCache { cache_path }
    }

    /// The default cache file, `<state dir>/rom/build-reports.csv`, under the
    /// state directory that the values of `XDG_STATE_HOME` and `HOME` choose.
    pub fn default_cache_path(xdg_state_home: Option<&str>, home: Option<&str>) -> (r: String)
        ensures
            r@ == join_path(
                join_path(state_dir_of(opt_view(xdg_state_home), opt_view(home)), "rom"@),
                "build-reports.csv"@,
            ),
    {
        let base = state_dir(xdg_state_home, home);
        let dir = join_path_exec(base.as_str(), "rom");
        join_path_exec(dir.as_str(), "build-reports.csv")
    }

    /// Median build time recorded for a derivation on a host.
    pub fn get_estimate(&self, reports: &BuildHistory, host: &str, derivation_name: &str) -> (r:
        Option<u64>)
        ensures
            match reports.lookup(host@, derivation_name@) {
                Some(rs) => match median_spec(rs) {
                    Some(m) => r == Some(m as u64),
                    None => r is None,
                },
                None => r is None,
            },
    {
        match reports.get(host, derivation_name) {
            Some(entries) => Self::calculate_median(entries.as_slice()),
            None => None,
        }
    }
}

/// `Path::join` of a directory and a relative name: the name alone after an
/// empty directory, otherwise separated by exactly one `/`.
pub open spec fn join_path(dir: Seq<char>, name: Seq<char>) -> Seq<char> {
    if dir.len() == 0 {
        name
    } else if dir.last() == '/' {
        dir + name
    } else {
        dir + seq!['/'] + name
    }
}

/// The characters of an optional text.
pub open spec fn opt_view(v: Option<&str>) -> Option<Seq<char>> {
    match v {
        Some(s) => Some(s@),
        None => None,
    }
}

/// The state directory: `XDG_STATE_HOME` when it is set and not empty, else
/// `.local/state` under `HOME` when that is set, else the current directory.
pub open spec fn state_dir_of(xdg_state_home: Option<Seq<char>>, home: Option<Seq<char>>) -> Seq<char> {
    match xdg_state_home {
        Some(x) if x.len() > 0 => x,
        _ => match home {
            Some(h) => join_path(h, ".local/state"@),
            None => "."@,
        },
    }
}

/// The state directory chosen by the values of `XDG_STATE_HOME` and `HOME`
/// (`None` where a variable is unset).
pub fn state_dir(xdg_state_home: Option<&str>, home: Option<&str>) -> (r: String)
    ensures
        r@ == state_dir_of(opt_view(xdg_state_home), opt_view(home)),
{
    match xdg_state_home {
        Some(x) => {
            if !x.is_empty() {
                return String::from_str(x);
            }
        },
        None => {},
    }
    match home {
        Some(h) => join_path_exec(h, ".local/state"),
        None => String::from_str("."),
    }
}

fn join_path_exec(dir: &str, name: &str) -> (r: String)
    ensures
        r@ == join_path(dir@, name@),
{
    let dv = chars_of(dir);
    let mut out = String::from_str(dir);
    if dv.len() == 0 {
        return String::from_str(name);
    }
    if dv[dv.len() - 1] != '/' {
        push_char(&mut out, '/');
    }
    out.append(name);
    out
}

/// One line of the cache file.
#[derive(Debug, Clone)]
pub struct Row {
    pub hostname: String,
    pub derivation_name: String,
    pub utc_time: String,
    pub build_seconds: u64,
}

/// Value of a run of decimal digit characters.
pub open spec fn digits_value_chars(s: Seq<char>) -> int
    decreases s.len(),
{
    if s.len() == 0 {
        0
    } else {
        digits_value_chars(s.drop_last()) * 10 + (s.last() as int - 48)
    }
}

pub open spec fn all_digits(s: Seq<char>) -> bool {
    forall|i: int| 0 <= i < s.len() ==> is_digit(#[trigger] s[i])
}

/// `u64::from_str`: an optional `+`, then at least one ASCII digit and nothing
/// else, with a value that fits in 64 bits.
pub open spec fn parse_u64_spec(s: Seq<char>) -> Option<int> {
    let d = if s.len() > 0 && s[0] == '+' { s.skip(1) } else { s };
    if d.len() > 0 && all_digits(d) && digits_value_chars(d) <= u64::MAX {
        Some(digits_value_chars(d))
    } else {
        None
    }
}

pub proof fn lemma_digits_value_chars_nonneg(s: Seq<char>)
    requires
        all_digits(s),
    ensures
        digits_value_chars(s) >= 0,
        s.len() > 0 ==> digits_value_chars(s) >= digits_value_chars(s.drop_last()),
    decreases s.len(),
{
    if s.len() > 0 {
        assert(all_digits(s.drop_last())) by {
            assert forall|i: int| 0 <= i < s.drop_last().len() implies is_digit(
                #[trigger] s.drop_last()[i],
            ) by {
                assert(s.drop_last()[i] == s[i]);
            }
        }
        lemma_digits_value_chars_nonneg(s.drop_last());
        assert(is_digit(s[s.len() - 1]));
    }
}

/// Once a digit prefix overflows, every longer digit run does too.
proof fn lemma_digits_value_grows(s: Seq<char>, i: int)
    requires
        all_digits(s),
        0 <= i <= s.len(),
    ensures
        digits_value_chars(s.take(i)) <= digits_value_chars(s),
    decreases s.len() - i,
{
    if i < s.len() {
        lemma_digits_value_grows(s, i + 1);
        let t = s.take(i + 1);
        assert(t.drop_last() =~= s.take(i));
        assert(all_digits(t)) by {
            assert forall|k: int| 0 <= k < t.len() implies is_digit(#[trigger] t[k]) by {
                assert(t[k] == s[k]);
            }
        }
        lemma_digits_value_chars_nonneg(t);
    } else {
        assert(s.take(i) =~= s);
    }
}

/// Parses a text as `u64::from_str` does.
pub fn parse_u64(s: &Vec<char>, from: usize, to: usize) -> (r: Option<u64>)
    requires
        from <= to <= s@.len(),
    ensures
        match parse_u64_spec(s@.subrange(from as int, to as int)) {
            Some(v) => r == Some(v as u64),
            None => r is None,
        },
        r matches Some(n) ==> parse_u64_spec(s@.subrange(from as int, to as int)) == Some(n as int),
{
    let ghost t = s@.subrange(from as int, to as int);
    let mut i = from;
    if i < to && s[i] == '+' {
        i += 1;
    }
    let start = i;
    let ghost d = s@.subrange(start as int, to as int);
    assert(d =~= (if t.len() > 0 && t[0] == '+' { t.skip(1) } else { t }));
    if i == to {
        return None;
    }
    let mut v: u64 = 0;
    while i < to
        invariant
            from <= start <= i <= to <= s@.len(),
            start < to,
            d == s@.subrange(start as int, to as int),
            t == s@.subrange(from as int, to as int),
            d == (if t.len() > 0 && t[0] == '+' { t.skip(1) } else { t }),
            all_digits(s@.subrange(start as int, i as int)),
            v as int == digits_value_chars(s@.subrange(start as int, i as int)),
        decreases to - i,
    {
        let c = s[i];
        if c < '0' || c > '9' {
            assert(!all_digits(d)) by {
                assert(d[i - start] == c);
            }
            return None;
        }
        let ghost sub = s@.subrange(start as int, i + 1);
        assert(sub.drop_last() =~= s@.subrange(start as int, i as int));
        assert(all_digits(sub)) by {
            assert forall|k: int| 0 <= k < sub.len() implies is_digit(#[trigger] sub[k]) by {
                if k < sub.len() - 1 {
                    assert(sub[k] == s@.subrange(start as int, i as int)[k]);
                }
            }
        }
        let digit: u64 = (c as u32 - 48) as u64;
        let next = match v.checked_mul(10) {
            Some(m) => m.checked_add(digit),
            None => None,
        };
        match next {
            Some(n) => {
                v = n;
            },
            None => {
                proof {
                    assert(digits_value_chars(sub) > u64::MAX);
                    // the rest of the digits only make it larger
                    if all_digits(d) {
                        assert(sub =~= d.take(i + 1 - start));
                        lemma_digits_value_grows(d, i + 1 - start);
                    }
                }
                return None;
            },
        }
        i += 1;
    }
    assert(s@.subrange(start as int, i as int) =~= d);
    Some(v)
}

/// Reads one line of the cache file: host name, derivation name and time,
/// separated by the first three commas, then the build seconds (the rest of
/// the line, around which whitespace is ignored).
pub open spec fn parse_row_spec(s: Seq<char>) -> Option<(Seq<char>, Seq<char>, Seq<char>, int)> {
    match find_char_from(s, ',', 0) {
        None => None,
        Some(c1) => match find_char_from(s, ',', c1 + 1) {
            None => None,
            Some(c2) => match find_char_from(s, ',', c2 + 1) {
                None => None,
                Some(c3) => match parse_u64_spec(trim(s.subrange(c3 + 1, s.len() as int))) {
                    None => None,
                    Some(n) => Some(
                        (s.subrange(0, c1), s.subrange(c1 + 1, c2), s.subrange(c2 + 1, c3), n),
                    ),
                },
            },
        },
    }
}


/// Parses one line of the cache file.
pub fn parse_row(line: &str) -> (r: Option<Row>)
    ensures
        match parse_row_spec(line@) {
            Some((h, d, t, n)) => r matches Some(row) && row.hostname@ == h
                && row.derivation_name@ == d && row.utc_time@ == t && row.build_seconds == n,
            None => r is None,
        },
{
    let s = chars_of(line);
    let c1 = match find_char(&s, ',', 0) {
        Some(k) => k,
        None => return None,
    };
    let c2 = match find_char(&s, ',', c1 + 1) {
        Some(k) => k,
        None => return None,
    };
    let c3 = match find_char(&s, ',', c2 + 1) {
        Some(k) => k,
        None => return None,
    };
    let tail = string_of_range(&s, c3 + 1, s.len());
    let tv = chars_of(tail.as_str());
    let (a, b) = trim_bounds(&tv);
    assert(tv@ == s@.subrange(c3 + 1, s@.len() as int));
    assert(tv@.subrange(a as int, b as int) == trim(s@.subrange(c3 + 1, s@.len() as int)));
    let secs = match parse_u64(&tv, a, b) {
        Some(n) => n,
        None => return None,
    };
    let hostname = string_of_range(&s, 0, c1);
    let derivation_name = string_of_range(&s, c1 + 1, c2);
    let utc_time = string_of_range(&s, c2 + 1, c3);
    assert(find_char_from(line@, ',', 0) == Some(c1 as int));
    assert(find_char_from(line@, ',', c1 + 1) == Some(c2 as int));
    assert(find_char_from(line@, ',', c2 + 1) == Some(c3 as int));
    assert(parse_u64_spec(trim(line@.subrange(c3 + 1, line@.len() as int))) == Some(secs as int));
    assert(parse_row_spec(line@) == Some(
        (
            s@.subrange(0, c1 as int),
            s@.subrange(c1 + 1, c2 as int),
            s@.subrange(c2 + 1, c3 as int),
            secs as int,
        ),
    ));
    Some(Row { hostname, derivation_name, utc_time, build_seconds: secs })
}

/// Position of the first report in `s`, from `i` on, older than time `t`
/// (its length when there is none).
pub open spec fn first_older(s: Seq<BuildReport>, t: u64, i: int) -> int
    decreases s.len() - i,
{
    if i < 0 || i >= s.len() {
        s.len() as int
    } else if s[i].completed_at < t {
        i
    } else {
        first_older(s, t, i + 1)
    }
}

/// A report put into a newest-first list, after every report at least as new.
pub open spec fn insert_newest_first(s: Seq<BuildReport>, r: BuildReport) -> Seq<BuildReport> {
    s.insert(first_older(s, r.completed_at, 0), r)
}

/// Reports in newest-first order; reports of the same time keep their order
/// (a stable sort by completion time, newest first).
pub open spec fn newest_first(s: Seq<BuildReport>) -> Seq<BuildReport>
    decreases s.len(),
{
    if s.len() == 0 {
        s
    } else {
        insert_newest_first(newest_first(s.drop_last()), s.last())
    }
}

/// The history kept of a list of reports: the newest `HISTORY_LIMIT` of them,
/// newest first.
pub open spec fn kept(s: Seq<BuildReport>) -> Seq<BuildReport> {
    let n = newest_first(s);
    if n.len() <= HISTORY_LIMIT {
        n
    } else {
        n.take(HISTORY_LIMIT as int)
    }
}

proof fn lemma_first_older_bound(s: Seq<BuildReport>, t: u64, i: int)
    requires
        0 <= i <= s.len(),
    ensures
        i <= first_older(s, t, i) <= s.len(),
    decreases s.len() - i,
{
    if i < s.len() && s[i].completed_at >= t {
        lemma_first_older_bound(s, t, i + 1);
    }
}

proof fn lemma_newest_first_len(s: Seq<BuildReport>)
    ensures
        newest_first(s).len() == s.len(),
    decreases s.len(),
{
    if s.len() > 0 {
        lemma_newest_first_len(s.drop_last());
        lemma_first_older_bound(newest_first(s.drop_last()), s.last().completed_at, 0);
    }
}

/// Puts a report into a newest-first list, after every report at least as new.
fn insert_report(v: &mut Vec<BuildReport>, r: BuildReport)
    ensures
        final(v)@ == insert_newest_first(old(v)@, r),
{
    let mut i: usize = 0;
    while i < v.len() && v[i].completed_at >= r.completed_at
        invariant
            i <= v@.len(),
            *v == *old(v),
            first_older(v@, r.completed_at, 0) == first_older(v@, r.completed_at, i as int),
        decreases v@.len() - i,
    {
        i += 1;
    }
    v.insert(i, r);
}

/// The newest `HISTORY_LIMIT` reports of a list, newest first.
pub fn keep_newest(reports: &[BuildReport]) -> (r: Vec<BuildReport>)
    ensures
        r@ == kept(reports@),
{
    let mut v: Vec<BuildReport> = Vec::new();
    let mut i: usize = 0;
    while i < reports.len()
        invariant
            i <= reports@.len(),
            v@ == newest_first(reports@.take(i as int)),
        decreases reports@.len() - i,
    {
        let ghost before = reports@.take(i as int);
        assert(reports@.take(i + 1).drop_last() =~= before);
        assert(reports@.take(i + 1).last() == reports@[i as int]);
        insert_report(&mut v, reports[i].clone_report());
        i += 1;
    }
    assert(reports@.take(reports@.len() as int) =~= reports@);
    proof {
        lemma_newest_first_len(reports@);
    }
    if v.len() > HISTORY_LIMIT {
        v.truncate(HISTORY_LIMIT);
    }
    v
}

impl BuildReport {
    /// An exact copy of this report.
    pub fn clone_report(&self) -> (r: Self)
        ensures
            r == *self,
    {
        BuildReport {
            derivation_name: self.derivation_name.clone(),
            platform: self.platform.clone(),
            duration_secs: self.duration_secs,
            completed_at: self.completed_at,
            host: self.host.clone(),
            success: self.success,
        }
    }
}

/// An entry of a history as values: host, derivation name and reports.
pub open spec fn entry_view(e: HistoryEntry) -> (Seq<char>, Seq<char>, Seq<BuildReport>) {
    (e.host@, e.derivation_name@, e.reports@)
}

/// The entries of a history as values.
pub open spec fn history_view(h: BuildHistory) -> Seq<(Seq<char>, Seq<char>, Seq<BuildReport>)> {
    h.entries@.map_values(|e: HistoryEntry| entry_view(e))
}

/// Position of the first entry for a host and derivation name.
pub open spec fn group_pos(
    g: Seq<(Seq<char>, Seq<char>, Seq<BuildReport>)>,
    host: Seq<char>,
    drv: Seq<char>,
    i: int,
) -> Option<int>
    decreases g.len() - i,
{
    if i < 0 || i >= g.len() {
        None
    } else if g[i].0 == host && g[i].1 == drv {
        Some(i)
    } else {
        group_pos(g, host, drv, i + 1)
    }
}

/// Reports grouped by host and derivation name, groups in order of first
/// appearance, each group's reports in the order given.
pub open spec fn grouped(s: Seq<BuildReport>) -> Seq<(Seq<char>, Seq<char>, Seq<BuildReport>)>
    decreases s.len(),
{
    if s.len() == 0 {
        Seq::empty()
    } else {
        let g = grouped(s.drop_last());
        let r = s.last();
        match group_pos(g, r.host@, r.derivation_name@, 0) {
            Some(i) => g.update(i, (g[i].0, g[i].1, g[i].2.push(r))),
            None => g.push((r.host@, r.derivation_name@, seq![r])),
        }
    }
}

/// Each group keeps its newest `HISTORY_LIMIT` reports, newest first.
pub open spec fn kept_groups(
    g: Seq<(Seq<char>, Seq<char>, Seq<BuildReport>)>,
) -> Seq<(Seq<char>, Seq<char>, Seq<BuildReport>)> {
    g.map_values(|e: (Seq<char>, Seq<char>, Seq<BuildReport>)| (e.0, e.1, kept(e.2)))
}

proof fn lemma_group_pos_matches_lookup(h: BuildHistory, host: Seq<char>, drv: Seq<char>, i: int)
    requires
        0 <= i <= h.entries@.len(),
    ensures
        group_pos(history_view(h), host, drv, i) is Some == lookup_from(h.entries@, host, drv, i) is Some,
        group_pos(history_view(h), host, drv, i) matches Some(k) ==> i <= k < h.entries@.len()
            && h.entries@[k].host@ == host && h.entries@[k].derivation_name@ == drv
            && lookup_from(h.entries@, host, drv, i) == Some(h.entries@[k].reports@),
        group_pos(history_view(h), host, drv, i) is None ==> forall|k: int|
            i <= k < h.entries@.len() ==> !(#[trigger] h.entries@[k].host@ == host
                && h.entries@[k].derivation_name@ == drv),
    decreases h.entries@.len() - i,
{
    if i < h.entries@.len() {
        lemma_group_pos_matches_lookup(h, host, drv, i + 1);
    }
}

/// The history of a list of reports: grouped by host and derivation name,
/// each group keeping its newest `HISTORY_LIMIT` reports, newest first.
pub fn group_reports(reports: &[BuildReport]) -> (r: BuildHistory)
    ensures
        r.wf(),
        history_view(r) == kept_groups(grouped(reports@)),
{
    let mut raw = BuildHistory::new();
    let mut i: usize = 0;
    while i < reports.len()
        invariant
            i <= reports@.len(),
            history_view(raw) == grouped(reports@.take(i as int)),
            distinct_keys(history_view(raw)),
        decreases reports@.len() - i,
    {
        let ghost before = history_view(raw);
        assert(reports@.take(i + 1).drop_last() =~= reports@.take(i as int));
        assert(reports@.take(i + 1).last() == reports@[i as int]);
        let r = reports[i].clone_report();
        proof {
            lemma_group_pos_matches_lookup(raw, r.host@, r.derivation_name@, 0);
        }
        match raw.position(r.host.as_str(), r.derivation_name.as_str()) {
            Some(k) => {
                proof {
                    lemma_group_pos_some(before, r.host@, r.derivation_name@, 0);
                    let p = group_pos(before, r.host@, r.derivation_name@, 0).unwrap();
                    assert(before[k as int] == entry_view(raw.entries@[k as int]));
                    if p != k {
                        if p < k {
                            assert(!(before[p].0 == before[k as int].0 && before[p].1 == before[k as int].1));
                        } else {
                            assert(!(before[k as int].0 == before[p].0 && before[k as int].1 == before[p].1));
                        }
                    }
                }
                let mut e = raw.entries.remove(k);
                let ghost ev = entry_view(e);
                e.reports.push(r);
                raw.entries.insert(k, e);
                assert(history_view(raw) =~= before.update(k as int, (ev.0, ev.1, ev.2.push(r))));
                proof {
                    lemma_grouped_distinct(reports@.take(i + 1));
                }
            },
            None => {
                let mut v: Vec<BuildReport> = Vec::new();
                let host = r.host.clone();
                let drv = r.derivation_name.clone();
                v.push(r);
                raw.entries.push(HistoryEntry { host, derivation_name: drv, reports: v });
                assert(history_view(raw) =~= before.push((r.host@, r.derivation_name@, seq![r])));
                proof {
                    lemma_grouped_distinct(reports@.take(i + 1));
                }
            },
        }
        i += 1;
    }
    assert(reports@.take(reports@.len() as int) =~= reports@);
    let ghost g = history_view(raw);
    let mut out = BuildHistory::new();
    let mut j: usize = 0;
    while j < raw.entries.len()
        invariant
            j <= raw.entries@.len(),
            history_view(raw) == g,
            history_view(out) == kept_groups(g.take(j as int)),
        decreases raw.entries@.len() - j,
    {
        let e = &raw.entries[j];
        assert(g[j as int] == entry_view(*e));
        let kept_reports = keep_newest(e.reports.as_slice());
        let ghost before = history_view(out);
        let ne = HistoryEntry {
            host: e.host.clone(),
            derivation_name: e.derivation_name.clone(),
            reports: kept_reports,
        };
        assert(entry_view(ne) == (g[j as int].0, g[j as int].1, kept(g[j as int].2)));
        out.entries.push(ne);
        assert(history_view(out) =~= before.push(entry_view(ne)));
        assert(g.take(j + 1) =~= g.take(j as int).push(g[j as int]));
        assert(kept_groups(g.take(j + 1)) =~= kept_groups(g.take(j as int)).push(
            (g[j as int].0, g[j as int].1, kept(g[j as int].2)),
        ));
        assert(history_view(out) =~= kept_groups(g.take(j + 1)));
        j += 1;
    }
    assert(g.take(g.len() as int) =~= g);
    proof {
        lemma_grouped_distinct(reports@);
        assert forall|a: int, b: int| 0 <= a < b < out.entries@.len() implies !(out.entries@[a].host@
            == out.entries@[b].host@ && out.entries@[a].derivation_name@
            == out.entries@[b].derivation_name@) by {
            assert(history_view(out)[a] == entry_view(out.entries@[a]));
            assert(history_view(out)[b] == entry_view(out.entries@[b]));
        }
    }
    out
}

/// No two groups share a host and derivation name.
pub open spec fn distinct_keys(g: Seq<(Seq<char>, Seq<char>, Seq<BuildReport>)>) -> bool {
    forall|a: int, b: int| 0 <= a < b < g.len() ==> !(g[a].0 == g[b].0 && g[a].1 == g[b].1)
}

proof fn lemma_group_pos_none(
    g: Seq<(Seq<char>, Seq<char>, Seq<BuildReport>)>,
    host: Seq<char>,
    drv: Seq<char>,
    i: int,
)
    requires
        0 <= i,
        group_pos(g, host, drv, i) is None,
    ensures
        forall|k: int| i <= k < g.len() ==> !(#[trigger] g[k].0 == host && g[k].1 == drv),
    decreases g.len() - i,
{
    if i < g.len() {
        lemma_group_pos_none(g, host, drv, i + 1);
    }
}

proof fn lemma_group_pos_some(
    g: Seq<(Seq<char>, Seq<char>, Seq<BuildReport>)>,
    host: Seq<char>,
    drv: Seq<char>,
    i: int,
)
    requires
        0 <= i,
        group_pos(g, host, drv, i) is Some,
    ensures
        i <= group_pos(g, host, drv, i).unwrap() < g.len(),
        g[group_pos(g, host, drv, i).unwrap()].0 == host,
        g[group_pos(g, host, drv, i).unwrap()].1 == drv,
    decreases g.len() - i,
{
    if i < g.len() && !(g[i].0 == host && g[i].1 == drv) {
        lemma_group_pos_some(g, host, drv, i + 1);
    }
}

proof fn lemma_grouped_distinct(s: Seq<BuildReport>)
    ensures
        distinct_keys(grouped(s)),
    decreases s.len(),
{
    if s.len() > 0 {
        lemma_grouped_distinct(s.drop_last());
        let g = grouped(s.drop_last());
        let r = s.last();
        match group_pos(g, r.host@, r.derivation_name@, 0) {
            Some(i) => {
                lemma_group_pos_some(g, r.host@, r.derivation_name@, 0);
            },
            None => {
                lemma_group_pos_none(g, r.host@, r.derivation_name@, 0);
            },
        }
    }
}

/// The report a row of the cache file gives, as host, derivation name, build
/// seconds and completion time, when the row reads and its time is valid.
pub open spec fn row_report(l: Seq<char>) -> Option<(Seq<char>, Seq<char>, u64, u64)> {
    match parse_row_spec(l) {
        Some((h, d, u, n)) => match parse_utc_spec(encode_utf8(u)) {
            Some(t) => Some((h, d, n as u64, t as u64)),
            None => None,
        },
        None => None,
    }
}

/// The header line of the cache file.
pub open spec fn is_header(l: Seq<char>) -> bool {
    starts_with(l, "hostname,"@)
}

/// The reports a cache file gives, in file order: every row that reads, but a
/// header on the first line.
pub open spec fn file_reports(lines: Seq<Seq<char>>) -> Seq<(Seq<char>, Seq<char>, u64, u64)>
    decreases lines.len(),
{
    if lines.len() == 0 {
        Seq::empty()
    } else {
        let prev = file_reports(lines.drop_last());
        if lines.len() == 1 && is_header(lines.last()) {
            prev
        } else {
            match row_report(lines.last()) {
                Some(x) => prev.push(x),
                None => prev,
            }
        }
    }
}

/// A report read from the cache file: a successful build on no particular
/// platform.
pub open spec fn is_read_report(r: BuildReport, x: (Seq<char>, Seq<char>, u64, u64)) -> bool {
    &&& r.host@ == x.0
    &&& r.derivation_name@ == x.1
    &&& r.duration_secs == x.2
    &&& r.completed_at == x.3
    &&& r.success
    &&& r.platform@ == Seq::<char>::empty()
}

/// The reports of the lines of a cache file, in file order.
pub fn reports_from_lines(lines: &[String]) -> (r: Vec<BuildReport>)
    ensures
        r@.len() == file_reports(lines@.map_values(|l: String| l@)).len(),
        forall|k: int|
            0 <= k < r@.len() ==> is_read_report(
                #[trigger] r@[k],
                file_reports(lines@.map_values(|l: String| l@))[k],
            ),
        reports_fit(r@),
{
    let ghost lv = lines@.map_values(|l: String| l@);
    let mut r: Vec<BuildReport> = Vec::new();
    let mut i: usize = 0;
    while i < lines.len()
        invariant
            i <= lines@.len(),
            lv == lines@.map_values(|l: String| l@),
            r@.len() == file_reports(lv.take(i as int)).len(),
            forall|k: int| 0 <= k < r@.len() ==> is_read_report(#[trigger] r@[k], file_reports(lv.take(i as int))[k]),
            reports_fit(r@),
        decreases lines@.len() - i,
    {
        let ghost prev = file_reports(lv.take(i as int));
        assert(lv.take(i + 1).drop_last() =~= lv.take(i as int));
        assert(lv.take(i + 1).last() == lines@[i as int]@);
        let line = lines[i].as_str();
        let header = i == 0 && str_starts_with(line, "hostname,");
        if !header {
            if let Some(row) = parse_row(line) {
                if let Some(t) = parse_utc_time(row.utc_time.as_str()) {
                    let ghost before = r@;
                    r.push(
                        BuildReport {
                            derivation_name: row.derivation_name,
                            platform: String::new(),
                            duration_secs: row.build_seconds,
                            completed_at: t,
                            host: row.hostname,
                            success: true,
                        },
                    );
                    assert forall|k: int| 0 <= k < r@.len() implies is_read_report(
                        #[trigger] r@[k],
                        file_reports(lv.take(i + 1))[k],
                    ) by {
                        if k < before.len() {
                            assert(r@[k] == before[k]);
                        }
                    }
                    assert forall|k: int| 0 <= k < r@.len() implies (#[trigger] r@[k]).completed_at
                        <= 0x7fff_ffff_ffff_ffff by {
                        if k < before.len() {
                            assert(r@[k] == before[k]);
                        }
                    }
                }
            }
        }
        i += 1;
    }
    assert(lv.take(lines@.len() as int) =~= lv);
    r
}

/// One history merged into another: each entry's reports are added to the
/// entry with the same host and derivation name (or form a new entry last),
/// and the entry keeps its newest `HISTORY_LIMIT` reports, newest first.
pub open spec fn merged_groups(
    g: Seq<(Seq<char>, Seq<char>, Seq<BuildReport>)>,
    n: Seq<(Seq<char>, Seq<char>, Seq<BuildReport>)>,
) -> Seq<(Seq<char>, Seq<char>, Seq<BuildReport>)>
    decreases n.len(),
{
    if n.len() == 0 {
        g
    } else {
        let m = merged_groups(g, n.drop_last());
        let e = n.last();
        match group_pos(m, e.0, e.1, 0) {
            Some(i) => m.update(i, (m[i].0, m[i].1, kept(m[i].2 + e.2))),
            None => m.push((e.0, e.1, kept(e.2))),
        }
    }
}

/// Merges `new` into `merged`.
pub fn merge_history(merged: BuildHistory, new: &BuildHistory) -> (r: BuildHistory)
    ensures
        history_view(r) == merged_groups(history_view(merged), history_view(*new)),
{
    let mut m = merged;
    let ghost g = history_view(m);
    let ghost nv = history_view(*new);
    let mut i: usize = 0;
    while i < new.entries.len()
        invariant
            i <= new.entries@.len(),
            nv == history_view(*new),
            history_view(m) == merged_groups(g, nv.take(i as int)),
        decreases new.entries@.len() - i,
    {
        let ghost before = history_view(m);
        assert(nv.take(i + 1).drop_last() =~= nv.take(i as int));
        assert(nv.take(i + 1).last() == nv[i as int]);
        let e = &new.entries[i];
        assert(nv[i as int] == entry_view(*e));
        proof {
            lemma_group_pos_matches_lookup(m, e.host@, e.derivation_name@, 0);
        }
        match position_first(&m, e.host.as_str(), e.derivation_name.as_str()) {
            Some(k) => {
                let mut x = m.entries.remove(k);
                let ghost xv = entry_view(x);
                let mut all: Vec<BuildReport> = Vec::new();
                let mut a: usize = 0;
                while a < x.reports.len()
                    invariant
                        a <= x.reports@.len(),
                        all@ == x.reports@.take(a as int),
                    decreases x.reports@.len() - a,
                {
                    all.push(x.reports[a].clone_report());
                    a += 1;
                    assert(all@ =~= x.reports@.take(a as int));
                }
                let mut b: usize = 0;
                while b < e.reports.len()
                    invariant
                        b <= e.reports@.len(),
                        all@ == x.reports@ + e.reports@.take(b as int),
                    decreases e.reports@.len() - b,
                {
                    all.push(e.reports[b].clone_report());
                    b += 1;
                    assert(all@ =~= x.reports@ + e.reports@.take(b as int));
                }
                assert(e.reports@.take(e.reports@.len() as int) =~= e.reports@);
                x.reports = keep_newest(all.as_slice());
                m.entries.insert(k, x);
                assert(history_view(m) =~= before.update(k as int, (xv.0, xv.1, kept(xv.2 + nv[i as int].2))));
            },
            None => {
                let ne = HistoryEntry {
                    host: e.host.clone(),
                    derivation_name: e.derivation_name.clone(),
                    reports: keep_newest(e.reports.as_slice()),
                };
                m.entries.push(ne);
                assert(history_view(m) =~= before.push((nv[i as int].0, nv[i as int].1, kept(nv[i as int].2))));
            },
        }
        i += 1;
    }
    assert(nv.take(new.entries@.len() as int) =~= nv);
    m
}

/// Position of the first entry of a history with the given key.
fn position_first(h: &BuildHistory, host: &str, drv: &str) -> (r: Option<usize>)
    ensures
        r == (match group_pos(history_view(*h), host@, drv@, 0) {
            Some(i) => Some(i as usize),
            None => None::<usize>,
        }),
        r matches Some(k) ==> k < h.entries@.len() && group_pos(history_view(*h), host@, drv@, 0)
            == Some(k as int),
{
    let mut i: usize = 0;
    while i < h.entries.len()
        invariant
            i <= h.entries@.len(),
            group_pos(history_view(*h), host@, drv@, 0) == group_pos(
                history_view(*h),
                host@,
                drv@,
                i as int,
            ),
        decreases h.entries@.len() - i,
    {
        assert(history_view(*h)[i as int] == entry_view(h.entries@[i as int]));
        if str_eq(h.entries[i].host.as_str(), host) && str_eq(h.entries[i].derivation_name.as_str(), drv) {
            return Some(i);
        }
        i += 1;
    }
    None
}

/// The rows of a history, in order: host, derivation name, build seconds and
/// completion time of each report of each entry.
pub open spec fn history_rows(g: Seq<(Seq<char>, Seq<char>, Seq<BuildReport>)>) -> Seq<(Seq<char>, Seq<char>, u64, u64)>
    decreases g.len(),
{
    if g.len() == 0 {
        Seq::empty()
    } else {
        let e = g.last();
        history_rows(g.drop_last()) + e.2.map_values(
            |r: BuildReport| (e.0, e.1, r.duration_secs, r.completed_at),
        )
    }
}

/// The header line of the cache file.
pub open spec fn header_line() -> Seq<char> {
    "hostname,derivation_name,utc_time,build_seconds"@
}

/// The line of the cache file for a row: host, derivation name, time and
/// build seconds, separated by commas.
pub open spec fn is_row_line(l: Seq<char>, x: (Seq<char>, Seq<char>, u64, u64)) -> bool {
    row_line_of(l, x.0, x.1, x.2, x.3)
}

/// The line of the cache file for host `h`, derivation `d`, `secs` build
/// seconds and completion time `at`.
pub open spec fn row_line_of(l: Seq<char>, h: Seq<char>, d: Seq<char>, secs: u64, at: u64) -> bool {
    exists|t: Seq<char>|
        #[trigger] is_utc_text_of(at as int, t) && l == h + ","@ + d + ","@ + t + ","@ + decimal(
            secs as nat,
        )
}

/// The line of the cache file for a report.
fn row_line(host: &str, drv: &str, r: &BuildReport) -> (l: String)
    requires
        r.completed_at <= 0x7fff_ffff_ffff_ffff,
    ensures
        is_row_line(l@, (host@, drv@, r.duration_secs, r.completed_at)),
{
    let mut out = chars_of(host);
    out.push(',');
    let d = chars_of(drv);
    let mut i: usize = 0;
    let ghost o0 = out@;
    while i < d.len()
        invariant
            i <= d@.len(),
            out@ == o0 + d@.take(i as int),
        decreases d@.len() - i,
    {
        out.push(d[i]);
        i += 1;
        assert(out@ =~= o0 + d@.take(i as int));
    }
    assert(d@.take(d@.len() as int) =~= d@);
    out.push(',');
    let t = format_utc_time(r.completed_at);
    let tc = chars_of(t.as_str());
    let ghost o1 = out@;
    let mut j: usize = 0;
    while j < tc.len()
        invariant
            j <= tc@.len(),
            out@ == o1 + tc@.take(j as int),
        decreases tc@.len() - j,
    {
        out.push(tc[j]);
        j += 1;
        assert(out@ =~= o1 + tc@.take(j as int));
    }
    assert(tc@.take(tc@.len() as int) =~= tc@);
    out.push(',');
    push_padded(&mut out, r.duration_secs, 1);
    proof {
        reveal_strlit(",");
        assert(decimal(r.duration_secs as nat).len() >= 1);
        assert(out@ =~= host@ + ","@ + drv@ + ","@ + t@ + ","@ + decimal(r.duration_secs as nat));
    }
    let l = crate::text::string_from_chars(out.as_slice());
    assert(is_utc_text_of(r.completed_at as int, t@) && l@ == host@ + ","@ + drv@ + ","@ + t@ + ","@
        + decimal(r.duration_secs as nat));
    assert(row_line_of(l@, host@, drv@, r.duration_secs, r.completed_at));
    l
}

/// Every report of a history was completed before the end of `i64` seconds.
pub open spec fn times_fit(g: Seq<(Seq<char>, Seq<char>, Seq<BuildReport>)>) -> bool {
    forall|i: int, j: int|
        0 <= i < g.len() && 0 <= j < g[i].2.len() ==> (#[trigger] g[i].2[j]).completed_at
            <= 0x7fff_ffff_ffff_ffff
}

/// The lines of the cache file for a history: the header, then one line per
/// report.
pub fn history_lines(h: &BuildHistory) -> (r: Vec<String>)
    requires
        times_fit(history_view(*h)),
    ensures
        r@.len() == history_rows(history_view(*h)).len() + 1,
        r@[0]@ == header_line(),
        forall|k: int|
            0 <= k < history_rows(history_view(*h)).len() ==> is_row_line(
                #[trigger] r@[k + 1]@,
                history_rows(history_view(*h))[k],
            ),
{
    let ghost g = history_view(*h);
    let mut r: Vec<String> = Vec::new();
    r.push(String::from_str("hostname,derivation_name,utc_time,build_seconds"));
    let mut i: usize = 0;
    while i < h.entries.len()
        invariant
            i <= h.entries@.len(),
            g == history_view(*h),
            times_fit(g),
            r@.len() == history_rows(g.take(i as int)).len() + 1,
            r@[0]@ == header_line(),
            forall|k: int|
                0 <= k < history_rows(g.take(i as int)).len() ==> is_row_line(
                    #[trigger] r@[k + 1]@,
                    history_rows(g.take(i as int))[k],
                ),
        decreases h.entries@.len() - i,
    {
        let e = &h.entries[i];
        assert(g[i as int] == entry_view(*e));
        assert(g.take(i + 1).drop_last() =~= g.take(i as int));
        assert(g.take(i + 1).last() == g[i as int]);
        let ghost base = history_rows(g.take(i as int));
        let ghost rows_e = e.reports@.map_values(
            |x: BuildReport| (e.host@, e.derivation_name@, x.duration_secs, x.completed_at),
        );
        assert(history_rows(g.take(i + 1)) == base + rows_e);
        let mut j: usize = 0;
        while j < e.reports.len()
            invariant
                j <= e.reports@.len(),
                g[i as int] == entry_view(*e),
                i < g.len(),
                times_fit(g),
                r@.len() == base.len() + j + 1,
                r@[0]@ == header_line(),
                base == history_rows(g.take(i as int)),
                rows_e == e.reports@.map_values(
                    |x: BuildReport| (e.host@, e.derivation_name@, x.duration_secs, x.completed_at),
                ),
                forall|k: int| 0 <= k < base.len() + j ==> is_row_line(
                    #[trigger] r@[k + 1]@,
                    (base + rows_e)[k],
                ),
            decreases e.reports@.len() - j,
        {
            assert(g[i as int].2[j as int] == e.reports@[j as int]);
            assert(rows_e.len() == e.reports@.len());
            assert(rows_e[j as int] == (e.host@, e.derivation_name@, e.reports@[j as int].duration_secs, e.reports@[j as int].completed_at));
            let l = row_line(e.host.as_str(), e.derivation_name.as_str(), &e.reports[j]);
            let ghost before = r@;
            r.push(l);
            assert forall|k: int| 0 <= k < base.len() + j + 1 implies is_row_line(
                #[trigger] r@[k + 1]@,
                (base + rows_e)[k],
            ) by {
                if k < base.len() + j {
                    assert(r@[k + 1] == before[k + 1]);
                } else {
                    assert(k == base.len() + j);
                    assert((base + rows_e)[k] == rows_e[j as int]);
                }
            }
            j += 1;
        }
        i += 1;
    }
    assert(g.take(h.entries@.len() as int) =~= g);
    r
}

/// Every report of a list was completed before the end of `i64` seconds.
pub open spec fn reports_fit(s: Seq<BuildReport>) -> bool {
    forall|j: int| 0 <= j < s.len() ==> (#[trigger] s[j]).completed_at <= 0x7fff_ffff_ffff_ffff
}

proof fn lemma_newest_first_fit(s: Seq<BuildReport>)
    requires
        reports_fit(s),
    ensures
        reports_fit(newest_first(s)),
        reports_fit(kept(s)),
    decreases s.len(),
{
    if s.len() > 0 {
        assert(reports_fit(s.drop_last())) by {
            assert forall|j: int| 0 <= j < s.drop_last().len() implies (#[trigger] s.drop_last()[j]).completed_at
                <= 0x7fff_ffff_ffff_ffff by {
                assert(s.drop_last()[j] == s[j]);
            }
        }
        lemma_newest_first_fit(s.drop_last());
        let n = newest_first(s.drop_last());
        let k = first_older(n, s.last().completed_at, 0);
        lemma_first_older_bound(n, s.last().completed_at, 0);
        assert forall|j: int| 0 <= j < newest_first(s).len() implies (#[trigger] newest_first(s)[j]).completed_at
            <= 0x7fff_ffff_ffff_ffff by {
            if j < k {
                assert(newest_first(s)[j] == n[j]);
            } else if j > k {
                assert(newest_first(s)[j] == n[j - 1]);
            }
        }
    }
    assert forall|j: int| 0 <= j < kept(s).len() implies (#[trigger] kept(s)[j]).completed_at
        <= 0x7fff_ffff_ffff_ffff by {
        assert(kept(s)[j] == newest_first(s)[j]);
    }
}

proof fn lemma_grouped_fit(s: Seq<BuildReport>)
    requires
        reports_fit(s),
    ensures
        times_fit(grouped(s)),
    decreases s.len(),
{
    if s.len() > 0 {
        assert(reports_fit(s.drop_last())) by {
            assert forall|j: int| 0 <= j < s.drop_last().len() implies (#[trigger] s.drop_last()[j]).completed_at
                <= 0x7fff_ffff_ffff_ffff by {
                assert(s.drop_last()[j] == s[j]);
            }
        }
        lemma_grouped_fit(s.drop_last());
        let g = grouped(s.drop_last());
        let r = s.last();
        assert(r.completed_at <= 0x7fff_ffff_ffff_ffff);
        assert forall|i: int, j: int|
            0 <= i < grouped(s).len() && 0 <= j < grouped(s)[i].2.len() implies (#[trigger] grouped(
            s,
        )[i].2[j]).completed_at <= 0x7fff_ffff_ffff_ffff by {
            match group_pos(g, r.host@, r.derivation_name@, 0) {
                Some(p) => {
                    lemma_group_pos_some(g, r.host@, r.derivation_name@, 0);
                    if i == p && j < g[i].2.len() {
                        assert(grouped(s)[i].2[j] == g[i].2[j]);
                    } else if i != p {
                        assert(grouped(s)[i] == g[i]);
                    }
                },
                None => {
                    if i < g.len() {
                        assert(grouped(s)[i] == g[i]);
                    }
                },
            }
        }
    }
}

proof fn lemma_kept_groups_fit(g: Seq<(Seq<char>, Seq<char>, Seq<BuildReport>)>)
    requires
        times_fit(g),
    ensures
        times_fit(kept_groups(g)),
{
    assert forall|i: int, j: int|
        0 <= i < kept_groups(g).len() && 0 <= j < kept_groups(g)[i].2.len() implies (#[trigger] kept_groups(
        g,
    )[i].2[j]).completed_at <= 0x7fff_ffff_ffff_ffff by {
        assert(reports_fit(g[i].2)) by {
            assert forall|k: int| 0 <= k < g[i].2.len() implies (#[trigger] g[i].2[k]).completed_at
                <= 0x7fff_ffff_ffff_ffff by {
                assert(g[i].2[k] == g[i].2[k]);
            }
        }
        lemma_newest_first_fit(g[i].2);
    }
}

proof fn lemma_merged_fit(
    g: Seq<(Seq<char>, Seq<char>, Seq<BuildReport>)>,
    n: Seq<(Seq<char>, Seq<char>, Seq<BuildReport>)>,
)
    requires
        times_fit(g),
        times_fit(n),
    ensures
        times_fit(merged_groups(g, n)),
    decreases n.len(),
{
    if n.len() > 0 {
        assert(times_fit(n.drop_last())) by {
            assert forall|i: int, j: int|
                0 <= i < n.drop_last().len() && 0 <= j < n.drop_last()[i].2.len() implies (#[trigger] n.drop_last()[i].2[j]).completed_at
                <= 0x7fff_ffff_ffff_ffff by {
                assert(n.drop_last()[i] == n[i]);
            }
        }
        lemma_merged_fit(g, n.drop_last());
        let m = merged_groups(g, n.drop_last());
        let e = n.last();
        assert(reports_fit(e.2)) by {
            assert forall|k: int| 0 <= k < e.2.len() implies (#[trigger] e.2[k]).completed_at
                <= 0x7fff_ffff_ffff_ffff by {
                assert(n[n.len() - 1].2[k] == e.2[k]);
            }
        }
        match group_pos(m, e.0, e.1, 0) {
            Some(p) => {
                lemma_group_pos_some(m, e.0, e.1, 0);
                let both = m[p].2 + e.2;
                assert(reports_fit(both)) by {
                    assert forall|k: int| 0 <= k < both.len() implies (#[trigger] both[k]).completed_at
                        <= 0x7fff_ffff_ffff_ffff by {
                        if k < m[p].2.len() {
                            assert(both[k] == m[p].2[k]);
                        } else {
                            assert(both[k] == e.2[k - m[p].2.len()]);
                        }
                    }
                }
                lemma_newest_first_fit(both);
                assert forall|i: int, j: int|
                    0 <= i < merged_groups(g, n).len() && 0 <= j < merged_groups(g, n)[i].2.len() implies (#[trigger] merged_groups(
                    g,
                    n,
                )[i].2[j]).completed_at <= 0x7fff_ffff_ffff_ffff by {
                    if i != p {
                        assert(merged_groups(g, n)[i] == m[i]);
                    }
                }
            },
            None => {
                lemma_newest_first_fit(e.2);
                assert forall|i: int, j: int|
                    0 <= i < merged_groups(g, n).len() && 0 <= j < merged_groups(g, n)[i].2.len() implies (#[trigger] merged_groups(
                    g,
                    n,
                )[i].2[j]).completed_at <= 0x7fff_ffff_ffff_ffff by {
                    if i < m.len() {
                        assert(merged_groups(g, n)[i] == m[i]);
                    }
                }
            },
        }
    }
}

/// `rs` are the reports the lines of a cache file give, in file order.
pub open spec fn read_from(rs: Seq<BuildReport>, lines: Seq<String>) -> bool {
    &&& rs.len() == file_reports(lines.map_values(|l: String| l@)).len()
    &&& forall|k: int|
        0 <= k < rs.len() ==> is_read_report(
            #[trigger] rs[k],
            file_reports(lines.map_values(|l: String| l@))[k],
        )
}

impl BuildReportCache {
    /// The history the lines of the cache file keep (the caller reads them from
    /// `cache_path`; a missing file has no lines): their reports grouped by
    /// host and derivation name, each keeping its newest `HISTORY_LIMIT`
    /// reports, newest first.
    pub fn load(&self, lines: &[String]) -> (r: BuildHistory)
        ensures
            r.wf(),
            exists|rs: Seq<BuildReport>| #[trigger] read_from(rs, lines@) && history_view(r) == kept_groups(grouped(rs)),
            times_fit(history_view(r)),
    {
        let rs = reports_from_lines(lines);
        let r = group_reports(rs.as_slice());
        proof {
            assert(read_from(rs@, lines@));
            lemma_grouped_fit(rs@);
            lemma_kept_groups_fit(grouped(rs@));
        }
        r
    }

    /// The lines to write to the cache file: the history of its current lines
    /// with `reports` merged in, as a header and one line per report.
    pub fn save(&self, existing: &[String], reports: &BuildHistory) -> (r: Vec<String>)
        requires
            times_fit(history_view(*reports)),
        ensures
            exists|rs: Seq<BuildReport>|
                #[trigger] read_from(rs, existing@) && saved_lines(
                    r@,
                    merged_groups(kept_groups(grouped(rs)), history_view(*reports)),
                ),
    {
        let current = self.load(existing);
        let merged = merge_history(current, reports);
        proof {
            lemma_merged_fit(history_view(current), history_view(*reports));
        }
        let r = history_lines(&merged);
        proof {
            let rs = choose|rs: Seq<BuildReport>|
                #[trigger] read_from(rs, existing@) && history_view(current) == kept_groups(grouped(rs));
            assert(read_from(rs, existing@) && saved_lines(
                r@,
                merged_groups(kept_groups(grouped(rs)), history_view(*reports)),
            ));
        }
        r
    }
}

/// `r` are the lines of the cache file for a history: the header, then one
/// line per report.
pub open spec fn saved_lines(r: Seq<String>, g: Seq<(Seq<char>, Seq<char>, Seq<BuildReport>)>) -> bool {
    &&& r.len() == history_rows(g).len() + 1
    &&& r[0]@ == header_line()
    &&& forall|k: int| 0 <= k < history_rows(g).len() ==> is_row_line(#[trigger] r[k + 1]@, history_rows(g)[k])
}


/// `s` holds no comma.
pub open spec fn no_comma(s: Seq<char>) -> bool {
    forall|i: int| 0 <= i < s.len() ==> #[trigger] s[i] != ','
}

/// No host or derivation name of a history holds a comma, so each fits one
/// field of a cache file row.
pub open spec fn plain_names(g: Seq<(Seq<char>, Seq<char>, Seq<BuildReport>)>) -> bool {
    forall|i: int| 0 <= i < g.len() ==> no_comma(#[trigger] g[i].0) && no_comma(g[i].1)
}

/// Every report of a history was completed before the year 10000, whose
/// timestamps still have a four-digit year.
pub open spec fn before_year_10000(g: Seq<(Seq<char>, Seq<char>, Seq<BuildReport>)>) -> bool {
    forall|i: int, j: int|
        0 <= i < g.len() && 0 <= j < g[i].2.len() ==> (#[trigger] g[i].2[j]).completed_at
            < 253402300800
}

/// The decimal digits of `n` read back as `n`, with nothing to trim.
proof fn lemma_decimal_reads(n: nat)
    requires
        n <= u64::MAX,
    ensures
        trim(decimal(n)) == decimal(n),
        parse_u64_spec(decimal(n)) == Some(n as int),
{
    lemma_decimal_value(n);
    let ds = decimal(n);
    assert(!is_ws(ds[0]));
    assert(!is_ws(ds.last()));
    assert(lead_ws(ds) == 0);
    assert(ds.skip(0) =~= ds);
    assert(trail_ws(ds) == 0);
    assert(ds.take(ds.len() as int) =~= ds);
}

proof fn lemma_decimal_value(n: nat)
    ensures
        decimal(n).len() >= 1,
        all_digits(decimal(n)),
        digits_value_chars(decimal(n)) == n,
    decreases n,
{
    let ds = decimal(n);
    assert(digit_char(n % 10) as int - 48 == n % 10);
    assert(digit_char(n) as int - 48 == n % 10);
    if n < 10 {
        assert(ds == seq![digit_char(n)]);
        assert(ds.drop_last() =~= Seq::<char>::empty());
        assert(digits_value_chars(ds.drop_last()) == 0);
        assert(ds.last() == digit_char(n));
        assert(n % 10 == n);
    } else {
        lemma_decimal_value(n / 10);
        assert(ds.drop_last() =~= decimal(n / 10));
        assert forall|i: int| 0 <= i < ds.len() implies is_digit(#[trigger] ds[i]) by {
            if i < ds.len() - 1 {
                assert(ds[i] == decimal(n / 10)[i]);
            }
        }
    }
}

/// The first `c` from `i` on stands at `j` when `j` holds one and nothing
/// between does.
proof fn lemma_find_char_at(s: Seq<char>, c: char, i: int, j: int)
    requires
        0 <= i <= j < s.len(),
        s[j] == c,
        forall|k: int| i <= k < j ==> #[trigger] s[k] != c,
    ensures
        find_char_from(s, c, i) == Some(j),
    decreases j - i,
{
    if i < j {
        lemma_find_char_at(s, c, i + 1, j);
    }
}

/// Four fields joined by commas, the first three holding none, split back at
/// the first three commas.
proof fn lemma_comma_fields(a: Seq<char>, b: Seq<char>, c: Seq<char>, d: Seq<char>)
    requires
        no_comma(a),
        no_comma(b),
        no_comma(c),
    ensures
        ({
            let l = a + seq![','] + b + seq![','] + c + seq![','] + d;
            let c1 = a.len() as int;
            let c2 = c1 + 1 + b.len();
            let c3 = c2 + 1 + c.len();
            &&& find_char_from(l, ',', 0) == Some(c1)
            &&& find_char_from(l, ',', c1 + 1) == Some(c2)
            &&& find_char_from(l, ',', c2 + 1) == Some(c3)
            &&& l.subrange(0, c1) == a
            &&& l.subrange(c1 + 1, c2) == b
            &&& l.subrange(c2 + 1, c3) == c
            &&& l.subrange(c3 + 1, l.len() as int) == d
        }),
{
    let l = a + seq![','] + b + seq![','] + c + seq![','] + d;
    let c1 = a.len() as int;
    let c2 = c1 + 1 + b.len();
    let c3 = c2 + 1 + c.len();
    assert(l.subrange(0, c1) =~= a);
    assert(l.subrange(c1 + 1, c2) =~= b);
    assert(l.subrange(c2 + 1, c3) =~= c);
    assert(l.subrange(c3 + 1, l.len() as int) =~= d);
    assert(l[c1] == ',' && l[c2] == ',' && l[c3] == ',');
    assert forall|k: int| 0 <= k < c1 implies #[trigger] l[k] != ',' by {
        assert(l[k] == l.subrange(0, c1)[k]);
    }
    assert forall|k: int| c1 + 1 <= k < c2 implies #[trigger] l[k] != ',' by {
        assert(l[k] == l.subrange(c1 + 1, c2)[k - c1 - 1]);
    }
    assert forall|k: int| c2 + 1 <= k < c3 implies #[trigger] l[k] != ',' by {
        assert(l[k] == l.subrange(c2 + 1, c3)[k - c2 - 1]);
    }
    lemma_find_char_at(l, ',', 0, c1);
    lemma_find_char_at(l, ',', c1 + 1, c2);
    lemma_find_char_at(l, ',', c2 + 1, c3);
}

/// A row line of plain names, with a time before the year 10000, reads back
/// as its row.
proof fn lemma_row_line_reads(l: Seq<char>, x: (Seq<char>, Seq<char>, u64, u64))
    requires
        is_row_line(l, x),
        no_comma(x.0),
        no_comma(x.1),
        x.3 < 253402300800,
    ensures
        row_report(l) == Some(x),
{
    let t = choose|t: Seq<char>|
        #[trigger] is_utc_text_of(x.3 as int, t) && l == x.0 + ","@ + x.1 + ","@ + t + ","@
            + decimal(x.2 as nat);
    let ds = decimal(x.2 as nat);
    lemma_utc_text_no_comma(x.3 as int, t);
    law_utc_roundtrip(x.3 as int, t);
    lemma_decimal_reads(x.2 as nat);
    assert(","@ == seq![',']) by {
        reveal_strlit(",");
        assert(","@ =~= seq![',']);
    }
    assert(l == x.0 + seq![','] + x.1 + seq![','] + t + seq![','] + ds);
    lemma_comma_fields(x.0, x.1, t, ds);
}

/// Every row of a history with plain names and times before the year 10000
/// has plain names and a time before the year 10000.
proof fn lemma_history_rows_plain(g: Seq<(Seq<char>, Seq<char>, Seq<BuildReport>)>)
    requires
        plain_names(g),
        before_year_10000(g),
    ensures
        forall|k: int|
            0 <= k < history_rows(g).len() ==> {
                let x = #[trigger] history_rows(g)[k];
                no_comma(x.0) && no_comma(x.1) && x.3 < 253402300800
            },
    decreases g.len(),
{
    if g.len() > 0 {
        let p = g.drop_last();
        assert(plain_names(p)) by {
            assert forall|i: int| 0 <= i < p.len() implies no_comma(#[trigger] p[i].0) && no_comma(
                p[i].1,
            ) by {
                assert(p[i] == g[i]);
            }
        }
        assert(before_year_10000(p)) by {
            assert forall|i: int, j: int| 0 <= i < p.len() && 0 <= j < p[i].2.len() implies (
            #[trigger] p[i].2[j]).completed_at < 253402300800 by {
                assert(p[i] == g[i]);
            }
        }
        lemma_history_rows_plain(p);
        let e = g.last();
        let prev = history_rows(p);
        assert(no_comma(g[g.len() - 1].0) && no_comma(g[g.len() - 1].1));
        assert forall|k: int| 0 <= k < history_rows(g).len() implies {
            let x = #[trigger] history_rows(g)[k];
            no_comma(x.0) && no_comma(x.1) && x.3 < 253402300800
        } by {
            if k >= prev.len() {
                let j = k - prev.len();
                assert(history_rows(g)[k] == (e.0, e.1, e.2[j].duration_secs, e.2[j].completed_at));
                assert(g[g.len() - 1].2[j] == e.2[j]);
            }
        }
    }
}

/// The reports read from the first `k + 1` lines: the header is skipped, and
/// each row line gives its row.
proof fn lemma_file_reports_prefix(
    lv: Seq<Seq<char>>,
    rows: Seq<(Seq<char>, Seq<char>, u64, u64)>,
    k: int,
)
    requires
        lv.len() == rows.len() + 1,
        is_header(lv[0]),
        forall|j: int| 0 <= j < rows.len() ==> row_report(#[trigger] lv[j + 1]) == Some(rows[j]),
        0 <= k <= rows.len(),
    ensures
        file_reports(lv.take(k + 1)) == rows.take(k),
    decreases k,
{
    let p = lv.take(k + 1);
    assert(p.len() == k + 1);
    assert(p.last() == lv[k]);
    if k == 0 {
        assert(p.drop_last() =~= Seq::<Seq<char>>::empty());
        assert(file_reports(p.drop_last()) == Seq::<(Seq<char>, Seq<char>, u64, u64)>::empty());
        assert(is_header(p.last()));
        assert(rows.take(0) =~= Seq::<(Seq<char>, Seq<char>, u64, u64)>::empty());
    } else {
        lemma_file_reports_prefix(lv, rows, k - 1);
        assert(p.drop_last() =~= lv.take(k));
        assert(p.last() == lv[k]);
        assert(row_report(lv[(k - 1) + 1]) == Some(rows[k - 1]));
        assert(rows.take(k - 1).push(rows[k - 1]) =~= rows.take(k));
    }
}

/// Reading back the lines that `save` writes for a history gives the rows of
/// that history, in the order written: host, derivation name, build seconds and
/// completion time of each report.  This holds when no host or derivation name
/// holds a comma and every report was completed before the year 10000.
pub proof fn law_saved_lines_read_back(
    lines: Seq<String>,
    g: Seq<(Seq<char>, Seq<char>, Seq<BuildReport>)>,
)
    requires
        saved_lines(lines, g),
        plain_names(g),
        before_year_10000(g),
    ensures
        file_reports(lines.map_values(|l: String| l@)) == history_rows(g),
{
    let lv = lines.map_values(|l: String| l@);
    let rows = history_rows(g);
    lemma_history_rows_plain(g);
    assert(is_header(lv[0])) by {
        reveal_strlit("hostname,derivation_name,utc_time,build_seconds");
        reveal_strlit("hostname,");
        assert(lv[0] == header_line());
        assert(header_line().subrange(0, 9) =~= "hostname,"@);
    }
    assert forall|j: int| 0 <= j < rows.len() implies row_report(#[trigger] lv[j + 1]) == Some(
        rows[j],
    ) by {
        assert(lv[j + 1] == lines[j + 1]@);
        assert(is_row_line(lines[j + 1]@, rows[j]));
        lemma_row_line_reads(lv[j + 1], rows[j]);
    }
    lemma_file_reports_prefix(lv, rows, rows.len() as int);
    assert(lv.take(rows.len() + 1 as int) =~= lv);
    assert(rows.take(rows.len() as int) =~= rows);
}

/// Reports newest first: none is newer than one before it.
pub open spec fn newest_sorted(s: Seq<BuildReport>) -> bool {
    forall|i: int, j: int| 0 <= i < j < s.len() ==> (#[trigger] s[i]).completed_at >= (#[trigger] s[j]).completed_at
}

proof fn lemma_first_older_props(s: Seq<BuildReport>, t: u64, i: int)
    requires
        0 <= i <= s.len(),
    ensures
        i <= first_older(s, t, i) <= s.len(),
        forall|k: int| i <= k < first_older(s, t, i) ==> (#[trigger] s[k]).completed_at >= t,
        first_older(s, t, i) < s.len() ==> s[first_older(s, t, i)].completed_at < t,
    decreases s.len() - i,
{
    if i < s.len() && s[i].completed_at >= t {
        lemma_first_older_props(s, t, i + 1);
    }
}

proof fn lemma_insert_sorted(s: Seq<BuildReport>, r: BuildReport)
    requires
        newest_sorted(s),
    ensures
        newest_sorted(insert_newest_first(s, r)),
{
    let t = r.completed_at;
    let p = first_older(s, t, 0);
    lemma_first_older_props(s, t, 0);
    let u = s.insert(p, r);
    assert forall|i: int, j: int| 0 <= i < j < u.len() implies (#[trigger] u[i]).completed_at >= (
    #[trigger] u[j]).completed_at by {
        if j < p {
            assert(u[i] == s[i] && u[j] == s[j]);
        } else if j == p {
            assert(u[i] == s[i] && u[j] == r);
        } else if i < p {
            assert(u[i] == s[i] && u[j] == s[j - 1]);
        } else if i == p {
            assert(u[i] == r && u[j] == s[j - 1]);
            assert(s[p].completed_at < t);
            if p < j - 1 {
                assert(s[p].completed_at >= s[j - 1].completed_at);
            }
        } else {
            assert(u[i] == s[i - 1] && u[j] == s[j - 1]);
        }
    }
}

proof fn lemma_newest_first_sorted(s: Seq<BuildReport>)
    ensures
        newest_sorted(newest_first(s)),
    decreases s.len(),
{
    if s.len() > 0 {
        lemma_newest_first_sorted(s.drop_last());
        lemma_insert_sorted(newest_first(s.drop_last()), s.last());
    }
}

proof fn lemma_grouped_nonempty(s: Seq<BuildReport>)
    ensures
        forall|i: int| 0 <= i < grouped(s).len() ==> (#[trigger] grouped(s)[i]).2.len() > 0,
    decreases s.len(),
{
    if s.len() > 0 {
        lemma_grouped_nonempty(s.drop_last());
        let g = grouped(s.drop_last());
        let r = s.last();
        match group_pos(g, r.host@, r.derivation_name@, 0) {
            Some(k) => {
                lemma_group_pos_some(g, r.host@, r.derivation_name@, 0);
                assert forall|i: int| 0 <= i < grouped(s).len() implies (#[trigger] grouped(s)[i]).2.len() > 0 by {
                    if i != k {
                        assert(grouped(s)[i] == g[i]);
                    }
                }
            },
            None => {
                assert forall|i: int| 0 <= i < grouped(s).len() implies (#[trigger] grouped(s)[i]).2.len() > 0 by {
                    if i < g.len() {
                        assert(grouped(s)[i] == g[i]);
                    }
                }
            },
        }
    }
}

/// The reports of `s` for a host and derivation name, in order.
pub open spec fn reports_for(s: Seq<BuildReport>, host: Seq<char>, drv: Seq<char>) -> Seq<BuildReport> {
    s.filter(|r: BuildReport| r.host@ == host && r.derivation_name@ == drv)
}

proof fn lemma_reports_for_last(s: Seq<BuildReport>, host: Seq<char>, drv: Seq<char>)
    requires
        s.len() > 0,
    ensures
        reports_for(s, host, drv) == if s.last().host@ == host && s.last().derivation_name@ == drv {
            reports_for(s.drop_last(), host, drv).push(s.last())
        } else {
            reports_for(s.drop_last(), host, drv)
        },
{
    reveal(Seq::filter);
}

proof fn lemma_reports_for_none(s: Seq<BuildReport>, host: Seq<char>, drv: Seq<char>)
    requires
        forall|k: int| 0 <= k < s.len() ==> !(#[trigger] s[k].host@ == host && s[k].derivation_name@ == drv),
    ensures
        reports_for(s, host, drv).len() == 0,
    decreases s.len(),
{
    if s.len() > 0 {
        lemma_reports_for_last(s, host, drv);
        assert(!(s[s.len() - 1].host@ == host && s[s.len() - 1].derivation_name@ == drv));
        assert forall|k: int| 0 <= k < s.drop_last().len() implies !(#[trigger] s.drop_last()[k].host@ == host
            && s.drop_last()[k].derivation_name@ == drv) by {
            assert(s.drop_last()[k] == s[k]);
        }
        lemma_reports_for_none(s.drop_last(), host, drv);
    }
}

/// Each group of `grouped(s)` holds the reports of `s` for its host and
/// derivation name, in order, and every report of `s` has its group.
proof fn lemma_grouped_reports(s: Seq<BuildReport>)
    ensures
        forall|i: int|
            0 <= i < grouped(s).len() ==> (#[trigger] grouped(s)[i]).2 == reports_for(s, grouped(s)[i].0, grouped(s)[i].1),
        forall|k: int|
            0 <= k < s.len() ==> group_pos(grouped(s), (#[trigger] s[k]).host@, s[k].derivation_name@, 0) is Some,
    decreases s.len(),
{
    if s.len() > 0 {
        let p = s.drop_last();
        lemma_grouped_reports(p);
        lemma_grouped_distinct(p);
        let g = grouped(p);
        let r = s.last();
        let gs = grouped(s);
        match group_pos(g, r.host@, r.derivation_name@, 0) {
            Some(q) => {
                lemma_group_pos_some(g, r.host@, r.derivation_name@, 0);
                assert(gs == g.update(q, (g[q].0, g[q].1, g[q].2.push(r))));
                assert forall|i: int| 0 <= i < gs.len() implies (#[trigger] gs[i]).2 == reports_for(s, gs[i].0, gs[i].1) by {
                    lemma_reports_for_last(s, gs[i].0, gs[i].1);
                    if i != q {
                        assert(gs[i] == g[i]);
                        if g[i].0 == r.host@ && g[i].1 == r.derivation_name@ {
                            if i < q {
                                assert(!(g[i].0 == g[q].0 && g[i].1 == g[q].1));
                            } else {
                                assert(!(g[q].0 == g[i].0 && g[q].1 == g[i].1));
                            }
                        }
                    }
                }
                assert forall|k: int| 0 <= k < s.len() implies group_pos(gs, (#[trigger] s[k]).host@, s[k].derivation_name@, 0) is Some by {
                    if k < p.len() {
                        assert(s[k] == p[k]);
                        let h = p[k].host@;
                        let d = p[k].derivation_name@;
                        lemma_group_pos_some(g, h, d, 0);
                        let j = group_pos(g, h, d, 0).unwrap();
                        assert(gs[j].0 == h && gs[j].1 == d);
                        if group_pos(gs, h, d, 0) is None {
                            lemma_group_pos_none(gs, h, d, 0);
                        }
                    } else {
                        assert(gs[q].0 == r.host@ && gs[q].1 == r.derivation_name@);
                        if group_pos(gs, r.host@, r.derivation_name@, 0) is None {
                            lemma_group_pos_none(gs, r.host@, r.derivation_name@, 0);
                        }
                    }
                }
            },
            None => {
                lemma_group_pos_none(g, r.host@, r.derivation_name@, 0);
                assert(gs == g.push((r.host@, r.derivation_name@, seq![r])));
                assert forall|k: int| 0 <= k < p.len() implies !(#[trigger] p[k].host@ == r.host@
                    && p[k].derivation_name@ == r.derivation_name@) by {
                    let h = p[k].host@;
                    let d = p[k].derivation_name@;
                    lemma_group_pos_some(g, h, d, 0);
                }
                assert forall|i: int| 0 <= i < gs.len() implies (#[trigger] gs[i]).2 == reports_for(s, gs[i].0, gs[i].1) by {
                    lemma_reports_for_last(s, gs[i].0, gs[i].1);
                    if i < g.len() {
                        assert(gs[i] == g[i]);
                    } else {
                        lemma_reports_for_none(p, r.host@, r.derivation_name@);
                        assert(reports_for(p, r.host@, r.derivation_name@) =~= Seq::<BuildReport>::empty());
                        assert(seq![r] =~= Seq::<BuildReport>::empty().push(r));
                    }
                }
                assert forall|k: int| 0 <= k < s.len() implies group_pos(gs, (#[trigger] s[k]).host@, s[k].derivation_name@, 0) is Some by {
                    let (h, d) = if k < p.len() {
                        (p[k].host@, p[k].derivation_name@)
                    } else {
                        (r.host@, r.derivation_name@)
                    };
                    assert(s[k].host@ == h && s[k].derivation_name@ == d);
                    let j: int = if k < p.len() {
                        lemma_group_pos_some(g, h, d, 0);
                        group_pos(g, h, d, 0).unwrap()
                    } else {
                        g.len() as int
                    };
                    assert(gs[j].0 == h && gs[j].1 == d);
                    if group_pos(gs, h, d, 0) is None {
                        lemma_group_pos_none(gs, h, d, 0);
                    }
                }
            },
        }
    }
}

/// What `load` gives for the reports of a cache file: one group per host and
/// derivation name that a report of the file has, and no other; each group
/// holds the newest `HISTORY_LIMIT` of the file's reports for its host and
/// derivation name, newest first.
pub proof fn law_loaded_newest(rs: Seq<BuildReport>)
    ensures
        forall|i: int|
            0 <= i < kept_groups(grouped(rs)).len() ==> (#[trigger] kept_groups(grouped(rs))[i]).2 == kept(
                reports_for(rs, kept_groups(grouped(rs))[i].0, kept_groups(grouped(rs))[i].1),
            ),
        forall|k: int|
            0 <= k < rs.len() ==> group_pos(kept_groups(grouped(rs)), (#[trigger] rs[k]).host@, rs[k].derivation_name@, 0) is Some,
        forall|i: int|
            0 <= i < kept_groups(grouped(rs)).len() ==> reports_for(
                rs,
                (#[trigger] kept_groups(grouped(rs))[i]).0,
                kept_groups(grouped(rs))[i].1,
            ).len() > 0,
{
    lemma_grouped_reports(rs);
    lemma_grouped_nonempty(rs);
    let g = grouped(rs);
    let kg = kept_groups(g);
    assert forall|i: int| 0 <= i < kg.len() implies (#[trigger] kg[i]).2 == kept(reports_for(rs, kg[i].0, kg[i].1)) by {
        assert(kg[i] == (g[i].0, g[i].1, kept(g[i].2)));
    }
    assert forall|k: int| 0 <= k < rs.len() implies group_pos(kg, (#[trigger] rs[k]).host@, rs[k].derivation_name@, 0) is Some by {
        let h = rs[k].host@;
        let d = rs[k].derivation_name@;
        lemma_group_pos_some(g, h, d, 0);
        let j = group_pos(g, h, d, 0).unwrap();
        assert(kg[j].0 == h && kg[j].1 == d);
        if group_pos(kg, h, d, 0) is None {
            lemma_group_pos_none(kg, h, d, 0);
        }
    }
    assert forall|i: int| 0 <= i < kg.len() implies reports_for(rs, (#[trigger] kg[i]).0, kg[i].1).len() > 0 by {
        assert(kg[i].0 == g[i].0 && kg[i].1 == g[i].1);
        assert(g[i].2.len() > 0);
    }
}

/// At most the first `HISTORY_LIMIT` reports of `s`.
spec fn capped(s: Seq<BuildReport>) -> Seq<BuildReport> {
    if s.len() <= HISTORY_LIMIT {
        s
    } else {
        s.take(HISTORY_LIMIT as int)
    }
}

/// Inserting a report into a newest-first list and keeping the first
/// `HISTORY_LIMIT` gives the same as inserting it into the first
/// `HISTORY_LIMIT` only.
proof fn lemma_capped_insert(x: Seq<BuildReport>, r: BuildReport)
    requires
        newest_sorted(x),
    ensures
        capped(insert_newest_first(x, r)) == capped(insert_newest_first(capped(x), r)),
{
    if x.len() > HISTORY_LIMIT {
        let l = HISTORY_LIMIT as int;
        let y = x.take(l);
        let t = r.completed_at;
        lemma_first_older_props(x, t, 0);
        lemma_first_older_props(y, t, 0);
        let p = first_older(x, t, 0);
        let q = first_older(y, t, 0);
        if p < l {
            assert(y[p] == x[p]);
            if q < p {
                assert(y[q] == x[q]);
            }
            assert(q == p);
        } else {
            if q < l {
                assert(y[q] == x[q]);
            }
            assert(q == l);
        }
        let a = x.insert(p, r);
        let b = y.insert(q, r);
        assert(a.take(l) =~= b.take(l)) by {
            assert forall|i: int| 0 <= i < l implies a.take(l)[i] == b.take(l)[i] by {
                if i < p && i < q {
                    assert(a[i] == x[i] && b[i] == y[i]);
                } else if i == p && p < l {
                    assert(a[i] == r && b[i] == r);
                } else if i > p && p < l {
                    assert(a[i] == x[i - 1] && b[i] == y[i - 1]);
                }
            }
        }
    }
}

/// Keeping the newest `HISTORY_LIMIT` of the kept reports of `a` and the
/// reports `b` keeps the same as keeping the newest of `a` and `b` together.
pub proof fn law_kept_then_merged(a: Seq<BuildReport>, b: Seq<BuildReport>)
    ensures
        kept(kept(a) + b) == kept(a + b),
    decreases b.len(),
{
    lemma_newest_first_sorted(a);
    let na = newest_first(a);
    assert(kept(a) == capped(na));
    assert(newest_sorted(capped(na))) by {
        if na.len() > HISTORY_LIMIT {
            assert forall|i: int, j: int| 0 <= i < j < capped(na).len() implies (#[trigger] capped(na)[i]).completed_at
                >= (#[trigger] capped(na)[j]).completed_at by {
                assert(capped(na)[i] == na[i] && capped(na)[j] == na[j]);
            }
        }
    }
    if b.len() == 0 {
        assert(kept(a) + b =~= kept(a));
        assert(a + b =~= a);
        lemma_newest_first_sorted_id(kept(a));
        if na.len() > HISTORY_LIMIT {
            assert(capped(na).take(HISTORY_LIMIT as int) =~= capped(na));
        }
    } else {
        let b0 = b.drop_last();
        let r = b.last();
        law_kept_then_merged(a, b0);
        let x = kept(a) + b0;
        let y = a + b0;
        assert((kept(a) + b).drop_last() =~= x);
        assert((a + b).drop_last() =~= y);
        assert((kept(a) + b).last() == r);
        assert((a + b).last() == r);
        lemma_newest_first_sorted(x);
        lemma_newest_first_sorted(y);
        lemma_capped_insert(newest_first(x), r);
        lemma_capped_insert(newest_first(y), r);
        assert(kept(kept(a) + b) == capped(insert_newest_first(newest_first(x), r)));
        assert(kept(a + b) == capped(insert_newest_first(newest_first(y), r)));
        assert(capped(newest_first(x)) == kept(x));
        assert(capped(newest_first(y)) == kept(y));
    }
}

proof fn lemma_group_pos_push(
    g: Seq<(Seq<char>, Seq<char>, Seq<BuildReport>)>,
    x: (Seq<char>, Seq<char>, Seq<BuildReport>),
    host: Seq<char>,
    drv: Seq<char>,
    i: int,
)
    requires
        0 <= i <= g.len(),
    ensures
        group_pos(g.push(x), host, drv, i) == match group_pos(g, host, drv, i) {
            Some(k) => Some(k),
            None => if x.0 == host && x.1 == drv {
                Some(g.len() as int)
            } else {
                None
            },
        },
    decreases g.len() - i,
{
    let h = g.push(x);
    if i < g.len() {
        assert(h[i] == g[i]);
        lemma_group_pos_push(g, x, host, drv, i + 1);
    } else {
        assert(h[i] == x);
        if !(x.0 == host && x.1 == drv) {
            assert(group_pos(h, host, drv, i + 1) is None);
        }
    }
}

proof fn lemma_group_pos_same_keys(
    a: Seq<(Seq<char>, Seq<char>, Seq<BuildReport>)>,
    b: Seq<(Seq<char>, Seq<char>, Seq<BuildReport>)>,
    host: Seq<char>,
    drv: Seq<char>,
    i: int,
)
    requires
        0 <= i,
        a.len() == b.len(),
        forall|k: int| 0 <= k < a.len() ==> (#[trigger] a[k]).0 == b[k].0 && a[k].1 == b[k].1,
    ensures
        group_pos(a, host, drv, i) == group_pos(b, host, drv, i),
    decreases a.len() - i,
{
    if i < a.len() {
        lemma_group_pos_same_keys(a, b, host, drv, i + 1);
    }
}

/// The reports a saved history keeps for a host and derivation name: the
/// newest `HISTORY_LIMIT` of the file's reports for them followed by the new
/// ones for them (when `n` has an entry for them).
pub open spec fn merged_entry(
    rs: Seq<BuildReport>,
    n: Seq<(Seq<char>, Seq<char>, Seq<BuildReport>)>,
    host: Seq<char>,
    drv: Seq<char>,
) -> Seq<BuildReport> {
    match group_pos(n, host, drv, 0) {
        Some(j) => kept(reports_for(rs, host, drv) + n[j].2),
        None => kept(reports_for(rs, host, drv)),
    }
}

/// What `save` writes for the reports `rs` of the cache file and new reports
/// `n` (one entry per host and derivation name): one group per host and
/// derivation name of the file or of `n`, and no other, each holding the
/// newest `HISTORY_LIMIT` of the file's reports and the new ones for it,
/// newest first.
pub proof fn law_merged_newest(rs: Seq<BuildReport>, n: Seq<(Seq<char>, Seq<char>, Seq<BuildReport>)>)
    requires
        distinct_keys(n),
    ensures
        distinct_keys(merged_groups(kept_groups(grouped(rs)), n)),
        forall|i: int|
            0 <= i < merged_groups(kept_groups(grouped(rs)), n).len() ==> (#[trigger] merged_groups(
                kept_groups(grouped(rs)),
                n,
            )[i]).2 == merged_entry(
                rs,
                n,
                merged_groups(kept_groups(grouped(rs)), n)[i].0,
                merged_groups(kept_groups(grouped(rs)), n)[i].1,
            ),
        forall|k: int|
            0 <= k < rs.len() ==> group_pos(
                merged_groups(kept_groups(grouped(rs)), n),
                (#[trigger] rs[k]).host@,
                rs[k].derivation_name@,
                0,
            ) is Some,
        forall|j: int|
            0 <= j < n.len() ==> group_pos(
                merged_groups(kept_groups(grouped(rs)), n),
                (#[trigger] n[j]).0,
                n[j].1,
                0,
            ) is Some,
        forall|i: int|
            0 <= i < merged_groups(kept_groups(grouped(rs)), n).len() ==> group_pos(
                n,
                (#[trigger] merged_groups(kept_groups(grouped(rs)), n)[i]).0,
                merged_groups(kept_groups(grouped(rs)), n)[i].1,
                0,
            ) is Some || reports_for(
                rs,
                merged_groups(kept_groups(grouped(rs)), n)[i].0,
                merged_groups(kept_groups(grouped(rs)), n)[i].1,
            ).len() > 0,
    decreases n.len(),
{
    let g0 = kept_groups(grouped(rs));
    law_loaded_groups(rs);
    law_loaded_newest(rs);
    if n.len() == 0 {
        assert forall|i: int| 0 <= i < g0.len() implies (#[trigger] g0[i]).2 == merged_entry(rs, n, g0[i].0, g0[i].1) by {
            assert(group_pos(n, g0[i].0, g0[i].1, 0) is None);
        }
    } else {
        let n0 = n.drop_last();
        let e = n.last();
        assert(n =~= n0.push(e));
        assert(distinct_keys(n0)) by {
            assert forall|a: int, b: int| 0 <= a < b < n0.len() implies !(n0[a].0 == n0[b].0 && n0[a].1 == n0[b].1) by {
                assert(n0[a] == n[a] && n0[b] == n[b]);
            }
        }
        law_merged_newest(rs, n0);
        let m0 = merged_groups(g0, n0);
        let m = merged_groups(g0, n);
        // e's key is not among those of n0.
        assert forall|k: int| 0 <= k < n0.len() implies !(#[trigger] n0[k].0 == e.0 && n0[k].1 == e.1) by {
            assert(n0[k] == n[k]);
            assert(e == n[n.len() - 1]);
        }
        lemma_group_pos_absent(n0, e.0, e.1, 0);
        assert forall|h: Seq<char>, d: Seq<char>| group_pos(n, h, d, 0) == match group_pos(n0, h, d, 0) {
            Some(k) => Some(k),
            None => if e.0 == h && e.1 == d {
                Some(n0.len() as int)
            } else {
                None
            },
        } by {
            lemma_group_pos_push(n0, e, h, d, 0);
        }
        match group_pos(m0, e.0, e.1, 0) {
            Some(i) => {
                lemma_group_pos_some(m0, e.0, e.1, 0);
                assert(m == m0.update(i, (m0[i].0, m0[i].1, kept(m0[i].2 + e.2))));
                assert forall|k: int| 0 <= k < m.len() implies (#[trigger] m[k]).0 == m0[k].0 && m[k].1 == m0[k].1 by {}
                assert forall|h: Seq<char>, d: Seq<char>| group_pos(m, h, d, 0) == group_pos(m0, h, d, 0) by {
                    lemma_group_pos_same_keys(m, m0, h, d, 0);
                }
                assert forall|k: int| 0 <= k < m.len() implies (#[trigger] m[k]).2 == merged_entry(rs, n, m[k].0, m[k].1) by {
                    if k == i {
                        let r = reports_for(rs, e.0, e.1);
                        assert(m0[i].2 == kept(r));
                        law_kept_then_merged(r, e.2);
                        assert(group_pos(n, e.0, e.1, 0) == Some(n0.len() as int));
                        assert(n[n0.len() as int] == e);
                    } else {
                        assert(m[k] == m0[k]);
                        if m0[k].0 == e.0 && m0[k].1 == e.1 {
                            if k < i {
                                assert(!(m0[k].0 == m0[i].0 && m0[k].1 == m0[i].1));
                            } else {
                                assert(!(m0[i].0 == m0[k].0 && m0[i].1 == m0[k].1));
                            }
                        }
                        assert(group_pos(n, m0[k].0, m0[k].1, 0) == group_pos(n0, m0[k].0, m0[k].1, 0));
                        if group_pos(n0, m0[k].0, m0[k].1, 0) is Some {
                            let j = group_pos(n0, m0[k].0, m0[k].1, 0).unwrap();
                            lemma_group_pos_some(n0, m0[k].0, m0[k].1, 0);
                            assert(n[j] == n0[j]);
                        }
                    }
                }
                assert(distinct_keys(m)) by {
                    assert forall|a: int, b: int| 0 <= a < b < m.len() implies !(m[a].0 == m[b].0 && m[a].1 == m[b].1) by {
                        assert(m[a].0 == m0[a].0 && m[a].1 == m0[a].1);
                        assert(m[b].0 == m0[b].0 && m[b].1 == m0[b].1);
                    }
                }
                assert forall|j: int| 0 <= j < n.len() implies group_pos(m, (#[trigger] n[j]).0, n[j].1, 0) is Some by {
                    if j < n0.len() {
                        assert(n[j] == n0[j]);
                    }
                }
                assert forall|k: int| 0 <= k < m.len() implies group_pos(n, (#[trigger] m[k]).0, m[k].1, 0) is Some
                    || reports_for(rs, m[k].0, m[k].1).len() > 0 by {
                    assert(m[k].0 == m0[k].0 && m[k].1 == m0[k].1);
                }
            },
            None => {
                lemma_group_pos_none(m0, e.0, e.1, 0);
                let x = (e.0, e.1, kept(e.2));
                assert(m == m0.push(x));
                assert forall|h: Seq<char>, d: Seq<char>| group_pos(m, h, d, 0) == match group_pos(m0, h, d, 0) {
                    Some(k) => Some(k),
                    None => if x.0 == h && x.1 == d {
                        Some(m0.len() as int)
                    } else {
                        None
                    },
                } by {
                    lemma_group_pos_push(m0, x, h, d, 0);
                }
                assert forall|k: int| 0 <= k < rs.len() implies !(#[trigger] rs[k].host@ == e.0 && rs[k].derivation_name@ == e.1) by {
                    if rs[k].host@ == e.0 && rs[k].derivation_name@ == e.1 {
                        assert(group_pos(m0, rs[k].host@, rs[k].derivation_name@, 0) is Some);
                    }
                }
                lemma_reports_for_none(rs, e.0, e.1);
                assert(reports_for(rs, e.0, e.1) + e.2 =~= e.2);
                assert forall|k: int| 0 <= k < m.len() implies (#[trigger] m[k]).2 == merged_entry(rs, n, m[k].0, m[k].1) by {
                    if k < m0.len() {
                        assert(m[k] == m0[k]);
                        assert(!(m0[k].0 == e.0 && m0[k].1 == e.1));
                        if group_pos(n0, m0[k].0, m0[k].1, 0) is Some {
                            let j = group_pos(n0, m0[k].0, m0[k].1, 0).unwrap();
                            lemma_group_pos_some(n0, m0[k].0, m0[k].1, 0);
                            assert(n[j] == n0[j]);
                        }
                    } else {
                        assert(m[k] == x);
                        assert(group_pos(n, e.0, e.1, 0) == Some(n0.len() as int));
                        assert(n[n0.len() as int] == e);
                    }
                }
                assert(distinct_keys(m)) by {
                    assert forall|a: int, b: int| 0 <= a < b < m.len() implies !(m[a].0 == m[b].0 && m[a].1 == m[b].1) by {
                        assert(m[a] == m0[a]);
                        if b < m0.len() {
                            assert(m[b] == m0[b]);
                        } else {
                            assert(m[b] == x);
                        }
                    }
                }
                assert forall|j: int| 0 <= j < n.len() implies group_pos(m, (#[trigger] n[j]).0, n[j].1, 0) is Some by {
                    if j < n0.len() {
                        assert(n[j] == n0[j]);
                    } else {
                        assert(n[j] == e);
                    }
                }
                assert forall|k: int| 0 <= k < m.len() implies group_pos(n, (#[trigger] m[k]).0, m[k].1, 0) is Some
                    || reports_for(rs, m[k].0, m[k].1).len() > 0 by {
                    if k < m0.len() {
                        assert(m[k] == m0[k]);
                    } else {
                        assert(m[k] == x);
                    }
                }
            },
        }
    }
}

/// A loaded history holds one group per host and derivation name, and each
/// group holds between one and `HISTORY_LIMIT` reports, newest first: what
/// `load` gives for any lines, so in particular for the lines `save` writes.
pub proof fn law_loaded_groups(rs: Seq<BuildReport>)
    ensures
        distinct_keys(kept_groups(grouped(rs))),
        forall|i: int|
            0 <= i < kept_groups(grouped(rs)).len() ==> {
                let e = #[trigger] kept_groups(grouped(rs))[i];
                &&& 0 < e.2.len() <= HISTORY_LIMIT
                &&& newest_sorted(e.2)
            },
{
    let g = grouped(rs);
    let kg = kept_groups(g);
    lemma_grouped_distinct(rs);
    lemma_grouped_nonempty(rs);
    assert(distinct_keys(kg)) by {
        assert forall|a: int, b: int| 0 <= a < b < kg.len() implies !(kg[a].0 == kg[b].0 && kg[a].1 == kg[b].1) by {
            assert(kg[a].0 == g[a].0 && kg[a].1 == g[a].1);
            assert(kg[b].0 == g[b].0 && kg[b].1 == g[b].1);
        }
    }
    assert forall|i: int| 0 <= i < kg.len() implies {
        let e = #[trigger] kg[i];
        &&& 0 < e.2.len() <= HISTORY_LIMIT
        &&& newest_sorted(e.2)
    } by {
        let x = g[i].2;
        assert(kg[i].2 == kept(x));
        lemma_newest_first_len(x);
        lemma_newest_first_sorted(x);
        let n = newest_first(x);
        if n.len() > HISTORY_LIMIT {
            let k = n.take(HISTORY_LIMIT as int);
            assert forall|a: int, b: int| 0 <= a < b < k.len() implies (#[trigger] k[a]).completed_at >= (
            #[trigger] k[b]).completed_at by {
                assert(k[a] == n[a] && k[b] == n[b]);
            }
        }
    }
}

/// The build seconds and completion time of a report.
pub open spec fn report_times(r: BuildReport) -> (u64, u64) {
    (r.duration_secs, r.completed_at)
}

/// The shape `load` and `save` keep a history in: one group per host and
/// derivation name, each holding between one and `HISTORY_LIMIT` reports,
/// newest first.
pub open spec fn kept_shape(g: Seq<(Seq<char>, Seq<char>, Seq<BuildReport>)>) -> bool {
    &&& distinct_keys(g)
    &&& forall|i: int| 0 <= i < g.len() ==> 0 < (#[trigger] g[i]).2.len() <= HISTORY_LIMIT && newest_sorted(g[i].2)
}

/// The rows of a list of reports: host, derivation name, build seconds and
/// completion time of each.
pub open spec fn report_rows(rs: Seq<BuildReport>) -> Seq<(Seq<char>, Seq<char>, u64, u64)> {
    rs.map_values(|r: BuildReport| (r.host@, r.derivation_name@, r.duration_secs, r.completed_at))
}

proof fn lemma_group_pos_absent(g: Seq<(Seq<char>, Seq<char>, Seq<BuildReport>)>, host: Seq<char>, drv: Seq<char>, i: int)
    requires
        0 <= i,
        forall|k: int| i <= k < g.len() ==> !(#[trigger] g[k].0 == host && g[k].1 == drv),
    ensures
        group_pos(g, host, drv, i) is None,
    decreases g.len() - i,
{
    if i < g.len() {
        lemma_group_pos_absent(g, host, drv, i + 1);
    }
}

proof fn lemma_group_pos_last(g: Seq<(Seq<char>, Seq<char>, Seq<BuildReport>)>, host: Seq<char>, drv: Seq<char>, i: int)
    requires
        0 <= i < g.len(),
        g.last().0 == host && g.last().1 == drv,
        forall|k: int| i <= k < g.len() - 1 ==> !(#[trigger] g[k].0 == host && g[k].1 == drv),
    ensures
        group_pos(g, host, drv, i) == Some((g.len() - 1) as int),
    decreases g.len() - i,
{
    if i < g.len() - 1 {
        lemma_group_pos_last(g, host, drv, i + 1);
    }
}

/// Reports of one host and derivation name, grouped after reports none of
/// whose groups has that name, form one new last group.
proof fn lemma_grouped_new_group(a: Seq<BuildReport>, b: Seq<BuildReport>, host: Seq<char>, drv: Seq<char>, j: int)
    requires
        1 <= j <= b.len(),
        forall|m: int| 0 <= m < b.len() ==> (#[trigger] b[m]).host@ == host && b[m].derivation_name@ == drv,
        forall|k: int| 0 <= k < grouped(a).len() ==> !(#[trigger] grouped(a)[k].0 == host && grouped(a)[k].1 == drv),
    ensures
        grouped(a + b.take(j)) == grouped(a).push((host, drv, b.take(j))),
    decreases j,
{
    let s = a + b.take(j);
    let ga = grouped(a);
    assert(s.last() == b[j - 1]);
    if j == 1 {
        assert(s.drop_last() =~= a);
        lemma_group_pos_absent(ga, host, drv, 0);
        assert(b.take(1) =~= seq![b[0]]);
    } else {
        lemma_grouped_new_group(a, b, host, drv, j - 1);
        assert(s.drop_last() =~= a + b.take(j - 1));
        let g1 = ga.push((host, drv, b.take(j - 1)));
        assert forall|k: int| 0 <= k < g1.len() - 1 implies !(#[trigger] g1[k].0 == host && g1[k].1 == drv) by {
            assert(g1[k] == ga[k]);
        }
        lemma_group_pos_last(g1, host, drv, 0);
        assert(b.take(j - 1).push(b[j - 1]) =~= b.take(j));
        assert(g1.update(g1.len() - 1, (host, drv, b.take(j))) =~= ga.push((host, drv, b.take(j))));
    }
}

/// Grouping the reports read back from the rows of a history with one
/// non-empty group per name gives that history's groups, in order, each with
/// its reports' times in order.
proof fn lemma_grouped_rows(rs: Seq<BuildReport>, g: Seq<(Seq<char>, Seq<char>, Seq<BuildReport>)>)
    requires
        report_rows(rs) == history_rows(g),
        distinct_keys(g),
        forall|i: int| 0 <= i < g.len() ==> (#[trigger] g[i]).2.len() > 0,
    ensures
        grouped(rs).len() == g.len(),
        forall|i: int| 0 <= i < g.len() ==> (#[trigger] grouped(rs)[i]).0 == g[i].0 && grouped(rs)[i].1 == g[i].1
            && grouped(rs)[i].2.map_values(|r: BuildReport| report_times(r)) == g[i].2.map_values(
            |r: BuildReport| report_times(r),
        ),
    decreases g.len(),
{
    if g.len() == 0 {
        assert(rs.len() == 0) by {
            assert(report_rows(rs).len() == rs.len());
        }
        assert(rs =~= Seq::<BuildReport>::empty());
    } else {
        let g1 = g.drop_last();
        let e = g.last();
        let n1 = history_rows(g1).len();
        let tail = e.2.map_values(|r: BuildReport| (e.0, e.1, r.duration_secs, r.completed_at));
        assert(history_rows(g) == history_rows(g1) + tail);
        assert(report_rows(rs).len() == rs.len());
        let rs1 = rs.take(n1 as int);
        let rs2 = rs.skip(n1 as int);
        assert(report_rows(rs1) =~= history_rows(g1)) by {
            assert forall|m: int| 0 <= m < n1 implies report_rows(rs1)[m] == history_rows(g1)[m] by {
                assert(report_rows(rs)[m] == history_rows(g)[m]);
                assert(rs1[m] == rs[m]);
            }
        }
        assert(distinct_keys(g1)) by {
            assert forall|a: int, b: int| 0 <= a < b < g1.len() implies !(g1[a].0 == g1[b].0 && g1[a].1 == g1[b].1) by {
                assert(g1[a] == g[a] && g1[b] == g[b]);
            }
        }
        assert forall|i: int| 0 <= i < g1.len() implies (#[trigger] g1[i]).2.len() > 0 by {
            assert(g1[i] == g[i]);
        }
        lemma_grouped_rows(rs1, g1);
        let ga = grouped(rs1);
        assert forall|m: int| 0 <= m < rs2.len() implies (#[trigger] rs2[m]).host@ == e.0 && rs2[m].derivation_name@ == e.1 by {
            assert(report_rows(rs)[n1 + m] == history_rows(g)[n1 + m]);
            assert(history_rows(g)[n1 + m] == tail[m]);
            assert(rs2[m] == rs[n1 + m]);
        }
        assert forall|k: int| 0 <= k < ga.len() implies !(#[trigger] ga[k].0 == e.0 && ga[k].1 == e.1) by {
            assert(ga[k].0 == g1[k].0 && ga[k].1 == g1[k].1);
            assert(g1[k] == g[k]);
            assert(e == g[g.len() - 1]);
        }
        assert(rs2.len() == e.2.len());
        lemma_grouped_new_group(rs1, rs2, e.0, e.1, rs2.len() as int);
        assert(rs2.take(rs2.len() as int) =~= rs2);
        assert(rs1 + rs2 =~= rs);
        assert forall|i: int| 0 <= i < g.len() implies (#[trigger] grouped(rs)[i]).0 == g[i].0 && grouped(rs)[i].1 == g[i].1
            && grouped(rs)[i].2.map_values(|r: BuildReport| report_times(r)) == g[i].2.map_values(
            |r: BuildReport| report_times(r),
        ) by {
            if i < g1.len() {
                assert(grouped(rs)[i] == ga[i]);
                assert(g1[i] == g[i]);
            } else {
                assert(grouped(rs)[i] == (e.0, e.1, rs2));
                assert(rs2.map_values(|r: BuildReport| report_times(r)) =~= e.2.map_values(
                    |r: BuildReport| report_times(r),
                )) by {
                    assert forall|m: int| 0 <= m < rs2.len() implies report_times(rs2[m]) == report_times(e.2[m]) by {
                        assert(report_rows(rs)[n1 + m] == history_rows(g)[n1 + m]);
                        assert(history_rows(g)[n1 + m] == tail[m]);
                        assert(rs2[m] == rs[n1 + m]);
                    }
                }
            }
        }
    }
}

proof fn lemma_first_older_none(s: Seq<BuildReport>, t: u64, i: int)
    requires
        0 <= i <= s.len(),
        forall|k: int| i <= k < s.len() ==> (#[trigger] s[k]).completed_at >= t,
    ensures
        first_older(s, t, i) == s.len(),
    decreases s.len() - i,
{
    if i < s.len() {
        lemma_first_older_none(s, t, i + 1);
    }
}

/// Reports already newest first stay as they are.
proof fn lemma_newest_first_sorted_id(s: Seq<BuildReport>)
    requires
        newest_sorted(s),
    ensures
        newest_first(s) == s,
    decreases s.len(),
{
    if s.len() > 0 {
        let p = s.drop_last();
        assert(newest_sorted(p)) by {
            assert forall|i: int, j: int| 0 <= i < j < p.len() implies (#[trigger] p[i]).completed_at >= (
            #[trigger] p[j]).completed_at by {
                assert(p[i] == s[i] && p[j] == s[j]);
            }
        }
        lemma_newest_first_sorted_id(p);
        assert forall|k: int| 0 <= k < p.len() implies (#[trigger] p[k]).completed_at >= s.last().completed_at by {
            assert(p[k] == s[k]);
        }
        lemma_first_older_none(p, s.last().completed_at, 0);
        assert(p.insert(p.len() as int, s.last()) =~= s);
    }
}

/// Loading the lines that `save` writes for a history gives that history
/// back: the same groups in the same order, each with the same reports (their
/// build seconds and completion times) in the same order.  This holds for a
/// history in the shape `load` and `save` keep (one group per host and
/// derivation name, one to `HISTORY_LIMIT` reports each, newest first), with
/// no comma in a name and every report completed before the year 10000.
pub proof fn law_save_then_load(
    lines: Seq<String>,
    g: Seq<(Seq<char>, Seq<char>, Seq<BuildReport>)>,
    rs: Seq<BuildReport>,
)
    requires
        saved_lines(lines, g),
        plain_names(g),
        before_year_10000(g),
        kept_shape(g),
        read_from(rs, lines),
    ensures
        kept_groups(grouped(rs)).len() == g.len(),
        forall|i: int|
            0 <= i < g.len() ==> (#[trigger] kept_groups(grouped(rs))[i]).0 == g[i].0
                && kept_groups(grouped(rs))[i].1 == g[i].1 && kept_groups(grouped(rs))[i].2.map_values(
                |r: BuildReport| report_times(r),
            ) == g[i].2.map_values(|r: BuildReport| report_times(r)),
{
    law_saved_lines_read_back(lines, g);
    let fr = file_reports(lines.map_values(|l: String| l@));
    assert(report_rows(rs) =~= history_rows(g)) by {
        assert forall|k: int| 0 <= k < rs.len() implies report_rows(rs)[k] == history_rows(g)[k] by {
            assert(is_read_report(rs[k], fr[k]));
        }
    }
    lemma_grouped_rows(rs, g);
    let gr = grouped(rs);
    assert forall|i: int| 0 <= i < g.len() implies (#[trigger] kept_groups(gr)[i]).0 == g[i].0
        && kept_groups(gr)[i].1 == g[i].1 && kept_groups(gr)[i].2.map_values(|r: BuildReport| report_times(r))
        == g[i].2.map_values(|r: BuildReport| report_times(r)) by {
        let x = gr[i].2;
        let tx = x.map_values(|r: BuildReport| report_times(r));
        let ty = g[i].2.map_values(|r: BuildReport| report_times(r));
        assert(tx == ty);
        assert(x.len() == g[i].2.len()) by {
            assert(tx.len() == x.len() && ty.len() == g[i].2.len());
        }
        assert(newest_sorted(x)) by {
            assert forall|a: int, b: int| 0 <= a < b < x.len() implies (#[trigger] x[a]).completed_at >= (
            #[trigger] x[b]).completed_at by {
                assert(tx[a] == ty[a] && tx[b] == ty[b]);
                assert(g[i].2[a].completed_at >= g[i].2[b].completed_at);
            }
        }
        lemma_newest_first_sorted_id(x);
        assert(kept(x) == x);
    }
}


/// What `kept` keeps of reports that are not none: one to `HISTORY_LIMIT` of
/// them, newest first.
proof fn lemma_kept_shape(x: Seq<BuildReport>)
    requires
        x.len() > 0,
    ensures
        0 < kept(x).len() <= HISTORY_LIMIT,
        newest_sorted(kept(x)),
{
    lemma_newest_first_len(x);
    lemma_newest_first_sorted(x);
    let n = newest_first(x);
    if n.len() > HISTORY_LIMIT {
        assert forall|i: int, j: int| 0 <= i < j < kept(x).len() implies (#[trigger] kept(x)[i]).completed_at
            >= (#[trigger] kept(x)[j]).completed_at by {
            assert(kept(x)[i] == n[i] && kept(x)[j] == n[j]);
        }
    }
}

/// Saving and loading again: the history loaded from the lines that `save`
/// writes, for the reports `rs` of the cache file and new reports `n` (one
/// entry per host and derivation name, none without reports), holds one group
/// per host and derivation name of the file or of `n`, in the order written,
/// each with the build seconds and completion times of the newest
/// `HISTORY_LIMIT` of the file's reports and the new ones for it, newest
/// first.  This holds when no name holds a comma and every report was
/// completed before the year 10000.
pub proof fn law_save_then_load_newest(
    rs: Seq<BuildReport>,
    n: Seq<(Seq<char>, Seq<char>, Seq<BuildReport>)>,
    lines: Seq<String>,
    back: Seq<BuildReport>,
)
    requires
        distinct_keys(n),
        forall|j: int| 0 <= j < n.len() ==> (#[trigger] n[j]).2.len() > 0,
        saved_lines(lines, merged_groups(kept_groups(grouped(rs)), n)),
        plain_names(merged_groups(kept_groups(grouped(rs)), n)),
        before_year_10000(merged_groups(kept_groups(grouped(rs)), n)),
        read_from(back, lines),
    ensures
        kept_groups(grouped(back)).len() == merged_groups(kept_groups(grouped(rs)), n).len(),
        forall|i: int|
            0 <= i < kept_groups(grouped(back)).len() ==> {
                let l = #[trigger] kept_groups(grouped(back))[i];
                let m = merged_groups(kept_groups(grouped(rs)), n)[i];
                &&& l.0 == m.0 && l.1 == m.1
                &&& l.2.map_values(|r: BuildReport| report_times(r)) == merged_entry(rs, n, m.0, m.1).map_values(
                    |r: BuildReport| report_times(r),
                )
            },
        forall|k: int|
            0 <= k < rs.len() ==> group_pos(
                kept_groups(grouped(back)),
                (#[trigger] rs[k]).host@,
                rs[k].derivation_name@,
                0,
            ) is Some,
        forall|j: int|
            0 <= j < n.len() ==> group_pos(kept_groups(grouped(back)), (#[trigger] n[j]).0, n[j].1, 0) is Some,
{
    let m = merged_groups(kept_groups(grouped(rs)), n);
    law_merged_newest(rs, n);
    assert forall|i: int| 0 <= i < m.len() implies 0 < (#[trigger] m[i]).2.len() <= HISTORY_LIMIT && newest_sorted(m[i].2) by {
        let r = reports_for(rs, m[i].0, m[i].1);
        match group_pos(n, m[i].0, m[i].1, 0) {
            Some(j) => {
                lemma_group_pos_some(n, m[i].0, m[i].1, 0);
                lemma_kept_shape(r + n[j].2);
            },
            None => {
                lemma_kept_shape(r);
            },
        }
    }
    assert(kept_shape(m));
    law_save_then_load(lines, m, back);
    let l = kept_groups(grouped(back));
    assert forall|h: Seq<char>, d: Seq<char>| group_pos(l, h, d, 0) == group_pos(m, h, d, 0) by {
        lemma_group_pos_same_keys(l, m, h, d, 0);
    }
}

} // verus!
