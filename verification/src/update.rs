//! How each nix message changes the monitor state: activities starting and
//! stopping, log messages, results, and the final bookkeeping of a run.
use vstd::prelude::*;
use std::collections::HashMap;
use crate::summary::{
    ActivityId, map_keys, summary_holds, BuildFail, BuildInfo, BuildStatus, CompletedTransferInfo, DerivationId, Duplicate, FailType,
    StorePathId, SummaryView, TransferInfo,
};
use crate::nix::{output_name_of, Actions, FieldValue, Host, Id, OutputName, ProgressState, Verbosity};
use crate::paths::{copy_str, derivation_name_of, store_path_parts, Derivation, StorePath};
use crate::calendar::{decimal, push_padded};
use crate::state::{
    other_than, has_input, ActivityStatus, lemma_wf_frame, first_from, with_status, DerivationInfo, states_replaced, StorePathInfo, with_state, is_drv, is_path, lemma_first_from_some, same_drv, State, StorePathState,
};
use crate::text::{
    char_is_ws, chars_of, contains, find, find_from, find_char_from, find_chars, find_chars_from, is_ws,
    lead_ws, rfind, rfind_chars, skip_word, skip_ws, str_contains, string_from_chars, string_of_range,
    trim, trim_bounds, word_len, lemma_lead_ws_bound,
};

verus! {

broadcast use vstd::std_specs::hash::group_hash_axioms;

/// `/nix/store/`.
pub open spec fn store_dir() -> Seq<char> {
    "/nix/store/"@
}

/// The first `.drv` path in a text: from the first `/nix/store/` to the end of
/// the first `.drv` after it.
pub open spec fn drv_path_in(t: Seq<char>) -> Option<Seq<char>> {
    match find(t, store_dir()) {
        Some(s) => match find_from(t, ".drv"@, s) {
            Some(e) => Some(t.subrange(s, e + 4)),
            None => None,
        },
        None => None,
    }
}

/// A character that ends a store path in a text.
pub open spec fn ends_path(c: char) -> bool {
    is_ws(c) || c == '\'' || c == '"'
}

/// First position at or after `i` holding a character that ends a store
/// path, or the length of `t`.
pub open spec fn path_end_from(t: Seq<char>, i: int) -> int
    decreases t.len() - i,
{
    if i < 0 || i >= t.len() {
        t.len() as int
    } else if ends_path(t[i]) {
        i
    } else {
        path_end_from(t, i + 1)
    }
}

/// The first store path in a text: from the first `/nix/store/` to the first
/// whitespace or quote after it.
pub open spec fn store_path_in(t: Seq<char>) -> Option<Seq<char>> {
    match find(t, store_dir()) {
        Some(s) => Some(t.subrange(s, path_end_from(t, s))),
        None => None,
    }
}

/// The first whitespace-separated word of a text, if there is one.
pub open spec fn first_word(t: Seq<char>) -> Option<Seq<char>> {
    let rest = t.skip(lead_ws(t) as int);
    if rest.len() == 0 {
        None
    } else {
        Some(rest.take(word_len(rest) as int))
    }
}

/// Number of leading quote characters.
pub open spec fn lead_quotes(s: Seq<char>) -> nat
    decreases s.len(),
{
    if s.len() > 0 && (s[0] == '\'' || s[0] == '"') {
        1 + lead_quotes(s.drop_first())
    } else {
        0
    }
}

/// Number of trailing quote characters.
pub open spec fn trail_quotes(s: Seq<char>) -> nat
    decreases s.len(),
{
    if s.len() > 0 && (s.last() == '\'' || s.last() == '"') {
        1 + trail_quotes(s.drop_last())
    } else {
        0
    }
}

/// A text without its leading and trailing quote characters.
pub open spec fn trim_quotes(s: Seq<char>) -> Seq<char> {
    let t = s.skip(lead_quotes(s) as int);
    t.take(t.len() - trail_quotes(t))
}

/// The host a text names: the word after the last `on `, without quotes
/// (`localhost` when no word follows), or this machine when there is no `on `.
pub open spec fn host_in(t: Seq<char>) -> crate::nix::HostView {
    if contains(t, "on "@) {
        let rest = t.skip(rfind(t, "on "@).unwrap() + 3);
        let w = match first_word(rest) {
            Some(w) => w,
            None => "localhost"@,
        };
        crate::nix::HostView::Remote(trim_quotes(w))
    } else {
        crate::nix::HostView::Localhost
    }
}

/// The text between the first two single quotes of a message.
pub open spec fn quoted_in(t: Seq<char>) -> Option<Seq<char>> {
    match find_char_from(t, '\'', 0) {
        Some(a) => match find_char_from(t, '\'', a + 1) {
            Some(b) => Some(t.subrange(a + 1, b)),
            None => None,
        },
        None => None,
    }
}

/// Why a build failed, as an error message tells it.
pub open spec fn fail_type_in(t: Seq<char>) -> FailType {
    if contains(t, "timeout"@) {
        FailType::Timeout
    } else if contains(t, "hash mismatch"@) || contains(t, "hash"@) {
        FailType::HashMismatch
    } else if contains(t, "dependency failed"@) {
        FailType::DependencyFailed
    } else {
        FailType::Unknown
    }
}

/// The phase a log message announces after `Running phase: `, trimmed.
pub open spec fn phase_in(t: Seq<char>) -> Option<Seq<char>> {
    match find(t, "Running phase: "@) {
        Some(p) => Some(trim(t.skip(p + 15))),
        None => None,
    }
}

/// The first `.drv` path in a text.
pub fn extract_derivation_path(text: &str) -> (r: Option<String>)
    ensures
        match drv_path_in(text@) {
            Some(p) => r matches Some(s) && s@ == p,
            None => r is None,
        },
{
    let t = chars_of(text);
    let dir = chars_of("/nix/store/");
    let suffix = chars_of(".drv");
    proof {
        reveal_strlit("/nix/store/");
        reveal_strlit(".drv");
    }
    assert(dir@ =~= store_dir());
    assert(suffix@.len() == 4);
    match find_chars(&t, &dir) {
        Some(s) => {
            proof {
                crate::text::lemma_find_from_bound(t@, dir@, 0);
            }
            match find_chars_from(&t, &suffix, s) {
                Some(e) => {
                    assert(e + 4 <= t@.len());
                    Some(string_of_range(&t, s, e + 4))
                },
                None => None,
            }
        },
        None => None,
    }
}

/// The text of a failed build's message that names its derivation.
pub fn extract_derivation_from_error(msg: &str) -> (r: Option<String>)
    ensures
        match drv_path_in(msg@) {
            Some(p) => r matches Some(s) && s@ == p,
            None => r is None,
        },
{
    extract_derivation_path(msg)
}

/// The first store path in a text.
pub fn extract_store_path(text: &str) -> (r: Option<String>)
    ensures
        match store_path_in(text@) {
            Some(p) => r matches Some(s) && s@ == p,
            None => r is None,
        },
{
    let t = chars_of(text);
    let dir = chars_of("/nix/store/");
    proof {
        reveal_strlit("/nix/store/");
    }
    assert(dir@ =~= store_dir());
    match find_chars(&t, &dir) {
        Some(s) => {
            proof {
                crate::text::lemma_find_from_bound(t@, dir@, 0);
            }
            let mut e = s;
            while e < t.len() && !(char_is_ws(t[e]) || t[e] == '\'' || t[e] == '"')
                invariant
                    s <= e <= t@.len(),
                    path_end_from(t@, s as int) == path_end_from(t@, e as int),
                decreases t@.len() - e,
            {
                e += 1;
            }
            Some(string_of_range(&t, s, e))
        },
        None => None,
    }
}

/// The text without leading and trailing quotes, as bounds into `s`.
fn quote_bounds(s: &Vec<char>) -> (r: (usize, usize))
    ensures
        r.0 <= r.1 <= s@.len(),
        s@.subrange(r.0 as int, r.1 as int) == trim_quotes(s@),
{
    let mut a: usize = 0;
    assert(s@.skip(0) =~= s@);
    while a < s.len() && (s[a] == '\'' || s[a] == '"')
        invariant
            a <= s@.len(),
            lead_quotes(s@) == a + lead_quotes(s@.skip(a as int)),
        decreases s@.len() - a,
    {
        assert(s@.skip(a as int).drop_first() =~= s@.skip(a + 1));
        a += 1;
    }
    assert(lead_quotes(s@.skip(a as int)) == 0);
    let ghost t = s@.skip(a as int);
    let mut b: usize = s.len();
    while b > a && (s[b - 1] == '\'' || s[b - 1] == '"')
        invariant
            a <= b <= s@.len(),
            t == s@.skip(a as int),
            trail_quotes(t) == (s@.len() - b) + trail_quotes(s@.subrange(a as int, b as int)),
        decreases b - a,
    {
        let ghost u = s@.subrange(a as int, b as int);
        assert(u.drop_last() =~= s@.subrange(a as int, b - 1));
        assert(u.last() == s@[b - 1]);
        b -= 1;
    }
    proof {
        let u = s@.subrange(a as int, b as int);
        if b > a {
            assert(u.last() == s@[b - 1]);
        }
        assert(trail_quotes(u) == 0);
        assert(t.take(t.len() - trail_quotes(t)) =~= u);
    }
    (a, b)
}

/// The host a text names: the word after its last `on `, without quotes, or
/// this machine.
pub fn extract_host(text: &str) -> (r: Host)
    ensures
        r@ == host_in(text@),
{
    let t = chars_of(text);
    let on = chars_of("on ");
    proof {
        reveal_strlit("on ");
    }
    if !crate::text::contains_chars(&t, &on) {
        return Host::Localhost;
    }
    proof {
        crate::text::lemma_contains_rfind(t@, on@);
    }
    let pos = match rfind_chars(&t, &on) {
        Some(p) => p,
        None => return Host::Localhost,
    };
    assert(on@.len() == 3);
    assert(pos + 3 <= t@.len());
    let ghost rest = t@.skip(pos + 3);
    let a = skip_ws(&t, pos + 3);
    proof {
        lemma_lead_ws_bound(rest);
        assert(t@.skip(a as int) =~= rest.skip(lead_ws(rest) as int));
    }
    let word: Vec<char> = if a < t.len() {
        let b = skip_word(&t, a);
        let mut w: Vec<char> = Vec::new();
        let mut i = a;
        while i < b
            invariant
                a <= i <= b <= t@.len(),
                w@ == t@.subrange(a as int, i as int),
            decreases b - i,
        {
            w.push(t[i]);
            i += 1;
        }
        assert(w@ =~= rest.skip(lead_ws(rest) as int).take(word_len(rest.skip(lead_ws(rest) as int)) as int));
        w
    } else {
        let l = chars_of("localhost");
        proof {
            reveal_strlit("localhost");
        }
        l
    };
    let (x, y) = quote_bounds(&word);
    Host::Remote(string_of_range(&word, x, y))
}

/// The text between the first two single quotes of a message.
pub fn extract_file_name(msg: &str) -> (r: Option<String>)
    ensures
        match quoted_in(msg@) {
            Some(p) => r matches Some(s) && s@ == p,
            None => r is None,
        },
{
    let t = chars_of(msg);
    let a = match crate::text::find_char(&t, '\'', 0) {
        Some(a) => a,
        None => return None,
    };
    let b = match crate::text::find_char(&t, '\'', a + 1) {
        Some(b) => b,
        None => return None,
    };
    Some(string_of_range(&t, a + 1, b))
}

/// Why a build failed, read from its error message.
pub fn parse_fail_type(msg: &str) -> (r: FailType)
    ensures
        r == fail_type_in(msg@),
{
    if str_contains(msg, "timeout") {
        FailType::Timeout
    } else if str_contains(msg, "hash mismatch") || str_contains(msg, "hash") {
        FailType::HashMismatch
    } else if str_contains(msg, "dependency failed") {
        FailType::DependencyFailed
    } else {
        FailType::Unknown
    }
}

/// The phase a log message announces, if it announces one.
pub fn extract_phase(msg: &str) -> (r: Option<String>)
    ensures
        match phase_in(msg@) {
            Some(p) => r matches Some(s) && s@ == p,
            None => r is None,
        },
{
    let t = chars_of(msg);
    let marker = chars_of("Running phase: ");
    proof {
        reveal_strlit("Running phase: ");
    }
    assert(marker@.len() == 15);
    match find_chars(&t, &marker) {
        Some(p) => {
            proof {
                crate::text::lemma_find_from_bound(t@, marker@, 0);
            }
            let mut rest: Vec<char> = Vec::new();
            assert(p + 15 <= t@.len());
            let mut i = p + 15;
            while i < t.len()
                invariant
                    p + 15 <= i <= t@.len(),
                    rest@ == t@.subrange(p + 15, i as int),
                decreases t@.len() - i,
            {
                rest.push(t[i]);
                i += 1;
            }
            assert(rest@ =~= t@.skip(p + 15));
            let (a, b) = trim_bounds(&rest);
            Some(string_of_range(&rest, a, b))
        },
        None => None,
    }
}

/// The text an action names its subject by: its first field when it has
/// fields (nothing unless that field is a string), else `from_text`.
pub open spec fn subject_of(fields: Seq<FieldValue>, from_text: Option<Seq<char>>) -> Option<
    Seq<char>,
> {
    if fields.len() == 0 {
        from_text
    } else {
        match fields[0] {
            FieldValue::Str(s) => Some(s@),
            _ => None,
        }
    }
}

/// The first field of an action as text, if it is a string.
fn first_field_text(fields: &Vec<FieldValue>) -> (r: Option<String>)
    requires
        fields@.len() > 0,
    ensures
        match fields@[0] {
            FieldValue::Str(s) => r matches Some(t) && t@ == s@,
            _ => r is None,
        },
{
    match fields[0].as_str() {
        Some(s) => Some(copy_str(s)),
        None => None,
    }
}

/// Name of the stand-in derivation for a build nix reports no path for.
pub open spec fn placeholder_name(id: Id) -> Seq<char> {
    "building-"@ + decimal(id as nat)
}

/// Path of the stand-in derivation for a build nix reports no path for.
pub open spec fn placeholder_path(id: Id) -> Seq<char> {
    "/nix/store/placeholder-"@ + decimal(id as nat) + ".drv"@
}

/// The stand-in derivation for a build of activity `id`.
fn placeholder_derivation(id: Id) -> (r: Derivation)
    ensures
        r.name@ == placeholder_name(id),
        r.path@ == placeholder_path(id),
{
    let mut name = chars_of("building-");
    let mut path = chars_of("/nix/store/placeholder-");
    let ghost n0 = name@;
    let ghost p0 = path@;
    push_padded(&mut name, id, 1);
    push_padded(&mut path, id, 1);
    let suffix = chars_of(".drv");
    let ghost p1 = path@;
    let mut i: usize = 0;
    while i < suffix.len()
        invariant
            i <= suffix@.len(),
            path@ == p1 + suffix@.take(i as int),
        decreases suffix@.len() - i,
    {
        path.push(suffix[i]);
        i += 1;
        assert(suffix@.take(i as int) =~= suffix@.take(i - 1).push(suffix@[i - 1]));
    }
    assert(suffix@.take(suffix@.len() as int) =~= suffix@);
    proof {
        reveal_strlit("building-");
        reveal_strlit("/nix/store/placeholder-");
        reveal_strlit(".drv");
        assert(decimal(id as nat).len() >= 1);
    }
    let r = Derivation { path: string_from_chars(path.as_slice()), name: string_from_chars(name.as_slice()) };
    assert(r.name@ =~= placeholder_name(id));
    assert(r.path@ =~= placeholder_path(id));
    r
}

/// The build a build activity starts: from `start`, on the host its text
/// names, with no estimate, for activity `id`.
pub open spec fn started_build(b: BuildInfo, id: Id, text: Seq<char>, start: u64) -> bool {
    &&& b.start == start
    &&& b.host@ == host_in(text)
    &&& b.estimate is None
    &&& b.activity_id == Some(id)
}

/// What a build activity starting does.
pub open spec fn build_start_effect(before: State, after: State, id: Id, parent_id: Option<Id>, text: Seq<char>, fields: Seq<FieldValue>, now: u64, r: (bool, Option<DerivationId>)) -> bool {
    &&& (match subject_of(fields, drv_path_in(text)) {
        Some(p) => match derivation_name_of(p) {
            Some(n) => {
                &&& r.0
                &&& r.1 matches Some(d) && {
                    &&& d < after.drvs().len()
                    &&& after.drvs()[d as int].name.path@ == p
                    &&& after.drvs()[d as int].name.name@ == n
                    &&& after.drvs()[d as int].build_status matches BuildStatus::Building(
                        b,
                    ) && started_build(b, id, text, now)
                    &&& parent_id is None ==> after.forest_roots@.contains(d)
                }
            },
            None => r == (false, None::<DerivationId>) && after == before,
        },
        None => {
            &&& r == (true, None::<DerivationId>)
            &&& exists|d: int|
                {
                    &&& 0 <= d < after.drvs().len()
                    &&& after.drvs()[d].name.path@ == placeholder_path(id)
                    &&& after.drvs()[d].name.name@ == placeholder_name(id)
                    &&& after.drvs()[d].build_status matches BuildStatus::Building(b)
                        && started_build(b, id, text, now)
                    &&& parent_id is None ==> after.forest_roots@.contains(d as usize)
                }
        },
    })
}

/// A build activity starts: its derivation (named by its first field or its
/// text, or a stand-in when nix names none) is building from `now`, and is a
/// root of the forest when the activity has no parent.  Returns whether the
/// state changed and the derivation whose `.drv` file is to be read.
pub fn handle_build_start(
    state: &mut State,
    id: Id,
    parent_id: Option<Id>,
    text: &str,
    fields: &Vec<FieldValue>,
    now: u64,
) -> (r: (bool, Option<DerivationId>))
    requires
        old(state).wf(),
        old(state).has_room(),
    ensures
        final(state).wf(),
        old(state).summary_consistent() ==> final(state).summary_consistent(),
        build_start_effect(*old(state), *final(state), id, parent_id, text@, fields@, now, r),
{
    let path = if fields.len() == 0 {
        extract_derivation_path(text)
    } else {
        first_field_text(fields)
    };
    match path {
        Some(p) => {
            let drv = match Derivation::parse(p.as_str()) {
                Some(d) => d,
                None => return (false, None),
            };
            let d = start_build(state, drv, id, parent_id, text, now);
            (true, Some(d))
        },
        None => {
            let drv = placeholder_derivation(id);
            let d = start_build(state, drv, id, parent_id, text, now);
            assert(0 <= d < state.drvs().len());
            (true, None)
        },
    }
}

/// Sets derivation `drv` building for activity `id` and, when the activity
/// has no parent, makes it a root.
fn start_build(
    state: &mut State,
    drv: Derivation,
    id: Id,
    parent_id: Option<Id>,
    text: &str,
    now: u64,
) -> (d: DerivationId)
    requires
        old(state).wf(),
        old(state).has_room(),
    ensures
        final(state).wf(),
        old(state).summary_consistent() ==> final(state).summary_consistent(),
        d < final(state).drvs().len(),
        same_drv(final(state).drvs()[d as int].name, drv),
        final(state).drvs()[d as int].build_status matches BuildStatus::Building(b) && started_build(
            b,
            id,
            text@,
            now,
        ),
        parent_id is None ==> final(state).forest_roots@.contains(d),
{
    let ghost dv = drv;
    let d = state.get_or_create_derivation_id(drv);
    proof {
        lemma_first_from_some(state.drv_names(), is_drv(dv), 0);
        assert(state.drv_names()[d as int] == state.drvs()[d as int].name);
    }
    let host = extract_host(text);
    let info = BuildInfo { start: now, host, estimate: None, activity_id: Some(id) };
    state.update_build_status(d, BuildStatus::Building(info));
    if parent_id.is_none() {
        let ghost before = state.forest_roots@;
        state.add_forest_root(d);
        assert(state.forest_roots@.contains(d)) by {
            if !before.contains(d) {
                assert(state.forest_roots@[state.forest_roots@.len() - 1] == d);
            }
        }
    }
    d
}

/// A transfer an activity starts: from `start`, on the host its text names,
/// for activity `id`, nothing transferred yet and no size known.
pub open spec fn started_transfer(t: TransferInfo, id: Id, text: Seq<char>, start: u64) -> bool {
    &&& t.start == start
    &&& t.host@ == host_in(text)
    &&& t.activity_id == id
    &&& t.bytes_transferred == 0
    &&& t.total_bytes is None
}

/// The record of a transfer that ended at `end`, of the bytes it transferred.
pub open spec fn finished_transfer(t: TransferInfo, end: u64) -> CompletedTransferInfo {
    CompletedTransferInfo { start: t.start, end, host: t.host, total_bytes: t.bytes_transferred }
}

/// Store path `k`, at path `p`, starts downloading by transfer `t` of
/// activity `id`: the path holds a download state, and the summary a running
/// download, and nothing else changes in it.
pub open spec fn download_started(
    before: State,
    after: State,
    k: StorePathId,
    t: TransferInfo,
    p: Seq<char>,
    id: Id,
    text: Seq<char>,
    now: u64,
) -> bool {
    &&& k < after.paths().len()
    &&& after.paths()[k as int].name.path@ == p
    &&& started_transfer(t, id, text, now)
    &&& after.paths()[k as int].states@ == with_state(
        if k < before.paths().len() {
            before.paths()[k as int].states@
        } else {
            Seq::empty()
        },
        StorePathState::Downloading(t),
    )
    &&& after.full_summary@ == (SummaryView {
        running_downloads: before.full_summary@.running_downloads.insert(k, t),
        ..before.full_summary@
    })
}

/// What a substitution starting does.
pub open spec fn substitute_start_effect(before: State, after: State, id: Id, text: Seq<char>, fields: Seq<FieldValue>, now: u64, r: bool) -> bool {
    &&& (after.drvs() == before.drvs())
    &&& (r == (subject_of(fields, store_path_in(text)) matches Some(p) && store_path_parts(
        p,
    ) is Some))
    &&& (!r ==> after == before)
    &&& (r ==> exists|k: StorePathId, t: TransferInfo| #[trigger]
        download_started(
            before,
            after,
            k,
            t,
            subject_of(fields, store_path_in(text)).unwrap(),
            id,
            text,
            now,
        ))
}

/// A substitution starts: the store path (named by its first field or its
/// text) is downloading, in its states and in the summary.
pub fn handle_substitute_start(
    state: &mut State,
    id: Id,
    text: &str,
    fields: &Vec<FieldValue>,
    now: u64,
) -> (r: bool)
    requires
        old(state).wf(),
        old(state).has_room(),
    ensures
        final(state).wf(),
        old(state).summary_consistent() ==> final(state).summary_consistent(),
        substitute_start_effect(*old(state), *final(state), id, text@, fields@, now, r),
{
    let path = if fields.len() == 0 {
        extract_store_path(text)
    } else {
        first_field_text(fields)
    };
    let p = match path {
        Some(p) => p,
        None => return false,
    };
    let sp = match StorePath::parse(p.as_str()) {
        Some(sp) => sp,
        None => return false,
    };
    let ghost spv = sp;
    let k = state.get_or_create_store_path_id(sp);
    proof {
        lemma_first_from_some(state.path_names(), is_path(spv), 0);
        assert(state.path_names()[k as int] == state.paths()[k as int].name);
    }
    let host = extract_host(text);
    let t = TransferInfo { start: now, host, activity_id: id, bytes_transferred: 0, total_bytes: None };
    let ghost s1 = *state;
    state.add_store_path_state(k, StorePathState::Downloading(t.duplicate()));
    proof {
        if k < old(state).paths().len() {
            assert(s1.paths()[k as int] == old(state).paths()[k as int]);
        } else {
            assert(s1.paths()[k as int].states@ =~= Seq::<StorePathState>::empty());
        }
    }
    let ghost tv = t;
    state.full_summary.running_downloads.insert(k, t);
    proof {
        summary_unchanged_builds(old(state), state);
        assert(state.paths()[k as int].name == s1.paths()[k as int].name);
        assert(state.full_summary@ == (SummaryView {
            running_downloads: old(state).full_summary@.running_downloads.insert(k, tv),
            ..old(state).full_summary@
        }));
        assert(download_started(
            *old(state),
            *state,
            k,
            tv,
            subject_of(fields@, store_path_in(text@)).unwrap(),
            id,
            text@,
            now,
        ));
    }
    true
}

/// What a transfer starting does.
pub open spec fn transfer_start_effect(before: State, after: State, id: Id, text: Seq<char>, fields: Seq<FieldValue>, now: u64, is_copy: bool, r: bool) -> bool {
    &&& (after.drvs() == before.drvs())
    &&& (r == (subject_of(fields, store_path_in(text)) matches Some(p) && store_path_parts(
        p,
    ) is Some))
    &&& (!r ==> after == before)
    &&& (r ==> exists|k: StorePathId, t: TransferInfo|
        {
            &&& k < after.paths().len()
            &&& after.paths()[k as int].name.path@ == subject_of(
                fields,
                store_path_in(text),
            ).unwrap()
            &&& started_transfer(t, id, text, now)
            &&& after.full_summary@ == if is_copy {
                SummaryView {
                    running_uploads: before.full_summary@.running_uploads.insert(k, t),
                    ..before.full_summary@
                }
            } else {
                SummaryView {
                    running_downloads: before.full_summary@.running_downloads.insert(k, t),
                    ..before.full_summary@
                }
            }
        })
}

/// A transfer starts: the store path (named by its first field or its text)
/// is uploading when `is_copy`, else downloading, in the summary.
pub fn handle_transfer_start(
    state: &mut State,
    id: Id,
    text: &str,
    fields: &Vec<FieldValue>,
    now: u64,
    is_copy: bool,
) -> (r: bool)
    requires
        old(state).wf(),
        old(state).has_room(),
    ensures
        final(state).wf(),
        old(state).summary_consistent() ==> final(state).summary_consistent(),
        transfer_start_effect(*old(state), *final(state), id, text@, fields@, now, is_copy, r),
{
    let path = if fields.len() == 0 {
        extract_store_path(text)
    } else {
        first_field_text(fields)
    };
    let p = match path {
        Some(p) => p,
        None => return false,
    };
    let sp = match StorePath::parse(p.as_str()) {
        Some(sp) => sp,
        None => return false,
    };
    let ghost spv = sp;
    let k = state.get_or_create_store_path_id(sp);
    proof {
        lemma_first_from_some(state.path_names(), is_path(spv), 0);
        assert(state.path_names()[k as int] == state.paths()[k as int].name);
    }
    let host = extract_host(text);
    let t = TransferInfo { start: now, host, activity_id: id, bytes_transferred: 0, total_bytes: None };
    let ghost tv = t;
    if is_copy {
        state.full_summary.running_uploads.insert(k, t);
    } else {
        state.full_summary.running_downloads.insert(k, t);
    }
    proof {
        summary_unchanged_builds(old(state), state);
        assert(started_transfer(tv, id, text@, now));
    }
    true
}

/// A state whose build entries and derivations are those of another keeps its
/// agreement between summary and build statuses.
proof fn summary_unchanged_builds(a: &State, b: &State)
    requires
        a.drvs() == b.drvs(),
        a.full_summary@.planned_builds == b.full_summary@.planned_builds,
        a.full_summary@.running_builds == b.full_summary@.running_builds,
        a.full_summary@.completed_builds == b.full_summary@.completed_builds,
        a.full_summary@.failed_builds == b.full_summary@.failed_builds,
    ensures
        a.summary_consistent() ==> b.summary_consistent(),
{
    if a.summary_consistent() {
        assert forall|j: int| 0 <= j < b.drvs().len() implies summary_holds(
            b.full_summary@,
            j as usize,
            #[trigger] b.drvs()[j].build_status,
        ) by {
            assert(summary_holds(a.full_summary@, j as usize, a.drvs()[j].build_status));
        }
    }
}

/// Running download `k` of activity `id` ends at `now`: it leaves the running
/// downloads for the completed ones, and, when `with_path`, the store path
/// trades its download state for a downloaded state.
pub open spec fn download_finished(
    before: State,
    after: State,
    k: StorePathId,
    id: Id,
    now: u64,
    with_path: bool,
) -> bool {
    let t = before.full_summary@.running_downloads[k];
    &&& before.full_summary@.running_downloads.contains_key(k)
    &&& t.activity_id == id
    &&& after.full_summary@ == (SummaryView {
        running_downloads: before.full_summary@.running_downloads.remove(k),
        completed_downloads: before.full_summary@.completed_downloads.insert(
            k,
            finished_transfer(t, now),
        ),
        ..before.full_summary@
    })
    &&& after.drvs() == before.drvs()
    &&& after.paths().len() == before.paths().len()
    &&& forall|j: int|
        0 <= j < before.paths().len() && j != k ==> #[trigger] after.paths()[j] == before.paths()[j]
    &&& k < before.paths().len() ==> if with_path {
        &&& states_replaced(
            before.paths()[k as int].states@,
            after.paths()[k as int].states@,
            1,
            StorePathState::Downloaded(finished_transfer(t, now)),
        )
        &&& after.paths()[k as int] == (StorePathInfo {
            states: after.paths()[k as int].states,
            ..before.paths()[k as int]
        })
    } else {
        after.paths()[k as int] == before.paths()[k as int]
    }
}

/// Running upload `k` of activity `id` ends at `now`: it leaves the running
/// uploads for the completed ones.
pub open spec fn upload_finished(before: State, after: State, k: StorePathId, id: Id, now: u64) -> bool {
    let t = before.full_summary@.running_uploads[k];
    &&& before.full_summary@.running_uploads.contains_key(k)
    &&& t.activity_id == id
    &&& after.full_summary@ == (SummaryView {
        running_uploads: before.full_summary@.running_uploads.remove(k),
        completed_uploads: before.full_summary@.completed_uploads.insert(k, finished_transfer(t, now)),
        ..before.full_summary@
    })
    &&& after.drvs() == before.drvs()
    &&& after.paths() == before.paths()
}

/// Some transfer in `m` belongs to activity `id`.
pub open spec fn has_transfer_of(m: Map<StorePathId, TransferInfo>, id: Id) -> bool {
    exists|k: StorePathId| m.contains_key(k) && (#[trigger] m[k]).activity_id == id
}

/// The running download of activity `id`, if there is one.
fn find_transfer(m: &std::collections::HashMap<StorePathId, TransferInfo>, id: Id) -> (r: Option<
    StorePathId,
>)
    ensures
        r is Some == has_transfer_of(m@, id),
        r matches Some(k) ==> m@.contains_key(k) && m@[k].activity_id == id,
{
    let keys = map_keys(m);
    for i in 0..keys.len()
        invariant
            keys@.to_set() == m@.dom(),
            forall|j: int| 0 <= j < i ==> (#[trigger] m@[keys@[j]]).activity_id != id,
    {
        let k = keys[i];
        assert(keys@.to_set().contains(k));
        match m.get(&k) {
            Some(t) => {
                if t.activity_id == id {
                    return Some(k);
                }
            },
            None => {},
        }
    }
    proof {
        if has_transfer_of(m@, id) {
            let k = choose|k: StorePathId| m@.contains_key(k) && (#[trigger] m@[k]).activity_id == id;
            assert(keys@.to_set().contains(k));
            let j = choose|j: int| 0 <= j < keys@.len() && keys@[j] == k;
            assert(m@[keys@[j]].activity_id != id);
        }
    }
    None
}

/// What a substitution stopping does.
pub open spec fn substitute_stop_effect(before: State, after: State, id: Id, now: u64, r: bool) -> bool {
    &&& (r == has_transfer_of(before.full_summary@.running_downloads, id))
    &&& (!r ==> after == before)
    &&& (r ==> exists|k: StorePathId| #[trigger]
        download_finished(before, after, k, id, now, true))
}

/// A substitution stops: its running download ends at `now` and the store path
/// is downloaded.  Nothing changes when no download belongs to the activity.
pub fn handle_substitute_stop(state: &mut State, id: Id, now: u64) -> (r: bool)
    requires
        old(state).wf(),
    ensures
        final(state).wf(),
        old(state).summary_consistent() ==> final(state).summary_consistent(),
        substitute_stop_effect(*old(state), *final(state), id, now, r),
{
    let k = match find_transfer(&state.full_summary.running_downloads, id) {
        Some(k) => k,
        None => return false,
    };
    let ghost s0 = *state;
    let t = match state.full_summary.running_downloads.remove(&k) {
        Some(t) => t,
        None => return false,
    };
    let c = CompletedTransferInfo {
        start: t.start,
        end: now,
        host: t.host.duplicate(),
        total_bytes: t.bytes_transferred,
    };
    state.full_summary.completed_downloads.insert(k, c.duplicate());
    let ghost s1 = *state;
    proof {
        lemma_wf_frame(&s0, state);
    }
    state.replace_store_path_state(k, 1, StorePathState::Downloaded(c));
    proof {
        summary_unchanged_builds(&s0, state);
        assert(state.full_summary@ == s1.full_summary@);
        assert(download_finished(s0, *state, k, id, now, true));
    }
    true
}

/// What a transfer stopping does.
pub open spec fn transfer_stop_effect(before: State, after: State, id: Id, now: u64, r: bool) -> bool {
    &&& (r == (has_transfer_of(before.full_summary@.running_downloads, id) || has_transfer_of(
        before.full_summary@.running_uploads,
        id,
    )))
    &&& (!r ==> after == before)
    &&& (has_transfer_of(before.full_summary@.running_downloads, id) ==> exists|k: StorePathId|
        #[trigger] download_finished(before, after, k, id, now, false))
    &&& (!has_transfer_of(before.full_summary@.running_downloads, id) && has_transfer_of(
        before.full_summary@.running_uploads,
        id,
    ) ==> exists|k: StorePathId| #[trigger] upload_finished(before, after, k, id, now))
}

/// A transfer stops: its running download, or else its running upload, ends
/// at `now`.  Nothing changes when no transfer belongs to the activity.
pub fn handle_transfer_stop(state: &mut State, id: Id, now: u64) -> (r: bool)
    requires
        old(state).wf(),
    ensures
        final(state).wf(),
        old(state).summary_consistent() ==> final(state).summary_consistent(),
        transfer_stop_effect(*old(state), *final(state), id, now, r),
{
    let ghost s0 = *state;
    if let Some(k) = find_transfer(&state.full_summary.running_downloads, id) {
        if let Some(t) = state.full_summary.running_downloads.remove(&k) {
            let c = CompletedTransferInfo {
                start: t.start,
                end: now,
                host: t.host.duplicate(),
                total_bytes: t.bytes_transferred,
            };
            state.full_summary.completed_downloads.insert(k, c);
            proof {
                summary_unchanged_builds(&s0, state);
                assert(download_finished(s0, *state, k, id, now, false));
            }
            return true;
        }
    }
    if let Some(k) = find_transfer(&state.full_summary.running_uploads, id) {
        if let Some(t) = state.full_summary.running_uploads.remove(&k) {
            let c = CompletedTransferInfo {
                start: t.start,
                end: now,
                host: t.host.duplicate(),
                total_bytes: t.bytes_transferred,
            };
            state.full_summary.completed_uploads.insert(k, c);
            proof {
                summary_unchanged_builds(&s0, state);
                assert(upload_finished(s0, *state, k, id, now));
            }
            return true;
        }
    }
    false
}

/// The transfer of activity `id` in `m` reports progress: `done` bytes of
/// `total`.
pub open spec fn progressed(
    before: Map<StorePathId, TransferInfo>,
    after: Map<StorePathId, TransferInfo>,
    k: StorePathId,
    id: Id,
    done: u64,
    total: Option<u64>,
) -> bool {
    &&& before.contains_key(k)
    &&& before[k].activity_id == id
    &&& after == before.insert(
        k,
        TransferInfo { bytes_transferred: done, total_bytes: total, ..before[k] },
    )
}

/// The bytes done a progress report gives: its first field when that is an
/// integer, else zero.
pub open spec fn progress_done(fields: Seq<FieldValue>) -> u64 {
    match fields[0] {
        FieldValue::UInt(n) => n,
        _ => 0,
    }
}

/// The total a progress report gives: its second field when that is an
/// integer.
pub open spec fn progress_total(fields: Seq<FieldValue>) -> Option<u64> {
    match fields[1] {
        FieldValue::UInt(n) => Some(n),
        _ => None,
    }
}

/// Sets the progress of transfer `k` in `m`.
fn set_progress(
    m: &mut std::collections::HashMap<StorePathId, TransferInfo>,
    k: StorePathId,
    done: u64,
    total: Option<u64>,
)
    requires
        old(m)@.contains_key(k),
    ensures
        final(m)@ == old(m)@.insert(
            k,
            TransferInfo { bytes_transferred: done, total_bytes: total, ..old(m)@[k] },
        ),
{
    let t = match m.get(&k) {
        Some(t) => TransferInfo {
            start: t.start,
            host: t.host.duplicate(),
            activity_id: t.activity_id,
            bytes_transferred: done,
            total_bytes: total,
        },
        None => return,
    };
    m.insert(k, t);
}

/// What a progress report does.
pub open spec fn progress_effect(before: State, after: State, id: Id, fields: Seq<FieldValue>) -> bool {
    &&& (fields.len() < 2 ==> after == before)
    &&& (fields.len() >= 2 ==> after == (State {
        full_summary: after.full_summary,
        ..before
    }))
    &&& (fields.len() >= 2 && has_transfer_of(before.full_summary@.running_downloads, id)
        ==> exists|k: StorePathId| #[trigger]
        progressed(
            before.full_summary@.running_downloads,
            after.full_summary@.running_downloads,
            k,
            id,
            progress_done(fields),
            progress_total(fields),
        ))
    &&& (fields.len() >= 2 && has_transfer_of(before.full_summary@.running_downloads, id)
        ==> after.full_summary@ == (SummaryView {
        running_downloads: after.full_summary@.running_downloads,
        ..before.full_summary@
    }))
    &&& (fields.len() >= 2 && !has_transfer_of(before.full_summary@.running_downloads, id)
        && has_transfer_of(before.full_summary@.running_uploads, id) ==> exists|
        k: StorePathId,
    | #[trigger]
        progressed(
            before.full_summary@.running_uploads,
            after.full_summary@.running_uploads,
            k,
            id,
            progress_done(fields),
            progress_total(fields),
        ))
    &&& (fields.len() >= 2 && !has_transfer_of(before.full_summary@.running_downloads, id)
        && has_transfer_of(before.full_summary@.running_uploads, id)
        ==> after.full_summary@ == (SummaryView {
        running_uploads: after.full_summary@.running_uploads,
        ..before.full_summary@
    }))
    &&& (!has_transfer_of(before.full_summary@.running_downloads, id) && !has_transfer_of(
        before.full_summary@.running_uploads,
        id,
    ) ==> after == before)
}

/// A transfer reports progress: the first field is the bytes done (zero
/// unless an integer), the second the total when it is an integer.  The
/// running download of the activity, or else its running upload, takes it.
pub fn update_transfer_progress(state: &mut State, id: Id, fields: &Vec<FieldValue>)
    requires
        old(state).wf(),
    ensures
        final(state).wf(),
        old(state).summary_consistent() ==> final(state).summary_consistent(),
        progress_effect(*old(state), *final(state), id, fields@),
{
    if fields.len() < 2 {
        return;
    }
    let ghost s0 = *state;
    let done = match fields[0].as_u64() {
        Some(n) => n,
        None => 0,
    };
    let total = fields[1].as_u64();
    assert(done == progress_done(fields@));
    assert(total == progress_total(fields@));
    if let Some(k) = find_transfer(&state.full_summary.running_downloads, id) {
        set_progress(&mut state.full_summary.running_downloads, k, done, total);
        proof {
            lemma_wf_frame(&s0, state);
            summary_unchanged_builds(&s0, state);
            assert(progressed(
                s0.full_summary@.running_downloads,
                state.full_summary@.running_downloads,
                k,
                id,
                done,
                total,
            ));
            assert(state.full_summary@ == (SummaryView {
                running_downloads: state.full_summary@.running_downloads,
                ..s0.full_summary@
            }));
        }
        return;
    }
    if let Some(k) = find_transfer(&state.full_summary.running_uploads, id) {
        set_progress(&mut state.full_summary.running_uploads, k, done, total);
        proof {
            lemma_wf_frame(&s0, state);
            summary_unchanged_builds(&s0, state);
            assert(progressed(
                s0.full_summary@.running_uploads,
                state.full_summary@.running_uploads,
                k,
                id,
                done,
                total,
            ));
            assert(state.full_summary@ == (SummaryView {
                running_uploads: state.full_summary@.running_uploads,
                ..s0.full_summary@
            }));
        }
        return;
    }
}

/// A derivation whose build is running for activity `id`.
pub open spec fn building_for(id: Id) -> spec_fn(DerivationInfo) -> bool {
    |i: DerivationInfo| i.build_status matches BuildStatus::Building(b) && b.activity_id == Some(id)
}

/// A derivation whose build (running, done or failed) was for activity `id`.
pub open spec fn built_for(id: Id) -> spec_fn(DerivationInfo) -> bool {
    |i: DerivationInfo|
        match i.build_status {
            BuildStatus::Building(b) => b.activity_id == Some(id),
            BuildStatus::Built { info, .. } => info.activity_id == Some(id),
            BuildStatus::Failed { info, .. } => info.activity_id == Some(id),
            _ => false,
        }
}

/// The build information of a running build.
pub open spec fn running_info(s: BuildStatus) -> BuildInfo {
    match s {
        BuildStatus::Building(b) => b,
        _ => arbitrary(),
    }
}

/// What a build result does.
pub open spec fn complete_effect(before: State, after: State, id: Id, now: u64, r: bool) -> bool {
    &&& (r == (first_from(before.drvs(), building_for(id), 0) is Some))
    &&& (!r ==> after == before)
    &&& (first_from(before.drvs(), building_for(id), 0) matches Some(d) ==> after.drvs()
        == before.drvs().update(
        d,
        with_status(
            before.drvs()[d],
            BuildStatus::Built { info: running_info(before.drvs()[d].build_status), end: now },
        ),
    ))
}

/// A build activity ends with a result: the first derivation building for it
/// is built at `now`.  Nothing changes when no derivation builds for it.
pub fn complete_build(state: &mut State, id: Id, now: u64) -> (r: bool)
    requires
        old(state).wf(),
    ensures
        final(state).wf(),
        old(state).summary_consistent() ==> final(state).summary_consistent(),
        complete_effect(*old(state), *final(state), id, now, r),
{
    let n = state.next_derivation_id;
    let mut d: usize = 0;
    while d < n
        invariant
            state.wf(),
            *state == *old(state),
            n == state.drvs().len(),
            d <= n,
            first_from(state.drvs(), building_for(id), 0) == first_from(
                state.drvs(),
                building_for(id),
                d as int,
            ),
        decreases n - d,
    {
        let found = match state.get_derivation_info(d) {
            Some(info) => match &info.build_status {
                BuildStatus::Building(b) => {
                    if b.activity_id == Some(id) {
                        Some(b.duplicate())
                    } else {
                        None
                    }
                },
                _ => None,
            },
            None => None,
        };
        match found {
            Some(b) => {
                assert(building_for(id)(state.drvs()[d as int]));
                state.update_build_status(d, BuildStatus::Built { info: b, end: now });
                return true;
            },
            None => {},
        }
        d += 1;
    }
    false
}

/// Some running build in the summary belongs to activity `act`.
pub open spec fn has_running_for(m: Map<DerivationId, BuildInfo>, act: Id) -> bool {
    exists|k: DerivationId| m.contains_key(k) && (#[trigger] m[k]).activity_id == Some(act)
}

/// The derivation built for activity `act`: a running build of the summary
/// for it, else the first derivation whose build was for it.
pub fn find_derivation_by_activity(state: &State, act: Id) -> (r: Option<DerivationId>)
    requires
        state.wf(),
    ensures
        has_running_for(state.full_summary@.running_builds, act) ==> (r matches Some(d)
            && state.full_summary@.running_builds.contains_key(d)
            && state.full_summary@.running_builds[d].activity_id == Some(act)),
        !has_running_for(state.full_summary@.running_builds, act) ==> r == (match first_from(
            state.drvs(),
            built_for(act),
            0,
        ) {
            Some(d) => Some(d as usize),
            None => None::<usize>,
        }),
{
    let keys = map_keys(&state.full_summary.running_builds);
    let ghost m = state.full_summary@.running_builds;
    for i in 0..keys.len()
        invariant
            keys@.to_set() == m.dom(),
            m == state.full_summary@.running_builds,
            forall|j: int| 0 <= j < i ==> (#[trigger] m[keys@[j]]).activity_id != Some(act),
    {
        let k = keys[i];
        assert(keys@.to_set().contains(k));
        match state.full_summary.running_builds.get(&k) {
            Some(b) => {
                assert(m.contains_key(k) && *b == m[k]);
                if b.activity_id == Some(act) {
                    return Some(k);
                }
            },
            None => {},
        }
    }
    proof {
        if has_running_for(m, act) {
            let k = choose|k: DerivationId| m.contains_key(k) && (#[trigger] m[k]).activity_id == Some(act);
            assert(keys@.to_set().contains(k));
            let j = choose|j: int| 0 <= j < keys@.len() && keys@[j] == k;
            assert(m[keys@[j]].activity_id != Some(act));
            assert(false);
        }
    }
    assert(!has_running_for(state.full_summary@.running_builds, act));
    let n = state.next_derivation_id;
    let mut d: usize = 0;
    while d < n
        invariant
            state.wf(),
            n == state.drvs().len(),
            d <= n,
            first_from(state.drvs(), built_for(act), 0) == first_from(state.drvs(), built_for(act), d as int),
            !has_running_for(state.full_summary@.running_builds, act),
        decreases n - d,
    {
        let hit = match state.get_derivation_info(d) {
            Some(info) => match &info.build_status {
                BuildStatus::Building(b) => b.activity_id == Some(act),
                BuildStatus::Built { info, .. } => info.activity_id == Some(act),
                BuildStatus::Failed { info, .. } => info.activity_id == Some(act),
                _ => false,
            },
            None => false,
        };
        if hit {
            assert(built_for(act)(state.drvs()[d as int]));
            return Some(d);
        }
        d += 1;
    }
    None
}

/// The identifiers of the activities in a table, each once.
fn activity_ids(m: &HashMap<ActivityId, ActivityStatus>) -> (r: Vec<ActivityId>)
    ensures
        r@.to_set() == m@.dom(),
        r@.no_duplicates(),
{
    let mut r: Vec<ActivityId> = Vec::new();
    for k in it: m.keys()
        invariant
            r@.len() == it.index(),
            forall|i: int| 0 <= i < it.index() ==> r@[i] == *it.seq()[i],
            it.seq().unref().to_set() == m@.dom(),
            it.seq().no_duplicates(),
            r@ =~= it.seq().unref().take(it.index() as int),
            it.index() == it.seq().len() ==> it.seq().unref().take(it.index() as int)
                =~= it.seq().unref(),
    {
        r.push(*k);
    }
    r
}

/// The activity kinds whose end stops a transfer.
pub open spec fn stops_transfer(kind: u8) -> bool {
    kind == 100 || kind == 101 || kind == 103
}

/// `mid` is `before` with activity `id` forgotten.
pub open spec fn forgot_activity(before: State, mid: State, id: Id) -> bool {
    &&& mid == (State { activities: mid.activities, ..before })
    &&& mid.activities@ == before.activities@.remove(id)
}

/// What an activity stopping does: it is forgotten; then a substitution's
/// download or a transfer ends at `now`; nothing else changes.
pub open spec fn stop_effect(before: State, after: State, id: Id, now: u64, r: bool) -> bool {
    if !before.activities@.contains_key(id) {
        !r && after == before
    } else {
        let kind = before.activities@[id].activity;
        exists|mid: State|
            {
                &&& #[trigger] forgot_activity(before, mid, id)
                &&& kind == 108 ==> substitute_stop_effect(mid, after, id, now, r)
                &&& stops_transfer(kind) ==> transfer_stop_effect(mid, after, id, now, r)
                &&& kind != 108 && !stops_transfer(kind) ==> !r && after == mid
            }
    }
}

/// An activity stops.
pub fn handle_stop(state: &mut State, id: Id, now: u64) -> (r: bool)
    requires
        old(state).wf(),
    ensures
        final(state).wf(),
        old(state).summary_consistent() ==> final(state).summary_consistent(),
        stop_effect(*old(state), *final(state), id, now, r),
{
    let kind = match state.activities.get(&id) {
        Some(a) => a.activity,
        None => return false,
    };
    let ghost s0 = *state;
    state.activities.remove(&id);
    let ghost s1 = *state;
    proof {
        lemma_wf_frame(&s0, state);
        summary_unchanged_builds(&s0, state);
    }
    assert(forgot_activity(s0, s1, id));
    if kind == 108 {
        handle_substitute_stop(state, id, now)
    } else if kind == 100 || kind == 101 || kind == 103 {
        handle_transfer_stop(state, id, now)
    } else {
        false
    }
}

/// `after` holds activity `id` of `before` with its phase set to `phase`, and
/// every other activity as it was.
pub open spec fn phase_set(
    before: Map<ActivityId, ActivityStatus>,
    after: Map<ActivityId, ActivityStatus>,
    id: ActivityId,
    phase: Seq<char>,
) -> bool {
    &&& before.contains_key(id)
    &&& after == before.insert(id, after[id])
    &&& after[id] == (ActivityStatus { phase: after[id].phase, ..before[id] })
    &&& after[id].phase matches Some(p) && p@ == phase
}

/// What a result does: transfers take progress reports, a build activity
/// takes its phase, a finished build is built.
pub open spec fn result_effect(
    before: State,
    after: State,
    id: Id,
    activity: u8,
    fields: Seq<FieldValue>,
    now: u64,
    r: bool,
) -> bool {
    if activity == 101 || activity == 108 {
        !r && progress_effect(before, after, id, fields)
    } else if activity == 104 {
        if fields.len() > 0 && fields[0] is Str && before.activities@.contains_key(id) {
            &&& r
            &&& after == (State { activities: after.activities, ..before })
            &&& phase_set(before.activities@, after.activities@, id, fields[0]->Str_0@)
        } else {
            !r && after == before
        }
    } else if activity == 105 {
        complete_effect(before, after, id, now, r)
    } else {
        !r && after == before
    }
}

/// Sets the phase of activity `id`.
fn set_phase(m: &mut HashMap<ActivityId, ActivityStatus>, id: ActivityId, phase: &str)
    requires
        old(m)@.contains_key(id),
    ensures
        phase_set(old(m)@, final(m)@, id, phase@),
{
    let a = match m.get(&id) {
        Some(a) => ActivityStatus {
            activity: a.activity,
            text: a.text.clone(),
            parent: a.parent,
            phase: Some(copy_str(phase)),
            progress: a.progress,
        },
        None => return,
    };
    m.insert(id, a);
    assert(m@ =~= old(m)@.insert(id, m@[id]));
}

/// A result of activity `id`, of the given activity kind.
pub fn handle_result(state: &mut State, id: Id, activity: u8, fields: &Vec<FieldValue>, now: u64) -> (r:
    bool)
    requires
        old(state).wf(),
    ensures
        final(state).wf(),
        old(state).summary_consistent() ==> final(state).summary_consistent(),
        result_effect(*old(state), *final(state), id, activity, fields@, now, r),
{
    if activity == 101 || activity == 108 {
        update_transfer_progress(state, id, fields);
        false
    } else if activity == 104 {
        if fields.len() > 0 {
            if let Some(p) = fields[0].as_str() {
                if state.activities.contains_key(&id) {
                    let ghost s0 = *state;
                    set_phase(&mut state.activities, id, p);
                    proof {
                        lemma_wf_frame(&s0, state);
                        summary_unchanged_builds(&s0, state);
                    }
                    return true;
                }
            }
        }
        false
    } else if activity == 105 {
        complete_build(state, id, now)
    } else {
        false
    }
}

/// `after` holds every activity of `before`, the builds (kind 105) with their
/// phase set to `phase`.
pub open spec fn build_phases_set(
    before: Map<ActivityId, ActivityStatus>,
    after: Map<ActivityId, ActivityStatus>,
    phase: Seq<char>,
) -> bool {
    &&& after.dom() == before.dom()
    &&& forall|k: ActivityId|
        #[trigger] before.contains_key(k) ==> if before[k].activity == 105 {
            &&& after[k] == (ActivityStatus { phase: after[k].phase, ..before[k] })
            &&& after[k].phase matches Some(p) && p@ == phase
        } else {
            after[k] == before[k]
        }
}

/// Sets the phase of every build activity.
fn set_build_phases(m: &mut HashMap<ActivityId, ActivityStatus>, phase: &str)
    ensures
        build_phases_set(old(m)@, final(m)@, phase@),
{
    let ids = activity_ids(m);
    let ghost m0 = m@;
    for i in 0..ids.len()
        invariant
            ids@.to_set() == m0.dom(),
            ids@.no_duplicates(),
            m@.dom() == m0.dom(),
            forall|k: ActivityId|
                #[trigger] m0.contains_key(k) ==> if m0[k].activity == 105 && ids@.take(
                    i as int,
                ).contains(k) {
                    &&& m@[k] == (ActivityStatus { phase: m@[k].phase, ..m0[k] })
                    &&& m@[k].phase matches Some(p) && p@ == phase@
                } else {
                    m@[k] == m0[k]
                },
    {
        let k = ids[i];
        let ghost t0 = ids@.take(i as int);
        let ghost t1 = ids@.take(i + 1);
        assert(ids@.to_set().contains(k));
        assert(t1 =~= t0.push(k));
        assert(!ids@.take(i as int).contains(k)) by {
            if ids@.take(i as int).contains(k) {
                let j = choose|j: int| 0 <= j < i && ids@.take(i as int)[j] == k;
                assert(ids@[j] == ids@[i as int]);
            }
        }
        let is_build = match m.get(&k) {
            Some(a) => a.activity == 105,
            None => false,
        };
        if is_build {
            let ghost before = m@;
            set_phase(m, k, phase);
            assert forall|x: ActivityId| #[trigger] m0.contains_key(x) implies (if m0[x].activity == 105
                && ids@.take(i + 1).contains(x) {
                &&& m@[x] == (ActivityStatus { phase: m@[x].phase, ..m0[x] })
                &&& m@[x].phase matches Some(p) && p@ == phase@
            } else {
                m@[x] == m0[x]
            }) by {
                if x != k {
                    assert(t1.contains(x) == t0.contains(x)) by {
                        if t1.contains(x) {
                            let j = choose|j: int| 0 <= j < t1.len() && t1[j] == x;
                            assert(j != i);
                            assert(t0[j] == x);
                        }
                    }
                } else {
                    assert(t1[i as int] == k);
                }
            }
        } else {
            assert forall|x: ActivityId| #[trigger] m0.contains_key(x) implies (if m0[x].activity == 105
                && ids@.take(i + 1).contains(x) {
                &&& m@[x] == (ActivityStatus { phase: m@[x].phase, ..m0[x] })
                &&& m@[x].phase matches Some(p) && p@ == phase@
            } else {
                m@[x] == m0[x]
            }) by {
                if x != k {
                    assert(t1.contains(x) == t0.contains(x)) by {
                        if t1.contains(x) {
                            let j = choose|j: int| 0 <= j < t1.len() && t1[j] == x;
                            assert(j != i);
                            assert(t0[j] == x);
                        }
                    }
                }
            }
        }
    }
    assert(ids@.take(ids@.len() as int) =~= ids@);
    assert forall|k: ActivityId| #[trigger] m0.contains_key(k) implies ids@.contains(k) by {
        assert(ids@.to_set().contains(k));
    }
}

/// An error message names a build failure when it holds `error:` or `failed`.
pub open spec fn is_error_text(t: Seq<char>) -> bool {
    contains(t, "error:"@) || contains(t, "failed"@)
}

/// An info message reports evaluation when it holds `evaluating` or `copying`.
pub open spec fn is_eval_text(t: Seq<char>) -> bool {
    contains(t, "evaluating"@) || contains(t, "copying"@)
}

/// The failure an error message records for a running build.
pub open spec fn failure_of(b: BuildInfo, msg: Seq<char>, now: u64) -> BuildStatus {
    BuildStatus::Failed { info: b, fail: BuildFail { at: now, fail_type: fail_type_in(msg) } }
}

/// The derivations after an error message naming derivation `d`: when it was
/// building, it failed at `now`; nothing else changes but `d`'s first sight.
pub open spec fn failure_recorded(before: State, after: State, d: int, p: Seq<char>, n: Seq<char>, msg: Seq<char>, now: u64) -> bool {
    &&& 0 <= d < after.drvs().len()
    &&& after.drvs()[d].name.path@ == p
    &&& after.drvs()[d].name.name@ == n
    &&& after.drvs().len() <= before.drvs().len() + 1
    &&& forall|j: int| 0 <= j < before.drvs().len() && j != d ==> #[trigger] after.drvs()[j] == before.drvs()[j]
    &&& if d < before.drvs().len() && before.drvs()[d].build_status is Building {
        after.drvs()[d] == with_status(
            before.drvs()[d],
            failure_of(running_info(before.drvs()[d].build_status), msg, now),
        )
    } else if d < before.drvs().len() {
        after.drvs()[d] == before.drvs()[d]
    } else {
        after.drvs()[d].build_status is Unknown
    }
}

/// What a log message does: it is kept; a phase it announces goes to every
/// build activity; an error message is kept as an error and fails the build of
/// the derivation it names; an evaluation message records the file evaluated.
pub open spec fn message_effect(
    before: State,
    after: State,
    level: Verbosity,
    msg: String,
    now: u64,
    r: bool,
) -> bool {
    let t = msg@;
    let err = level == Verbosity::Error && is_error_text(t);
    &&& after == (State {
        build_logs: after.build_logs,
        activities: after.activities,
        nix_errors: after.nix_errors,
        derivation_infos: after.derivation_infos,
        next_derivation_id: after.next_derivation_id,
        full_summary: after.full_summary,
        touched_ids: after.touched_ids,
        evaluation_state: after.evaluation_state,
        ..before
    })
    &&& after.build_logs@ == before.build_logs@.push(msg)
    &&& match phase_in(t) {
        Some(ph) => build_phases_set(before.activities@, after.activities@, ph),
        None => after.activities@ == before.activities@,
    }
    &&& r == (level != Verbosity::Error || is_error_text(t))
    &&& after.nix_errors@ == if err {
        before.nix_errors@.push(msg)
    } else {
        before.nix_errors@
    }
    &&& after.paths() == before.paths()
    &&& if err && drv_path_in(t) is Some && derivation_name_of(drv_path_in(t).unwrap()) is Some {
        exists|d: int|
            #[trigger] failure_recorded(
                before,
                after,
                d,
                drv_path_in(t).unwrap(),
                derivation_name_of(drv_path_in(t).unwrap()).unwrap(),
                t,
                now,
            )
    } else {
        after.drvs() == before.drvs() && after.full_summary == before.full_summary
            && after.touched_ids == before.touched_ids
    }
    &&& if (level == Verbosity::Info || level == Verbosity::Notice) && is_eval_text(t)
        && quoted_in(t) is Some {
        &&& after.evaluation_state.last_file_name matches Some(f) && f@ == quoted_in(t).unwrap()
        &&& after.evaluation_state.count == before.evaluation_state.count + 1
        &&& after.evaluation_state.at == now
    } else {
        after.evaluation_state == before.evaluation_state
    }
}

/// A log message of the given level.
pub fn handle_message(state: &mut State, level: Verbosity, msg: String, now: u64) -> (r: bool)
    requires
        old(state).wf(),
        old(state).has_room(),
        old(state).evaluation_state.count < usize::MAX,
    ensures
        final(state).wf(),
        old(state).summary_consistent() ==> final(state).summary_consistent(),
        message_effect(*old(state), *final(state), level, msg, now, r),
{
    let ghost s0 = *state;
    state.build_logs.push(msg.clone());
    if let Some(phase) = extract_phase(msg.as_str()) {
        set_build_phases(&mut state.activities, phase.as_str());
    }
    let ghost s1 = *state;
    proof {
        lemma_wf_frame(&s0, state);
        summary_unchanged_builds(&s0, state);
    }
    match level {
        Verbosity::Error => {
            if str_contains(msg.as_str(), "error:") || str_contains(msg.as_str(), "failed") {
                state.nix_errors.push(msg.clone());
                proof {
                    lemma_wf_frame(&s1, state);
                    summary_unchanged_builds(&s1, state);
                }
                let ghost s2 = *state;
                if let Some(p) = extract_derivation_path(msg.as_str()) {
                    if let Some(drv) = Derivation::parse(p.as_str()) {
                        let ghost dv = drv;
                        let d = state.get_or_create_derivation_id(drv);
                        proof {
                            lemma_first_from_some(state.drv_names(), is_drv(dv), 0);
                            assert(state.drv_names()[d as int] == state.drvs()[d as int].name);
                        }
                        let ghost s3 = *state;
                        let running = match state.get_derivation_info(d) {
                            Some(info) => match &info.build_status {
                                BuildStatus::Building(b) => Some(b.duplicate()),
                                _ => None,
                            },
                            None => None,
                        };
                        if let Some(b) = running {
                            let fail = BuildFail { at: now, fail_type: parse_fail_type(msg.as_str()) };
                            state.update_build_status(d, BuildStatus::Failed { info: b, fail });
                        }
                        proof {
                            if d < s0.drvs().len() {
                                assert(s3.drvs()[d as int] == s0.drvs()[d as int]);
                            }
                            assert(failure_recorded(
                                s0,
                                *state,
                                d as int,
                                drv_path_in(msg@).unwrap(),
                                derivation_name_of(drv_path_in(msg@).unwrap()).unwrap(),
                                msg@,
                                now,
                            ));
                        }
                    }
                }
                return true;
            }
            false
        },
        Verbosity::Info | Verbosity::Notice => {
            if str_contains(msg.as_str(), "evaluating") || str_contains(msg.as_str(), "copying") {
                if let Some(f) = extract_file_name(msg.as_str()) {
                    state.evaluation_state.last_file_name = Some(f);
                    state.evaluation_state.count = state.evaluation_state.count + 1;
                    state.evaluation_state.at = now;
                    proof {
                        lemma_wf_frame(&s1, state);
                        summary_unchanged_builds(&s1, state);
                    }
                }
            }
            true
        },
        _ => true,
    }
}

/// `mid` is `before` with activity `id` recorded as `a`.
pub open spec fn registered(before: State, mid: State, id: Id, a: ActivityStatus) -> bool {
    &&& mid == (State { activities: mid.activities, ..before })
    &&& mid.activities@ == before.activities@.insert(id, a)
}

/// Derivation `d` is what the monitor finds built for activity `act`.
pub open spec fn found_for(s: State, act: Id, d: DerivationId) -> bool {
    ||| (s.full_summary@.running_builds.contains_key(d)
        && s.full_summary@.running_builds[d].activity_id == Some(act))
    ||| (!has_running_for(s.full_summary@.running_builds, act) && first_from(
        s.drvs(),
        built_for(act),
        0,
    ) == Some(d as int))
}

/// Something is built for activity `act`.
pub open spec fn anything_for(s: State, act: Id) -> bool {
    has_running_for(s.full_summary@.running_builds, act) || first_from(s.drvs(), built_for(act), 0)
        is Some
}

/// `after` is `before` with derivation `c` linked below derivation `p`.
pub open spec fn linked(before: State, after: State, p: DerivationId, c: DerivationId) -> bool {
    &&& after == (State {
        derivation_infos: after.derivation_infos,
        forest_roots: after.forest_roots,
        ..before
    })
    &&& after.drv_names() == before.drv_names()
    &&& after.drvs().len() == before.drvs().len()
    &&& forall|j: int|
        0 <= j < before.drvs().len() ==> #[trigger] after.drvs()[j] == (DerivationInfo {
            input_derivations: after.drvs()[j].input_derivations,
            derivation_parents: after.drvs()[j].derivation_parents,
            ..before.drvs()[j]
        })
    &&& p < before.drvs().len() ==> has_input(after.drvs()[p as int], c)
    &&& forall|j: int|
        0 <= j < before.drvs().len() && j != p ==> (#[trigger] after.drvs()[j]).input_derivations@
            == before.drvs()[j].input_derivations@
    &&& forall|j: int|
        0 <= j < before.drvs().len() ==> (#[trigger] after.drvs()[j]).derivation_parents@ == (if j
            == c {
            before.drvs()[j].derivation_parents@.insert(p)
        } else {
            before.drvs()[j].derivation_parents@
        })
    &&& after.forest_roots@ == before.forest_roots@.filter(other_than(c))
}

/// What `find_derivation_by_activity` gives is what the monitor finds built
/// for the activity, and it gives something exactly when something is.
proof fn lemma_found(s: State, act: Id, r: Option<DerivationId>)
    requires
        s.wf(),
        has_running_for(s.full_summary@.running_builds, act) ==> (r matches Some(d)
            && s.full_summary@.running_builds.contains_key(d)
            && s.full_summary@.running_builds[d].activity_id == Some(act)),
        !has_running_for(s.full_summary@.running_builds, act) ==> r == (match first_from(
            s.drvs(),
            built_for(act),
            0,
        ) {
            Some(d) => Some(d as usize),
            None => None::<usize>,
        }),
    ensures
        (r is Some) == anything_for(s, act),
        r matches Some(d) ==> found_for(s, act, d),
{
    if !has_running_for(s.full_summary@.running_builds, act) && first_from(s.drvs(), built_for(act), 0)
        is Some {
        lemma_first_from_some(s.drvs(), built_for(act), 0);
        let d = first_from(s.drvs(), built_for(act), 0).unwrap();
        assert(d < s.next_derivation_id);
        assert((d as usize) as int == d);
    }
}

/// Linking derivation `c` below `p` with `State::link_input` links them.
proof fn lemma_linked(before: State, after: State, p: DerivationId, c: DerivationId)
    requires
        before.wf(),
        after == (State {
            derivation_infos: after.derivation_infos,
            forest_roots: after.forest_roots,
            ..before
        }),
        after.drv_names() == before.drv_names(),
        after.drvs().len() == before.drvs().len(),
        forall|j: int|
            0 <= j < before.drvs().len() ==> #[trigger] after.drvs()[j] == (DerivationInfo {
                input_derivations: after.drvs()[j].input_derivations,
                derivation_parents: after.drvs()[j].derivation_parents,
                ..before.drvs()[j]
            }),
        forall|j: int|
            0 <= j < before.drvs().len() && j != p ==> (#[trigger] after.drvs()[j]).input_derivations@
                == before.drvs()[j].input_derivations@,
        p < before.drvs().len() && has_input(before.drvs()[p as int], c) ==> after.drvs()[p as int].input_derivations@
            == before.drvs()[p as int].input_derivations@,
        p < before.drvs().len() && !has_input(before.drvs()[p as int], c) ==> {
            &&& after.drvs()[p as int].input_derivations@ == before.drvs()[p as int].input_derivations@.push(
                after.drvs()[p as int].input_derivations@.last(),
            )
            &&& after.drvs()[p as int].input_derivations@.last().derivation == c
        },
        forall|j: int|
            0 <= j < before.drvs().len() ==> (#[trigger] after.drvs()[j]).derivation_parents@ == if j
                == c {
                before.drvs()[j].derivation_parents@.insert(p)
            } else {
                before.drvs()[j].derivation_parents@
            },
        after.forest_roots@ == before.forest_roots@.filter(other_than(c)),
    ensures
        linked(before, after, p, c),
{
    if p < before.drvs().len() {
        if has_input(before.drvs()[p as int], c) {
            let k = choose|k: int|
                0 <= k < before.drvs()[p as int].input_derivations@.len() && (#[trigger] before.drvs()[p as int].input_derivations@[k]).derivation == c;
            assert(after.drvs()[p as int].input_derivations@[k].derivation == c);
        } else {
            let k = after.drvs()[p as int].input_derivations@.len() - 1;
            assert(after.drvs()[p as int].input_derivations@[k].derivation == c);
        }
    }
}

/// A build starting for activity `id` under parent activity `parent` takes
/// `mid` to `mid2`, and the link below the parent's build takes `mid2` to
/// `after`.
pub open spec fn build_steps(
    mid: State,
    mid2: State,
    after: State,
    id: Id,
    parent: Id,
    text: Seq<char>,
    fields: Seq<FieldValue>,
    now: u64,
    r: (bool, Option<DerivationId>),
) -> bool {
    let pid = if parent == 0 {
        None
    } else {
        Some(parent)
    };
    &&& build_start_effect(mid, mid2, id, pid, text, fields, now, r)
    &&& if r.0 && parent != 0 && anything_for(mid2, parent) && anything_for(mid2, id) {
        exists|p: DerivationId, c: DerivationId|
            found_for(mid2, parent, p) && found_for(mid2, id, c) && #[trigger] linked(mid2, after, p, c)
    } else {
        after == mid2
    }
}

/// Activity `id`, recorded as `a` in `mid`, starts: a build, substitution or
/// transfer takes `mid` to `after`.
pub open spec fn start_steps(
    before: State,
    mid: State,
    after: State,
    id: Id,
    parent: Id,
    text: String,
    activity: u8,
    fields: Seq<FieldValue>,
    now: u64,
    r: (bool, Option<DerivationId>),
) -> bool {
    let pid = if parent == 0 {
        None
    } else {
        Some(parent)
    };
    &&& registered(before, mid, id, ActivityStatus { activity, text, parent: pid, phase: None, progress: None })
    &&& (activity == 104 || activity == 105) ==> exists|mid2: State|
        #[trigger] build_steps(mid, mid2, after, id, parent, text@, fields, now, r)
    &&& activity == 108 ==> r.1 is None && substitute_start_effect(mid, after, id, text@, fields, now, r.0)
    &&& activity == 101 ==> r.1 is None && transfer_start_effect(
        mid,
        after,
        id,
        text@,
        fields,
        now,
        false,
        r.0,
    )
    &&& (activity == 100 || activity == 103) ==> r.1 is None && transfer_start_effect(
        mid,
        after,
        id,
        text@,
        fields,
        now,
        true,
        r.0,
    )
    &&& !(activity == 100 || activity == 101 || activity == 103 || activity == 104 || activity == 105
        || activity == 108) ==> r == (false, None::<DerivationId>) && after == mid
}

/// What an activity starting does: it is recorded; a build, substitution or
/// transfer starts; a build under a parent activity's build is linked below it.
pub open spec fn start_effect(
    before: State,
    after: State,
    id: Id,
    parent: Id,
    text: String,
    activity: u8,
    fields: Seq<FieldValue>,
    now: u64,
    r: (bool, Option<DerivationId>),
) -> bool {
    exists|mid: State| #[trigger] start_steps(before, mid, after, id, parent, text, activity, fields, now, r)
}

/// An activity starts.  Returns whether the state changed and the derivation
/// whose `.drv` file is to be read.
pub fn handle_start(
    state: &mut State,
    id: Id,
    parent: Id,
    text: String,
    activity: u8,
    fields: &Vec<FieldValue>,
    now: u64,
) -> (r: (bool, Option<DerivationId>))
    requires
        old(state).wf(),
        old(state).has_room(),
    ensures
        final(state).wf(),
        old(state).summary_consistent() ==> final(state).summary_consistent(),
        start_effect(*old(state), *final(state), id, parent, text, activity, fields@, now, r),
{
    let parent_id = if parent == 0 {
        None
    } else {
        Some(parent)
    };
    let ghost s0 = *state;
    let ghost a = ActivityStatus { activity, text, parent: parent_id, phase: None, progress: None };
    state.activities.insert(
        id,
        ActivityStatus {
            activity,
            text: text.clone(),
            parent: parent_id,
            phase: None,
            progress: None,
        },
    );
    let ghost mid = *state;
    proof {
        lemma_wf_frame(&s0, state);
        summary_unchanged_builds(&s0, state);
        assert(registered(s0, mid, id, a));
    }
    if activity == 104 || activity == 105 {
        let r = handle_build_start(state, id, parent_id, text.as_str(), fields, now);
        let ghost mid2 = *state;
        if r.0 && parent != 0 {
            let p = find_derivation_by_activity(state, parent);
            let c = find_derivation_by_activity(state, id);
            proof {
                lemma_found(mid2, parent, p);
                lemma_found(mid2, id, c);
            }
            if let (Some(p), Some(c)) = (p, c) {
                state.link_input(p, c, Vec::new());
                proof {
                    lemma_linked(mid2, *state, p, c);
                }
            }
        }
        proof {
            assert(build_steps(mid, mid2, *state, id, parent, text@, fields@, now, r));
            assert(start_steps(s0, mid, *state, id, parent, text, activity, fields@, now, r));
        }
        r
    } else if activity == 108 {
        let r = handle_substitute_start(state, id, text.as_str(), fields, now);
        assert(start_steps(s0, mid, *state, id, parent, text, activity, fields@, now, (r, None)));
        (r, None)
    } else if activity == 101 {
        let r = handle_transfer_start(state, id, text.as_str(), fields, now, false);
        assert(start_steps(s0, mid, *state, id, parent, text, activity, fields@, now, (r, None)));
        (r, None)
    } else if activity == 100 || activity == 103 {
        let r = handle_transfer_start(state, id, text.as_str(), fields, now, true);
        assert(start_steps(s0, mid, *state, id, parent, text, activity, fields@, now, (r, None)));
        (r, None)
    } else {
        assert(start_steps(s0, mid, *state, id, parent, text, activity, fields@, now, (false, None)));
        (false, None)
    }
}

/// `mid` is `before` marked as having received input.
pub open spec fn input_noted(before: State, mid: State) -> bool {
    &&& mid == (State { progress_state: mid.progress_state, ..before })
    &&& mid.progress_state == if before.progress_state == ProgressState::JustStarted {
        ProgressState::InputReceived
    } else {
        before.progress_state
    }
}

/// What a message does once input is noted, and whether it changed the state.
pub open spec fn action_steps(
    before: State,
    mid: State,
    after: State,
    action: Actions,
    now: u64,
    r: (bool, Option<DerivationId>),
) -> bool {
    &&& input_noted(before, mid)
    &&& exists|h: (bool, Option<DerivationId>)|
        {
            &&& r == ((before.progress_state == ProgressState::JustStarted || h.0), h.1)
            &&& #[trigger] action_effect(mid, after, action, now, h)
        }
}

/// What each action does.
pub open spec fn action_effect(
    mid: State,
    after: State,
    action: Actions,
    now: u64,
    h: (bool, Option<DerivationId>),
) -> bool {
    match action {
        Actions::Start { id, level, parent, text, activity, fields } => start_effect(
            mid,
            after,
            id,
            parent,
            text,
            crate::nix::activity_code(activity),
            fields@,
            now,
            h,
        ),
        Actions::Stop { id } => h.1 is None && stop_effect(mid, after, id, now, h.0),
        Actions::Message { level, msg } => h.1 is None && message_effect(
            mid,
            after,
            level,
            msg,
            now,
            h.0,
        ),
        Actions::Result { fields, id, activity } => h.1 is None && result_effect(
            mid,
            after,
            id,
            crate::nix::activity_code(activity),
            fields@,
            now,
            h.0,
        ),
    }
}

/// One message of nix's internal-json log, received at `now`.  Returns whether
/// the state changed, and the derivation whose `.drv` file is to be read next
/// (its inputs are then recorded with `State::add_input_derivation`).
pub fn process_message(state: &mut State, action: Actions, now: u64) -> (r: (
    bool,
    Option<DerivationId>,
))
    requires
        old(state).wf(),
        old(state).has_room(),
        old(state).evaluation_state.count < usize::MAX,
    ensures
        final(state).wf(),
        old(state).summary_consistent() ==> final(state).summary_consistent(),
        exists|mid: State| #[trigger] action_steps(*old(state), mid, *final(state), action, now, r),
{
    let ghost s0 = *state;
    let ghost a = action;
    let fresh = state.progress_state == ProgressState::JustStarted;
    if fresh {
        state.progress_state = ProgressState::InputReceived;
    }
    let ghost mid = *state;
    proof {
        lemma_wf_frame(&s0, state);
        summary_unchanged_builds(&s0, state);
        assert(input_noted(s0, mid));
    }
    let h: (bool, Option<DerivationId>) = match action {
        Actions::Start { id, level, parent, text, activity, fields } => {
            let code = activity.code();
            handle_start(state, id, parent, text, code, &fields, now)
        },
        Actions::Stop { id } => (handle_stop(state, id, now), None),
        Actions::Message { level, msg } => (handle_message(state, level, msg, now), None),
        Actions::Result { fields, id, activity } => {
            let code = activity.code();
            (handle_result(state, id, code, &fields, now), None)
        },
    };
    let r = (fresh || h.0, h.1);
    proof {
        assert(action_effect(mid, *state, a, now, h));
        assert(action_steps(s0, mid, *state, a, now, r));
    }
    r
}

/// The summary's build entries rebuilt from the derivations' statuses.
fn update_summaries(state: &mut State)
    requires
        old(state).wf(),
    ensures
        final(state).wf(),
        final(state).summary_consistent(),
        final(state).drvs() == old(state).drvs(),
        final(state).full_summary@.planned_downloads == old(state).full_summary@.planned_downloads,
        final(state).full_summary@.completed_downloads == old(state).full_summary@.completed_downloads,
        final(state).full_summary@.completed_uploads == old(state).full_summary@.completed_uploads,
        final(state).full_summary@.running_downloads == old(state).full_summary@.running_downloads,
        final(state).full_summary@.running_uploads == old(state).full_summary@.running_uploads,
        *final(state) == (State { full_summary: final(state).full_summary, ..*old(state) }),
{
    let ghost s0 = *state;
    state.full_summary.planned_builds.clear();
    state.full_summary.running_builds.clear();
    state.full_summary.completed_builds.clear();
    state.full_summary.failed_builds.clear();
    proof {
        lemma_wf_frame(&s0, state);
    }
    let n = state.next_derivation_id;
    for d in 0..n
        invariant
            state.wf(),
            n == state.drvs().len(),
            state.drvs() == s0.drvs(),
            *state == (State { full_summary: state.full_summary, ..s0 }),
            state.full_summary@.planned_downloads == s0.full_summary@.planned_downloads,
            state.full_summary@.completed_downloads == s0.full_summary@.completed_downloads,
            state.full_summary@.completed_uploads == s0.full_summary@.completed_uploads,
            state.full_summary@.running_downloads == s0.full_summary@.running_downloads,
            state.full_summary@.running_uploads == s0.full_summary@.running_uploads,
            forall|j: int|
                0 <= j < d ==> summary_holds(
                    state.full_summary@,
                    j as usize,
                    #[trigger] state.drvs()[j].build_status,
                ),
            forall|j: usize| #[trigger] state.full_summary@.planned_builds.contains(j) ==> j < d,
            forall|j: usize| #[trigger] state.full_summary@.running_builds.contains_key(j) ==> j < d,
            forall|j: usize| #[trigger] state.full_summary@.completed_builds.contains_key(j) ==> j < d,
            forall|j: usize| #[trigger] state.full_summary@.failed_builds.contains_key(j) ==> j < d,
    {
        let ghost before = *state;
        let status = match state.get_derivation_info(d) {
            Some(info) => info.build_status.duplicate(),
            None => BuildStatus::Unknown,
        };
        state.full_summary.update_derivation(d, &status);
        proof {
            lemma_wf_frame(&before, state);
            assert forall|j: int| 0 <= j < d + 1 implies summary_holds(
                state.full_summary@,
                j as usize,
                #[trigger] state.drvs()[j].build_status,
            ) by {
                if j < d {
                    assert(summary_holds(before.full_summary@, j as usize, before.drvs()[j].build_status));
                }
            }
        }
    }
}

/// Once per refresh: the derivations touched since the last one are
/// forgotten, and the summary's build entries are rebuilt from the statuses.
pub fn maintain_state(state: &mut State)
    requires
        old(state).wf(),
    ensures
        final(state).wf(),
        final(state).summary_consistent(),
        final(state).touched_ids@.is_empty(),
        final(state).drvs() == old(state).drvs(),
        final(state).full_summary@.planned_downloads == old(state).full_summary@.planned_downloads,
        final(state).full_summary@.completed_downloads == old(state).full_summary@.completed_downloads,
        final(state).full_summary@.completed_uploads == old(state).full_summary@.completed_uploads,
        final(state).full_summary@.running_downloads == old(state).full_summary@.running_downloads,
        final(state).full_summary@.running_uploads == old(state).full_summary@.running_uploads,
        *final(state) == (State {
            full_summary: final(state).full_summary,
            touched_ids: final(state).touched_ids,
            ..*old(state)
        }),
{
    let ghost s0 = *state;
    state.touched_ids.clear();
    proof {
        lemma_wf_frame(&s0, state);
    }
    update_summaries(state);
}

/// The status a derivation ends a run with: a running build is built at `end`.
pub open spec fn finished_status(s: BuildStatus, end: u64) -> BuildStatus {
    match s {
        BuildStatus::Building(b) => BuildStatus::Built { info: b, end },
        _ => s,
    }
}

/// The record of a transfer cut off at the end of a run: of its total size,
/// zero when unknown.
pub open spec fn cut_transfer(t: TransferInfo, end: u64) -> CompletedTransferInfo {
    CompletedTransferInfo {
        start: t.start,
        end,
        host: t.host,
        total_bytes: match t.total_bytes {
            Some(n) => n,
            None => 0,
        },
    }
}

/// Derivation `d`'s running build, if any, is built at `now`.
fn complete_build_success(state: &mut State, d: DerivationId, now: u64)
    requires
        old(state).wf(),
    ensures
        final(state).wf(),
        old(state).summary_consistent() ==> final(state).summary_consistent(),
        final(state).drv_names() == old(state).drv_names(),
        final(state).paths() == old(state).paths(),
        d < old(state).drvs().len() ==> final(state).drvs() == old(state).drvs().update(
            d as int,
            with_status(
                old(state).drvs()[d as int],
                finished_status(old(state).drvs()[d as int].build_status, now),
            ),
        ),
        d >= old(state).drvs().len() ==> *final(state) == *old(state),
        *final(state) == (State {
            derivation_infos: final(state).derivation_infos,
            full_summary: final(state).full_summary,
            touched_ids: final(state).touched_ids,
            ..*old(state)
        }),
        final(state).full_summary@.running_downloads == old(state).full_summary@.running_downloads,
        final(state).full_summary@.running_uploads == old(state).full_summary@.running_uploads,
        final(state).full_summary@.completed_downloads == old(state).full_summary@.completed_downloads,
        final(state).full_summary@.completed_uploads == old(state).full_summary@.completed_uploads,
{
    let running = match state.get_derivation_info(d) {
        Some(info) => match &info.build_status {
            BuildStatus::Building(b) => Some(b.duplicate()),
            _ => None,
        },
        None => None,
    };
    if let Some(b) = running {
        state.update_build_status(d, BuildStatus::Built { info: b, end: now });
    } else {
        proof {
            if d < state.drvs().len() {
                assert(with_status(state.drvs()[d as int], finished_status(state.drvs()[d as int].build_status, now))
                    == state.drvs()[d as int]);
                assert(state.drvs().update(d as int, state.drvs()[d as int]) =~= state.drvs());
            }
        }
    }
}

/// The end of a run: progress is finished, every running build is built at
/// `now`, and every running transfer is completed at `now` with its total
/// size, its store path left with that one state.
pub fn finish_state(state: &mut State, now: u64)
    requires
        old(state).wf(),
    ensures
        final(state).wf(),
        old(state).summary_consistent() ==> final(state).summary_consistent(),
        final(state).progress_state == ProgressState::Finished,
        *final(state) == (State {
            derivation_infos: final(state).derivation_infos,
            store_path_infos: final(state).store_path_infos,
            full_summary: final(state).full_summary,
            touched_ids: final(state).touched_ids,
            progress_state: final(state).progress_state,
            ..*old(state)
        }),
        final(state).drvs().len() == old(state).drvs().len(),
        forall|d: int|
            0 <= d < old(state).drvs().len() ==> #[trigger] final(state).drvs()[d] == with_status(
                old(state).drvs()[d],
                finished_status(old(state).drvs()[d].build_status, now),
            ),
        forall|d: int| 0 <= d < final(state).drvs().len() ==> !(#[trigger] final(state).drvs()[d].build_status is Building),
        old(state).summary_consistent() ==> final(state).full_summary@.running_builds.is_empty(),
        final(state).full_summary@.running_downloads.is_empty(),
        final(state).full_summary@.running_uploads.is_empty(),
        final(state).full_summary@.completed_downloads == old(state).full_summary@.completed_downloads.union_prefer_right(
            old(state).full_summary@.running_downloads.map_values(|t: TransferInfo| cut_transfer(t, now)),
        ),
        final(state).full_summary@.completed_uploads == old(state).full_summary@.completed_uploads.union_prefer_right(
            old(state).full_summary@.running_uploads.map_values(|t: TransferInfo| cut_transfer(t, now)),
        ),
        final(state).paths().len() == old(state).paths().len(),
        forall|k: int|
            0 <= k < old(state).paths().len() ==> (#[trigger] final(state).paths()[k]).states@ == if old(
                state,
            ).full_summary@.running_uploads.contains_key(k as usize) {
                seq![StorePathState::Uploaded(cut_transfer(old(state).full_summary@.running_uploads[k as usize], now))]
            } else if old(state).full_summary@.running_downloads.contains_key(k as usize) {
                seq![StorePathState::Downloaded(cut_transfer(old(state).full_summary@.running_downloads[k as usize], now))]
            } else {
                old(state).paths()[k].states@
            },
{
    let ghost s0 = *state;
    state.progress_state = ProgressState::Finished;
    proof {
        lemma_wf_frame(&s0, state);
        summary_unchanged_builds(&s0, state);
    }
    let n = state.next_derivation_id;
    for d in 0..n
        invariant
            state.wf(),
            *state == (State {
                derivation_infos: state.derivation_infos,
                store_path_infos: state.store_path_infos,
                full_summary: state.full_summary,
                touched_ids: state.touched_ids,
                progress_state: state.progress_state,
                ..s0
            }),
            n == state.drvs().len(),
            n == s0.drvs().len(),
            s0.summary_consistent() ==> state.summary_consistent(),
            state.progress_state == ProgressState::Finished,
            state.paths() == s0.paths(),
            state.full_summary@.running_downloads == s0.full_summary@.running_downloads,
            state.full_summary@.running_uploads == s0.full_summary@.running_uploads,
            state.full_summary@.completed_downloads == s0.full_summary@.completed_downloads,
            state.full_summary@.completed_uploads == s0.full_summary@.completed_uploads,
            forall|j: int|
                0 <= j < n ==> #[trigger] state.drvs()[j] == if j < d {
                    with_status(s0.drvs()[j], finished_status(s0.drvs()[j].build_status, now))
                } else {
                    s0.drvs()[j]
                },
    {
        complete_build_success(state, d, now);
    }
    let dkeys = map_keys(&state.full_summary.running_downloads);
    let ghost s1 = *state;
    for i in 0..dkeys.len()
        invariant
            state.wf(),
            *state == (State {
                derivation_infos: state.derivation_infos,
                store_path_infos: state.store_path_infos,
                full_summary: state.full_summary,
                touched_ids: state.touched_ids,
                progress_state: state.progress_state,
                ..s0
            }),
            s0.summary_consistent() ==> state.summary_consistent(),
            state.progress_state == ProgressState::Finished,
            state.drvs() == s1.drvs(),
            dkeys@.to_set() == s1.full_summary@.running_downloads.dom(),
            dkeys@.no_duplicates(),
            state.full_summary@.running_uploads == s0.full_summary@.running_uploads,
            state.full_summary@.completed_uploads == s0.full_summary@.completed_uploads,
            state.full_summary@.running_downloads == s1.full_summary@.running_downloads.remove_keys(
                dkeys@.take(i as int).to_set(),
            ),
            state.full_summary@.completed_downloads == s1.full_summary@.completed_downloads.union_prefer_right(
                s1.full_summary@.running_downloads.restrict(dkeys@.take(i as int).to_set()).map_values(
                    |t: TransferInfo| cut_transfer(t, now),
                ),
            ),
            state.paths().len() == s1.paths().len(),
            forall|k: int|
                0 <= k < s1.paths().len() ==> (#[trigger] state.paths()[k]) == if dkeys@.take(
                    i as int,
                ).contains(k as usize) {
                    StorePathInfo {
                        states: state.paths()[k].states,
                        ..s1.paths()[k]
                    }
                } else {
                    s1.paths()[k]
                },
            forall|k: int|
                0 <= k < s1.paths().len() && dkeys@.take(i as int).contains(k as usize) ==> (#[trigger] state.paths()[k]).states@ == seq![StorePathState::Downloaded(cut_transfer(s1.full_summary@.running_downloads[k as usize], now))],
    {
        let k = dkeys[i];
        let ghost before = *state;
        let ghost t0 = dkeys@.take(i as int);
        let ghost t1 = dkeys@.take(i + 1);
        assert(t1 =~= t0.push(k));
        proof {
            t0.lemma_push_to_set_commute(k);
        }
        assert(dkeys@.to_set().contains(k));
        assert(!t0.contains(k)) by {
            if t0.contains(k) {
                let j = choose|j: int| 0 <= j < t0.len() && t0[j] == k;
                assert(dkeys@[j] == dkeys@[i as int]);
            }
        }
        if let Some(t) = state.full_summary.running_downloads.remove(&k) {
            let c = CompletedTransferInfo {
                start: t.start,
                end: now,
                host: t.host.duplicate(),
                total_bytes: match t.total_bytes {
                    Some(n) => n,
                    None => 0,
                },
            };
            state.full_summary.completed_downloads.insert(k, c.duplicate());
            proof {
                lemma_wf_frame(&before, state);
                summary_unchanged_builds(&before, state);
            }
            state.reset_store_path_state(k, StorePathState::Downloaded(c));
        }
        proof {
            assert(state.full_summary@.running_downloads =~= s1.full_summary@.running_downloads.remove_keys(
                t1.to_set(),
            ));
            assert(state.full_summary@.completed_downloads =~= s1.full_summary@.completed_downloads.union_prefer_right(
                s1.full_summary@.running_downloads.restrict(t1.to_set()).map_values(
                    |t: TransferInfo| cut_transfer(t, now),
                ),
            ));
            assert forall|x: int| 0 <= x < s1.paths().len() implies (#[trigger] state.paths()[x]) == if t1.contains(x as usize) {
                StorePathInfo { states: state.paths()[x].states, ..s1.paths()[x] }
            } else {
                s1.paths()[x]
            } by {
                if x != k {
                    assert(t1.contains(x as usize) == t0.contains(x as usize)) by {
                        if t1.contains(x as usize) {
                            let j = choose|j: int| 0 <= j < t1.len() && t1[j] == x as usize;
                            assert(j != i);
                            assert(t0[j] == x as usize);
                        }
                    }
                } else {
                    assert(t1[i as int] == k);
                }
            }
            assert forall|x: int| 0 <= x < s1.paths().len() && t1.contains(x as usize) implies (#[trigger] state.paths()[x]).states@ == seq![StorePathState::Downloaded(cut_transfer(s1.full_summary@.running_downloads[x as usize], now))] by {
                if x != k {
                    let j = choose|j: int| 0 <= j < t1.len() && t1[j] == x as usize;
                    assert(j != i);
                    assert(t0[j] == x as usize);
                }
            }
        }
    }
    assert(dkeys@.take(dkeys@.len() as int) =~= dkeys@);
    let ukeys = map_keys(&state.full_summary.running_uploads);
    let ghost s2 = *state;
    for i in 0..ukeys.len()
        invariant
            state.wf(),
            *state == (State {
                derivation_infos: state.derivation_infos,
                store_path_infos: state.store_path_infos,
                full_summary: state.full_summary,
                touched_ids: state.touched_ids,
                progress_state: state.progress_state,
                ..s0
            }),
            s0.summary_consistent() ==> state.summary_consistent(),
            state.progress_state == ProgressState::Finished,
            state.drvs() == s2.drvs(),
            ukeys@.to_set() == s2.full_summary@.running_uploads.dom(),
            ukeys@.no_duplicates(),
            state.full_summary@.running_downloads == s2.full_summary@.running_downloads,
            state.full_summary@.completed_downloads == s2.full_summary@.completed_downloads,
            state.full_summary@.running_uploads == s2.full_summary@.running_uploads.remove_keys(
                ukeys@.take(i as int).to_set(),
            ),
            state.full_summary@.completed_uploads == s2.full_summary@.completed_uploads.union_prefer_right(
                s2.full_summary@.running_uploads.restrict(ukeys@.take(i as int).to_set()).map_values(
                    |t: TransferInfo| cut_transfer(t, now),
                ),
            ),
            state.paths().len() == s2.paths().len(),
            forall|k: int|
                0 <= k < s2.paths().len() ==> (#[trigger] state.paths()[k]) == if ukeys@.take(
                    i as int,
                ).contains(k as usize) {
                    StorePathInfo {
                        states: state.paths()[k].states,
                        ..s2.paths()[k]
                    }
                } else {
                    s2.paths()[k]
                },
            forall|k: int|
                0 <= k < s2.paths().len() && ukeys@.take(i as int).contains(k as usize) ==> (#[trigger] state.paths()[k]).states@ == seq![StorePathState::Uploaded(cut_transfer(s2.full_summary@.running_uploads[k as usize], now))],
    {
        let k = ukeys[i];
        let ghost before = *state;
        let ghost t0 = ukeys@.take(i as int);
        let ghost t1 = ukeys@.take(i + 1);
        assert(t1 =~= t0.push(k));
        proof {
            t0.lemma_push_to_set_commute(k);
        }
        assert(ukeys@.to_set().contains(k));
        assert(!t0.contains(k)) by {
            if t0.contains(k) {
                let j = choose|j: int| 0 <= j < t0.len() && t0[j] == k;
                assert(ukeys@[j] == ukeys@[i as int]);
            }
        }
        if let Some(t) = state.full_summary.running_uploads.remove(&k) {
            let c = CompletedTransferInfo {
                start: t.start,
                end: now,
                host: t.host.duplicate(),
                total_bytes: match t.total_bytes {
                    Some(n) => n,
                    None => 0,
                },
            };
            state.full_summary.completed_uploads.insert(k, c.duplicate());
            proof {
                lemma_wf_frame(&before, state);
                summary_unchanged_builds(&before, state);
            }
            state.reset_store_path_state(k, StorePathState::Uploaded(c));
        }
        proof {
            assert(state.full_summary@.running_uploads =~= s2.full_summary@.running_uploads.remove_keys(
                t1.to_set(),
            ));
            assert(state.full_summary@.completed_uploads =~= s2.full_summary@.completed_uploads.union_prefer_right(
                s2.full_summary@.running_uploads.restrict(t1.to_set()).map_values(
                    |t: TransferInfo| cut_transfer(t, now),
                ),
            ));
            assert forall|x: int| 0 <= x < s2.paths().len() implies (#[trigger] state.paths()[x]) == if t1.contains(x as usize) {
                StorePathInfo { states: state.paths()[x].states, ..s2.paths()[x] }
            } else {
                s2.paths()[x]
            } by {
                if x != k {
                    assert(t1.contains(x as usize) == t0.contains(x as usize)) by {
                        if t1.contains(x as usize) {
                            let j = choose|j: int| 0 <= j < t1.len() && t1[j] == x as usize;
                            assert(j != i);
                            assert(t0[j] == x as usize);
                        }
                    }
                } else {
                    assert(t1[i as int] == k);
                }
            }
            assert forall|x: int| 0 <= x < s2.paths().len() && t1.contains(x as usize) implies (#[trigger] state.paths()[x]).states@ == seq![StorePathState::Uploaded(cut_transfer(s2.full_summary@.running_uploads[x as usize], now))] by {
                if x != k {
                    let j = choose|j: int| 0 <= j < t1.len() && t1[j] == x as usize;
                    assert(j != i);
                    assert(t0[j] == x as usize);
                }
            }
        }
    }
    assert(ukeys@.take(ukeys@.len() as int) =~= ukeys@);
    proof {
        assert(state.full_summary@.running_downloads =~= Map::<StorePathId, TransferInfo>::empty());
        assert(state.full_summary@.running_uploads =~= Map::<StorePathId, TransferInfo>::empty());
        assert(s1.full_summary@.running_downloads.restrict(dkeys@.to_set()) =~= s1.full_summary@.running_downloads);
        assert(s2.full_summary@.running_uploads.restrict(ukeys@.to_set()) =~= s2.full_summary@.running_uploads);
        assert forall|k: int| 0 <= k < s0.paths().len() implies (#[trigger] state.paths()[k]).states@ == if s0.full_summary@.running_uploads.contains_key(k as usize) {
            seq![StorePathState::Uploaded(cut_transfer(s0.full_summary@.running_uploads[k as usize], now))]
        } else if s0.full_summary@.running_downloads.contains_key(k as usize) {
            seq![StorePathState::Downloaded(cut_transfer(s0.full_summary@.running_downloads[k as usize], now))]
        } else {
            s0.paths()[k].states@
        } by {
            if s0.full_summary@.running_uploads.contains_key(k as usize) {
                assert(ukeys@.to_set().contains(k as usize));
            } else if s0.full_summary@.running_downloads.contains_key(k as usize) {
                assert(dkeys@.to_set().contains(k as usize));
                assert(!ukeys@.to_set().contains(k as usize));
            } else {
                assert(!ukeys@.to_set().contains(k as usize));
                assert(!dkeys@.to_set().contains(k as usize));
            }
        }
        if s0.summary_consistent() {
            assert forall|k: usize| !state.full_summary@.running_builds.contains_key(k) by {
                if state.full_summary@.running_builds.contains_key(k) {
                    assert(summary_holds(state.full_summary@, k, state.drvs()[k as int].build_status));
                }
            }
            assert(state.full_summary@.running_builds =~= Map::<DerivationId, BuildInfo>::empty());
        }
    }
}

/// Parses an output name exactly as written: a standard output, or any other.
pub fn parse_output_name(s: &str) -> (r: Option<OutputName>)
    ensures
        r matches Some(o) && o@ == output_name_of(s@, s@),
{
    Some(OutputName::parse_lowercased(s, s))
}


/// A progress report reaches the running transfer of its activity: after a
/// file-transfer or substitution result with at least two fields, the running
/// download of that activity (or, when there is none, its running upload) has
/// done as many bytes as the first field says (zero when it is no integer) and
/// expects as many as the second says (nothing when it is no integer); it keeps
/// its start, host and activity.
pub proof fn law_transfer_progress(
    before: State,
    mid: State,
    after: State,
    id: Id,
    activity: crate::nix::Activities,
    fields: Vec<FieldValue>,
    now: u64,
    r: (bool, Option<DerivationId>),
)
    requires
        action_steps(before, mid, after, Actions::Result { fields, id, activity }, now, r),
        crate::nix::activity_code(activity) == 101 || crate::nix::activity_code(activity) == 108,
        fields@.len() >= 2,
    ensures
        has_transfer_of(before.full_summary@.running_downloads, id) ==> exists|k: StorePathId|
            #![trigger before.full_summary@.running_downloads.contains_key(k)]
            {
                let t0 = before.full_summary@.running_downloads[k];
                let t1 = after.full_summary@.running_downloads[k];
                &&& before.full_summary@.running_downloads.contains_key(k)
                &&& t0.activity_id == id
                &&& after.full_summary@.running_downloads.contains_key(k)
                &&& t1.bytes_transferred == (match fields@[0] {
                    FieldValue::UInt(n) => n,
                    _ => 0u64,
                })
                &&& t1.total_bytes == (match fields@[1] {
                    FieldValue::UInt(n) => Some(n),
                    _ => None,
                })
                &&& t1.start == t0.start && t1.host == t0.host && t1.activity_id == id
            },
        !has_transfer_of(before.full_summary@.running_downloads, id) && has_transfer_of(
            before.full_summary@.running_uploads,
            id,
        ) ==> exists|k: StorePathId|
            #![trigger before.full_summary@.running_uploads.contains_key(k)]
            {
                let t0 = before.full_summary@.running_uploads[k];
                let t1 = after.full_summary@.running_uploads[k];
                &&& before.full_summary@.running_uploads.contains_key(k)
                &&& t0.activity_id == id
                &&& after.full_summary@.running_uploads.contains_key(k)
                &&& t1.bytes_transferred == (match fields@[0] {
                    FieldValue::UInt(n) => n,
                    _ => 0u64,
                })
                &&& t1.total_bytes == (match fields@[1] {
                    FieldValue::UInt(n) => Some(n),
                    _ => None,
                })
                &&& t1.start == t0.start && t1.host == t0.host && t1.activity_id == id
            },
{
    let h = choose|h: (bool, Option<DerivationId>)|
        {
            &&& r == ((before.progress_state == ProgressState::JustStarted || h.0), h.1)
            &&& #[trigger] action_effect(mid, after, Actions::Result { fields, id, activity }, now, h)
        };
    assert(progress_effect(mid, after, id, fields@));
    assert(mid.full_summary == before.full_summary);
    if has_transfer_of(before.full_summary@.running_downloads, id) {
        let k = choose|k: StorePathId| #[trigger]
            progressed(
                mid.full_summary@.running_downloads,
                after.full_summary@.running_downloads,
                k,
                id,
                progress_done(fields@),
                progress_total(fields@),
            );
        assert(after.full_summary@.running_downloads.contains_key(k));
    } else if has_transfer_of(before.full_summary@.running_uploads, id) {
        let k = choose|k: StorePathId| #[trigger]
            progressed(
                mid.full_summary@.running_uploads,
                after.full_summary@.running_uploads,
                k,
                id,
                progress_done(fields@),
                progress_total(fields@),
            );
        assert(after.full_summary@.running_uploads.contains_key(k));
    }
}

} // verus!
