//! Command-line argument handling: the arguments handed to `nix` and the
//! decision of what an invocation does.
use vstd::prelude::*;
use vstd::string::StringExecFns;
use crate::text::{copy_string, str_eq, str_starts_with, string_from_chars};
use crate::types::{display_format_of, Config, DisplayFormat, InputMode, LogPrefixStyle};
use crate::lowercase::lowercase;
use crate::paths::{file_name, file_name_bounds};

verus! {

/// The character views of a list of strings.
pub open spec fn views(v: Seq<String>) -> Seq<Seq<char>> {
    v.map_values(|s: String| s@)
}

pub proof fn lemma_views_push(v: Seq<String>, x: String)
    ensures
        views(v.push(x)) == views(v).push(x@),
{
    assert(views(v.push(x)) =~= views(v).push(x@));
}

pub proof fn lemma_views_subrange(v: Seq<String>, i: int, j: int)
    requires
        0 <= i <= j <= v.len(),
    ensures
        views(v.subrange(i, j)) == views(v).subrange(i, j),
{
    assert(views(v.subrange(i, j)) =~= views(v).subrange(i, j));
}

/// Position of the first element equal to `x`, searching from `i`.
pub open spec fn index_of_from(a: Seq<Seq<char>>, x: Seq<char>, i: int) -> Option<int>
    decreases a.len() - i,
{
    if i < 0 || i >= a.len() {
        None
    } else if a[i] == x {
        Some(i)
    } else {
        index_of_from(a, x, i + 1)
    }
}

pub open spec fn separator() -> Seq<char> {
    seq!['-', '-']
}

/// The split made by `parse_args_with_separator`: what stands before the first
/// `--` and what stands after it; everything before when there is none.
pub open spec fn split_at_separator(a: Seq<Seq<char>>) -> (Seq<Seq<char>>, Seq<Seq<char>>) {
    match index_of_from(a, separator(), 0) {
        Some(p) => (a.take(p), a.skip(p + 1)),
        None => (a, Seq::empty()),
    }
}

pub open spec fn is_command_flag(x: Seq<char>) -> bool {
    x == seq!['-', '-', 'c', 'o', 'm', 'm', 'a', 'n', 'd'] || x == seq!['-', 'c']
}

/// The arguments with every `--command`/`-c` flag and the argument that
/// follows it removed.
pub open spec fn strip_command(a: Seq<Seq<char>>) -> Seq<Seq<char>>
    decreases a.len(),
{
    if a.len() == 0 {
        seq![]
    } else if is_command_flag(a[0]) {
        if a.len() >= 2 {
            strip_command(a.skip(2))
        } else {
            seq![]
        }
    } else {
        seq![a[0]] + strip_command(a.skip(1))
    }
}

pub open spec fn exit_command() -> Seq<Seq<char>> {
    seq![
        seq!['-', '-', 'c', 'o', 'm', 'm', 'a', 'n', 'd'],
        seq!['s', 'h'],
        seq!['-', 'c'],
        seq!['e', 'x', 'i', 't'],
    ]
}

/// Copies a list of strings.
pub fn copy_strings(a: &[String]) -> (r: Vec<String>)
    ensures
        views(r@) == views(a@),
        r@.len() == a@.len(),
{
    let mut r: Vec<String> = Vec::new();
    for i in 0..a.len()
        invariant
            views(r@) == views(a@).take(i as int),
            r@.len() == i,
    {
        let ghost prev = r@;
        let c = copy_string(&a[i]);
        r.push(c);
        proof {
            lemma_views_push(prev, c);
            assert(views(a@)[i as int] == a@[i as int]@);
        }
        assert(views(r@) =~= views(a@).take(i + 1));
    }
    assert(views(a@).take(a@.len() as int) =~= views(a@));
    r
}

/// Appends copies of `b` to `a`.
pub fn extend_strings(a: &mut Vec<String>, b: &[String])
    ensures
        views(final(a)@) == views(old(a)@) + views(b@),
{
    let ghost start = views(a@);
    for i in 0..b.len()
        invariant
            views(a@) == start + views(b@).take(i as int),
    {
        let ghost prev = a@;
        let c = copy_string(&b[i]);
        a.push(c);
        proof {
            lemma_views_push(prev, c);
            assert(views(b@)[i as int] == b@[i as int]@);
        }
        assert(views(a@) =~= start + views(b@).take(i + 1));
    }
    assert(views(b@).take(b@.len() as int) =~= views(b@));
}

/// Copies `a[from..to]`.
pub fn copy_range(a: &[String], from: usize, to: usize) -> (r: Vec<String>)
    requires
        from <= to <= a@.len(),
    ensures
        views(r@) == views(a@.subrange(from as int, to as int)),
{
    let mut r: Vec<String> = Vec::new();
    let mut i = from;
    while i < to
        invariant
            from <= i <= to <= a@.len(),
            views(r@) == views(a@.subrange(from as int, i as int)),
        decreases to - i,
    {
        let ghost prev = r@;
        let c = copy_string(&a[i]);
        r.push(c);
        proof {
            lemma_views_push(prev, c);
            lemma_views_subrange(a@, from as int, i + 1);
            lemma_views_subrange(a@, from as int, i as int);
        }
        i += 1;
        assert(views(r@) =~= views(a@.subrange(from as int, i as int)));
    }
    r
}

fn push_str(a: &mut Vec<String>, s: &str)
    ensures
        views(final(a)@) == views(old(a)@).push(s@),
{
    let ghost prev = a@;
    let c = String::from_str(s);
    a.push(c);
    proof {
        lemma_views_push(prev, c);
    }
}

/// Splits arguments at the first `--`: the package and `rom` arguments come
/// before it, the flags handed to nix unchanged come after it.  Without a `--`
/// every argument counts as a package argument.
pub fn parse_args_with_separator(args: &[String]) -> (r: (Vec<String>, Vec<String>))
    ensures
        (views(r.0@), views(r.1@)) == split_at_separator(views(args@)),
{
    let ghost a = views(args@);
    let mut i: usize = 0;
    while i < args.len()
        invariant
            i <= args@.len(),
            a == views(args@),
            index_of_from(a, separator(), 0) == index_of_from(a, separator(), i as int),
        decreases args@.len() - i,
    {
        proof {
            reveal_strlit("--");
        }
        assert("--"@ =~= separator());
        if str_eq(args[i].as_str(), "--") {
            assert(a[i as int] == separator());
            let before = copy_range(args, 0, i);
            let after = copy_range(args, i + 1, args.len());
            proof {
                lemma_views_subrange(args@, 0, i as int);
                lemma_views_subrange(args@, i + 1, args@.len() as int);
            }
            assert(views(args@).subrange(0, i as int) =~= a.take(i as int));
            assert(views(args@).subrange(i + 1, args@.len() as int) =~= a.skip(i + 1));
            assert(views(Seq::<String>::empty()) =~= Seq::<Seq<char>>::empty());
            return (before, after);
        }
        assert(a[i as int] != separator());
        i += 1;
    }
    let all = copy_strings(args);
    let none: Vec<String> = Vec::new();
    assert(views(none@) =~= Seq::<Seq<char>>::empty());
    (all, none)
}

fn is_command_flag_exec(s: &String) -> (r: bool)
    ensures
        r == is_command_flag(s@),
{
    proof {
        reveal_strlit("--command");
        reveal_strlit("-c");
    }
    assert("--command"@ =~= seq!['-', '-', 'c', 'o', 'm', 'm', 'a', 'n', 'd']);
    assert("-c"@ =~= seq!['-', 'c']);
    str_eq(s.as_str(), "--command") || str_eq(s.as_str(), "-c")
}

/// Replaces any `--command`/`-c` argument (and the argument after it) with a
/// final `--command sh -c exit`, so that nix only builds and then returns.
pub fn replace_command_with_exit(args: &[String]) -> (r: Vec<String>)
    ensures
        views(r@) == strip_command(views(args@)) + exit_command(),
{
    let ghost a = views(args@);
    let mut result: Vec<String> = Vec::new();
    let mut i: usize = 0;
    assert(a.skip(0) =~= a);
    assert(views(result@) =~= Seq::<Seq<char>>::empty());
    while i < args.len()
        invariant
            i <= args@.len(),
            a == views(args@),
            strip_command(a) == views(result@) + strip_command(a.skip(i as int)),
        decreases args@.len() - i,
    {
        let ghost rest = a.skip(i as int);
        assert(rest[0] == a[i as int]);
        if is_command_flag_exec(&args[i]) {
            if i + 1 < args.len() {
                assert(rest.skip(2) =~= a.skip(i + 2));
                i = i + 2;
            } else {
                assert(a.skip(args@.len() as int) =~= Seq::<Seq<char>>::empty());
                i = args.len();
            }
        } else {
            let ghost before = views(result@);
            let ghost prev = result@;
            let c = copy_string(&args[i]);
            result.push(c);
            proof {
                lemma_views_push(prev, c);
            }
            assert(views(result@) =~= before.push(a[i as int]));
            assert(rest.skip(1) =~= a.skip(i + 1));
            assert(views(result@) + strip_command(a.skip(i + 1)) =~= before + (seq![a[i as int]]
                + strip_command(a.skip(i + 1))));
            i = i + 1;
        }
    }
    assert(a.skip(i as int) =~= Seq::<Seq<char>>::empty());
    assert(strip_command(a) =~= views(result@));
    proof {
        reveal_strlit("--command");
        reveal_strlit("sh");
        reveal_strlit("-c");
        reveal_strlit("exit");
    }
    assert("--command"@ =~= seq!['-', '-', 'c', 'o', 'm', 'm', 'a', 'n', 'd']);
    assert("sh"@ =~= seq!['s', 'h']);
    assert("-c"@ =~= seq!['-', 'c']);
    assert("exit"@ =~= seq!['e', 'x', 'i', 't']);
    let ghost stripped = views(result@);
    push_str(&mut result, "--command");
    push_str(&mut result, "sh");
    push_str(&mut result, "-c");
    push_str(&mut result, "exit");
    assert(views(result@) =~= stripped + exit_command());
    result
}

/// The nix verbosity flag for a `-v` count: `-` followed by that many `v`,
/// and at least one.
pub open spec fn verbosity_flag(verbose: u8) -> Seq<char> {
    let n: int = if verbose == 0 { 1 } else { verbose as int };
    seq!['-'] + Seq::new(n as nat, |i: int| 'v')
}

/// Returns the nix verbosity flag for the given level; it always asks for at
/// least `-v`, so that build events are reported.
pub fn nix_verbosity_flag(verbose: u8) -> (r: String)
    ensures
        r@ == verbosity_flag(verbose),
{
    let n: u8 = if verbose == 0 { 1 } else { verbose };
    let mut out: Vec<char> = Vec::new();
    out.push('-');
    let mut i: u8 = 0;
    while i < n
        invariant
            i <= n,
            n == (if verbose == 0 { 1 } else { verbose }),
            out@ == seq!['-'] + Seq::new(i as nat, |k: int| 'v'),
        decreases n - i,
    {
        out.push('v');
        i += 1;
        assert(out@ =~= seq!['-'] + Seq::new(i as nat, |k: int| 'v'));
    }
    string_from_chars(out.as_slice())
}

/// The nix subcommand a wrapper runs.
#[derive(Debug, Clone, Copy, PartialEq, Eq)]
pub enum NixCommand {
    Build,
    Shell,
    Develop,
}

pub open spec fn command_word(c: NixCommand) -> Seq<char> {
    match c {
        NixCommand::Build => seq!['b', 'u', 'i', 'l', 'd'],
        NixCommand::Shell => seq!['s', 'h', 'e', 'l', 'l'],
        NixCommand::Develop => seq!['d', 'e', 'v', 'e', 'l', 'o', 'p'],
    }
}

pub open spec fn log_format_args() -> Seq<Seq<char>> {
    seq![
        seq!['-', '-', 'l', 'o', 'g', '-', 'f', 'o', 'r', 'm', 'a', 't'],
        seq!['i', 'n', 't', 'e', 'r', 'n', 'a', 'l', '-', 'j', 's', 'o', 'n'],
    ]
}

pub open spec fn command_true() -> Seq<Seq<char>> {
    seq![seq!['-', '-', 'c', 'o', 'm', 'm', 'a', 'n', 'd'], seq!['t', 'r', 'u', 'e']]
}

/// The arguments of the monitored first pass of a wrapper.
pub open spec fn monitor_args_spec(
    cmd: NixCommand,
    verbose: u8,
    packages: Seq<Seq<char>>,
    nix_flags: Seq<Seq<char>>,
) -> Seq<Seq<char>> {
    let head = seq![command_word(cmd), verbosity_flag(verbose)] + log_format_args();
    match cmd {
        NixCommand::Build => head + packages + nix_flags,
        NixCommand::Shell => head + strip_command(packages + nix_flags) + exit_command(),
        NixCommand::Develop => head + command_true() + packages + nix_flags,
    }
}

fn push_command_word(a: &mut Vec<String>, cmd: NixCommand)
    ensures
        views(final(a)@) == views(old(a)@).push(command_word(cmd)),
{
    match cmd {
        NixCommand::Build => {
            proof {
                reveal_strlit("build");
            }
            assert("build"@ =~= command_word(cmd));
            push_str(a, "build");
        },
        NixCommand::Shell => {
            proof {
                reveal_strlit("shell");
            }
            assert("shell"@ =~= command_word(cmd));
            push_str(a, "shell");
        },
        NixCommand::Develop => {
            proof {
                reveal_strlit("develop");
            }
            assert("develop"@ =~= command_word(cmd));
            push_str(a, "develop");
        },
    }
}

/// The arguments for the monitored pass of `nix build`, `nix shell` or
/// `nix develop`: the subcommand, the verbosity flag, the internal-json log
/// format, then the packages and flags (for a shell, with any command replaced
/// by `sh -c exit`; for a dev shell, preceded by `--command true`).
pub fn monitor_args(
    cmd: NixCommand,
    verbose: u8,
    packages: &[String],
    nix_flags: &[String],
) -> (r: Vec<String>)
    ensures
        views(r@) == monitor_args_spec(cmd, verbose, views(packages@), views(nix_flags@)),
{
    let mut r: Vec<String> = Vec::new();
    push_command_word(&mut r, cmd);
    let flag = nix_verbosity_flag(verbose);
    let ghost prev = r@;
    r.push(flag);
    proof {
        lemma_views_push(prev, flag);
        reveal_strlit("--log-format");
        reveal_strlit("internal-json");
    }
    assert("--log-format"@ =~= log_format_args()[0]);
    assert("internal-json"@ =~= log_format_args()[1]);
    push_str(&mut r, "--log-format");
    push_str(&mut r, "internal-json");
    let ghost head = views(r@);
    assert(head =~= seq![command_word(cmd), verbosity_flag(verbose)] + log_format_args());
    match cmd {
        NixCommand::Build => {
            extend_strings(&mut r, packages);
            extend_strings(&mut r, nix_flags);
            assert(views(r@) =~= head + views(packages@) + views(nix_flags@));
        },
        NixCommand::Shell => {
            let mut joined: Vec<String> = Vec::new();
            extend_strings(&mut joined, packages);
            extend_strings(&mut joined, nix_flags);
            assert(views(joined@) =~= views(packages@) + views(nix_flags@));
            let replaced = replace_command_with_exit(joined.as_slice());
            extend_strings(&mut r, replaced.as_slice());
            assert(views(r@) =~= head + strip_command(views(packages@) + views(nix_flags@))
                + exit_command());
        },
        NixCommand::Develop => {
            proof {
                reveal_strlit("--command");
                reveal_strlit("true");
            }
            assert("--command"@ =~= command_true()[0]);
            assert("true"@ =~= command_true()[1]);
            push_str(&mut r, "--command");
            push_str(&mut r, "true");
            extend_strings(&mut r, packages);
            extend_strings(&mut r, nix_flags);
            assert(views(r@) =~= head + command_true() + views(packages@) + views(nix_flags@));
        },
    }
    r
}

/// The arguments of the second pass of a shell wrapper, which enters the
/// shell: the subcommand, then the packages and the flags unchanged.
pub fn enter_args(cmd: NixCommand, packages: &[String], nix_flags: &[String]) -> (r: Vec<String>)
    ensures
        views(r@) == seq![command_word(cmd)] + views(packages@) + views(nix_flags@),
{
    let mut r: Vec<String> = Vec::new();
    push_command_word(&mut r, cmd);
    extend_strings(&mut r, packages);
    extend_strings(&mut r, nix_flags);
    assert(views(r@) =~= seq![command_word(cmd)] + views(packages@) + views(nix_flags@));
    r
}

/// The options of the command line (clap reads them in the program).
#[derive(Debug)]
pub struct Cli {
    pub command: Option<Commands>,
    /// Parse JSON output from `nix --log-format=internal-json`.
    pub json: bool,
    /// Minimal output.
    pub silent: bool,
    /// Output format: tree, plain, dashboard.
    pub format: String,
    /// Legend display style: compact, table, verbose.
    pub legend: String,
    /// Summary display style: concise, table, full.
    pub summary: String,
}

/// The subcommands.
#[derive(Debug)]
pub enum Commands {
    /// Run nix build with monitoring.
    Build { args: Vec<String> },
    /// Run nix shell with monitoring.
    Shell { args: Vec<String> },
    /// Run nix develop with monitoring.
    Develop { args: Vec<String> },
}

/// What the program does for a command line.
#[derive(Debug)]
pub enum Invocation {
    /// Monitor what arrives on standard input.
    Stream(Config),
    /// Run a nix command under the monitor: `packages` are the arguments
    /// before `--` (packages or flakes, and flags such as `--tree`), handed on
    /// in order; `nix_flags` are those after it.
    Wrap { command: NixCommand, packages: Vec<String>, nix_flags: Vec<String> },
}

/// The message for a wrapper run without a package or flake.
pub open spec fn missing_package_text(cmd: NixCommand) -> Seq<char> {
    match cmd {
        NixCommand::Build => "No package or flake specified for nix build\nUsage: rom build <package> [-- <nix-flags>]\nExample: rom build nixpkgs#hello -- --rebuild"@,
        NixCommand::Shell => "No package or flake specified for nix shell\nUsage: rom shell <package> [-- <nix-flags>]\nExample: rom shell nixpkgs#python3 -- --pure"@,
        NixCommand::Develop => "No package or flake specified for nix develop\nUsage: rom develop <package> [-- <nix-flags>]\nExample: rom develop nixpkgs#hello -- --impure"@,
    }
}

/// The message for a wrapper run without a package or flake.
pub fn missing_package(cmd: NixCommand) -> (r: String)
    ensures
        r@ == missing_package_text(cmd),
{
    match cmd {
        NixCommand::Build => String::from_str("No package or flake specified for nix build\nUsage: rom build <package> [-- <nix-flags>]\nExample: rom build nixpkgs#hello -- --rebuild"),
        NixCommand::Shell => String::from_str("No package or flake specified for nix shell\nUsage: rom shell <package> [-- <nix-flags>]\nExample: rom shell nixpkgs#python3 -- --pure"),
        NixCommand::Develop => String::from_str("No package or flake specified for nix develop\nUsage: rom develop <package> [-- <nix-flags>]\nExample: rom develop nixpkgs#hello -- --impure"),
    }
}

/// The configuration of a run that monitors standard input.
pub open spec fn stream_config(c: Config, cli: &Cli, mode: InputMode) -> bool {
    &&& !c.piping
    &&& c.silent == cli.silent
    &&& c.input_mode == mode
    &&& c.show_timers
    &&& c.width is None
    &&& c.format == display_format_of(lowercase(cli.format@))
    &&& c.legend_style@ == cli.legend@
    &&& c.summary_style@ == cli.summary@
    &&& c.log_prefix_style == LogPrefixStyle::Short
    &&& c.log_line_limit is None
}

fn make_stream_config(cli: &Cli, mode: InputMode) -> (r: Config)
    ensures
        stream_config(r, cli, mode),
{
    Config {
        piping: false,
        silent: cli.silent,
        input_mode: mode,
        show_timers: true,
        width: None,
        format: DisplayFormat::from_str(cli.format.as_str()),
        legend_style: cli.legend.clone(),
        summary_style: cli.summary.clone(),
        log_prefix_style: LogPrefixStyle::Short,
        log_line_limit: None,
    }
}

/// An argument that starts with `-` is a flag (of `rom` or of nix), not a
/// package or flake.
pub open spec fn is_flag(x: Seq<char>) -> bool {
    x.len() > 0 && x[0] == '-'
}

/// Some argument of `a` names a package or flake: it is not a flag.
pub open spec fn has_package(a: Seq<Seq<char>>) -> bool {
    exists|i: int| 0 <= i < a.len() && !is_flag(#[trigger] a[i])
}

/// A wrapper for `cmd` run with the given arguments: what stands before `--`
/// (packages, and flags such as `--tree`) is handed on first, what stands after
/// it goes to nix unchanged; an error when no package or flake stands before
/// `--`.
pub open spec fn wrap_plan(cmd: NixCommand, args: Seq<Seq<char>>, r: Result<Invocation, String>) -> bool {
    let (packages, flags) = split_at_separator(args);
    if !has_package(packages) {
        r matches Err(e) && e@ == missing_package_text(cmd)
    } else {
        r matches Ok(Invocation::Wrap { command, packages: p, nix_flags: f }) && command == cmd
            && views(p@) == packages && views(f@) == flags
    }
}

/// Whether some argument is not a flag.
fn any_package(args: &[String]) -> (r: bool)
    ensures
        r == has_package(views(args@)),
{
    let ghost a = views(args@);
    let mut i: usize = 0;
    while i < args.len()
        invariant
            i <= args@.len(),
            a == views(args@),
            forall|k: int| 0 <= k < i ==> is_flag(#[trigger] a[k]),
        decreases args@.len() - i,
    {
        assert(a[i as int] == args@[i as int]@);
        let flag = str_starts_with(args[i].as_str(), "-");
        proof {
            reveal_strlit("-");
        }
        assert("-"@ =~= seq!['-']);
        if !flag {
            assert(!crate::text::starts_with(a[i as int], seq!['-']));
            assert(!is_flag(a[i as int])) by {
                if is_flag(a[i as int]) {
                    assert(a[i as int].subrange(0, 1) =~= seq!['-']);
                }
            }
            return true;
        }
        assert(is_flag(a[i as int])) by {
            assert(a[i as int].subrange(0, 1)[0] == a[i as int][0]);
        }
        i += 1;
    }
    false
}

fn plan_wrap(cmd: NixCommand, args: &[String]) -> (r: Result<Invocation, String>)
    ensures
        wrap_plan(cmd, views(args@), r),
{
    let (packages, nix_flags) = parse_args_with_separator(args);
    if !any_package(packages.as_slice()) {
        return Err(missing_package(cmd));
    }
    Ok(Invocation::Wrap { command: cmd, packages, nix_flags })
}

/// What a command line asks for.  Called as `rom-build` or `rom-shell`, the
/// program wraps that command with all its arguments (`all_args`); otherwise a
/// subcommand wraps its command, or, given no arguments and `--json`, monitors
/// standard input, as the program does without a subcommand.
pub open spec fn plan_spec(program: Seq<char>, cli: &Cli, all_args: Seq<Seq<char>>, r: Result<Invocation, String>) -> bool {
    if program == "rom-build"@ {
        wrap_plan(NixCommand::Build, all_args, r)
    } else if program == "rom-shell"@ {
        wrap_plan(NixCommand::Shell, all_args, r)
    } else {
        match cli.command {
            Some(Commands::Build { args }) => if args@.len() == 0 && cli.json {
                r matches Ok(Invocation::Stream(c)) && stream_config(c, cli, InputMode::Json)
            } else {
                wrap_plan(NixCommand::Build, views(args@), r)
            },
            Some(Commands::Shell { args }) => if args@.len() == 0 && cli.json {
                r matches Ok(Invocation::Stream(c)) && stream_config(c, cli, InputMode::Json)
            } else {
                wrap_plan(NixCommand::Shell, views(args@), r)
            },
            Some(Commands::Develop { args }) => if args@.len() == 0 && cli.json {
                r matches Ok(Invocation::Stream(c)) && stream_config(c, cli, InputMode::Json)
            } else {
                wrap_plan(NixCommand::Develop, views(args@), r)
            },
            None => r matches Ok(Invocation::Stream(c)) && stream_config(
                c,
                cli,
                if cli.json {
                    InputMode::Json
                } else {
                    InputMode::Human
                },
            ),
        }
    }
}

/// What a command line asks for: the decision the program's `run` makes
/// before it runs anything.
pub fn plan(program: &str, cli: &Cli, all_args: &[String]) -> (r: Result<Invocation, String>)
    ensures
        plan_spec(program@, cli, views(all_args@), r),
{
    if str_eq(program, "rom-build") {
        return plan_wrap(NixCommand::Build, all_args);
    }
    if str_eq(program, "rom-shell") {
        return plan_wrap(NixCommand::Shell, all_args);
    }
    match &cli.command {
        Some(Commands::Build { args }) => {
            if args.len() == 0 && cli.json {
                Ok(Invocation::Stream(make_stream_config(cli, InputMode::Json)))
            } else {
                plan_wrap(NixCommand::Build, args.as_slice())
            }
        },
        Some(Commands::Shell { args }) => {
            if args.len() == 0 && cli.json {
                Ok(Invocation::Stream(make_stream_config(cli, InputMode::Json)))
            } else {
                plan_wrap(NixCommand::Shell, args.as_slice())
            }
        },
        Some(Commands::Develop { args }) => {
            if args.len() == 0 && cli.json {
                Ok(Invocation::Stream(make_stream_config(cli, InputMode::Json)))
            } else {
                plan_wrap(NixCommand::Develop, args.as_slice())
            }
        },
        None => {
            let mode = if cli.json {
                InputMode::Json
            } else {
                InputMode::Human
            };
            Ok(Invocation::Stream(make_stream_config(cli, mode)))
        },
    }
}

/// The name the program was called by: the file name of its path, or `rom`.
pub open spec fn program_name_of(argv0: Option<Seq<char>>) -> Seq<char> {
    match argv0 {
        Some(p) => match file_name(p) {
            Some(f) => f,
            None => "rom"@,
        },
        None => "rom"@,
    }
}

/// The name the program was called by, from its first argument.
pub fn program_name(argv0: Option<&str>) -> (r: String)
    ensures
        r@ == program_name_of(match argv0 {
            Some(s) => Some(s@),
            None => None,
        }),
{
    match argv0 {
        Some(s) => {
            let p = crate::text::chars_of(s);
            match file_name_bounds(&p) {
                Some((a, b)) => crate::text::string_of_range(&p, a, b),
                None => String::from_str("rom"),
            }
        },
        None => String::from_str("rom"),
    }
}


/// Without a subcommand (and not called as `rom-build` or `rom-shell`) the
/// program monitors its standard input: as nix's internal JSON log exactly
/// when `--json` is given, else as nix's human-readable output; with
/// `--silent` as given and timers shown.
pub proof fn law_stream_input_mode(program: Seq<char>, cli: &Cli, all_args: Seq<Seq<char>>, r: Result<Invocation, String>)
    requires
        plan_spec(program, cli, all_args, r),
        cli.command is None,
        program != "rom-build"@,
        program != "rom-shell"@,
    ensures
        r is Ok,
        r->Ok_0 is Stream,
        cli.json ==> r->Ok_0->Stream_0.input_mode == InputMode::Json,
        !cli.json ==> r->Ok_0->Stream_0.input_mode == InputMode::Human,
        r->Ok_0->Stream_0.silent == cli.silent,
        r->Ok_0->Stream_0.show_timers,
{
}

} // verus!
