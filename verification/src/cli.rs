//! The command line: its options, their defaults, and the rules that make
//! an argument list acceptable.
//!
//! Options are long (`--name value` or `--name=value`); the four switches
//! take no value. Every option may be given at most once, `--pr` excludes
//! `--base` and an explicit `--head`, and `--format` excludes `--tui`.
//! `--help`/`-h` and `--version`/`-V` end parsing with a request to print
//! the corresponding text.

use crate::deps_cache::RINKAKU_VERSION;
use crate::render::OutputFormat;
use crate::text::{chars_are, chars_between, str_chars, string_from_chars};
use vstd::prelude::*;
use vstd::string::StringExecFns;

verus! {

/// `--format` values.
#[derive(Debug, Clone, Copy, PartialEq, Eq, Structural)]
pub enum Format {
    Md,
    Json,
    /// A call/dependency graph as a mermaid `flowchart` document.
    Mermaid,
    /// A slim list of API changes.
    Digest,
}

/// `--deps-scope` values.
#[derive(Debug, Clone, Copy, PartialEq, Eq, Structural)]
pub enum DepsScope {
    /// Scan only the project(s) containing changed files (default).
    ChangedProjects,
    /// Scan every listed file, regardless of which project changed.
    Repo,
}

/// The parsed command line.
#[derive(Debug, Clone, PartialEq, Eq)]
pub struct Cli {
    /// Base ref to diff against.
    pub base: Option<String>,
    /// Head ref to diff against `base`; `HEAD` unless given.
    pub head: String,
    /// The pull request to review, as a URL or a bare number.
    pub pr: Option<String>,
    /// Output format; `None` when `--format` was not given.
    pub format: Option<Format>,
    /// Open the interactive terminal UI.
    pub tui: bool,
    /// Whether to resolve 1-hop dependencies: `0` or `1` (default).
    pub deps: u8,
    /// Which slice of the repository the dependency index covers.
    pub deps_scope: DepsScope,
    /// Disable the persistent dependency-index cache.
    pub no_deps_cache: bool,
    /// Summarize test symbols instead of listing them.
    pub exclude_tests: bool,
    /// Include files marked generated instead of skipping them.
    pub include_generated: bool,
    /// Re-root the change graph at this path.
    pub entry: Option<String>,
}

/// Why an argument list was not accepted.
#[derive(Debug, Clone, Copy, PartialEq, Eq, Structural)]
pub enum CliError {
    /// An argument that names no option, or a positional argument.
    UnknownArgument,
    /// An option that takes a value was given none.
    MissingValue,
    /// A value outside the option's accepted set.
    InvalidValue,
    /// A switch was given a value.
    UnexpectedValue,
    /// An option given twice, or two options that exclude each other.
    ArgumentConflict,
    /// `--help` or `-h`: the help text was asked for.
    DisplayHelp,
    /// `--version` or `-V`: the version was asked for.
    DisplayVersion,
}

/// The options of [`Cli`].
#[derive(Debug, Clone, Copy, PartialEq, Eq, Structural)]
pub enum CliOption {
    Base,
    Head,
    Pr,
    Format,
    Tui,
    Deps,
    DepsScope,
    NoDepsCache,
    ExcludeTests,
    IncludeGenerated,
    Entry,
}

/// One option as given on the command line, with its value (empty for a
/// switch).
pub struct Occurrence {
    pub option: CliOption,
    pub value: String,
}

/// An occurrence as plain values.
pub open spec fn occurrence_view(o: Occurrence) -> (CliOption, Seq<char>) {
    (o.option, o.value@)
}

/// The option a long name (the text after `--`) denotes.
pub open spec fn long_option(name: Seq<char>) -> Option<CliOption> {
    if name == "base"@ {
        Some(CliOption::Base)
    } else if name == "head"@ {
        Some(CliOption::Head)
    } else if name == "pr"@ {
        Some(CliOption::Pr)
    } else if name == "format"@ {
        Some(CliOption::Format)
    } else if name == "tui"@ {
        Some(CliOption::Tui)
    } else if name == "deps"@ {
        Some(CliOption::Deps)
    } else if name == "deps-scope"@ {
        Some(CliOption::DepsScope)
    } else if name == "no-deps-cache"@ {
        Some(CliOption::NoDepsCache)
    } else if name == "exclude-tests"@ {
        Some(CliOption::ExcludeTests)
    } else if name == "include-generated"@ {
        Some(CliOption::IncludeGenerated)
    } else if name == "entry"@ {
        Some(CliOption::Entry)
    } else {
        None
    }
}

/// Whether `option` takes a value (the switches do not).
pub open spec fn takes_value(option: CliOption) -> bool {
    !(option is Tui || option is NoDepsCache || option is ExcludeTests || option is IncludeGenerated)
}

/// The `--format` value `v` names.
pub open spec fn format_named(v: Seq<char>) -> Option<Format> {
    if v == "md"@ {
        Some(Format::Md)
    } else if v == "json"@ {
        Some(Format::Json)
    } else if v == "mermaid"@ {
        Some(Format::Mermaid)
    } else if v == "digest"@ {
        Some(Format::Digest)
    } else {
        None
    }
}

/// The `--deps-scope` value `v` names.
pub open spec fn deps_scope_named(v: Seq<char>) -> Option<DepsScope> {
    if v == "changed-projects"@ {
        Some(DepsScope::ChangedProjects)
    } else if v == "repo"@ {
        Some(DepsScope::Repo)
    } else {
        None
    }
}

/// Whether every character of `d` is an ASCII digit.
pub open spec fn all_digits(d: Seq<char>) -> bool {
    forall|i: int| 0 <= i < d.len() ==> '0' <= #[trigger] d[i] <= '9'
}

/// The number the decimal digits `d` spell.
pub open spec fn digits_value(d: Seq<char>) -> int
    decreases d.len(),
{
    if d.len() == 0 {
        0
    } else {
        10 * digits_value(d.drop_last()) + (d.last() as int - '0' as int)
    }
}

/// The integer `v` spells: an optional sign, then at least one digit.
pub open spec fn integer_value(v: Seq<char>) -> Option<int> {
    if v.len() > 0 && (v[0] == '+' || v[0] == '-') {
        let d = v.drop_first();
        if d.len() > 0 && all_digits(d) {
            if v[0] == '-' {
                Some(-digits_value(d))
            } else {
                Some(digits_value(d))
            }
        } else {
            None
        }
    } else if v.len() > 0 && all_digits(v) {
        Some(digits_value(v))
    } else {
        None
    }
}

/// The `--deps` value `v` gives: an integer from 0 to 1.
pub open spec fn deps_named(v: Seq<char>) -> Option<u8> {
    match integer_value(v) {
        Some(n) => if 0 <= n <= 1 {
            Some(n as u8)
        } else {
            None
        },
        None => None,
    }
}

/// Whether `v` is an acceptable value of `option`.
pub open spec fn valid_value(option: CliOption, v: Seq<char>) -> bool {
    match option {
        CliOption::Format => format_named(v) is Some,
        CliOption::Deps => deps_named(v) is Some,
        CliOption::DepsScope => deps_scope_named(v) is Some,
        _ => true,
    }
}

/// Whether an argument looks like an option rather than a value.
pub open spec fn looks_like_flag(t: Seq<char>) -> bool {
    t.len() > 1 && t[0] == '-'
}

/// Whether `t` starts with `--`.
pub open spec fn is_long(t: Seq<char>) -> bool {
    t.len() >= 2 && t[0] == '-' && t[1] == '-'
}

/// Index of the first `=` in `t` at or after `i`, or `t.len()`.
pub open spec fn first_equals_from(t: Seq<char>, i: int) -> int
    decreases t.len() - i,
{
    if i >= t.len() {
        t.len() as int
    } else if t[i] == '=' {
        i
    } else {
        first_equals_from(t, i + 1)
    }
}

/// What the first argument of `args` (not empty) amounts to: an occurrence
/// of an option (or nothing, for a final `--`) and how many arguments it
/// used, or the error it raises.
pub open spec fn scan_step(args: Seq<Seq<char>>) -> Result<(Option<(CliOption, Seq<char>)>, int), CliError> {
    let t = args[0];
    if t == "--"@ {
        if args.len() == 1 {
            Ok((None, 1))
        } else {
            Err(CliError::UnknownArgument)
        }
    } else if is_long(t) {
        let k = first_equals_from(t, 2);
        let name = t.subrange(2, k);
        let inline = k < t.len();
        if name == "help"@ {
            if inline {
                Err(CliError::UnexpectedValue)
            } else {
                Err(CliError::DisplayHelp)
            }
        } else if name == "version"@ {
            if inline {
                Err(CliError::UnexpectedValue)
            } else {
                Err(CliError::DisplayVersion)
            }
        } else {
            match long_option(name) {
                None => Err(CliError::UnknownArgument),
                Some(o) => if !takes_value(o) {
                    if inline {
                        Err(CliError::UnexpectedValue)
                    } else {
                        Ok((Some((o, Seq::empty())), 1))
                    }
                } else if inline {
                    let v = t.subrange(k + 1, t.len() as int);
                    if valid_value(o, v) {
                        Ok((Some((o, v)), 1))
                    } else {
                        Err(CliError::InvalidValue)
                    }
                } else if args.len() > 1 && !looks_like_flag(args[1]) {
                    if valid_value(o, args[1]) {
                        Ok((Some((o, args[1])), 2))
                    } else {
                        Err(CliError::InvalidValue)
                    }
                } else {
                    Err(CliError::MissingValue)
                },
            }
        }
    } else if t.len() > 1 && t[0] == '-' {
        if t[1] == 'h' {
            Err(CliError::DisplayHelp)
        } else if t[1] == 'V' {
            Err(CliError::DisplayVersion)
        } else {
            Err(CliError::UnknownArgument)
        }
    } else {
        Err(CliError::UnknownArgument)
    }
}

/// The occurrences `args` (program name excluded) give, in order, or the
/// first error met from the left.
pub open spec fn scan(args: Seq<Seq<char>>) -> Result<Seq<(CliOption, Seq<char>)>, CliError>
    decreases args.len(),
{
    if args.len() == 0 {
        Ok(Seq::empty())
    } else {
        match scan_step(args) {
            Err(e) => Err(e),
            Ok((occurrence, used)) => if 1 <= used <= args.len() {
                match scan(args.skip(used)) {
                    Err(e) => Err(e),
                    Ok(rest) => match occurrence {
                        Some(o) => Ok(seq![o] + rest),
                        None => Ok(rest),
                    },
                }
            } else {
                Err(CliError::UnknownArgument)
            },
        }
    }
}

/// Whether `option` occurs in `occ`.
pub open spec fn occurs(occ: Seq<(CliOption, Seq<char>)>, option: CliOption) -> bool {
    exists|i: int| 0 <= i < occ.len() && (#[trigger] occ[i]).0 == option
}

/// Whether some option occurs twice in `occ`.
pub open spec fn repeated(occ: Seq<(CliOption, Seq<char>)>) -> bool {
    exists|i: int, j: int| 0 <= i < j < occ.len() && (#[trigger] occ[i]).0 == (#[trigger] occ[j]).0
}

/// Whether `occ` holds two options that exclude each other.
pub open spec fn conflicting(occ: Seq<(CliOption, Seq<char>)>) -> bool {
    (occurs(occ, CliOption::Pr) && (occurs(occ, CliOption::Base) || occurs(occ, CliOption::Head)))
        || (occurs(occ, CliOption::Format) && occurs(occ, CliOption::Tui))
}

/// The value of the first occurrence of `option` in `occ`.
pub open spec fn value_of(occ: Seq<(CliOption, Seq<char>)>, option: CliOption) -> Option<Seq<char>>
    decreases occ.len(),
{
    if occ.len() == 0 {
        None
    } else if occ[0].0 == option {
        Some(occ[0].1)
    } else {
        value_of(occ.drop_first(), option)
    }
}

/// The program arguments of a full argument list: all but the first.
pub open spec fn program_args(args: Seq<&str>) -> Seq<Seq<char>> {
    if args.len() == 0 {
        Seq::empty()
    } else {
        args.drop_first().map_values(|a: &str| a@)
    }
}

/// Whether `cli` is the command line that the (accepted) occurrences `occ`
/// describe, defaults filled in.
pub open spec fn describes(cli: Cli, occ: Seq<(CliOption, Seq<char>)>) -> bool {
    &&& opt_seq(cli.base) == value_of(occ, CliOption::Base)
    &&& cli.head@ == match value_of(occ, CliOption::Head) {
        Some(v) => v,
        None => "HEAD"@,
    }
    &&& opt_seq(cli.pr) == value_of(occ, CliOption::Pr)
    &&& cli.format == match value_of(occ, CliOption::Format) {
        Some(v) => format_named(v),
        None => None,
    }
    &&& cli.tui == occurs(occ, CliOption::Tui)
    &&& Some(cli.deps) == match value_of(occ, CliOption::Deps) {
        Some(v) => deps_named(v),
        None => Some(1u8),
    }
    &&& Some(cli.deps_scope) == match value_of(occ, CliOption::DepsScope) {
        Some(v) => deps_scope_named(v),
        None => Some(DepsScope::ChangedProjects),
    }
    &&& cli.no_deps_cache == occurs(occ, CliOption::NoDepsCache)
    &&& cli.exclude_tests == occurs(occ, CliOption::ExcludeTests)
    &&& cli.include_generated == occurs(occ, CliOption::IncludeGenerated)
    &&& opt_seq(cli.entry) == value_of(occ, CliOption::Entry)
}

/// An optional string as an optional character sequence.
pub open spec fn opt_seq(s: Option<String>) -> Option<Seq<char>> {
    match s {
        Some(v) => Some(v@),
        None => None,
    }
}

/// The outcome of parsing the full argument list `args` (program name
/// first): the first scanning error; else a conflict when an option repeats
/// or two exclusive options meet; else success.
pub open spec fn parse_outcome(args: Seq<&str>) -> Result<Seq<(CliOption, Seq<char>)>, CliError> {
    match scan(program_args(args)) {
        Err(e) => Err(e),
        Ok(occ) => if repeated(occ) || conflicting(occ) {
            Err(CliError::ArgumentConflict)
        } else {
            Ok(occ)
        },
    }
}

proof fn lemma_digits_value_nonneg(d: Seq<char>)
    requires
        all_digits(d),
    ensures
        digits_value(d) >= 0,
    decreases d.len(),
{
    if d.len() > 0 {
        assert(all_digits(d.drop_last())) by {
            assert forall|i: int| 0 <= i < d.drop_last().len() implies '0' <= #[trigger] d.drop_last()[i] <= '9' by {
                assert(d.drop_last()[i] == d[i]);
            }
        }
        lemma_digits_value_nonneg(d.drop_last());
        assert('0' <= d[d.len() - 1] <= '9');
    }
}

proof fn lemma_value_of_occurs(occ: Seq<(CliOption, Seq<char>)>, option: CliOption)
    ensures
        value_of(occ, option) matches Some(v) ==> exists|i: int| 0 <= i < occ.len() && #[trigger] occ[i] == (option, v),
    decreases occ.len(),
{
    if occ.len() > 0 && occ[0].0 != option {
        lemma_value_of_occurs(occ.drop_first(), option);
        if let Some(v) = value_of(occ, option) {
            let i = choose|i: int| 0 <= i < occ.drop_first().len() && #[trigger] occ.drop_first()[i] == (option, v);
            assert(occ[i + 1] == (option, v));
        }
    } else if occ.len() > 0 {
        assert(occ[0] == (option, occ[0].1));
    }
}

proof fn lemma_scan_values_valid(args: Seq<Seq<char>>)
    ensures
        scan(args) matches Ok(occ) ==> forall|i: int| 0 <= i < occ.len() ==> valid_value(#[trigger] occ[i].0, occ[i].1),
    decreases args.len(),
{
    if args.len() > 0 {
        if let Ok((occurrence, used)) = scan_step(args) {
            if 1 <= used <= args.len() {
                lemma_scan_values_valid(args.skip(used));
                if let Ok(rest) = scan(args.skip(used)) {
                    if let Some(o) = occurrence {
                        let occ = seq![o] + rest;
                        assert forall|i: int| 0 <= i < occ.len() implies valid_value(#[trigger] occ[i].0, occ[i].1) by {
                            if i > 0 {
                                assert(occ[i] == rest[i - 1]);
                            }
                        }
                    }
                }
            }
        }
    }
}

fn long_option_of(name: &[char]) -> (r: Option<CliOption>)
    ensures
        r == long_option(name@),
{
    if chars_are(name, "base") {
        Some(CliOption::Base)
    } else if chars_are(name, "head") {
        Some(CliOption::Head)
    } else if chars_are(name, "pr") {
        Some(CliOption::Pr)
    } else if chars_are(name, "format") {
        Some(CliOption::Format)
    } else if chars_are(name, "tui") {
        Some(CliOption::Tui)
    } else if chars_are(name, "deps") {
        Some(CliOption::Deps)
    } else if chars_are(name, "deps-scope") {
        Some(CliOption::DepsScope)
    } else if chars_are(name, "no-deps-cache") {
        Some(CliOption::NoDepsCache)
    } else if chars_are(name, "exclude-tests") {
        Some(CliOption::ExcludeTests)
    } else if chars_are(name, "include-generated") {
        Some(CliOption::IncludeGenerated)
    } else if chars_are(name, "entry") {
        Some(CliOption::Entry)
    } else {
        None
    }
}

fn format_of(v: &[char]) -> (r: Option<Format>)
    ensures
        r == format_named(v@),
{
    if chars_are(v, "md") {
        Some(Format::Md)
    } else if chars_are(v, "json") {
        Some(Format::Json)
    } else if chars_are(v, "mermaid") {
        Some(Format::Mermaid)
    } else if chars_are(v, "digest") {
        Some(Format::Digest)
    } else {
        None
    }
}

fn deps_scope_of(v: &[char]) -> (r: Option<DepsScope>)
    ensures
        r == deps_scope_named(v@),
{
    if chars_are(v, "changed-projects") {
        Some(DepsScope::ChangedProjects)
    } else if chars_are(v, "repo") {
        Some(DepsScope::Repo)
    } else {
        None
    }
}

fn deps_of(v: &[char]) -> (r: Option<u8>)
    ensures
        r == deps_named(v@),
{
    let n = v.len();
    if n == 0 {
        return None;
    }
    let signed = v[0] == '+' || v[0] == '-';
    let start: usize = if signed {
        1
    } else {
        0
    };
    if start == n {
        return None;
    }
    let mut capped: u8 = 0;
    let mut i: usize = start;
    while i < n
        invariant
            start <= i <= n == v@.len(),
            n > 0,
            signed == (v@[0] == '+' || v@[0] == '-'),
            start == if signed {
                1usize
            } else {
                0usize
            },
            all_digits(v@.subrange(start as int, i as int)),
            digits_value(v@.subrange(start as int, i as int)) >= 0,
            capped as int == if digits_value(v@.subrange(start as int, i as int)) >= 2 {
                2
            } else {
                digits_value(v@.subrange(start as int, i as int))
            },
        decreases n - i,
    {
        let c = v[i];
        if !('0' <= c && c <= '9') {
            let ghost all = v@.subrange(start as int, n as int);
            assert(all[i - start] == c);
            assert(!('0' <= all[i - start] <= '9'));
            assert(!all_digits(all));
            if signed {
                assert(v@.drop_first() =~= all);
            } else {
                assert(v@ =~= all);
            }
            assert(integer_value(v@) is None);
            return None;
        }
        let d: u8 = if c == '0' {
            0
        } else if c == '1' {
            1
        } else {
            2
        };
        let ghost before = v@.subrange(start as int, i as int);
        let ghost after = v@.subrange(start as int, i + 1);
        assert(after.drop_last() == before);
        assert(after.last() == c);
        assert(all_digits(after)) by {
            assert forall|j: int| 0 <= j < after.len() implies '0' <= #[trigger] after[j] <= '9' by {
                if j < before.len() {
                    assert(after[j] == before[j]);
                }
            }
        }
        capped = if capped >= 1 || d >= 2 {
            2
        } else {
            d
        };
        i = i + 1;
    }
    let ghost digits = v@.subrange(start as int, n as int);
    if signed {
        assert(v@.drop_first() =~= digits);
    } else {
        assert(v@ =~= digits);
    }
    if v[0] == '-' {
        if capped == 0 {
            Some(0)
        } else {
            None
        }
    } else if capped < 2 {
        Some(capped)
    } else {
        None
    }
}

fn first_equals(t: &[char]) -> (k: usize)
    requires
        t@.len() >= 2,
    ensures
        k as int == first_equals_from(t@, 2),
        2 <= k <= t@.len(),
{
    let mut k: usize = 2;
    while k < t.len() && t[k] != '='
        invariant
            2 <= k <= t@.len(),
            first_equals_from(t@, k as int) == first_equals_from(t@, 2),
        decreases t@.len() - k,
    {
        k = k + 1;
    }
    k
}

/// The checked value of `option`, or the error it raises.
fn checked_value(option: CliOption, v: Vec<char>) -> (r: Result<Occurrence, CliError>)
    ensures
        valid_value(option, v@) ==> (r matches Ok(o) && occurrence_view(o) == (option, v@)),
        !valid_value(option, v@) ==> r == Err::<Occurrence, CliError>(CliError::InvalidValue),
{
    let valid = match option {
        CliOption::Format => format_of(v.as_slice()).is_some(),
        CliOption::Deps => deps_of(v.as_slice()).is_some(),
        CliOption::DepsScope => deps_scope_of(v.as_slice()).is_some(),
        _ => true,
    };
    if valid {
        Ok(Occurrence { option, value: string_from_chars(v.as_slice()) })
    } else {
        Err(CliError::InvalidValue)
    }
}

/// What `args[i]` amounts to (see [`scan_step`]).
fn scan_one(args: &[&str], i: usize) -> (r: Result<(Option<Occurrence>, usize), CliError>)
    requires
        1 <= i < args@.len(),
    ensures
        match scan_step(program_args(args@).skip(i - 1)) {
            Err(e) => r == Err::<(Option<Occurrence>, usize), CliError>(e),
            Ok((o, used)) => r matches Ok((ro, ru)) && ru as int == used && match ro {
                Some(x) => o == Some(occurrence_view(x)),
                None => o is None,
            },
        },
{
    let ghost rest = program_args(args@).skip(i - 1);
    let t = str_chars(args[i]);
    assert(rest[0] == t@);
    assert(rest.len() == args@.len() - i);
    if chars_are(t.as_slice(), "--") {
        if i + 1 == args.len() {
            return Ok((None, 1));
        } else {
            return Err(CliError::UnknownArgument);
        }
    }
    let n = t.len();
    if n >= 2 && t[0] == '-' && t[1] == '-' {
        let k = first_equals(t.as_slice());
        let name = chars_between(t.as_slice(), 2, k);
        let inline = k < n;
        if chars_are(name.as_slice(), "help") {
            return if inline {
                Err(CliError::UnexpectedValue)
            } else {
                Err(CliError::DisplayHelp)
            };
        }
        if chars_are(name.as_slice(), "version") {
            return if inline {
                Err(CliError::UnexpectedValue)
            } else {
                Err(CliError::DisplayVersion)
            };
        }
        match long_option_of(name.as_slice()) {
            None => Err(CliError::UnknownArgument),
            Some(o) => {
                let switch = match o {
                    CliOption::Tui | CliOption::NoDepsCache | CliOption::ExcludeTests
                    | CliOption::IncludeGenerated => true,
                    _ => false,
                };
                if switch {
                    if inline {
                        Err(CliError::UnexpectedValue)
                    } else {
                        let occurrence = Occurrence { option: o, value: String::new() };
                        Ok((Some(occurrence), 1))
                    }
                } else if inline {
                    let v = chars_between(t.as_slice(), k + 1, n);
                    match checked_value(o, v) {
                        Ok(occurrence) => Ok((Some(occurrence), 1)),
                        Err(e) => Err(e),
                    }
                } else if i + 1 < args.len() {
                    let next = str_chars(args[i + 1]);
                    assert(rest[1] == next@);
                    if next.len() > 1 && next[0] == '-' {
                        Err(CliError::MissingValue)
                    } else {
                        match checked_value(o, next) {
                            Ok(occurrence) => Ok((Some(occurrence), 2)),
                            Err(e) => Err(e),
                        }
                    }
                } else {
                    Err(CliError::MissingValue)
                }
            },
        }
    } else if n > 1 && t[0] == '-' {
        if t[1] == 'h' {
            Err(CliError::DisplayHelp)
        } else if t[1] == 'V' {
            Err(CliError::DisplayVersion)
        } else {
            Err(CliError::UnknownArgument)
        }
    } else {
        Err(CliError::UnknownArgument)
    }
}

/// The occurrences of the program arguments of `args`, or the first error.
fn scan_args(args: &[&str]) -> (r: Result<Vec<Occurrence>, CliError>)
    ensures
        match scan(program_args(args@)) {
            Err(e) => r matches Err(re) && re == e,
            Ok(occ) => r matches Ok(v) && v@.map_values(|o: Occurrence| occurrence_view(o)) == occ,
        },
{
    let mut occurrences: Vec<Occurrence> = Vec::new();
    if args.len() == 0 {
        assert(occurrences@.map_values(|o: Occurrence| occurrence_view(o)) =~= Seq::empty());
        return Ok(occurrences);
    }
    let ghost all = program_args(args@);
    let mut i: usize = 1;
    assert(all.skip(0) =~= all);
    while i < args.len()
        invariant
            1 <= i <= args@.len(),
            all == program_args(args@),
            all.len() == args@.len() - 1,
            scan(all) == match scan(all.skip(i - 1)) {
                Err(e) => Err(e),
                Ok(rest) => Ok(occurrences@.map_values(|o: Occurrence| occurrence_view(o)) + rest),
            },
        decreases args@.len() - i,
    {
        let ghost before = occurrences@.map_values(|o: Occurrence| occurrence_view(o));
        let ghost rest = all.skip(i - 1);
        match scan_one(args, i) {
            Err(e) => {
                return Err(e);
            },
            Ok((found, used)) => {
                assert(rest.skip(used as int) =~= all.skip(i - 1 + used));
                match found {
                    Some(o) => {
                        occurrences.push(o);
                        assert(occurrences@.map_values(|o: Occurrence| occurrence_view(o)) =~= before.push(
                            occurrence_view(o),
                        ));
                        assert forall|tail: Seq<(CliOption, Seq<char>)>|
                            #![auto]
                            before + (seq![occurrence_view(o)] + tail) =~= before.push(occurrence_view(o)) + tail by {}
                    },
                    None => {},
                }
                i = i + used;
            },
        }
    }
    assert(all.skip(i - 1) =~= Seq::<Seq<char>>::empty());
    assert(occurrences@.map_values(|o: Occurrence| occurrence_view(o)) + Seq::empty() =~= occurrences@.map_values(
        |o: Occurrence| occurrence_view(o),
    ));
    Ok(occurrences)
}

/// The occurrences as plain values.
pub open spec fn occurrences_view(v: Seq<Occurrence>) -> Seq<(CliOption, Seq<char>)> {
    v.map_values(|o: Occurrence| occurrence_view(o))
}

fn has_repeat(occ: &Vec<Occurrence>) -> (r: bool)
    ensures
        r == repeated(occurrences_view(occ@)),
{
    let ghost view = occurrences_view(occ@);
    let mut j: usize = 0;
    while j < occ.len()
        invariant
            j <= occ@.len(),
            view == occurrences_view(occ@),
            forall|a: int, b: int| 0 <= a < b < j ==> (#[trigger] view[a]).0 != (#[trigger] view[b]).0,
        decreases occ@.len() - j,
    {
        let mut i: usize = 0;
        while i < j
            invariant
                i <= j < occ@.len(),
                view == occurrences_view(occ@),
                forall|a: int, b: int| 0 <= a < b < j ==> (#[trigger] view[a]).0 != (#[trigger] view[b]).0,
                forall|a: int| 0 <= a < i ==> (#[trigger] view[a]).0 != view[j as int].0,
            decreases j - i,
        {
            if occ[i].option == occ[j].option {
                assert(view[i as int].0 == view[j as int].0);
                return true;
            }
            i = i + 1;
        }
        j = j + 1;
    }
    false
}

fn occurs_in(occ: &Vec<Occurrence>, option: CliOption) -> (r: bool)
    ensures
        r == occurs(occurrences_view(occ@), option),
{
    let ghost view = occurrences_view(occ@);
    let mut i: usize = 0;
    while i < occ.len()
        invariant
            i <= occ@.len(),
            view == occurrences_view(occ@),
            forall|a: int| 0 <= a < i ==> (#[trigger] view[a]).0 != option,
        decreases occ@.len() - i,
    {
        if occ[i].option == option {
            assert(view[i as int].0 == option);
            return true;
        }
        i = i + 1;
    }
    false
}

fn value_in(occ: &Vec<Occurrence>, option: CliOption) -> (r: Option<String>)
    ensures
        opt_seq(r) == value_of(occurrences_view(occ@), option),
{
    let ghost view = occurrences_view(occ@);
    let mut i: usize = 0;
    assert(view.skip(0) =~= view);
    while i < occ.len()
        invariant
            i <= occ@.len(),
            view == occurrences_view(occ@),
            value_of(view, option) == value_of(view.skip(i as int), option),
        decreases occ@.len() - i,
    {
        assert(view.skip(i as int)[0] == view[i as int]);
        if occ[i].option == option {
            return Some(occ[i].value.clone());
        }
        assert(view.skip(i as int).drop_first() =~= view.skip(i + 1));
        i = i + 1;
    }
    None
}

impl Cli {
    /// Parses a full argument list, program name first.
    ///
    /// Fails with the first error met scanning from the left; then with
    /// [`CliError::ArgumentConflict`] when an option is given twice, when
    /// `--pr` meets `--base` or an explicit `--head`, or when `--format`
    /// meets `--tui`. Otherwise every option not given takes its default:
    /// `head` is `HEAD`, `deps` is 1, `deps_scope` is `ChangedProjects`.
    pub fn try_parse_from(args: &[&str]) -> (r: Result<Cli, CliError>)
        ensures
            match parse_outcome(args@) {
                Err(e) => r matches Err(re) && re == e,
                Ok(occ) => r matches Ok(cli) && describes(cli, occ),
            },
    {
        let occ = match scan_args(args) {
            Err(e) => {
                return Err(e);
            },
            Ok(occ) => occ,
        };
        let ghost view = occurrences_view(occ@);
        proof {
            lemma_scan_values_valid(program_args(args@));
        }
        if has_repeat(&occ) {
            return Err(CliError::ArgumentConflict);
        }
        let pr = occurs_in(&occ, CliOption::Pr);
        if pr && (occurs_in(&occ, CliOption::Base) || occurs_in(&occ, CliOption::Head)) {
            return Err(CliError::ArgumentConflict);
        }
        let tui = occurs_in(&occ, CliOption::Tui);
        if tui && occurs_in(&occ, CliOption::Format) {
            return Err(CliError::ArgumentConflict);
        }
        let head = match value_in(&occ, CliOption::Head) {
            Some(h) => h,
            None => "HEAD".to_owned(),
        };
        let format = match value_in(&occ, CliOption::Format) {
            Some(v) => format_of(str_chars(v.as_str()).as_slice()),
            None => None,
        };
        let deps = match value_in(&occ, CliOption::Deps) {
            Some(v) => {
                proof {
                    lemma_value_of_occurs(view, CliOption::Deps);
                }
                match deps_of(str_chars(v.as_str()).as_slice()) {
                    Some(d) => d,
                    None => 1,
                }
            },
            None => 1,
        };
        let deps_scope = match value_in(&occ, CliOption::DepsScope) {
            Some(v) => {
                proof {
                    lemma_value_of_occurs(view, CliOption::DepsScope);
                }
                match deps_scope_of(str_chars(v.as_str()).as_slice()) {
                    Some(d) => d,
                    None => DepsScope::ChangedProjects,
                }
            },
            None => DepsScope::ChangedProjects,
        };
        Ok(Cli {
            base: value_in(&occ, CliOption::Base),
            head,
            pr: value_in(&occ, CliOption::Pr),
            format,
            tui,
            deps,
            deps_scope,
            no_deps_cache: occurs_in(&occ, CliOption::NoDepsCache),
            exclude_tests: occurs_in(&occ, CliOption::ExcludeTests),
            include_generated: occurs_in(&occ, CliOption::IncludeGenerated),
            entry: value_in(&occ, CliOption::Entry),
        })
    }

    /// Parses an argument list that is known to be accepted.
    pub fn parse_from(args: &[&str]) -> (cli: Cli)
        requires
            parse_outcome(args@) is Ok,
        ensures
            describes(cli, parse_outcome(args@)->Ok_0),
    {
        match Cli::try_parse_from(args) {
            Ok(cli) => cli,
            Err(_) => {
                proof {
                    assert(false);
                }
                Cli {
                    base: None,
                    head: String::new(),
                    pr: None,
                    format: None,
                    tui: false,
                    deps: 1,
                    deps_scope: DepsScope::ChangedProjects,
                    no_deps_cache: false,
                    exclude_tests: false,
                    include_generated: false,
                    entry: None,
                }
            },
        }
    }
}

impl From<Format> for OutputFormat {
    fn from(format: Format) -> (r: OutputFormat) {
        match format {
            Format::Md => OutputFormat::Markdown,
            Format::Json => OutputFormat::Json,
            Format::Mermaid => OutputFormat::Mermaid,
            Format::Digest => OutputFormat::Digest,
        }
    }
}

impl vstd::std_specs::convert::FromSpecImpl<Format> for OutputFormat {
    open spec fn obeys_from_spec() -> bool {
        true
    }

    open spec fn from_spec(format: Format) -> OutputFormat {
        match format {
            Format::Md => OutputFormat::Markdown,
            Format::Json => OutputFormat::Json,
            Format::Mermaid => OutputFormat::Mermaid,
            Format::Digest => OutputFormat::Digest,
        }
    }
}

/// The name the command is installed under.
pub const COMMAND_NAME: &'static str = "rinkaku-laravel";

/// The version `--version` prints: the build's version and that it is a
/// fork, so that its binary is never mistaken for the upstream one.
pub fn version() -> (r: String)
    ensures
        r@ == RINKAKU_VERSION@ + " (fork of hiro-o918/rinkaku)"@,
{
    let mut text = RINKAKU_VERSION.to_owned();
    text.append(" (fork of hiro-o918/rinkaku)");
    text
}

/// `--format` and `--tui` exclude each other whichever comes first: with
/// any acceptable format value, both orders scan to occurrences that
/// conflict, which [`parse_outcome`] refuses as
/// [`CliError::ArgumentConflict`].
pub proof fn format_and_tui_conflict_in_either_order(v: Seq<char>)
    requires
        format_named(v) is Some,
    ensures
        ({
            let format = seq!['-', '-', 'f', 'o', 'r', 'm', 'a', 't'];
            let tui = seq!['-', '-', 't', 'u', 'i'];
            &&& scan(seq![format, v, tui]) matches Ok(occ) && conflicting(occ)
            &&& scan(seq![tui, format, v]) matches Ok(occ) && conflicting(occ)
        }),
{
    let format = seq!['-', '-', 'f', 'o', 'r', 'm', 'a', 't'];
    let tui = seq!['-', '-', 't', 'u', 'i'];
    reveal_strlit("base");
    reveal_strlit("head");
    reveal_strlit("pr");
    reveal_strlit("format");
    reveal_strlit("tui");
    reveal_strlit("help");
    reveal_strlit("version");
    reveal_strlit("--");
    reveal_strlit("md");
    reveal_strlit("json");
    reveal_strlit("mermaid");
    reveal_strlit("digest");
    assert(v =~= "md"@ || v =~= "json"@ || v =~= "mermaid"@ || v =~= "digest"@);
    assert(!looks_like_flag(v));
    let f_name = format.subrange(2, 8);
    let t_name = tui.subrange(2, 5);
    assert(f_name =~= "format"@);
    assert(t_name =~= "tui"@);
    assert(first_equals_from(format, 2) == 8) by {
        assert(first_equals_from(format, 8) == 8);
        assert(first_equals_from(format, 7) == 8);
        assert(first_equals_from(format, 6) == 8);
        assert(first_equals_from(format, 5) == 8);
        assert(first_equals_from(format, 4) == 8);
        assert(first_equals_from(format, 3) == 8);
    }
    assert(first_equals_from(tui, 2) == 5) by {
        assert(first_equals_from(tui, 5) == 5);
        assert(first_equals_from(tui, 4) == 5);
        assert(first_equals_from(tui, 3) == 5);
    }
    assert(long_option(f_name) == Some(CliOption::Format));
    assert(long_option(t_name) == Some(CliOption::Tui));
    assert(format != "--"@);
    assert(tui != "--"@);
    assert(f_name != "help"@ && f_name != "version"@);
    assert(t_name != "help"@ && t_name != "version"@);
    // format first
    let a = seq![format, v, tui];
    assert(scan_step(a) == Ok::<(Option<(CliOption, Seq<char>)>, int), CliError>((Some((CliOption::Format, v)), 2)));
    assert(a.skip(2) =~= seq![tui]);
    assert(scan_step(seq![tui]) == Ok::<(Option<(CliOption, Seq<char>)>, int), CliError>(
        (Some((CliOption::Tui, Seq::empty())), 1),
    ));
    assert(seq![tui].skip(1) =~= Seq::<Seq<char>>::empty());
    assert(scan(Seq::<Seq<char>>::empty()) == Ok::<Seq<(CliOption, Seq<char>)>, CliError>(Seq::empty()));
    assert(scan(seq![tui].skip(1)) == Ok::<Seq<(CliOption, Seq<char>)>, CliError>(Seq::empty()));
    let occ_a = seq![(CliOption::Format, v)] + (seq![(CliOption::Tui, Seq::<char>::empty())] + Seq::empty());
    assert(scan(seq![tui]) == Ok::<Seq<(CliOption, Seq<char>)>, CliError>(seq![(CliOption::Tui, Seq::<char>::empty())]
        + Seq::empty()));
    assert(scan(a) == Ok::<Seq<(CliOption, Seq<char>)>, CliError>(occ_a));
    assert(occ_a[0].0 == CliOption::Format && occ_a[1].0 == CliOption::Tui);
    assert(occurs(occ_a, CliOption::Format) && occurs(occ_a, CliOption::Tui));
    // switch first
    let b = seq![tui, format, v];
    assert(scan_step(b) == Ok::<(Option<(CliOption, Seq<char>)>, int), CliError>(
        (Some((CliOption::Tui, Seq::empty())), 1),
    ));
    assert(b.skip(1) =~= seq![format, v]);
    assert(scan_step(seq![format, v]) == Ok::<(Option<(CliOption, Seq<char>)>, int), CliError>(
        (Some((CliOption::Format, v)), 2),
    ));
    assert(seq![format, v].skip(2) =~= Seq::<Seq<char>>::empty());
    assert(scan(seq![format, v].skip(2)) == Ok::<Seq<(CliOption, Seq<char>)>, CliError>(Seq::empty()));
    let occ_b = seq![(CliOption::Tui, Seq::<char>::empty())] + (seq![(CliOption::Format, v)] + Seq::empty());
    assert(scan(seq![format, v]) == Ok::<Seq<(CliOption, Seq<char>)>, CliError>(seq![(CliOption::Format, v)]
        + Seq::empty()));
    assert(scan(b) == Ok::<Seq<(CliOption, Seq<char>)>, CliError>(occ_b));
    assert(occ_b[0].0 == CliOption::Tui && occ_b[1].0 == CliOption::Format);
    assert(occurs(occ_b, CliOption::Format) && occurs(occ_b, CliOption::Tui));
}

} // verus!
