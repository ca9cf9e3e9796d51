//! Choosing the user's own `git` binary for the commit step.
//!
//! A candidate is picked by precedence (explicit override, then the
//! `GITVISOR_GIT_PATH` environment variable, then a `PATH` lookup) and only
//! then validated: its `--version` output must start with `git version `.
//! The fixed settings of every invocation (the environment it gets and the
//! arguments of the commit) and the timings of the timeout ladder are here too.
//! Looking things up on disk and running the candidate happen outside this
//! crate; the decisions on what came back happen here.

use vstd::prelude::*;

use vstd::string::{StrSliceExecFns, StringExecFns};

use crate::error::{CoreError, Result};
use crate::model::GitProbe;

verus! {

/// A `git` binary that has been picked, but not yet validated.
pub struct ResolvedGit {
    pub path: String,
}

/// What the refusal names when no candidate resolved.
pub open spec fn looked_for_text() -> Seq<char> {
    "git (explicit override, GITVISOR_GIT_PATH, then PATH) — none resolved"@
}

/// A value that is present and not empty.
pub open spec fn given(o: Option<&str>) -> bool {
    o is Some && o->0@.len() > 0
}

pub open spec fn given_string(o: Option<String>) -> bool {
    o is Some && o->0@.len() > 0
}

/// Pick a `git` candidate: a non-empty explicit override, else a non-empty
/// `GITVISOR_GIT_PATH` value (`env_path`), else what a `PATH` lookup found
/// (`found_on_path`). Nothing is validated here.
pub fn resolve(
    override_path: Option<&str>,
    env_path: Option<String>,
    found_on_path: Option<String>,
) -> (r: Result<ResolvedGit>)
    ensures
        given(override_path) ==> (r matches Ok(g) && g.path@ == override_path->0@),
        !given(override_path) && given_string(env_path) ==> (r matches Ok(g) && g.path
            == env_path->0),
        !given(override_path) && !given_string(env_path) && found_on_path is Some ==> (
        r matches Ok(g) && g.path == found_on_path->0),
        !given(override_path) && !given_string(env_path) && found_on_path is None ==> (
        r matches Err(CoreError::GitUnavailable { looked_for }) && looked_for@
            == looked_for_text()),
{
    if let Some(path) = override_path {
        if !path.is_empty() {
            return Ok(ResolvedGit { path: String::from_str(path) });
        }
    }
    if let Some(path) = env_path {
        if !path.as_str().is_empty() {
            return Ok(ResolvedGit { path });
        }
    }
    if let Some(path) = found_on_path {
        return Ok(ResolvedGit { path });
    }
    Err(
        CoreError::GitUnavailable {
            looked_for: String::from_str(
                "git (explicit override, GITVISOR_GIT_PATH, then PATH) — none resolved",
            ),
        },
    )
}

/// Unicode `White_Space`, the characters `char::is_whitespace` accepts.
pub open spec fn is_white_space(c: char) -> bool {
    ||| '\u{9}' <= c <= '\u{d}'
    ||| c == ' '
    ||| c == '\u{85}'
    ||| c == '\u{a0}'
    ||| c == '\u{1680}'
    ||| '\u{2000}' <= c <= '\u{200a}'
    ||| c == '\u{2028}'
    ||| c == '\u{2029}'
    ||| c == '\u{202f}'
    ||| c == '\u{205f}'
    ||| c == '\u{3000}'
}

fn white_space(c: char) -> (r: bool)
    ensures
        r == is_white_space(c),
{
    ('\u{9}' <= c && c <= '\u{d}') || c == ' ' || c == '\u{85}' || c == '\u{a0}' || c
        == '\u{1680}' || ('\u{2000}' <= c && c <= '\u{200a}') || c == '\u{2028}' || c
        == '\u{2029}' || c == '\u{202f}' || c == '\u{205f}' || c == '\u{3000}'
}

/// Leading white space removed.
pub open spec fn trim_front(s: Seq<char>) -> Seq<char>
    decreases s.len(),
{
    if s.len() > 0 && is_white_space(s[0]) {
        trim_front(s.drop_first())
    } else {
        s
    }
}

/// Trailing white space removed.
pub open spec fn trim_back(s: Seq<char>) -> Seq<char>
    decreases s.len(),
{
    if s.len() > 0 && is_white_space(s.last()) {
        trim_back(s.drop_last())
    } else {
        s
    }
}

/// Leading and trailing white space removed, as `str::trim` does.
pub open spec fn trimmed(s: Seq<char>) -> Seq<char> {
    trim_back(trim_front(s))
}

fn trim(s: &str) -> (r: String)
    ensures
        r@ == trimmed(s@),
{
    let n = s.unicode_len();
    let mut a: usize = 0;
    assert(s@.subrange(0, n as int) =~= s@);
    while a < n && white_space(s.get_char(a))
        invariant
            n == s@.len(),
            0 <= a <= n,
            trim_front(s@) == trim_front(s@.subrange(a as int, n as int)),
        decreases n - a,
    {
        assert(s@.subrange(a as int, n as int).drop_first() =~= s@.subrange(a + 1, n as int));
        a += 1;
    }
    let ghost front = s@.subrange(a as int, n as int);
    assert(trim_front(s@) == front);
    let mut b: usize = n;
    assert(front.subrange(0, (b - a) as int) =~= front);
    while b > a && white_space(s.get_char(b - 1))
        invariant
            n == s@.len(),
            0 <= a <= b <= n,
            front == s@.subrange(a as int, n as int),
            trim_back(front) == trim_back(s@.subrange(a as int, b as int)),
        decreases b - a,
    {
        assert(s@.subrange(a as int, b as int).drop_last() =~= s@.subrange(a as int, b - 1));
        b -= 1;
    }
    String::from_str(s.substring_char(a, b))
}

/// The version line of an accepted candidate: its `--version` run succeeded
/// and printed something starting with `git version `; that output, trimmed.
pub open spec fn version_line_of(succeeded: bool, stdout: Seq<char>) -> Option<Seq<char>> {
    if succeeded && stdout.len() >= 12 && stdout.take(12) == "git version "@ {
        Some(trimmed(stdout))
    } else {
        None
    }
}

pub fn version_line(succeeded: bool, stdout: &str) -> (r: Option<String>)
    ensures
        match r {
            Some(line) => version_line_of(succeeded, stdout@) == Some(line@),
            None => version_line_of(succeeded, stdout@) is None,
        },
{
    proof {
        reveal_strlit("git version ");
    }
    if !succeeded {
        return None;
    }
    let n = stdout.unicode_len();
    if n < 12 {
        return None;
    }
    let prefix = "git version ";
    let mut k: usize = 0;
    while k < 12
        invariant
            n == stdout@.len(),
            n >= 12,
            prefix@ == "git version "@,
            prefix@.len() == 12,
            0 <= k <= 12,
            forall|j: int| 0 <= j < k ==> stdout@[j] == prefix@[j],
        decreases 12 - k,
    {
        if stdout.get_char(k) != prefix.get_char(k) {
            assert(stdout@.take(12)[k as int] != prefix@[k as int]);
            return None;
        }
        k += 1;
    }
    assert(stdout@.take(12) =~= prefix@);
    Some(trim(stdout))
}

/// The probe result: no candidate resolved, a candidate that was rejected,
/// or an accepted candidate with its version line.
pub fn probe(candidate: Option<String>, version: Option<String>) -> (p: GitProbe)
    ensures
        candidate is None ==> !p.available && p.path is None && p.version is None,
        candidate is Some && version is None ==> !p.available && p.path == candidate
            && p.version is None,
        candidate is Some && version is Some ==> p.available && p.path == candidate && p.version
            == version,
{
    match candidate {
        None => GitProbe { available: false, path: None, version: None },
        Some(path) => match version {
            Some(version) => GitProbe { available: true, path: Some(path), version: Some(version) },
            None => GitProbe { available: false, path: Some(path), version: None },
        },
    }
}

/// Environment variables removed from every `git` invocation: inherited,
/// they would commit into another repository or index than the one shown.
pub fn removed_env_vars() -> (vars: Vec<&'static str>)
    ensures
        vars@.map_values(|v: &'static str| v@) == seq![
            "GIT_DIR"@,
            "GIT_WORK_TREE"@,
            "GIT_INDEX_FILE"@,
            "GIT_COMMON_DIR"@,
            "GIT_OBJECT_DIRECTORY"@,
            "GIT_ALTERNATE_OBJECT_DIRECTORIES"@,
            "GIT_NAMESPACE"@,
        ],
{
    let vars = vec![
        "GIT_DIR",
        "GIT_WORK_TREE",
        "GIT_INDEX_FILE",
        "GIT_COMMON_DIR",
        "GIT_OBJECT_DIRECTORY",
        "GIT_ALTERNATE_OBJECT_DIRECTORIES",
        "GIT_NAMESPACE",
    ];
    assert(vars@.map_values(|v: &'static str| v@) =~= seq![
        "GIT_DIR"@,
        "GIT_WORK_TREE"@,
        "GIT_INDEX_FILE"@,
        "GIT_COMMON_DIR"@,
        "GIT_OBJECT_DIRECTORY"@,
        "GIT_ALTERNATE_OBJECT_DIRECTORIES"@,
        "GIT_NAMESPACE"@,
    ]);
    vars
}

/// Environment variables set on every `git` invocation, so it never stops
/// to ask on a terminal or open an editor.
pub fn set_env_vars() -> (vars: Vec<(&'static str, &'static str)>)
    ensures
        vars@.map_values(|v: (&'static str, &'static str)| (v.0@, v.1@)) == seq![
            ("GIT_TERMINAL_PROMPT"@, "0"@),
            ("GIT_EDITOR"@, ":"@),
            ("GIT_SEQUENCE_EDITOR"@, ":"@),
        ],
{
    let vars = vec![("GIT_TERMINAL_PROMPT", "0"), ("GIT_EDITOR", ":"), ("GIT_SEQUENCE_EDITOR", ":")];
    assert(vars@.map_values(|v: (&'static str, &'static str)| (v.0@, v.1@)) =~= seq![
        ("GIT_TERMINAL_PROMPT"@, "0"@),
        ("GIT_EDITOR"@, ":"@),
        ("GIT_SEQUENCE_EDITOR"@, ":"@),
    ]);
    vars
}

/// The arguments of the commit, after `-C <workdir>`: no pager, the message
/// read from standard input and cleaned of surrounding white space. Never
/// `--no-verify`, never `-a`.
pub fn commit_arguments() -> (args: Vec<&'static str>)
    ensures
        args@.map_values(|a: &'static str| a@) == seq![
            "--no-pager"@,
            "commit"@,
            "--file=-"@,
            "--cleanup=whitespace"@,
        ],
{
    let args = vec!["--no-pager", "commit", "--file=-", "--cleanup=whitespace"];
    assert(args@.map_values(|a: &'static str| a@) =~= seq![
        "--no-pager"@,
        "commit"@,
        "--file=-"@,
        "--cleanup=whitespace"@,
    ]);
    args
}

/// Seconds a commit may run before the timeout ladder starts, unless
/// `GITVISOR_COMMIT_TIMEOUT_SECS` says otherwise.
pub const DEFAULT_COMMIT_TIMEOUT_SECS: u64 = 120;

/// Seconds between `SIGTERM` and `SIGKILL` on the timeout ladder.
pub const GRACE_SECS: u64 = 5;

/// Milliseconds between two looks at whether the commit process ended.
pub const POLL_MILLIS: u64 = 50;

/// A decimal digit.
pub open spec fn is_digit(c: char) -> bool {
    '0' <= c <= '9'
}

/// The value of a string of decimal digits.
pub open spec fn digits_value(s: Seq<char>) -> int
    decreases s.len(),
{
    if s.len() == 0 {
        0
    } else {
        digits_value(s.drop_last()) * 10 + (s.last() as int - '0' as int)
    }
}

/// `s` without one leading `+`.
pub open spec fn sign_stripped(s: Seq<char>) -> Seq<char> {
    if s.len() > 0 && s[0] == '+' {
        s.drop_first()
    } else {
        s
    }
}

/// One or more decimal digits whose value fits in a `u64`.
pub open spec fn fitting_digits(digits: Seq<char>) -> bool {
    &&& digits.len() > 0
    &&& forall|i: int| 0 <= i < digits.len() ==> is_digit(digits[i])
    &&& digits_value(digits) <= u64::MAX
}

/// What `str::parse::<u64>` gives: an optional `+`, then one or more decimal
/// digits whose value fits in a `u64`.
pub open spec fn parsed_u64(s: Seq<char>) -> Option<int> {
    if fitting_digits(sign_stripped(s)) {
        Some(digits_value(sign_stripped(s)))
    } else {
        None
    }
}

proof fn lemma_digits_value_grows(s: Seq<char>, i: int, j: int)
    requires
        0 <= i <= j <= s.len(),
        forall|k: int| 0 <= k < s.len() ==> is_digit(s[k]),
    ensures
        digits_value(s.take(i)) <= digits_value(s.take(j)),
        digits_value(s.take(j)) >= 0,
    decreases j,
{
    if j > 0 {
        assert(s.take(j).drop_last() =~= s.take(j - 1));
        assert(s.take(j).last() == s[j - 1]);
        let i2 = if i < j {
            i
        } else {
            j - 1
        };
        lemma_digits_value_grows(s, i2, j - 1);
    } else {
        assert(s.take(0).len() == 0);
    }
}

/// A decimal `u64`, as `str::parse::<u64>` reads it.
pub fn parse_u64(s: &str) -> (r: Option<u64>)
    ensures
        match r {
            Some(v) => parsed_u64(s@) == Some(v as int),
            None => parsed_u64(s@) is None,
        },
{
    let n = s.unicode_len();
    let start: usize = if n > 0 && s.get_char(0) == '+' {
        1
    } else {
        0
    };
    let ghost digits = sign_stripped(s@);
    assert(digits =~= s@.subrange(start as int, n as int));
    if start == n {
        return None;
    }
    let mut value: u64 = 0;
    let mut i: usize = start;
    while i < n
        invariant
            n == s@.len(),
            start <= i <= n,
            digits == s@.subrange(start as int, n as int),
            digits == sign_stripped(s@),
            forall|k: int| 0 <= k < i - start ==> is_digit(digits[k]),
            value == digits_value(digits.take(i - start)),
        decreases n - i,
    {
        let c = s.get_char(i);
        if c < '0' || c > '9' {
            assert(!is_digit(digits[i - start]));
            assert(parsed_u64(s@) is None);
            return None;
        }
        let d = (c as u32 - '0' as u32) as u64;
        assert(digits.take(i - start + 1).drop_last() =~= digits.take(i - start));
        assert(digits_value(digits.take(i - start + 1)) == value * 10 + d);
        match value.checked_mul(10) {
            Some(tens) => match tens.checked_add(d) {
                Some(next) => {
                    value = next;
                },
                None => {
                    proof {
                        lemma_no_fit_stays_out(digits, i - start + 1);
                    }
                    assert(parsed_u64(s@) is None);
                    return None;
                },
            },
            None => {
                proof {
                    lemma_no_fit_stays_out(digits, i - start + 1);
                }
                assert(parsed_u64(s@) is None);
                return None;
            },
        }
        i += 1;
    }
    assert(digits.take(digits.len() as int) =~= digits);
    Some(value)
}

/// Once a prefix of digits is too large for a `u64`, so is the whole.
proof fn lemma_no_fit_stays_out(digits: Seq<char>, m: int)
    requires
        0 < m <= digits.len(),
        digits_value(digits.take(m)) > u64::MAX,
    ensures
        !fitting_digits(digits),
{
    if forall|k: int| 0 <= k < digits.len() ==> is_digit(digits[k]) {
        lemma_digits_value_grows(digits, m, digits.len() as int);
        assert(digits.take(digits.len() as int) =~= digits);
    }
}

/// The commit timeout in seconds: the setting's value when it is a decimal
/// `u64`, else `DEFAULT_COMMIT_TIMEOUT_SECS`.
pub fn commit_timeout_secs(setting: Option<&str>) -> (secs: u64)
    ensures
        secs == (match setting {
            Some(text) => match parsed_u64(text@) {
                Some(v) => v,
                None => DEFAULT_COMMIT_TIMEOUT_SECS as int,
            },
            None => DEFAULT_COMMIT_TIMEOUT_SECS as int,
        }),
{
    match setting {
        Some(text) => match parse_u64(text) {
            Some(v) => v,
            None => DEFAULT_COMMIT_TIMEOUT_SECS,
        },
        None => DEFAULT_COMMIT_TIMEOUT_SECS,
    }
}

} // verus!
