//! The crate's error type and its stable wire codes.

use vstd::prelude::*;

use vstd::string::{StrSliceExecFns, StringExecFns};

verus! {

/// `git2::Error` is carried through unchanged inside `CoreError::Git`; this
/// crate never looks inside it.
#[verifier::external_type_specification]
#[verifier::external_body]
pub struct ExGit2Error(git2::Error);

/// Every failure this crate reports. Each variant has its own stable `code()`;
/// a UI branches on the code, never on message text.
#[derive(Debug)]
pub enum CoreError {
    Git(git2::Error),
    NotARepository(String),
    Invalid(String),
    GitUnavailable { looked_for: String },
    CommitFailed { exit_code: Option<i32>, stderr: String, stdout: String },
    CommitTimedOut { seconds: u64, stderr: String },
    IdentityMissing,
    ConflictsPresent { paths: Vec<String> },
    IndexLocked { lock_path: String },
    BareRepository,
    NothingStaged,
    PathOutsideRepo { path: String },
}

pub type Result<T> = core::result::Result<T, CoreError>;

/// The position of a variant in the declaration above.
pub open spec fn variant_index(e: CoreError) -> int {
    match e {
        CoreError::Git(_) => 0,
        CoreError::NotARepository(_) => 1,
        CoreError::Invalid(_) => 2,
        CoreError::GitUnavailable { .. } => 3,
        CoreError::CommitFailed { .. } => 4,
        CoreError::CommitTimedOut { .. } => 5,
        CoreError::IdentityMissing => 6,
        CoreError::ConflictsPresent { .. } => 7,
        CoreError::IndexLocked { .. } => 8,
        CoreError::BareRepository => 9,
        CoreError::NothingStaged => 10,
        CoreError::PathOutsideRepo { .. } => 11,
    }
}

/// The `camelCase` wire code of each variant.
pub open spec fn code_of(e: CoreError) -> Seq<char> {
    match e {
        CoreError::Git(_) => "git"@,
        CoreError::NotARepository(_) => "notARepository"@,
        CoreError::Invalid(_) => "invalid"@,
        CoreError::GitUnavailable { .. } => "gitUnavailable"@,
        CoreError::CommitFailed { .. } => "commitFailed"@,
        CoreError::CommitTimedOut { .. } => "commitTimedOut"@,
        CoreError::IdentityMissing => "identityMissing"@,
        CoreError::ConflictsPresent { .. } => "conflictsPresent"@,
        CoreError::IndexLocked { .. } => "indexLocked"@,
        CoreError::BareRepository => "bareRepository"@,
        CoreError::NothingStaged => "nothingStaged"@,
        CoreError::PathOutsideRepo { .. } => "pathOutsideRepo"@,
    }
}

impl CoreError {
    /// Stable, `camelCase` wire code.
    pub fn code(&self) -> (r: &'static str)
        ensures
            r@ == code_of(*self),
    {
        match self {
            CoreError::Git(_) => "git",
            CoreError::NotARepository(_) => "notARepository",
            CoreError::Invalid(_) => "invalid",
            CoreError::GitUnavailable { .. } => "gitUnavailable",
            CoreError::CommitFailed { .. } => "commitFailed",
            CoreError::CommitTimedOut { .. } => "commitTimedOut",
            CoreError::IdentityMissing => "identityMissing",
            CoreError::ConflictsPresent { .. } => "conflictsPresent",
            CoreError::IndexLocked { .. } => "indexLocked",
            CoreError::BareRepository => "bareRepository",
            CoreError::NothingStaged => "nothingStaged",
            CoreError::PathOutsideRepo { .. } => "pathOutsideRepo",
        }
    }
}

/// Refusals are never collapsed into one generic failure: two errors of
/// different kinds always carry different wire codes.
pub proof fn codes_are_distinct(a: CoreError, b: CoreError)
    requires
        variant_index(a) != variant_index(b),
    ensures
        code_of(a) != code_of(b),
{
    reveal_strlit("git");
    reveal_strlit("notARepository");
    reveal_strlit("invalid");
    reveal_strlit("gitUnavailable");
    reveal_strlit("commitFailed");
    reveal_strlit("commitTimedOut");
    reveal_strlit("identityMissing");
    reveal_strlit("conflictsPresent");
    reveal_strlit("indexLocked");
    reveal_strlit("bareRepository");
    reveal_strlit("nothingStaged");
    reveal_strlit("pathOutsideRepo");
    let ca = code_of(a);
    let cb = code_of(b);
    if ca == cb {
        assert(ca.len() == cb.len());
        assert(ca[0] == cb[0]);
    }
}

/// The decimal digits.
pub open spec fn digit_chars() -> Seq<char> {
    seq!['0', '1', '2', '3', '4', '5', '6', '7', '8', '9']
}

/// `n` written in decimal.
pub open spec fn decimal(n: nat) -> Seq<char>
    decreases n,
{
    if n < 10 {
        seq![digit_chars()[n as int]]
    } else {
        decimal(n / 10).push(digit_chars()[(n % 10) as int])
    }
}

/// `x` written in decimal, with a `-` when negative.
pub open spec fn signed_decimal(x: int) -> Seq<char> {
    if x < 0 {
        "-"@ + decimal((-x) as nat)
    } else {
        decimal(x as nat)
    }
}

/// An exit code as `{:?}` shows an `Option<i32>`.
pub open spec fn exit_code_text(code: Option<i32>) -> Seq<char> {
    match code {
        Some(x) => "Some("@ + signed_decimal(x as int) + ")"@,
        None => "None"@,
    }
}

/// The human-readable message of each variant but `Git`, whose message is
/// the text of the carried `git2::Error`. A UI shows it; it never branches
/// on it.
pub open spec fn message_of(e: CoreError) -> Seq<char> {
    match e {
        CoreError::Git(_) => Seq::empty(),
        CoreError::NotARepository(s) => s@,
        CoreError::Invalid(s) => s@,
        CoreError::GitUnavailable { looked_for } => "git executable not found (looked for "@
            + looked_for@ + ")"@,
        CoreError::CommitFailed { exit_code, .. } => "git exited with status "@ + exit_code_text(
            exit_code,
        ),
        CoreError::CommitTimedOut { seconds, .. } => "git did not finish within "@ + decimal(
            seconds as nat,
        ) + " seconds and was stopped"@,
        CoreError::IdentityMissing => "no author identity configured — set user.name and user.email"@,
        CoreError::ConflictsPresent { .. } => "this repository has unresolved conflicts"@,
        CoreError::IndexLocked { lock_path } => "the index is locked by another git process ("@
            + lock_path@ + ")"@,
        CoreError::BareRepository => "this is a bare repository and has no working directory"@,
        CoreError::NothingStaged => "nothing is staged"@,
        CoreError::PathOutsideRepo { path } => path@ + " is outside the repository"@,
    }
}

/// The variants whose wire shape carries details beside code and message.
pub open spec fn has_details_of(e: CoreError) -> bool {
    ||| e is GitUnavailable
    ||| e is CommitFailed
    ||| e is CommitTimedOut
    ||| e is ConflictsPresent
    ||| e is IndexLocked
    ||| e is PathOutsideRepo
}

/// `n` in decimal.
pub fn decimal_text(n: u64) -> (r: String)
    ensures
        r@ == decimal(n as nat),
    decreases n,
{
    let digits = "0123456789";
    proof {
        reveal_strlit("0123456789");
        assert(digits@ =~= digit_chars());
    }
    if n < 10 {
        String::from_str(digits.substring_char(n as usize, n as usize + 1))
    } else {
        let mut text = decimal_text(n / 10);
        let d = (n % 10) as usize;
        text.append(digits.substring_char(d, d + 1));
        proof {
            assert(digits@.subrange(d as int, d + 1) =~= seq![digit_chars()[d as int]]);
        }
        text
    }
}

fn signed_text(x: i32) -> (r: String)
    ensures
        r@ == signed_decimal(x as int),
{
    if x < 0 {
        let mut text = String::from_str("-");
        let wide: i64 = x as i64;
        let positive: i64 = 0 - wide;
        assert(positive > 0);
        let magnitude = decimal_text(positive as u64);
        text.append(magnitude.as_str());
        text
    } else {
        decimal_text(x as u64)
    }
}

/// The text `git2::Error` displays. Nothing is stated of it: it is that
/// crate's own rendering of the error, which this crate never inspects.
#[verifier::external_body]
fn git_error_text(e: &git2::Error) -> String {
    e.to_string()
}

impl CoreError {
    /// The human-readable message: for `Git`, the carried error's own text.
    pub fn message(&self) -> (m: String)
        ensures
            !(*self is Git) ==> m@ == message_of(*self),
    {
        match self {
            CoreError::Git(e) => git_error_text(e),
            CoreError::NotARepository(s) => s.clone(),
            CoreError::Invalid(s) => s.clone(),
            CoreError::GitUnavailable { looked_for } => {
                let mut m = String::from_str("git executable not found (looked for ");
                m.append(looked_for.as_str());
                m.append(")");
                m
            },
            CoreError::CommitFailed { exit_code, .. } => {
                let mut m = String::from_str("git exited with status ");
                match exit_code {
                    Some(x) => {
                        m.append("Some(");
                        let code = signed_text(*x);
                        m.append(code.as_str());
                        m.append(")");
                    },
                    None => m.append("None"),
                }
                m
            },
            CoreError::CommitTimedOut { seconds, .. } => {
                let mut m = String::from_str("git did not finish within ");
                let secs = decimal_text(*seconds);
                m.append(secs.as_str());
                m.append(" seconds and was stopped");
                m
            },
            CoreError::IdentityMissing => String::from_str(
                "no author identity configured — set user.name and user.email",
            ),
            CoreError::ConflictsPresent { .. } => String::from_str(
                "this repository has unresolved conflicts",
            ),
            CoreError::IndexLocked { lock_path } => {
                let mut m = String::from_str("the index is locked by another git process (");
                m.append(lock_path.as_str());
                m.append(")");
                m
            },
            CoreError::BareRepository => String::from_str(
                "this is a bare repository and has no working directory",
            ),
            CoreError::NothingStaged => String::from_str("nothing is staged"),
            CoreError::PathOutsideRepo { path } => {
                let mut m = path.clone();
                m.append(" is outside the repository");
                m
            },
        }
    }

    /// Whether the wire shape carries details beside code and message.
    pub fn has_details(&self) -> (r: bool)
        ensures
            r == has_details_of(*self),
    {
        match self {
            CoreError::GitUnavailable { .. } => true,
            CoreError::CommitFailed { .. } => true,
            CoreError::CommitTimedOut { .. } => true,
            CoreError::ConflictsPresent { .. } => true,
            CoreError::IndexLocked { .. } => true,
            CoreError::PathOutsideRepo { .. } => true,
            _ => false,
        }
    }
}

} // verus!
