//! Path safety for staging and unstaging.
//!
//! A caller-supplied, repository-relative path is normalised before any write
//! touches it, and anything that would escape the repository once normalised
//! is refused with `PathOutsideRepo`, a code a UI can branch on.

use vstd::prelude::*;

use vstd::string::{StrSliceExecFns, StringExecFns};

use crate::error::{CoreError, Result};

verus! {

pub open spec fn is_separator(c: char) -> bool {
    c == '/' || c == '\\'
}

pub open spec fn is_ascii_alphabetic(c: char) -> bool {
    ('a' <= c && c <= 'z') || ('A' <= c && c <= 'Z')
}

/// `C:`-style prefix: an ASCII letter followed by a colon.
pub open spec fn has_drive_prefix(s: Seq<char>) -> bool {
    s.len() >= 2 && is_ascii_alphabetic(s[0]) && s[1] == ':'
}

/// The pieces of `s` between separators (`/` or `\`), empty ones included.
pub open spec fn split_parts(s: Seq<char>) -> Seq<Seq<char>>
    decreases s.len(),
{
    if s.len() == 0 {
        seq![Seq::empty()]
    } else {
        let prev = split_parts(s.drop_last());
        if is_separator(s.last()) {
            prev.push(Seq::empty())
        } else {
            prev.update(prev.len() - 1, prev.last().push(s.last()))
        }
    }
}

pub open spec fn dot() -> Seq<char> {
    seq!['.']
}

pub open spec fn dot_dot() -> Seq<char> {
    seq!['.', '.']
}

/// One component applied to the stack of kept components: empty pieces and
/// `.` are skipped, `..` removes the last kept component (and escapes the
/// repository when there is none), anything else is kept.
pub open spec fn walk_step(stack: Seq<Seq<char>>, part: Seq<char>) -> Option<Seq<Seq<char>>> {
    if part.len() == 0 || part == dot() {
        Some(stack)
    } else if part == dot_dot() {
        if stack.len() == 0 {
            None
        } else {
            Some(stack.drop_last())
        }
    } else {
        Some(stack.push(part))
    }
}

/// All components, left to right; `None` once a `..` escapes.
pub open spec fn walk(parts: Seq<Seq<char>>) -> Option<Seq<Seq<char>>>
    decreases parts.len(),
{
    if parts.len() == 0 {
        Some(Seq::empty())
    } else {
        match walk(parts.drop_last()) {
            Some(stack) => walk_step(stack, parts.last()),
            None => None,
        }
    }
}

pub open spec fn ascii_lower(c: char) -> char {
    if 'A' <= c && c <= 'Z' {
        ((c as u8) + 32) as char
    } else {
        c
    }
}

/// `.git`, compared ignoring ASCII case.
pub open spec fn is_dot_git(part: Seq<char>) -> bool {
    &&& part.len() == 4
    &&& ascii_lower(part[0]) == '.'
    &&& ascii_lower(part[1]) == 'g'
    &&& ascii_lower(part[2]) == 'i'
    &&& ascii_lower(part[3]) == 't'
}

/// The parts joined with `/`.
pub open spec fn join(parts: Seq<Seq<char>>) -> Seq<char>
    decreases parts.len(),
{
    if parts.len() == 0 {
        Seq::empty()
    } else if parts.len() == 1 {
        parts[0]
    } else {
        join(parts.drop_last()) + seq!['/'] + parts.last()
    }
}

/// The normalised form of `input`, or `None` when it is refused: a NUL byte,
/// an empty path, an absolute or drive-prefixed path, a `..` that climbs
/// above the root, nothing left once normalised, or a first component that
/// is `.git` in any ASCII case.
pub open spec fn normalised(input: Seq<char>) -> Option<Seq<char>> {
    if input.contains('\0') || input.len() == 0 || is_separator(input[0]) || has_drive_prefix(
        input,
    ) {
        None
    } else {
        match walk(split_parts(input)) {
            None => None,
            Some(stack) => if stack.len() == 0 || is_dot_git(stack[0]) {
                None
            } else {
                Some(join(stack))
            },
        }
    }
}


pub proof fn lemma_split_parts_nonempty(s: Seq<char>)
    ensures
        split_parts(s).len() >= 1,
    decreases s.len(),
{
    if s.len() > 0 {
        lemma_split_parts_nonempty(s.drop_last());
    }
}

/// Once a `..` has escaped, no further input brings the path back.
proof fn lemma_walk_none_extends(s: Seq<char>, m: int)
    requires
        0 <= m <= s.len(),
        walk(split_parts(s.subrange(0, m)).drop_last()) is None,
    ensures
        walk(split_parts(s)) is None,
    decreases s.len() - m,
{
    let prev = split_parts(s.subrange(0, m));
    lemma_split_parts_nonempty(s.subrange(0, m));
    if m == s.len() {
        assert(s.subrange(0, m) =~= s);
        assert(prev =~= prev.drop_last().push(prev.last()));
    } else {
        let t = s.subrange(0, m + 1);
        assert(t.drop_last() =~= s.subrange(0, m));
        assert(t.last() == s[m]);
        if is_separator(s[m]) {
            assert(split_parts(t).drop_last() =~= prev);
            assert(prev =~= prev.drop_last().push(prev.last()));
        } else {
            assert(split_parts(t).drop_last() =~= prev.drop_last());
        }
        lemma_walk_none_extends(s, m + 1);
    }
}

/// Kept components as character ranges of the input.
pub open spec fn range_parts(chars: Seq<char>, ranges: Seq<(usize, usize)>) -> Seq<Seq<char>> {
    Seq::new(ranges.len(), |k: int| chars.subrange(ranges[k].0 as int, ranges[k].1 as int))
}

pub open spec fn ranges_within(ranges: Seq<(usize, usize)>, n: int) -> bool {
    forall|k: int| 0 <= k < ranges.len() ==> (#[trigger] ranges[k]).0 <= ranges[k].1 <= n
}

fn outside(input: &str) -> (e: CoreError)
    ensures
        e matches CoreError::PathOutsideRepo { path } && path@ == input@,
{
    CoreError::PathOutsideRepo { path: String::from_str(input) }
}

fn is_separator_char(c: char) -> (r: bool)
    ensures
        r == is_separator(c),
{
    c == '/' || c == '\\'
}

fn ascii_lower_char(c: char) -> (r: char)
    ensures
        r == ascii_lower(c),
{
    if 'A' <= c && c <= 'Z' {
        ((c as u8) + 32) as char
    } else {
        c
    }
}

/// `C:`-style prefix, read character by character: an ASCII letter is a
/// single byte, so this is the same as looking at the first two bytes.
fn has_windows_drive_prefix(input: &str) -> (r: bool)
    ensures
        r == has_drive_prefix(input@),
{
    let n = input.unicode_len();
    if n < 2 {
        return false;
    }
    let first = input.get_char(0);
    let alphabetic = ('a' <= first && first <= 'z') || ('A' <= first && first <= 'Z');
    alphabetic && input.get_char(1) == ':'
}

/// Apply one component, `chars[start..end]`, to the stack of kept ranges.
/// Returns `false` when a `..` climbs above the root.
fn apply_component(
    chars: &Vec<char>,
    stack: &mut Vec<(usize, usize)>,
    start: usize,
    end: usize,
) -> (kept: bool)
    requires
        start <= end <= chars@.len(),
        ranges_within(old(stack)@, chars@.len() as int),
    ensures
        ranges_within(final(stack)@, chars@.len() as int),
        kept == walk_step(range_parts(chars@, old(stack)@), chars@.subrange(start as int, end as int))
            is Some,
        kept ==> range_parts(chars@, final(stack)@) == walk_step(
            range_parts(chars@, old(stack)@),
            chars@.subrange(start as int, end as int),
        )->0,
{
    let ghost part = chars@.subrange(start as int, end as int);
    let ghost before = range_parts(chars@, stack@);
    let len = end - start;
    if len == 0 || (len == 1 && chars[start] == '.') {
        proof {
            if len == 1 {
                assert(part =~= dot());
            }
        }
        return true;
    }
    assert(part != dot()) by {
        if part == dot() {
            assert(part.len() == 1 && part[0] == '.');
        }
    }
    if len == 2 && chars[start] == '.' && chars[start + 1] == '.' {
        assert(part =~= dot_dot());
        if stack.len() == 0 {
            return false;
        }
        stack.pop();
        assert(range_parts(chars@, stack@) =~= before.drop_last());
        return true;
    }
    assert(part != dot_dot()) by {
        if part == dot_dot() {
            assert(part.len() == 2 && part[0] == '.' && part[1] == '.');
        }
    }
    stack.push((start, end));
    assert(range_parts(chars@, stack@) =~= before.push(part));
    true
}

/// The characters of `input`, one by one.
fn collect_chars(input: &str) -> (chars: Vec<char>)
    ensures
        chars@ == input@,
{
    let n = input.unicode_len();
    let mut chars: Vec<char> = Vec::new();
    let mut i: usize = 0;
    while i < n
        invariant
            n == input@.len(),
            0 <= i <= n,
            chars@ == input@.subrange(0, i as int),
        decreases n - i,
    {
        chars.push(input.get_char(i));
        i += 1;
        assert(chars@ =~= input@.subrange(0, i as int));
    }
    assert(chars@ =~= input@);
    chars
}

fn contains_nul(chars: &Vec<char>) -> (r: bool)
    ensures
        r == chars@.contains('\0'),
{
    let mut j: usize = 0;
    while j < chars.len()
        invariant
            0 <= j <= chars@.len(),
            forall|k: int| 0 <= k < j ==> chars@[k] != '\0',
        decreases chars@.len() - j,
    {
        if chars[j] == '\0' {
            assert(chars@[j as int] == '\0');
            return true;
        }
        j += 1;
    }
    false
}

/// Split on separators and apply every component in order: the kept
/// components as ranges, or `None` once a `..` escapes.
fn walk_components(chars: &Vec<char>) -> (r: Option<Vec<(usize, usize)>>)
    ensures
        match r {
            Some(stack) => ranges_within(stack@, chars@.len() as int) && walk(split_parts(chars@))
                == Some(range_parts(chars@, stack@)),
            None => walk(split_parts(chars@)) is None,
        },
{
    let ghost s = chars@;
    let n = chars.len();
    let mut stack: Vec<(usize, usize)> = Vec::new();
    let mut start: usize = 0;
    let mut i: usize = 0;
    assert(s.subrange(0, 0) =~= Seq::<char>::empty());
    assert(split_parts(s.subrange(0, 0)).drop_last() =~= Seq::<Seq<char>>::empty());
    assert(range_parts(chars@, stack@) =~= Seq::<Seq<char>>::empty());
    while i < n
        invariant
            n == s.len(),
            chars@ == s,
            0 <= start <= i <= n,
            ranges_within(stack@, n as int),
            split_parts(s.subrange(0, i as int)).last() == s.subrange(start as int, i as int),
            split_parts(s.subrange(0, i as int)).len() >= 1,
            walk(split_parts(s.subrange(0, i as int)).drop_last()) == Some(
                range_parts(chars@, stack@),
            ),
        decreases n - i,
    {
        let ghost prev = split_parts(s.subrange(0, i as int));
        proof {
            lemma_split_parts_nonempty(s.subrange(0, i as int));
        }
        assert(s.subrange(0, i + 1).drop_last() =~= s.subrange(0, i as int));
        assert(s.subrange(0, i + 1).last() == s[i as int]);
        if is_separator_char(chars[i]) {
            let kept = apply_component(chars, &mut stack, start, i);
            assert(prev.push(Seq::empty()).drop_last() =~= prev);
            assert(prev =~= prev.drop_last().push(prev.last()));
            if !kept {
                proof {
                    lemma_walk_none_extends(s, (i + 1) as int);
                }
                return None;
            }
            start = i + 1;
            assert(s.subrange(start as int, start as int) =~= Seq::<char>::empty());
        } else {
            let ghost next = prev.update(prev.len() - 1, prev.last().push(s[i as int]));
            assert(next.drop_last() =~= prev.drop_last());
            assert(s.subrange(start as int, i + 1) =~= s.subrange(start as int, i as int).push(
                s[i as int],
            ));
        }
        i += 1;
    }
    assert(s.subrange(0, n as int) =~= s);
    let ghost parts = split_parts(s);
    proof {
        lemma_split_parts_nonempty(s);
    }
    assert(parts =~= parts.drop_last().push(parts.last()));
    let kept = apply_component(chars, &mut stack, start, n);
    if !kept {
        return None;
    }
    Some(stack)
}

/// The kept components of `input` joined with `/`.
fn join_ranges(input: &str, stack: &Vec<(usize, usize)>) -> (joined: String)
    requires
        ranges_within(stack@, input@.len() as int),
    ensures
        joined@ == join(range_parts(input@, stack@)),
{
    let ghost parts = range_parts(input@, stack@);
    let mut joined = String::new();
    let mut k: usize = 0;
    while k < stack.len()
        invariant
            ranges_within(stack@, input@.len() as int),
            parts == range_parts(input@, stack@),
            0 <= k <= stack@.len(),
            joined@ == join(parts.take(k as int)),
        decreases stack@.len() - k,
    {
        proof {
            reveal_strlit("/");
        }
        let (a, b) = stack[k];
        assert(stack@[k as int] == (a, b));
        let piece = input.substring_char(a, b);
        assert(piece@ == parts[k as int]);
        let ghost before = joined@;
        assert(parts.take(k + 1).drop_last() =~= parts.take(k as int));
        assert(parts.take(k + 1).last() == parts[k as int]);
        if k > 0 {
            joined.append("/");
            joined.append(piece);
            assert(joined@ =~= before + seq!['/'] + parts[k as int]);
        } else {
            assert(joined@ =~= Seq::<char>::empty());
            joined.append(piece);
            assert(joined@ =~= parts[k as int]);
        }
        k += 1;
    }
    assert(parts.take(stack@.len() as int) =~= parts);
    joined
}

/// Normalise a caller-supplied, repository-relative path and reject anything
/// that would escape the repository once normalised.
///
/// Pure: rejects paths that *escape after normalisation*, not paths that
/// merely contain `..`, so `sub/../inside.txt` normalises to `inside.txt`.
pub fn normalise_repo_path(input: &str) -> (r: Result<String>)
    ensures
        match r {
            Ok(path) => normalised(input@) == Some(path@),
            Err(e) => normalised(input@) is None && (e matches CoreError::PathOutsideRepo { path }
                && path@ == input@),
        },
{
    let chars = collect_chars(input);
    if contains_nul(&chars) {
        return Err(outside(input));
    }
    if chars.len() == 0 {
        return Err(outside(input));
    }
    if is_separator_char(chars[0]) || has_windows_drive_prefix(input) {
        return Err(outside(input));
    }
    let stack = match walk_components(&chars) {
        Some(stack) => stack,
        None => return Err(outside(input)),
    };
    if stack.len() == 0 {
        return Err(outside(input));
    }
    let (first_start, first_end) = stack[0];
    let ghost first = range_parts(chars@, stack@)[0];
    assert(first == chars@.subrange(first_start as int, first_end as int));
    if first_end - first_start == 4 && ascii_lower_char(chars[first_start]) == '.'
        && ascii_lower_char(chars[first_start + 1]) == 'g' && ascii_lower_char(
        chars[first_start + 2],
    ) == 'i' && ascii_lower_char(chars[first_start + 3]) == 't' {
        return Err(outside(input));
    }
    assert(!is_dot_git(first));
    Ok(join_ranges(input, &stack))
}


// ---------------------------------------------------------------------------
// Laws of normalisation.

/// A component that survives normalisation: not empty, not `.` or `..`, and
/// free of separators and NUL.
pub open spec fn clean_part(part: Seq<char>) -> bool {
    &&& part.len() > 0
    &&& part != dot()
    &&& part != dot_dot()
    &&& forall|j: int| 0 <= j < part.len() ==> !is_separator(part[j]) && part[j] != '\0'
}

proof fn lemma_split_parts_plain(s: Seq<char>)
    requires
        !s.contains('\0'),
    ensures
        forall|i: int, j: int|
            0 <= i < split_parts(s).len() && 0 <= j < split_parts(s)[i].len() ==> !is_separator(
                #[trigger] split_parts(s)[i][j],
            ) && split_parts(s)[i][j] != '\0',
    decreases s.len(),
{
    if s.len() > 0 {
        let init = s.drop_last();
        assert(!init.contains('\0')) by {
            if init.contains('\0') {
                let k = choose|k: int| 0 <= k < init.len() && init[k] == '\0';
                assert(s[k] == '\0');
            }
        }
        lemma_split_parts_plain(init);
        lemma_split_parts_nonempty(init);
        assert(s[s.len() - 1] == s.last());
    }
}

proof fn lemma_walk_clean(parts: Seq<Seq<char>>)
    requires
        forall|i: int, j: int|
            0 <= i < parts.len() && 0 <= j < parts[i].len() ==> !is_separator(#[trigger] parts[i][j])
                && parts[i][j] != '\0',
        walk(parts) is Some,
    ensures
        forall|i: int| 0 <= i < walk(parts)->0.len() ==> clean_part(#[trigger] walk(parts)->0[i]),
    decreases parts.len(),
{
    if parts.len() > 0 {
        let init = parts.drop_last();
        assert forall|i: int, j: int|
            0 <= i < init.len() && 0 <= j < init[i].len() implies !is_separator(
            #[trigger] init[i][j],
        ) && init[i][j] != '\0' by {
            assert(init[i] == parts[i]);
        }
        lemma_walk_clean(init);
        let last = parts.last();
        assert(last == parts[parts.len() - 1]);
    }
}

proof fn lemma_walk_of_clean(parts: Seq<Seq<char>>)
    requires
        forall|i: int| 0 <= i < parts.len() ==> clean_part(#[trigger] parts[i]),
    ensures
        walk(parts) == Some(parts),
    decreases parts.len(),
{
    if parts.len() > 0 {
        let init = parts.drop_last();
        assert forall|i: int| 0 <= i < init.len() implies clean_part(#[trigger] init[i]) by {
            assert(init[i] == parts[i]);
        }
        lemma_walk_of_clean(init);
        assert(clean_part(parts[parts.len() - 1]));
        assert(init.push(parts.last()) =~= parts);
    }
}

/// Appending separator-free text only extends the last piece.
proof fn lemma_split_extend(t: Seq<char>, y: Seq<char>)
    requires
        forall|j: int| 0 <= j < y.len() ==> !is_separator(y[j]),
    ensures
        split_parts(t + y) == split_parts(t).update(
            split_parts(t).len() - 1,
            split_parts(t).last() + y,
        ),
    decreases y.len(),
{
    lemma_split_parts_nonempty(t);
    if y.len() == 0 {
        assert(t + y =~= t);
        assert(split_parts(t).last() + y =~= split_parts(t).last());
        assert(split_parts(t).update(split_parts(t).len() - 1, split_parts(t).last())
            =~= split_parts(t));
    } else {
        let y0 = y.drop_last();
        lemma_split_extend(t, y0);
        assert((t + y).drop_last() =~= t + y0);
        assert((t + y).last() == y.last());
        assert(y[y.len() - 1] == y.last());
        assert(split_parts(t).last() + y0 + seq![y.last()] =~= split_parts(t).last() + y);
        lemma_split_parts_nonempty(t + y0);
        let prev = split_parts(t + y0);
        assert(prev.last() == split_parts(t).last() + y0);
        assert(prev.last().push(y.last()) =~= split_parts(t).last() + y);
        assert(prev.update(prev.len() - 1, prev.last().push(y.last())) =~= split_parts(t).update(
            split_parts(t).len() - 1,
            split_parts(t).last() + y,
        ));
    }
}

/// Splitting the joined clean components gives them back.
proof fn lemma_split_join(parts: Seq<Seq<char>>)
    requires
        parts.len() > 0,
        forall|i: int| 0 <= i < parts.len() ==> clean_part(#[trigger] parts[i]),
    ensures
        split_parts(join(parts)) == parts,
    decreases parts.len(),
{
    let last = parts.last();
    assert(clean_part(parts[parts.len() - 1]));
    if parts.len() == 1 {
        lemma_split_extend(Seq::empty(), last);
        assert(Seq::<char>::empty() + last =~= last);
        assert(split_parts(Seq::<char>::empty()) =~= seq![Seq::<char>::empty()]);
        assert(Seq::<char>::empty() + last =~= last);
        assert(parts =~= seq![last]);
    } else {
        let init = parts.drop_last();
        assert forall|i: int| 0 <= i < init.len() implies clean_part(#[trigger] init[i]) by {
            assert(init[i] == parts[i]);
        }
        lemma_split_join(init);
        let t = join(init) + seq!['/'];
        assert(t.drop_last() =~= join(init));
        assert(t.last() == '/');
        assert(split_parts(t) == parts.drop_last().push(Seq::empty()));
        lemma_split_extend(t, last);
        assert(Seq::<char>::empty() + last =~= last);
        assert(split_parts(t).update(split_parts(t).len() - 1, Seq::<char>::empty() + last)
            =~= parts);
    }
}

/// Every character of a join is a `/` or a character of a component, and a
/// join of non-empty components starts with the first one's first character.
proof fn lemma_join_chars(parts: Seq<Seq<char>>)
    requires
        parts.len() > 0,
        forall|i: int| 0 <= i < parts.len() ==> clean_part(#[trigger] parts[i]),
    ensures
        join(parts).len() > 0,
        join(parts)[0] == parts[0][0],
        !join(parts).contains('\0'),
    decreases parts.len(),
{
    assert(clean_part(parts[0]));
    if parts.len() > 1 {
        let init = parts.drop_last();
        assert forall|i: int| 0 <= i < init.len() implies clean_part(#[trigger] init[i]) by {
            assert(init[i] == parts[i]);
        }
        lemma_join_chars(init);
        let last = parts.last();
        assert(clean_part(parts[parts.len() - 1]));
        let j = join(parts);
        assert(j == join(init) + seq!['/'] + last);
        assert(j[0] == join(init)[0]);
        assert(!j.contains('\0')) by {
            if j.contains('\0') {
                let k = choose|k: int| 0 <= k < j.len() && j[k] == '\0';
                if k < join(init).len() {
                    assert(join(init)[k] == '\0');
                } else if k > join(init).len() {
                    assert(last[k - join(init).len() - 1] == '\0');
                }
            }
        }
    } else {
        assert(!parts[0].contains('\0')) by {
            if parts[0].contains('\0') {
                let k = choose|k: int| 0 <= k < parts[0].len() && parts[0][k] == '\0';
            }
        }
    }
}

/// Normalising is idempotent: a normalised path normalises to itself, unless
/// it happens to begin with a drive-like prefix (`x/../C:` normalises to
/// `C:`, which is itself refused).
pub proof fn normalising_twice_is_normalising_once(input: Seq<char>)
    requires
        normalised(input) is Some,
        !has_drive_prefix(normalised(input)->0),
    ensures
        normalised(normalised(input)->0) == normalised(input),
{
    let parts = split_parts(input);
    lemma_split_parts_plain(input);
    lemma_walk_clean(parts);
    let stack = walk(parts)->0;
    let q = join(stack);
    lemma_split_join(stack);
    lemma_walk_of_clean(stack);
    lemma_join_chars(stack);
    assert(clean_part(stack[0]));
    assert(!is_separator(q[0]));
}

/// A normalised path never climbs out of the repository: it is not empty,
/// does not begin with a separator, holds no NUL, and none of its
/// components is empty, `.` or `..`.
pub proof fn normalised_paths_stay_inside(input: Seq<char>)
    requires
        normalised(input) is Some,
    ensures
        normalised(input)->0.len() > 0,
        !is_separator(normalised(input)->0[0]),
        !normalised(input)->0.contains('\0'),
        forall|i: int|
            0 <= i < split_parts(normalised(input)->0).len() ==> clean_part(
                #[trigger] split_parts(normalised(input)->0)[i],
            ),
{
    let parts = split_parts(input);
    lemma_split_parts_plain(input);
    lemma_walk_clean(parts);
    let stack = walk(parts)->0;
    lemma_split_join(stack);
    lemma_join_chars(stack);
    assert(clean_part(stack[0]));
}


/// Refused outright: a path holding a NUL, the empty path, a path starting
/// with `/` or `\`, and one starting with an ASCII letter and a colon.
pub proof fn unsafe_inputs_are_refused(input: Seq<char>)
    requires
        input.contains('\0') || input.len() == 0 || input[0] == '/' || input[0] == '\\' || (
        input.len() >= 2 && (('a' <= input[0] <= 'z') || ('A' <= input[0] <= 'Z')) && input[1]
            == ':'),
    ensures
        normalised(input) is None,
{
}

proof fn lemma_join_starts(parts: Seq<Seq<char>>)
    requires
        parts.len() > 0,
    ensures
        join(parts).len() >= parts[0].len(),
        join(parts).take(parts[0].len() as int) == parts[0],
        join(parts).len() == parts[0].len() || join(parts)[parts[0].len() as int] == '/',
    decreases parts.len(),
{
    if parts.len() > 1 {
        let init = parts.drop_last();
        lemma_join_starts(init);
        let j = join(init);
        let l0 = parts[0].len() as int;
        assert(init[0] == parts[0]);
        let whole = j + seq!['/'] + parts.last();
        assert(join(parts) == whole);
        assert(whole.take(l0) =~= j.take(l0));
        if j.len() == l0 {
            assert(whole[l0] == '/');
        } else {
            assert(whole[l0] == j[l0]);
        }
    }
}

/// A normalised path never leads into `.git`: its first component is never
/// `.git` in any ASCII case.
pub proof fn normalised_paths_avoid_dot_git(input: Seq<char>)
    requires
        normalised(input) is Some,
    ensures
        ({
            let out = normalised(input)->0;
            !(out.len() >= 4 && out[0] == '.' && (out[1] == 'g' || out[1] == 'G') && (out[2]
                == 'i' || out[2] == 'I') && (out[3] == 't' || out[3] == 'T') && (out.len() == 4
                || out[4] == '/'))
        }),
{
    let parts = split_parts(input);
    lemma_split_parts_plain(input);
    lemma_walk_clean(parts);
    let stack = walk(parts)->0;
    let out = join(stack);
    assert(out == normalised(input)->0);
    lemma_join_starts(stack);
    let first = stack[0];
    let l0 = first.len() as int;
    assert(clean_part(first));
    if out.len() >= 4 && out[0] == '.' && (out[1] == 'g' || out[1] == 'G') && (out[2] == 'i'
        || out[2] == 'I') && (out[3] == 't' || out[3] == 'T') && (out.len() == 4 || out[4]
        == '/') {
        if l0 == 4 {
            assert(first =~= out.take(4));
            assert(ascii_lower('G') == 'g');
            assert(ascii_lower('I') == 'i');
            assert(ascii_lower('T') == 't');
            assert(is_dot_git(first));
        } else if l0 > 4 {
            assert(out[4] == out.take(l0)[4]);
            assert(out[4] == first[4]);
        } else {
            assert(out[l0] == '/');
        }
    }
}


/// A path whose first component climbs above the root (`..`, `../…` or
/// `..\…`) is refused, whatever follows.
pub proof fn climbing_out_is_refused(input: Seq<char>)
    requires
        input.len() >= 2,
        input[0] == '.',
        input[1] == '.',
        input.len() == 2 || input[2] == '/' || input[2] == '\\',
    ensures
        normalised(input) is None,
{
    let two = input.subrange(0, 2);
    let one = two.drop_last();
    let empty = Seq::<char>::empty();
    assert(one.drop_last() =~= empty);
    assert(split_parts(empty) == seq![empty]);
    assert(!is_separator(one.last()));
    assert(split_parts(one) =~~= seq![seq!['.']]);
    assert(!is_separator(two.last()));
    assert(split_parts(two) =~~= seq![dot_dot()]);
    if input.len() == 2 {
        assert(two =~= input);
        assert(walk(split_parts(input).drop_last()) == Some(Seq::<Seq<char>>::empty()));
    } else {
        let three = input.subrange(0, 3);
        assert(three.drop_last() =~= two);
        assert(is_separator(three.last()));
        assert(split_parts(three) =~~= seq![dot_dot(), Seq::<char>::empty()]);
        assert(split_parts(three).drop_last() =~= seq![dot_dot()]);
        assert(walk(seq![dot_dot()].drop_last()) == Some(Seq::<Seq<char>>::empty()));
        assert(walk(seq![dot_dot()]) is None);
        lemma_walk_none_extends(input, 3);
    }
}

} // verus!
