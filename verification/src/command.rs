//! Command decomposition: splitting a raw launch string into an executable
//! path and an argument list.
//!
//! The splitting rule: find the rightmost executable-extension marker
//! (`.exe`, then `.com`, then `.bat`, case-insensitively); when the prefix up
//! to and including it names a file on disk — the caller reports that as
//! `marker_is_file`, since the library itself does no file I/O — split there.
//! Otherwise fall back to shell-style tokenization of the whole string.

use vstd::prelude::*;

use crate::text::is_space_char;
use crate::text::lower_char;
use crate::text::lower_seq;
use crate::text::views;

verus! {

/// Why a command string could not be decomposed.
#[derive(Clone, Copy, PartialEq, Eq, Structural, Debug)]
pub enum DecomposeError {
    /// The command was empty, or shell tokenization failed on it.
    Empty,
}

// --- trimming ---

/// `s` without its leading whitespace.
pub open spec fn trim_start_spec(s: Seq<char>) -> Seq<char>
    decreases s.len(),
{
    if s.len() > 0 && is_space_char(s[0]) {
        trim_start_spec(s.drop_first())
    } else {
        s
    }
}

/// `s` without its trailing whitespace.
pub open spec fn trim_end_spec(s: Seq<char>) -> Seq<char>
    decreases s.len(),
{
    if s.len() > 0 && is_space_char(s.last()) {
        trim_end_spec(s.drop_last())
    } else {
        s
    }
}

/// `s` without leading and trailing whitespace.
pub open spec fn trim_spec(s: Seq<char>) -> Seq<char> {
    trim_end_spec(trim_start_spec(s))
}

proof fn lemma_trim_start_ix(s: Seq<char>, lo: int)
    requires
        0 <= lo <= s.len(),
        forall|i: int| 0 <= i < lo ==> is_space_char(s[i]),
        lo < s.len() ==> !is_space_char(s[lo]),
    ensures
        trim_start_spec(s) == s.subrange(lo, s.len() as int),
    decreases lo,
{
    if lo == 0 {
        assert(s.subrange(0, s.len() as int) =~= s);
    } else {
        let rest = s.drop_first();
        assert(rest =~= s.subrange(1, s.len() as int));
        lemma_trim_start_ix(rest, lo - 1);
        assert(rest.subrange(lo - 1, rest.len() as int) =~= s.subrange(lo, s.len() as int));
    }
}

proof fn lemma_trim_end_ix(s: Seq<char>, hi: int)
    requires
        0 <= hi <= s.len(),
        forall|i: int| hi <= i < s.len() ==> is_space_char(s[i]),
        hi > 0 ==> !is_space_char(s[hi - 1]),
    ensures
        trim_end_spec(s) == s.subrange(0, hi),
    decreases s.len(),
{
    if s.len() > 0 && is_space_char(s.last()) {
        let rest = s.drop_last();
        assert(rest =~= s.subrange(0, s.len() - 1));
        lemma_trim_end_ix(rest, hi);
        assert(rest.subrange(0, hi) =~= s.subrange(0, hi));
    } else {
        assert(hi == s.len());
        assert(s.subrange(0, hi) =~= s);
    }
}

/// Removes leading and trailing whitespace (space, tab, newline, carriage
/// return).
pub fn trim<'a>(s: &'a str) -> (r: &'a str)
    ensures
        r@ == trim_spec(s@),
{
    let len = s.unicode_len();
    let mut lo: usize = 0;
    loop
        invariant
            lo <= len,
            len == s@.len(),
            forall|i: int| 0 <= i < lo ==> is_space_char(s@[i]),
        ensures
            lo <= len,
            forall|i: int| 0 <= i < lo ==> is_space_char(s@[i]),
            lo < len ==> !is_space_char(s@[lo as int]),
        decreases len - lo,
    {
        if lo >= len {
            break;
        }
        let c = s.get_char(lo);
        if !(c == ' ' || c == '\t' || c == '\n' || c == '\r') {
            break;
        }
        lo += 1;
    }
    let mut hi: usize = len;
    loop
        invariant
            lo <= hi <= len,
            len == s@.len(),
            forall|i: int| hi <= i < len ==> is_space_char(s@[i]),
        ensures
            lo <= hi <= len,
            forall|i: int| hi <= i < len ==> is_space_char(s@[i]),
            hi > lo ==> !is_space_char(s@[hi - 1]),
        decreases hi,
    {
        if hi <= lo {
            break;
        }
        let c = s.get_char(hi - 1);
        if !(c == ' ' || c == '\t' || c == '\n' || c == '\r') {
            break;
        }
        hi -= 1;
    }
    proof {
        lemma_trim_start_ix(s@, lo as int);
        let start = s@.subrange(lo as int, len as int);
        lemma_trim_end_ix(start, hi - lo);
        assert(start.subrange(0, hi - lo) =~= s@.subrange(lo as int, hi as int));
    }
    s.substring_char(lo, hi)
}

// --- extension markers ---

/// Whether the four characters of `s` ending at `endpos` spell `m`,
/// ASCII-case-insensitively. `m` is given in lower case.
pub open spec fn matches_marker_at(s: Seq<char>, m: Seq<char>, endpos: int) -> bool {
    4 <= endpos <= s.len() && lower_seq(s.subrange(endpos - 4, endpos)) == m
}

/// The rightmost position at or below `hi` where an occurrence of the
/// four-character marker `m` ends.
pub open spec fn rightmost_end(s: Seq<char>, m: Seq<char>, hi: int) -> Option<int>
    decreases hi,
{
    if hi < 4 {
        None
    } else if matches_marker_at(s, m, hi) {
        Some(hi)
    } else {
        rightmost_end(s, m, hi - 1)
    }
}

/// The position right after the marker where the command string splits into
/// an executable path and arguments: the rightmost `.exe` occurrence if there
/// is one, else the rightmost `.com`, else the rightmost `.bat`.
pub open spec fn marker_split_spec(s: Seq<char>) -> Option<int> {
    let hi = s.len() as int;
    match rightmost_end(s, seq!['.', 'e', 'x', 'e'], hi) {
        Some(e) => Some(e),
        None => match rightmost_end(s, seq!['.', 'c', 'o', 'm'], hi) {
            Some(e) => Some(e),
            None => rightmost_end(s, seq!['.', 'b', 'a', 't'], hi),
        },
    }
}

proof fn lemma_rightmost_end_bounds(s: Seq<char>, m: Seq<char>, hi: int)
    requires
        hi <= s.len(),
    ensures
        rightmost_end(s, m, hi) matches Some(e) ==> 4 <= e <= hi && matches_marker_at(s, m, e),
    decreases hi,
{
    if hi >= 4 && !matches_marker_at(s, m, hi) {
        lemma_rightmost_end_bounds(s, m, hi - 1);
    }
}

/// `marker_split_spec` returns a position within the string.
pub proof fn lemma_marker_split_bounds(s: Seq<char>)
    ensures
        marker_split_spec(s) matches Some(e) ==> 4 <= e <= s.len(),
{
    lemma_rightmost_end_bounds(s, seq!['.', 'e', 'x', 'e'], s.len() as int);
    lemma_rightmost_end_bounds(s, seq!['.', 'c', 'o', 'm'], s.len() as int);
    lemma_rightmost_end_bounds(s, seq!['.', 'b', 'a', 't'], s.len() as int);
}

fn rightmost_end_exec(s: &str, m0: char, m1: char, m2: char, m3: char) -> (r: Option<usize>)
    ensures
        match r {
            Some(e) => rightmost_end(s@, seq![m0, m1, m2, m3], s@.len() as int) == Some(e as int),
            None => rightmost_end(s@, seq![m0, m1, m2, m3], s@.len() as int) is None,
        },
{
    let ghost m = seq![m0, m1, m2, m3];
    let len = s.unicode_len();
    let mut hi: usize = len;
    while hi >= 4
        invariant
            m == seq![m0, m1, m2, m3],
            hi <= len,
            len == s@.len(),
            rightmost_end(s@, m, len as int) == rightmost_end(s@, m, hi as int),
        decreases hi,
    {
        let c0 = s.get_char(hi - 4);
        let c1 = s.get_char(hi - 3);
        let c2 = s.get_char(hi - 2);
        let c3 = s.get_char(hi - 1);
        let is_match = crate::text::lower_char_exec(c0) == m0 && crate::text::lower_char_exec(c1)
            == m1 && crate::text::lower_char_exec(c2) == m2 && crate::text::lower_char_exec(c3)
            == m3;
        proof {
            let window = s@.subrange(hi - 4, hi as int);
            assert(m.len() == 4 && m[0] == m0 && m[1] == m1 && m[2] == m2 && m[3] == m3);
            assert(lower_seq(window).len() == 4);
            assert(lower_seq(window)[0] == lower_char(c0));
            assert(lower_seq(window)[1] == lower_char(c1));
            assert(lower_seq(window)[2] == lower_char(c2));
            assert(lower_seq(window)[3] == lower_char(c3));
            if is_match {
                assert(lower_seq(window) =~= m);
            } else {
                assert(lower_seq(window) != m);
            }
        }
        if is_match {
            return Some(hi);
        }
        hi -= 1;
    }
    None
}

/// Where the command splits after its rightmost extension marker, if any:
/// the returned position is right after the marker.
pub fn marker_end(command: &str) -> (r: Option<usize>)
    ensures
        match r {
            Some(e) => marker_split_spec(command@) == Some(e as int),
            None => marker_split_spec(command@) is None,
        },
{
    if let Some(e) = rightmost_end_exec(command, '.', 'e', 'x', 'e') {
        return Some(e);
    }
    if let Some(e) = rightmost_end_exec(command, '.', 'c', 'o', 'm') {
        return Some(e);
    }
    rightmost_end_exec(command, '.', 'b', 'a', 't')
}

/// The prefix of the command up to and including its rightmost extension
/// marker: the candidate executable path whose existence on disk decides
/// which way `decompose` splits. The caller checks the file system and
/// passes the answer to `decompose` as `marker_is_file`.
pub fn marker_candidate(command: &str) -> (r: Option<String>)
    ensures
        match r {
            Some(p) => marker_split_spec(command@) matches Some(e) && p@ == command@.take(e),
            None => marker_split_spec(command@) is None,
        },
{
    proof {
        lemma_marker_split_bounds(command@);
    }
    match marker_end(command) {
        Some(e) => Some(command.substring_char(0, e).to_owned()),
        None => None,
    }
}

// --- shell tokenization ---

/// What `shell_words::split` returns for a given string: `Some` holds the
/// token list, `None` stands for its parse error. The result is a function
/// of the string alone.
pub uninterp spec fn shell_split(s: Seq<char>) -> Option<Seq<Seq<char>>>;

/// A non-empty word in which every character is ordinary to the shell:
/// no whitespace, quotes, backslashes or comment marker.
pub open spec fn is_plain_word(s: Seq<char>) -> bool {
    s.len() > 0 && forall|i: int|
        0 <= i < s.len() ==> !(s[i] == ' ' || s[i] == '\t' || s[i] == '\n' || s[i] == '\''
            || s[i] == '"' || s[i] == '\\' || s[i] == '#')
}

/// Relies on `shell_words::split`: tokenizes the string the way a POSIX
/// shell would, with expansions limited to quote removal, and fails exactly
/// on an unmatched quote. Its state machine yields no tokens on the empty
/// string, and passes a word made only of ordinary characters through as
/// the single token.
#[verifier::external_body]
fn shell_split_exec(s: &str) -> (r: Option<Vec<String>>)
    ensures
        r matches Some(v) ==> shell_split(s@) == Some(views(v@)),
        r is None ==> shell_split(s@) is None,
        s@.len() == 0 ==> r is Some,
        r matches Some(v) ==> s@.len() == 0 ==> v@.len() == 0,
        is_plain_word(s@) ==> r is Some,
        r matches Some(v) ==> is_plain_word(s@) ==> views(v@) == seq![s@],
{
    match shell_words::split(s) {
        Ok(v) => Some(v),
        Err(_) => None,
    }
}

/// Whether shell tokenization of the whole string yields exactly the
/// string itself as its single token: the premise under which
/// decomposition round-trips a bare path (see
/// `lemma_decompose_round_trip`). True of any non-empty word free of
/// whitespace, quotes, backslashes and `#`.
pub fn tokenizes_to_itself(command: &str) -> (r: bool)
    ensures
        r == (shell_split(command@) == Some(seq![command@])),
{
    match shell_split_exec(command) {
        Some(tokens) => {
            if tokens.len() == 1 {
                let eq = crate::text::str_eq(tokens[0].as_str(), command);
                proof {
                    assert(seq![command@].len() == 1 && seq![command@][0] == command@);
                    assert(views(tokens@)[0] == tokens@[0]@);
                    if eq {
                        assert(views(tokens@) =~= seq![command@]);
                    }
                }
                eq
            } else {
                assert(views(tokens@).len() != 1 && seq![command@].len() == 1);
                false
            }
        },
        None => false,
    }
}

/// The tokens joined back into one string with single spaces between them.
pub open spec fn join_spaces(parts: Seq<Seq<char>>) -> Seq<char>
    decreases parts.len(),
{
    if parts.len() == 0 {
        Seq::empty()
    } else if parts.len() == 1 {
        parts[0]
    } else {
        parts[0] + seq![' '] + join_spaces(parts.drop_first())
    }
}

fn join_tail(v: &Vec<String>, start: usize) -> (r: String)
    requires
        start <= v@.len(),
    ensures
        r@ == join_spaces(views(v@).skip(start as int)),
    decreases v@.len() - start,
{
    if start >= v.len() {
        assert(views(v@).skip(start as int) =~= Seq::<Seq<char>>::empty());
        String::new()
    } else if start == v.len() - 1 {
        assert(views(v@).skip(start as int).len() == 1);
        assert(views(v@).skip(start as int)[0] == v@[start as int]@);
        v[start].clone()
    } else {
        let mut s = v[start].clone();
        s.push(' ');
        let rest = join_tail(v, start + 1);
        s.append(rest.as_str());
        proof {
            let parts = views(v@).skip(start as int);
            assert(parts.len() >= 2);
            assert(parts[0] == v@[start as int]@);
            assert(parts.drop_first() =~= views(v@).skip(start as int + 1));
            assert(s@ =~= parts[0] + seq![' '] + join_spaces(parts.drop_first()));
        }
        s
    }
}

// --- decomposition ---

/// The result of splitting at the extension marker ending at `e`: the
/// trimmed prefix is the executable, the trimmed suffix tokenizes into the
/// arguments (an untokenizable suffix yields no arguments rather than a
/// failure).
pub open spec fn decompose_marker(s: Seq<char>, e: int) -> Result<
    (Seq<char>, Seq<Seq<char>>),
    DecomposeError,
> {
    let exe = trim_spec(s.take(e));
    let argstr = trim_spec(s.skip(e));
    let args = if argstr.len() == 0 {
        Seq::<Seq<char>>::empty()
    } else {
        match shell_split(argstr) {
            Some(v) => v,
            None => Seq::<Seq<char>>::empty(),
        }
    };
    Ok((exe, args))
}

/// The result of shell tokenization of the whole command: the first token
/// is the executable; the remaining tokens, joined and re-tokenized, are
/// the arguments.
pub open spec fn decompose_fallback(s: Seq<char>) -> Result<
    (Seq<char>, Seq<Seq<char>>),
    DecomposeError,
> {
    match shell_split(s) {
        None => Err(DecomposeError::Empty),
        Some(parts) => if parts.len() == 0 {
            Err(DecomposeError::Empty)
        } else if parts.len() == 1 {
            Ok((parts[0], Seq::<Seq<char>>::empty()))
        } else {
            match shell_split(join_spaces(parts.drop_first())) {
                Some(args) => Ok((parts[0], args)),
                None => Err(DecomposeError::Empty),
            }
        },
    }
}

/// What `decompose` returns: the marker split when the marker prefix names
/// a file on disk, shell tokenization of the whole string otherwise.
pub open spec fn decompose_spec(s: Seq<char>, marker_is_file: bool) -> Result<
    (Seq<char>, Seq<Seq<char>>),
    DecomposeError,
> {
    match marker_split_spec(s) {
        Some(e) => if marker_is_file {
            decompose_marker(s, e)
        } else {
            decompose_fallback(s)
        },
        None => decompose_fallback(s),
    }
}

/// Splits a raw command string into an executable path and an argument
/// list. `marker_is_file` reports whether the `marker_candidate` prefix
/// names an existing file; when there is no marker candidate the flag is
/// ignored. Fails with `DecomposeError::Empty` exactly when the command is
/// empty or shell tokenization fails.
pub fn decompose(command: &str, marker_is_file: bool) -> (r: Result<
    (String, Vec<String>),
    DecomposeError,
>)
    ensures
        match r {
            Ok(pair) => decompose_spec(command@, marker_is_file) == Ok::<
                (Seq<char>, Seq<Seq<char>>),
                DecomposeError,
            >((pair.0@, views(pair.1@))),
            Err(e) => decompose_spec(command@, marker_is_file) == Err::<
                (Seq<char>, Seq<Seq<char>>),
                DecomposeError,
            >(e),
        },
        command@.len() == 0 ==> r == Err::<(String, Vec<String>), DecomposeError>(
            DecomposeError::Empty,
        ),
{
    proof {
        lemma_marker_split_bounds(command@);
    }
    let len = command.unicode_len();
    let me = marker_end(command);
    if marker_is_file && me.is_some() {
        let e = me.unwrap();
        let prefix = command.substring_char(0, e);
        let suffix = command.substring_char(e, len);
        proof {
            assert(prefix@ =~= command@.take(e as int));
            assert(suffix@ =~= command@.skip(e as int));
        }
        let exe = trim(prefix).to_owned();
        let argstr = trim(suffix);
        let args: Vec<String> = if argstr.is_empty() {
            let empty: Vec<String> = Vec::new();
            assert(views(empty@) =~= Seq::<Seq<char>>::empty());
            empty
        } else {
            match shell_split_exec(argstr) {
                Some(v) => v,
                None => {
                    let empty: Vec<String> = Vec::new();
                    assert(views(empty@) =~= Seq::<Seq<char>>::empty());
                    empty
                },
            }
        };
        Ok((exe, args))
    } else {
        match shell_split_exec(command) {
            None => Err(DecomposeError::Empty),
            Some(parts) => {
                if parts.len() == 0 {
                    Err(DecomposeError::Empty)
                } else if parts.len() == 1 {
                    let exe = parts[0].clone();
                    assert(views(parts@)[0] == exe@);
                    let empty: Vec<String> = Vec::new();
                    assert(views(empty@) =~= Seq::<Seq<char>>::empty());
                    Ok((exe, empty))
                } else {
                    let exe = parts[0].clone();
                    let joined = join_tail(&parts, 1);
                    proof {
                        assert(views(parts@).drop_first() =~= views(parts@).skip(1));
                        assert(views(parts@)[0] == exe@);
                    }
                    match shell_split_exec(joined.as_str()) {
                        Some(args) => Ok((exe, args)),
                        None => Err(DecomposeError::Empty),
                    }
                }
            },
        }
    }
}

// --- path components ---

/// The position of the rightmost path separator (`/` or `\`) strictly
/// below `hi`, if any.
pub open spec fn last_sep(s: Seq<char>, hi: int) -> Option<int>
    decreases hi,
{
    if hi <= 0 {
        None
    } else if s[hi - 1] == '/' || s[hi - 1] == '\\' {
        Some(hi - 1)
    } else {
        last_sep(s, hi - 1)
    }
}

/// The part of a path after its last separator; the whole path when it has
/// none.
pub open spec fn basename_spec(s: Seq<char>) -> Seq<char> {
    match last_sep(s, s.len() as int) {
        Some(i) => s.skip(i + 1),
        None => s,
    }
}

/// The file name of a path: its basename, or nothing when that is empty
/// (an empty path, or one ending in a separator).
pub open spec fn file_name_spec(s: Seq<char>) -> Option<Seq<char>> {
    if basename_spec(s).len() == 0 {
        None
    } else {
        Some(basename_spec(s))
    }
}

/// The directory part of a path: everything before its last separator, or
/// nothing when it has none.
pub open spec fn parent_dir_spec(s: Seq<char>) -> Option<Seq<char>> {
    match last_sep(s, s.len() as int) {
        Some(i) => Some(s.take(i)),
        None => None,
    }
}

proof fn lemma_last_sep_bounds(s: Seq<char>, hi: int)
    requires
        hi <= s.len(),
    ensures
        last_sep(s, hi) matches Some(i) ==> 0 <= i < hi,
    decreases hi,
{
    if hi > 0 && !(s[hi - 1] == '/' || s[hi - 1] == '\\') {
        lemma_last_sep_bounds(s, hi - 1);
    }
}

fn last_sep_pos(path: &str) -> (r: Option<usize>)
    ensures
        match r {
            Some(i) => last_sep(path@, path@.len() as int) == Some(i as int) && i < path@.len(),
            None => last_sep(path@, path@.len() as int) is None,
        },
{
    proof {
        lemma_last_sep_bounds(path@, path@.len() as int);
    }
    let len = path.unicode_len();
    let mut hi: usize = len;
    loop
        invariant
            hi <= len,
            len == path@.len(),
            last_sep(path@, len as int) == last_sep(path@, hi as int),
        ensures
            hi <= len,
            last_sep(path@, len as int) == last_sep(path@, hi as int),
            hi == 0 || path@[hi - 1] == '/' || path@[hi - 1] == '\\',
            hi > 0 ==> last_sep(path@, hi as int) == Some(hi - 1),
        decreases hi,
    {
        if hi == 0 {
            break;
        }
        let c = path.get_char(hi - 1);
        if c == '/' || c == '\\' {
            break;
        }
        hi -= 1;
    }
    if hi == 0 {
        None
    } else {
        Some(hi - 1)
    }
}

/// The file name of a path, after its last `/` or `\`.
pub fn file_name(path: &str) -> (r: Option<String>)
    ensures
        match r {
            Some(n) => file_name_spec(path@) == Some(n@),
            None => file_name_spec(path@) is None,
        },
{
    let len = path.unicode_len();
    match last_sep_pos(path) {
        Some(i) => {
            if i + 1 == len {
                None
            } else {
                let name = path.substring_char(i + 1, len);
                assert(name@ =~= path@.skip(i + 1));
                Some(name.to_owned())
            }
        },
        None => {
            if len == 0 {
                None
            } else {
                Some(path.to_owned())
            }
        },
    }
}

/// The parent directory of a path: everything before its last separator.
pub fn parent_dir(path: &str) -> (r: Option<String>)
    ensures
        match r {
            Some(d) => parent_dir_spec(path@) == Some(d@),
            None => parent_dir_spec(path@) is None,
        },
{
    match last_sep_pos(path) {
        Some(i) => {
            let dir = path.substring_char(0, i);
            assert(dir@ =~= path@.take(i as int));
            Some(dir.to_owned())
        },
        None => None,
    }
}

/// The executable's file name for a command: the basename of the
/// executable that `decompose` resolves, or nothing when decomposition
/// fails or the resolved path has no file name.
pub open spec fn program_name_spec(s: Seq<char>, marker_is_file: bool) -> Option<Seq<char>> {
    match decompose_spec(s, marker_is_file) {
        Ok(pair) => file_name_spec(pair.0),
        Err(_) => None,
    }
}

/// The executable's file name for a command string.
pub fn program_name(command: &str, marker_is_file: bool) -> (r: Option<String>)
    ensures
        match r {
            Some(n) => program_name_spec(command@, marker_is_file) == Some(n@),
            None => program_name_spec(command@, marker_is_file) is None,
        },
{
    match decompose(command, marker_is_file) {
        Ok((exe, _args)) => file_name(exe.as_str()),
        Err(_) => None,
    }
}

// --- the decomposition round trip ---

/// Decomposing a bare executable path returns the path itself with an empty
/// argument list, whichever way the split goes: the path must carry no
/// surrounding whitespace, tokenize to a single shell word, and contain no
/// extension marker except possibly at its very end.
pub proof fn lemma_decompose_round_trip(path: Seq<char>, marker_is_file: bool)
    requires
        trim_spec(path) == path,
        shell_split(path) == Some(seq![path]),
        marker_split_spec(path) matches Some(e) ==> e == path.len(),
    ensures
        decompose_spec(path, marker_is_file) == Ok::<(Seq<char>, Seq<Seq<char>>), DecomposeError>(
            (path, Seq::<Seq<char>>::empty()),
        ),
{
    match marker_split_spec(path) {
        Some(e) => {
            if marker_is_file {
                assert(path.take(e) =~= path);
                assert(path.skip(e) =~= Seq::<char>::empty());
                assert(trim_spec(Seq::<char>::empty()).len() == 0);
            } else {
                let parts = seq![path];
                assert(parts.len() == 1);
                assert(parts[0] == path);
            }
        },
        None => {
            let parts = seq![path];
            assert(parts.len() == 1);
            assert(parts[0] == path);
        },
    }
}

} // verus!
