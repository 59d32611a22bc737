//! Parsed instructions of the form `"<kind>: <text>"`, with `show` commands
//! further carrying a display duration after a `" for=> "` separator.
//! Malformed input becomes an `Error` command carrying a diagnostic text.

use vstd::prelude::*;

verus! {

/// What a command asks the terminal to do.
#[derive(Debug, Clone, Copy, PartialEq, Eq, Structural)]
pub enum CommandType {
    Ask,
    Show,
    Tell,
    Error,
}

/// A parsed command: its kind, its text payload, and, for `Show`, the
/// duration text in seconds (a well-formed decimal number, kept as text so
/// that the caller decides its numeric representation).
#[derive(Debug)]
pub struct Command {
    pub command_type: CommandType,
    pub text: String,
    pub timer: Option<String>,
}

/// Whether `pat` occurs in `s` at position `i`.
pub open spec fn matches_at(s: Seq<char>, pat: Seq<char>, i: int) -> bool {
    0 <= i && i + pat.len() <= s.len() && s.subrange(i, i + pat.len()) == pat
}

/// The first position at or after `i` where `pat` occurs in `s`, if any.
pub open spec fn find_from(s: Seq<char>, pat: Seq<char>, i: int) -> Option<int>
    decreases s.len() - i,
{
    if pat.len() < 1 || i < 0 || i + pat.len() > s.len() {
        None
    } else if s.subrange(i, i + pat.len()) == pat {
        Some(i)
    } else {
        find_from(s, pat, i + 1)
    }
}

/// The first position where `pat` occurs in `s`, if any.
pub open spec fn find(s: Seq<char>, pat: Seq<char>) -> Option<int> {
    find_from(s, pat, 0)
}

/// A found position carries its occurrence and its bounds.
proof fn lemma_find_bounds(s: Seq<char>, pat: Seq<char>, k: int)
    ensures
        find_from(s, pat, k) matches Some(i) ==> k <= i && matches_at(s, pat, i),
    decreases s.len() - k,
{
    if !(pat.len() < 1 || k < 0 || k + pat.len() > s.len()) && s.subrange(k, k + pat.len())
        != pat {
        lemma_find_bounds(s, pat, k + 1);
    }
}

/// Whether `c` is a decimal digit.
pub open spec fn is_digit(c: char) -> bool {
    '0' <= c && c <= '9'
}

/// Executable twin of [`is_digit`].
fn is_digit_char(c: char) -> (b: bool)
    ensures
        b == is_digit(c),
{
    '0' <= c && c <= '9'
}

/// Whether positions `a..b` of `s` all hold digits.
pub open spec fn digits_range(s: Seq<char>, a: int, b: int) -> bool {
    forall|i: int| a <= i < b ==> is_digit(#[trigger] s[i])
}

/// Where a duration text's digits begin: after one optional sign.
pub open spec fn num_start(s: Seq<char>) -> int {
    if s.len() >= 1 && (s[0] == '+' || s[0] == '-') {
        1
    } else {
        0
    }
}

/// Whether `s` is a well-formed duration in seconds: an optional sign, then
/// digits, optionally followed by a decimal point and more digits, with
/// digits on both sides of the point.
pub open spec fn is_duration_text(s: Seq<char>) -> bool {
    let a = num_start(s);
    (s.len() > a && digits_range(s, a, s.len() as int)) || (exists|k: int|
        a < k && k + 1 < s.len() && #[trigger] s[k] == '.' && digits_range(s, a, k) && digits_range(
            s,
            k + 1,
            s.len() as int,
        ))
}

/// Decides [`is_duration_text`].
fn is_duration_str(s: &str) -> (b: bool)
    ensures
        b == is_duration_text(s@),
{
    let n = s.unicode_len();
    let has_sign = n >= 1 && {
        let c = s.get_char(0);
        c == '+' || c == '-'
    };
    let a: usize = if has_sign {
        1
    } else {
        0
    };
    proof {
        assert(a as int == num_start(s@));
    }
    let mut i: usize = a;
    while i < n && is_digit_char(s.get_char(i))
        invariant
            a <= i <= n,
            n == s@.len(),
            digits_range(s@, a as int, i as int),
        decreases n - i,
    {
        i = i + 1;
    }
    if i == n {
        // the whole body is digits; well-formed exactly when it is nonempty
        if i == a {
            proof {
                assert forall|k: int|
                    !(a < k && k + 1 < s@.len() && #[trigger] s@[k] == '.' && digits_range(
                        s@,
                        a as int,
                        k,
                    ) && digits_range(s@, k + 1, s@.len() as int)) by {}
            }
            return false;
        }
        return true;
    }
    let c = s.get_char(i);
    if c != '.' {
        // a stray character ends the digits: no split can be well-formed
        proof {
            assert(!is_digit(s@[i as int]));
            assert forall|k: int|
                a < k && k + 1 < s@.len() && #[trigger] s@[k] == '.' implies !(digits_range(
                s@,
                a as int,
                k,
            ) && digits_range(s@, k + 1, s@.len() as int)) by {
                if k < i {
                    assert(is_digit(s@[k]));
                    assert(false);
                } else if k == i {
                    assert(false);
                } else {
                    if digits_range(s@, a as int, k) {
                        assert(is_digit(s@[i as int]));
                        assert(false);
                    }
                }
            }
        }
        return false;
    }
    if i == a {
        // a decimal point with no digits before it
        proof {
            assert(!is_digit(s@[a as int]));
            assert forall|k: int|
                a < k && k + 1 < s@.len() && #[trigger] s@[k] == '.' implies !(digits_range(
                s@,
                a as int,
                k,
            ) && digits_range(s@, k + 1, s@.len() as int)) by {
                if digits_range(s@, a as int, k) {
                    assert(is_digit(s@[a as int]));
                    assert(false);
                }
            }
        }
        return false;
    }
    let mut j: usize = i + 1;
    while j < n && is_digit_char(s.get_char(j))
        invariant
            i + 1 <= j <= n,
            n == s@.len(),
            digits_range(s@, i + 1, j as int),
        decreases n - j,
    {
        j = j + 1;
    }
    if j == n && j > i + 1 {
        // digits, one point, digits: well-formed
        proof {
            assert(a < i && i + 1 < s@.len() && s@[i as int] == '.' && digits_range(
                s@,
                a as int,
                i as int,
            ) && digits_range(s@, i + 1, s@.len() as int));
        }
        return true;
    }
    // the point is last, or a stray character ends the fraction
    proof {
        assert(!is_digit(s@[i as int]));
        assert forall|k: int|
            a < k && k + 1 < s@.len() && #[trigger] s@[k] == '.' implies !(digits_range(
            s@,
            a as int,
            k,
        ) && digits_range(s@, k + 1, s@.len() as int)) by {
            if k < i {
                assert(is_digit(s@[k]));
                assert(false);
            } else if k == i {
                if j < n {
                    if digits_range(s@, k + 1, s@.len() as int) {
                        assert(is_digit(s@[j as int]));
                        assert(false);
                    }
                }
            } else {
                if digits_range(s@, a as int, k) {
                    assert(is_digit(s@[i as int]));
                    assert(false);
                }
            }
        }
        if s@.len() > a && digits_range(s@, a as int, s@.len() as int) {
            assert(is_digit(s@[i as int]));
            assert(false);
        }
    }
    false
}

/// The diagnostic text carried by an `Error` command built from `s`.
pub open spec fn err_text(s: Seq<char>) -> Seq<char> {
    "ERROR READING COMMAND: "@ + s
}

/// What parsing a command string yields: the kind, the text payload, and the
/// duration text for a well-formed `show`.
pub open spec fn parsed(s: Seq<char>) -> (CommandType, Seq<char>, Option<Seq<char>>) {
    match find(s, ": "@) {
        None => (CommandType::Error, err_text(s), None),
        Some(i) => {
            let kind = s.take(i);
            let rest = s.skip(i + 2);
            if kind == "ask"@ {
                (CommandType::Ask, rest, None)
            } else if kind == "tell"@ {
                (CommandType::Tell, rest, None)
            } else if kind == "show"@ {
                match find(s, " for=> "@) {
                    None => (CommandType::Error, err_text(s), None),
                    Some(j) => {
                        let secs = s.skip(j + 7);
                        if is_duration_text(secs) {
                            (CommandType::Show, s.take(j), Some(secs))
                        } else {
                            (CommandType::Error, err_text(s), None)
                        }
                    },
                }
            } else {
                (CommandType::Error, err_text(s), None)
            }
        },
    }
}

/// Whether two strings hold the same characters.
fn str_equal(a: &str, b: &str) -> (r: bool)
    ensures
        r == (a@ == b@),
{
    let n = a.unicode_len();
    let m = b.unicode_len();
    if n != m {
        return false;
    }
    let mut k: usize = 0;
    while k < n
        invariant
            k <= n,
            n == a@.len(),
            n == b@.len(),
            forall|t: int| 0 <= t < k ==> a@[t] == b@[t],
        decreases n - k,
    {
        if a.get_char(k) != b.get_char(k) {
            return false;
        }
        k = k + 1;
    }
    proof {
        assert(a@ =~= b@);
    }
    true
}

/// The first position where `pat` occurs in `s`, if any.
fn find_sub(s: &str, pat: &str) -> (r: Option<usize>)
    ensures
        match r {
            Some(i) => find(s@, pat@) == Some(i as int),
            None => find(s@, pat@) is None,
        },
{
    let n = s.unicode_len();
    let m = pat.unicode_len();
    if m < 1 || m > n {
        proof {
            assert(find_from(s@, pat@, 0) is None);
        }
        return None;
    }
    let mut i: usize = 0;
    while i <= n - m
        invariant
            1 <= m <= n,
            i <= n - m + 1,
            n == s@.len(),
            m == pat@.len(),
            find(s@, pat@) == find_from(s@, pat@, i as int),
        decreases n - i,
    {
        let mut j: usize = 0;
        let mut matched = true;
        while j < m
            invariant
                j <= m,
                i + m <= n,
                n == s@.len(),
                m == pat@.len(),
                matched ==> forall|t: int| 0 <= t < j ==> s@[i + t] == pat@[t],
                !matched ==> s@.subrange(i as int, i + m) != pat@,
            decreases m - j,
        {
            if s.get_char(i + j) != pat.get_char(j) {
                matched = false;
                proof {
                    assert(s@.subrange(i as int, i + m)[j as int] == s@[i + j]);
                    assert(s@.subrange(i as int, i + m) != pat@);
                }
                j = m;
            } else {
                j = j + 1;
            }
        }
        if matched {
            proof {
                assert(s@.subrange(i as int, i + m) =~= pat@);
            }
            return Some(i);
        }
        i = i + 1;
    }
    proof {
        assert(find_from(s@, pat@, i as int) is None);
    }
    None
}

impl Command {
    /// Parses a command string. An input without a `": "` separator, with an
    /// unknown kind, or a `show` without a well-formed duration after
    /// `" for=> "`, yields an `Error` command whose text carries a
    /// diagnostic; any other input yields its kind and payload exactly.
    pub fn from(command: &str) -> (c: Command)
        ensures
            c.command_type == parsed(command@).0,
            c.text@ == parsed(command@).1,
            match c.timer {
                Some(t) => parsed(command@).2 == Some(t@),
                None => parsed(command@).2 is None,
            },
    {
        let n = command.unicode_len();
        match find_sub(command, ": ") {
            None => Command {
                command_type: CommandType::Error,
                text: err_string(command),
                timer: None,
            },
            Some(i) => {
                proof {
                    lemma_find_bounds(command@, ": "@, 0);
                    reveal_strlit(": ");
                }
                let kind = command.substring_char(0, i);
                proof {
                    assert(kind@ =~= command@.take(i as int));
                }
                if str_equal(kind, "ask") {
                    let rest = command.substring_char(i + 2, n);
                    proof {
                        assert(rest@ =~= command@.skip(i + 2));
                    }
                    Command {
                        command_type: CommandType::Ask,
                        text: rest.to_owned(),
                        timer: None,
                    }
                } else if str_equal(kind, "tell") {
                    let rest = command.substring_char(i + 2, n);
                    proof {
                        assert(rest@ =~= command@.skip(i + 2));
                    }
                    Command {
                        command_type: CommandType::Tell,
                        text: rest.to_owned(),
                        timer: None,
                    }
                } else if str_equal(kind, "show") {
                    match find_sub(command, " for=> ") {
                        None => Command {
                            command_type: CommandType::Error,
                            text: err_string(command),
                            timer: None,
                        },
                        Some(j) => {
                            proof {
                                lemma_find_bounds(command@, " for=> "@, 0);
                                reveal_strlit(" for=> ");
                            }
                            let secs = command.substring_char(j + 7, n);
                            proof {
                                assert(secs@ =~= command@.skip(j + 7));
                            }
                            if is_duration_str(secs) {
                                let shown = command.substring_char(0, j);
                                proof {
                                    assert(shown@ =~= command@.take(j as int));
                                }
                                Command {
                                    command_type: CommandType::Show,
                                    text: shown.to_owned(),
                                    timer: Some(secs.to_owned()),
                                }
                            } else {
                                Command {
                                    command_type: CommandType::Error,
                                    text: err_string(command),
                                    timer: None,
                                }
                            }
                        },
                    }
                } else {
                    Command {
                        command_type: CommandType::Error,
                        text: err_string(command),
                        timer: None,
                    }
                }
            },
        }
    }
}

/// The diagnostic text of an `Error` command: a fixed prefix, then the
/// offending input.
fn err_string(command: &str) -> (r: String)
    ensures
        r@ == err_text(command@),
{
    let mut e = String::from_str("ERROR READING COMMAND: ");
    e.append(command);
    e
}

} // verus!
