//! The membership-update command language. Each feed line is either
//! `add <hostname>` or `remove <hostname>`, the hostname a non-empty token
//! running up to the next space; any other line is malformed and is skipped
//! by the caller.

use vstd::prelude::*;

verus! {

/// A membership command read from the update feed.
#[derive(Clone, Copy, Debug, PartialEq, Eq, Structural)]
pub enum Command {
    Add,
    Remove,
}

/// The index of the first space in `s`, or its length when it has none.
pub open spec fn first_space(s: Seq<char>) -> int
    decreases s.len(),
{
    if s.len() == 0 {
        0
    } else if s[0] == ' ' {
        0
    } else {
        1 + first_space(s.drop_first())
    }
}

/// The parse of one feed line: the word before the first space names the
/// command, the token after it names the host, and anything after a second
/// space is ignored. A line without a space, with an empty hostname token,
/// or whose first word is neither `add` nor `remove`, is malformed.
pub open spec fn parse_line(line: Seq<char>) -> Option<(Command, Seq<char>)> {
    if first_space(line) == line.len() {
        None
    } else {
        let command = line.take(first_space(line));
        let rest = line.skip(first_space(line) + 1);
        let host = rest.take(first_space(rest));
        if host.len() == 0 {
            None
        } else if command == "add"@ {
            Some((Command::Add, host))
        } else if command == "remove"@ {
            Some((Command::Remove, host))
        } else {
            None
        }
    }
}

/// The first space lies within the string, nothing before it is a space, and
/// it is a space unless it is the length.
pub proof fn lemma_first_space_bounds(s: Seq<char>)
    ensures
        0 <= first_space(s) <= s.len(),
        first_space(s) < s.len() ==> s[first_space(s)] == ' ',
        forall|j: int| 0 <= j < first_space(s) ==> s[j] != ' ',
    decreases s.len(),
{
    if s.len() == 0 {
    } else if s[0] == ' ' {
    } else {
        lemma_first_space_bounds(s.drop_first());
        assert forall|j: int| 0 <= j < first_space(s) implies s[j] != ' ' by {
            if j > 0 {
                assert(s.drop_first()[j - 1] == s[j]);
            }
        }
        if first_space(s) < s.len() {
            assert(s.drop_first()[first_space(s) - 1] == s[first_space(s)]);
        }
    }
}

/// Any index with no space before it, and a space at it unless it is the
/// length, is the first space.
pub proof fn lemma_first_space_unique(s: Seq<char>, i: int)
    requires
        0 <= i <= s.len(),
        forall|j: int| 0 <= j < i ==> s[j] != ' ',
        i < s.len() ==> s[i] == ' ',
    ensures
        first_space(s) == i,
{
    lemma_first_space_bounds(s);
    if i < first_space(s) {
        assert(s[i] != ' ');
    } else if first_space(s) < i {
        assert(s[first_space(s)] != ' ');
    }
}

/// A string without a space has its first space at the end.
pub proof fn lemma_no_space(s: Seq<char>)
    requires
        !s.contains(' '),
    ensures
        first_space(s) == s.len(),
{
    assert forall|j: int| 0 <= j < s.len() implies s[j] != ' ' by {
        assert(s[j] == s[j]);
    }
    lemma_first_space_unique(s, s.len() as int);
}

/// A prefix without a space, a space, and a suffix: the prefix runs up to the
/// first space, and the suffix follows it.
pub proof fn lemma_split_at_first_space(s: Seq<char>, a: Seq<char>, b: Seq<char>)
    requires
        s == a.push(' ') + b,
        !a.contains(' '),
    ensures
        first_space(s) == a.len(),
        s.take(a.len() as int) == a,
        s.skip(a.len() as int + 1) == b,
{
    assert forall|j: int| 0 <= j < a.len() implies s[j] != ' ' by {
        assert(s[j] == a[j]);
        assert(a[j] == a[j]);
    }
    assert(s[a.len() as int] == ' ');
    lemma_first_space_unique(s, a.len() as int);
    assert(s.take(a.len() as int) =~= a);
    assert(s.skip(a.len() as int + 1) =~= b);
}

/// Relies on str::split_once: the result splits the string around the first
/// occurrence of the separator, so the prefix holds no space, and prefix,
/// space and suffix together reassemble the input.
#[verifier::external_body]
fn split_first_space(s: &str) -> (r: Option<(String, String)>)
    ensures
        (match r {
            Some(parts) => s@ == parts.0@.push(' ') + parts.1@ && !parts.0@.contains(' '),
            None => !s@.contains(' '),
        }),
{
    match s.split_once(' ') {
        Some((first, rest)) => Some((first.to_string(), rest.to_string())),
        None => None,
    }
}

/// Parse one update-feed line. `Ok` carries the command and the non-empty
/// hostname the caller is to apply it to; `Err` reports a malformed line,
/// to be skipped.
pub fn read_line(line: &String) -> (r: Result<(Command, String), ()>)
    ensures
        (match r {
            Ok(parsed) => parse_line(line@) == Some((parsed.0, parsed.1@)),
            Err(_) => parse_line(line@) is None,
        }),
{
    match split_first_space(line.as_str()) {
        None => {
            proof {
                lemma_no_space(line@);
            }
            Err(())
        },
        Some((command_word, rest)) => {
            proof {
                lemma_split_at_first_space(line@, command_word@, rest@);
            }
            let host = match split_first_space(rest.as_str()) {
                None => {
                    proof {
                        lemma_no_space(rest@);
                        assert(rest@.take(rest@.len() as int) =~= rest@);
                    }
                    rest
                },
                Some((host_word, tail)) => {
                    proof {
                        lemma_split_at_first_space(rest@, host_word@, tail@);
                    }
                    host_word
                },
            };
            if host.as_str().is_empty() {
                return Err(());
            }
            let add_word: String = "add".to_owned();
            let remove_word: String = "remove".to_owned();
            if command_word == add_word {
                Ok((Command::Add, host))
            } else if command_word == remove_word {
                Ok((Command::Remove, host))
            } else {
                Err(())
            }
        },
    }
}

} // verus!
