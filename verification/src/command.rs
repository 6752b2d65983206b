//! The command language: one line of text, one command.
//!
//! ```text
//! contains WORD
//! guess WORD CORRECT,INCORRECT      (or g)   positions as single digits
//! prune LETTERS                     (or p)
//! prune LETTER at POSITION
//! require LETTERS                   (or r)
//! require LETTER at POSITION
//! ```

use crate::error::CommandError;
use crate::text::{same_text, split_once, split_pair, trim, trimmed};
use vstd::prelude::*;

verus! {

/// A command of the session.
#[derive(Debug, PartialEq, Eq)]
pub enum Command {
    /// Ask whether a word is still a candidate.
    Contains(String),
    /// Submit a guess, with the positions marked correct and those marked
    /// present elsewhere.
    Guess(String, Vec<usize>, Vec<usize>),
    /// Drop the candidates that contain any of the letters.
    Prune(String),
    /// Drop the candidates that have the letter at the position.
    PruneAt(char, usize),
    /// Keep the candidates that contain every one of the letters.
    Require(String),
    /// Keep the candidates that have the letter at the position.
    RequireAt(char, usize),
}

/// What a command holds, as plain sequences.
pub enum CommandView {
    Contains(Seq<char>),
    Guess(Seq<char>, Seq<usize>, Seq<usize>),
    Prune(Seq<char>),
    PruneAt(char, usize),
    Require(Seq<char>),
    RequireAt(char, usize),
}

impl View for Command {
    type V = CommandView;

    open spec fn view(&self) -> CommandView {
        match self {
            Command::Contains(word) => CommandView::Contains(word@),
            Command::Guess(word, correct, incorrect) => CommandView::Guess(
                word@,
                correct@,
                incorrect@,
            ),
            Command::Prune(letters) => CommandView::Prune(letters@),
            Command::PruneAt(ch, idx) => CommandView::PruneAt(*ch, *idx),
            Command::Require(letters) => CommandView::Require(letters@),
            Command::RequireAt(ch, idx) => CommandView::RequireAt(*ch, *idx),
        }
    }
}

/// Whether `c` is a decimal digit.
pub open spec fn is_digit(c: char) -> bool {
    '0' <= c <= '9'
}

/// The value of a decimal digit.
pub open spec fn digit_value(c: char) -> nat {
    (c as int - '0' as int) as nat
}

/// Whether `s` holds decimal digits only.
pub open spec fn all_digits(s: Seq<char>) -> bool {
    forall|i: int| 0 <= i < s.len() ==> is_digit(#[trigger] s[i])
}

/// The number that a sequence of decimal digits writes.
pub open spec fn decimal(s: Seq<char>) -> nat
    decreases s.len(),
{
    if s.len() == 0 {
        0
    } else {
        decimal(s.drop_last()) * 10 + digit_value(s.last())
    }
}

/// The position that `s` writes: decimal digits, at least one, with or
/// without a `+` before them, and a value that a `usize` can hold.
pub open spec fn number(s: Seq<char>) -> Option<usize> {
    let digits = if s.len() > 0 && s[0] == '+' {
        s.drop_first()
    } else {
        s
    };
    if digits.len() > 0 && all_digits(digits) && decimal(digits) <= usize::MAX {
        Some(decimal(digits) as usize)
    } else {
        None
    }
}

/// The positions that `s` writes, one digit each.
pub open spec fn digit_list(s: Seq<char>) -> Option<Seq<usize>> {
    if all_digits(s) {
        Some(Seq::new(s.len(), |i: int| digit_value(s[i]) as usize))
    } else {
        None
    }
}

/// The arguments of `guess`: a word, a space, and two digit lists with a
/// comma between them.
pub open spec fn parsed_guess(args: Seq<char>) -> Result<CommandView, CommandError> {
    match split_pair(args, " "@) {
        None => Err(CommandError::ImproperArgumentCount),
        Some((word, marks)) => match split_pair(trimmed(marks), ","@) {
            None => Err(CommandError::MalformedArgument),
            Some((correct, incorrect)) => match (digit_list(correct), digit_list(incorrect)) {
                (Some(c), Some(i)) => Ok(CommandView::Guess(word, c, i)),
                _ => Err(CommandError::MalformedArgument),
            },
        },
    }
}

/// The arguments of `prune` and `require`: letters alone, or letters, the
/// word `at` between spaces, and a position. What follows a second `at`
/// is not read.
pub open spec fn parsed_target(args: Seq<char>) -> Result<
    (Seq<char>, Option<usize>),
    CommandError,
> {
    match split_pair(args, " at "@) {
        None => Ok((args, None)),
        Some((letters, rest)) => {
            let place = match split_pair(rest, " at "@) {
                Some((place, _)) => place,
                None => rest,
            };
            if letters.len() == 0 {
                Err(CommandError::ImproperArgumentCount)
            } else {
                match number(place) {
                    Some(at) => Ok((letters, Some(at))),
                    None => Err(CommandError::MalformedArgument),
                }
            }
        },
    }
}

/// The command that a line writes: the line without the white space around
/// it is a name, a space, and the arguments that the name asks for.
pub open spec fn parsed(line: Seq<char>) -> Result<CommandView, CommandError> {
    match split_pair(trimmed(line), " "@) {
        None => Err(CommandError::ImproperArgumentCount),
        Some((name, args)) => if name == "contains"@ {
            Ok(CommandView::Contains(args))
        } else if name == "guess"@ || name == "g"@ {
            parsed_guess(args)
        } else if name == "prune"@ || name == "p"@ {
            match parsed_target(args) {
                Ok((letters, None)) => Ok(CommandView::Prune(letters)),
                Ok((letters, Some(at))) => Ok(CommandView::PruneAt(letters[0], at)),
                Err(e) => Err(e),
            }
        } else if name == "require"@ || name == "r"@ {
            match parsed_target(args) {
                Ok((letters, None)) => Ok(CommandView::Require(letters)),
                Ok((letters, Some(at))) => Ok(CommandView::RequireAt(letters[0], at)),
                Err(e) => Err(e),
            }
        } else {
            Err(CommandError::InvalidCommand)
        },
    }
}

/// A longer digit sequence writes a number at least as large as each of
/// its beginnings.
pub proof fn lemma_decimal_grows(s: Seq<char>, k: int)
    requires
        0 <= k <= s.len(),
    ensures
        decimal(s.take(k)) <= decimal(s),
    decreases s.len() - k,
{
    if k < s.len() {
        lemma_decimal_grows(s, k + 1);
        assert(s.take(k + 1).drop_last() =~= s.take(k));
    } else {
        assert(s.take(k) =~= s);
    }
}

/// Reads decimal digits from position `from` of `s` to its end.
fn read_decimal(s: &str, from: usize) -> (r: Option<usize>)
    requires
        from <= s@.len(),
    ensures
        ({
            let digits = s@.skip(from as int);
            if all_digits(digits) && decimal(digits) <= usize::MAX {
                r == Some(decimal(digits) as usize)
            } else {
                r is None
            }
        }),
{
    let n: usize = s.unicode_len();
    let ghost digits = s@.skip(from as int);
    let mut value: usize = 0;
    let mut i: usize = from;
    assert(digits.take(0) =~= Seq::<char>::empty());
    while i < n
        invariant
            n == s@.len(),
            from <= i <= n,
            digits == s@.skip(from as int),
            all_digits(digits.take(i - from)),
            value == decimal(digits.take(i - from)),
        decreases n - i,
    {
        let c: char = s.get_char(i);
        let ghost head = digits.take(i - from);
        let ghost next = digits.take(i - from + 1);
        proof {
            assert(next.drop_last() =~= head);
            assert(next.last() == c);
            lemma_decimal_grows(digits, i - from + 1);
        }
        if !('0' <= c && c <= '9') {
            assert(!is_digit(digits[i - from]));
            return None;
        }
        let d: usize = (c as u8 - 48) as usize;
        assert(d == digit_value(c));
        let scaled: usize = match value.checked_mul(10) {
            Some(v) => v,
            None => {
                return None;
            },
        };
        value = match scaled.checked_add(d) {
            Some(v) => v,
            None => {
                return None;
            },
        };
        proof {
            assert forall|j: int| 0 <= j < next.len() implies is_digit(#[trigger] next[j]) by {
                if j < head.len() {
                    assert(head[j] == next[j]);
                }
            }
        }
        i += 1;
    }
    assert(digits.take(n - from) =~= digits);
    Some(value)
}

/// Reads a position.
pub fn parse_number(s: &str) -> (r: Option<usize>)
    ensures
        r == number(s@),
{
    let n: usize = s.unicode_len();
    let from: usize = if n > 0 && s.get_char(0) == '+' {
        1
    } else {
        0
    };
    proof {
        assert(s@.skip(0) =~= s@);
        assert(s@.skip(1) =~= s@.drop_first());
    }
    if from == n {
        return None;
    }
    read_decimal(s, from)
}

/// Reads a list of one-digit positions.
pub fn parse_digits(s: &str) -> (r: Option<Vec<usize>>)
    ensures
        match r {
            Some(list) => digit_list(s@) == Some(list@),
            None => digit_list(s@) is None,
        },
{
    let n: usize = s.unicode_len();
    let mut list: Vec<usize> = Vec::new();
    let mut i: usize = 0;
    while i < n
        invariant
            n == s@.len(),
            i <= n,
            list@.len() == i,
            forall|j: int| 0 <= j < i ==> is_digit(#[trigger] s@[j]),
            forall|j: int| 0 <= j < i ==> list@[j] == digit_value(s@[j]),
        decreases n - i,
    {
        let c: char = s.get_char(i);
        if !('0' <= c && c <= '9') {
            assert(!is_digit(s@[i as int]));
            return None;
        }
        list.push((c as u8 - 48) as usize);
        i += 1;
    }
    assert(list@ =~= Seq::new(s@.len(), |i: int| digit_value(s@[i]) as usize));
    Some(list)
}

/// Reads the arguments of `guess`.
fn parse_guess(args: &str) -> (r: Result<Command, CommandError>)
    ensures
        match r {
            Ok(c) => parsed_guess(args@) == Ok::<CommandView, CommandError>(c@),
            Err(e) => parsed_guess(args@) == Err::<CommandView, CommandError>(e),
        },
{
    let (word, marks) = match split_once(args, " ") {
        Some(pair) => pair,
        None => {
            return Err(CommandError::ImproperArgumentCount);
        },
    };
    let (correct, incorrect) = match split_once(trim(marks), ",") {
        Some(pair) => pair,
        None => {
            return Err(CommandError::MalformedArgument);
        },
    };
    let correct = match parse_digits(correct) {
        Some(list) => list,
        None => {
            return Err(CommandError::MalformedArgument);
        },
    };
    let incorrect = match parse_digits(incorrect) {
        Some(list) => list,
        None => {
            return Err(CommandError::MalformedArgument);
        },
    };
    Ok(Command::Guess(word.to_owned(), correct, incorrect))
}

/// Reads the arguments of `prune` and `require`.
fn parse_target<'a>(args: &'a str) -> (r: Result<(&'a str, Option<usize>), CommandError>)
    ensures
        match r {
            Ok((letters, at)) => parsed_target(args@) == Ok::<
                (Seq<char>, Option<usize>),
                CommandError,
            >((letters@, at)),
            Err(e) => parsed_target(args@) == Err::<(Seq<char>, Option<usize>), CommandError>(e),
        },
{
    let (letters, rest) = match split_once(args, " at ") {
        Some(pair) => pair,
        None => {
            return Ok((args, None));
        },
    };
    let place = match split_once(rest, " at ") {
        Some((place, _)) => place,
        None => rest,
    };
    if letters.unicode_len() == 0 {
        return Err(CommandError::ImproperArgumentCount);
    }
    match parse_number(place) {
        Some(at) => Ok((letters, Some(at))),
        None => Err(CommandError::MalformedArgument),
    }
}

/// Reads a command line.
pub fn parse_command(line: &str) -> (r: Result<Command, CommandError>)
    ensures
        match r {
            Ok(c) => parsed(line@) == Ok::<CommandView, CommandError>(c@),
            Err(e) => parsed(line@) == Err::<CommandView, CommandError>(e),
        },
{
    let (name, args) = match split_once(trim(line), " ") {
        Some(pair) => pair,
        None => {
            return Err(CommandError::ImproperArgumentCount);
        },
    };
    if same_text(name, "contains") {
        Ok(Command::Contains(args.to_owned()))
    } else if same_text(name, "guess") || same_text(name, "g") {
        parse_guess(args)
    } else if same_text(name, "prune") || same_text(name, "p") {
        match parse_target(args) {
            Ok((letters, None)) => Ok(Command::Prune(letters.to_owned())),
            Ok((letters, Some(at))) => Ok(Command::PruneAt(letters.get_char(0), at)),
            Err(e) => Err(e),
        }
    } else if same_text(name, "require") || same_text(name, "r") {
        match parse_target(args) {
            Ok((letters, None)) => Ok(Command::Require(letters.to_owned())),
            Ok((letters, Some(at))) => Ok(Command::RequireAt(letters.get_char(0), at)),
            Err(e) => Err(e),
        }
    } else {
        Err(CommandError::InvalidCommand)
    }
}

impl core::str::FromStr for Command {
    type Err = CommandError;

    /// Reads a command line, as [`parse_command`] does.
    fn from_str(line: &str) -> (r: Result<Command, CommandError>)
        ensures
            match r {
                Ok(c) => parsed(line@) == Ok::<CommandView, CommandError>(c@),
                Err(e) => parsed(line@) == Err::<CommandView, CommandError>(e),
            },
    {
        parse_command(line)
    }
}

} // verus!
