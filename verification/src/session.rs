//! A session: one candidate set, the guesses made so far, and the
//! commands that act on them.

use crate::candidates::{kept, prune_at, require_at, CandidateSet, Constraint};
use crate::command::{parse_command, parsed, Command, CommandView};
use crate::engine::{
    apply_guess, guessed, prune_letters, require_letters, with_letters, without_letters,
};
use crate::error::{CommandError, Error};
use crate::recommend::{is_best, recommend, word_score, Recommendation};
use crate::text::{trim, trimmed};
use vstd::prelude::*;

verus! {

/// What a command that was carried out reports.
#[derive(Clone, Copy, Debug, PartialEq, Eq, Structural)]
pub enum Reply {
    /// The answer to a membership question. The set is as it was.
    Membership(bool),
    /// The set was narrowed, to this many candidates.
    Narrowed(usize),
}

/// What a command leaves of `words`, or why it is refused.
pub open spec fn effect(words: Seq<Seq<char>>, word_len: nat, command: CommandView) -> Result<
    Seq<Seq<char>>,
    Error,
> {
    match command {
        CommandView::Contains(_) => Ok(words),
        CommandView::Guess(word, correct, incorrect) => guessed(
            words,
            word_len,
            trimmed(word),
            correct,
            incorrect,
        ),
        CommandView::Prune(letters) => Ok(without_letters(words, letters)),
        CommandView::PruneAt(ch, idx) => if idx < word_len {
            Ok(kept(words, Constraint::PruneAt(ch, idx)))
        } else {
            Err(Error::IndexOutOfRange)
        },
        CommandView::Require(letters) => Ok(with_letters(words, letters)),
        CommandView::RequireAt(ch, idx) => if idx < word_len {
            Ok(kept(words, Constraint::RequireAt(ch, idx)))
        } else {
            Err(Error::IndexOutOfRange)
        },
    }
}

/// The guesses on record after a command that was carried out: a guess is
/// added, without the white space around it; nothing else is.
pub open spec fn recorded(history: Seq<Seq<char>>, command: CommandView) -> Seq<Seq<char>> {
    match command {
        CommandView::Guess(word, _, _) => history.push(trimmed(word)),
        _ => history,
    }
}

/// What a command that was carried out reports.
pub open spec fn reply_to(before: Seq<Seq<char>>, after: Seq<Seq<char>>, command: CommandView)
    -> Reply {
    match command {
        CommandView::Contains(word) => Reply::Membership(before.contains(word)),
        _ => Reply::Narrowed(after.len() as usize),
    }
}

/// A candidate set with the guesses that have narrowed it.
#[derive(Debug)]
pub struct Session {
    candidates: CandidateSet,
    guesses: Vec<String>,
}

impl Session {
    /// The candidates that are left.
    pub closed spec fn words(&self) -> Seq<Seq<char>> {
        self.candidates@
    }

    /// The length that every candidate has.
    pub closed spec fn length(&self) -> nat {
        self.candidates.length()
    }

    /// The guesses that were accepted, oldest first.
    pub closed spec fn history(&self) -> Seq<Seq<char>> {
        Seq::new(self.guesses@.len(), |i: int| self.guesses@[i]@)
    }

    /// Starts a session on a candidate set, with no guess made.
    pub fn new(candidates: CandidateSet) -> (r: Self)
        ensures
            r.words() == candidates@,
            r.length() == candidates.length(),
            r.history() == Seq::<Seq<char>>::empty(),
    {
        let r = Session { candidates, guesses: Vec::new() };
        assert(r.history() =~= Seq::<Seq<char>>::empty());
        r
    }

    /// The candidate set.
    pub fn candidates(&self) -> (r: &CandidateSet)
        ensures
            r@ == self.words(),
            r.length() == self.length(),
    {
        &self.candidates
    }

    /// The guesses that were accepted, oldest first.
    pub fn guesses(&self) -> (r: &Vec<String>)
        ensures
            r@.len() == self.history().len(),
            forall|i: int| 0 <= i < r@.len() ==> r@[i]@ == self.history()[i],
    {
        &self.guesses
    }

    /// Whether more than one candidate is left, so that there is still
    /// something to narrow.
    pub fn is_open(&self) -> (r: bool)
        ensures
            r == (self.words().len() > 1),
    {
        self.candidates.len() > 1
    }

    /// The candidate to guess next.
    pub fn recommend(&self) -> (r: Result<Recommendation, Error>)
        ensures
            match r {
                Ok(rec) => {
                    &&& self.words().contains(rec.word@)
                    &&& is_best(self.words(), rec.word@)
                    &&& rec.score == word_score(self.words(), rec.word@)
                },
                Err(e) => e == Error::EmptyCandidateSet && self.words().len() == 0,
            },
    {
        recommend(&self.candidates)
    }

    /// Carries out a command. A command that is refused changes nothing.
    pub fn execute(&mut self, command: &Command) -> (r: Result<Reply, Error>)
        ensures
            final(self).length() == old(self).length(),
            final(self).words().len() <= old(self).words().len(),
            match r {
                Ok(reply) => {
                    &&& effect(old(self).words(), old(self).length(), command@) == Ok::<
                        Seq<Seq<char>>,
                        Error,
                    >(final(self).words())
                    &&& final(self).history() == recorded(old(self).history(), command@)
                    &&& reply == reply_to(old(self).words(), final(self).words(), command@)
                },
                Err(e) => {
                    &&& effect(old(self).words(), old(self).length(), command@) == Err::<
                        Seq<Seq<char>>,
                        Error,
                    >(e)
                    &&& final(self).words() == old(self).words()
                    &&& final(self).history() == old(self).history()
                },
            },
    {
        match command {
            Command::Contains(word) => {
                return Ok(Reply::Membership(self.candidates.contains(word.as_str())));
            },
            Command::Guess(word, correct, incorrect) => {
                let guess: &str = trim(word.as_str());
                match apply_guess(&mut self.candidates, guess, correct, incorrect) {
                    Ok(_) => {},
                    Err(e) => {
                        return Err(e);
                    },
                }
                let ghost before = self.history();
                self.guesses.push(guess.to_owned());
                assert(self.history() =~= before.push(guess@));
            },
            Command::Prune(letters) => {
                prune_letters(&mut self.candidates, letters.as_str());
            },
            Command::PruneAt(ch, idx) => {
                match prune_at(&mut self.candidates, *ch, *idx) {
                    Ok(_) => {},
                    Err(e) => {
                        return Err(e);
                    },
                }
            },
            Command::Require(letters) => {
                require_letters(&mut self.candidates, letters.as_str());
            },
            Command::RequireAt(ch, idx) => {
                match require_at(&mut self.candidates, *ch, *idx) {
                    Ok(_) => {},
                    Err(e) => {
                        return Err(e);
                    },
                }
            },
        }
        Ok(Reply::Narrowed(self.candidates.len()))
    }

    /// Reads a command line and carries the command out. A line that
    /// cannot be read is refused as malformed, with the reason.
    pub fn submit(&mut self, line: &str) -> (r: Result<Reply, Error>)
        ensures
            final(self).length() == old(self).length(),
            final(self).words().len() <= old(self).words().len(),
            match parsed(line@) {
                Err(reason) => {
                    &&& r == Err::<Reply, Error>(Error::MalformedInput(reason))
                    &&& final(self).words() == old(self).words()
                    &&& final(self).history() == old(self).history()
                },
                Ok(command) => match r {
                    Ok(reply) => {
                        &&& effect(old(self).words(), old(self).length(), command) == Ok::<
                            Seq<Seq<char>>,
                            Error,
                        >(final(self).words())
                        &&& final(self).history() == recorded(old(self).history(), command)
                        &&& reply == reply_to(old(self).words(), final(self).words(), command)
                    },
                    Err(e) => {
                        &&& effect(old(self).words(), old(self).length(), command) == Err::<
                            Seq<Seq<char>>,
                            Error,
                        >(e)
                        &&& final(self).words() == old(self).words()
                        &&& final(self).history() == old(self).history()
                    },
                },
            },
    {
        match parse_command(line) {
            Ok(command) => self.execute(&command),
            Err(reason) => Err(Error::MalformedInput(reason)),
        }
    }
}

} // verus!
