//! The candidate set and the four filters that narrow it.

use crate::error::Error;
use crate::sieve::{lemma_filter_members, lemma_filter_no_duplicates};
use crate::text::{
    has_letter, is_normalized, lemma_lowered_is_normalized, lowered, same_text, to_lowercase, trim,
    trimmed,
};
use vstd::prelude::*;

verus! {

/// A condition on a single word.
#[derive(Clone, Copy, Debug, PartialEq, Eq, Structural)]
pub enum Constraint {
    /// The word contains the letter somewhere.
    Require(char),
    /// The word does not contain the letter anywhere.
    Prune(char),
    /// The word has the letter at the position.
    RequireAt(char, usize),
    /// The word does not have the letter at the position.
    PruneAt(char, usize),
}

impl Constraint {
    /// Whether `word` meets the condition.
    pub open spec fn admits(self, word: Seq<char>) -> bool {
        match self {
            Constraint::Require(ch) => word.contains(ch),
            Constraint::Prune(ch) => !word.contains(ch),
            Constraint::RequireAt(ch, idx) => idx < word.len() && word[idx as int] == ch,
            Constraint::PruneAt(ch, idx) => !(idx < word.len() && word[idx as int] == ch),
        }
    }

    /// Tests `word` against the condition.
    pub fn check(&self, word: &str) -> (r: bool)
        ensures
            r == self.admits(word@),
    {
        match *self {
            Constraint::Require(ch) => has_letter(word, ch),
            Constraint::Prune(ch) => !has_letter(word, ch),
            Constraint::RequireAt(ch, idx) => idx < word.unicode_len() && word.get_char(idx) == ch,
            Constraint::PruneAt(ch, idx) => !(idx < word.unicode_len() && word.get_char(idx)
                == ch),
        }
    }
}

/// The words of `words` that meet `rule`, in their order.
pub open spec fn kept(words: Seq<Seq<char>>, rule: Constraint) -> Seq<Seq<char>> {
    words.filter(|w: Seq<char>| rule.admits(w))
}

/// The characters of each string of a list.
pub open spec fn views(list: Seq<String>) -> Seq<Seq<char>> {
    Seq::new(list.len(), |i: int| list[i]@)
}

/// The words of `list` that have `word_len` characters, lower-cased.
pub open spec fn normalized(list: Seq<Seq<char>>, word_len: nat) -> Seq<Seq<char>> {
    list.filter(|w: Seq<char>| w.len() == word_len).map_values(|w: Seq<char>| lowered(w))
}

/// The entries of a dictionary: its lines of `word_len` characters, each
/// without the white space around it.
pub open spec fn entries(lines: Seq<Seq<char>>, word_len: nat) -> Seq<Seq<char>> {
    lines.filter(|l: Seq<char>| l.len() == word_len).map_values(|l: Seq<char>| trimmed(l))
}

/// The words of `list` without repeats: each word where it first occurs.
pub open spec fn distinct(list: Seq<Seq<char>>) -> Seq<Seq<char>>
    decreases list.len(),
{
    if list.len() == 0 {
        list
    } else {
        let front = distinct(list.drop_last());
        if front.contains(list.last()) {
            front
        } else {
            front.push(list.last())
        }
    }
}

/// What holds of the words of every candidate set: no word occurs twice,
/// and each has `word_len` characters, none of them an upper-case letter.
pub open spec fn well_formed(words: Seq<Seq<char>>, word_len: nat) -> bool {
    &&& words.no_duplicates()
    &&& forall|i: int|
        0 <= i < words.len() ==> (#[trigger] words[i]).len() == word_len && is_normalized(
            words[i],
        )
}

/// `distinct` keeps exactly the words of the list, each once.
pub proof fn lemma_distinct(list: Seq<Seq<char>>)
    ensures
        distinct(list).no_duplicates(),
        distinct(list).len() <= list.len(),
        forall|w: Seq<char>| #[trigger] distinct(list).contains(w) <==> list.contains(w),
    decreases list.len(),
{
    if list.len() > 0 {
        let front = list.drop_last();
        let last = list.last();
        lemma_distinct(front);
        let d = distinct(front);
        assert(list[list.len() - 1] == last);
        assert forall|w: Seq<char>| #[trigger] distinct(list).contains(w) <==> list.contains(
            w,
        ) by {
            if distinct(list).contains(w) {
                if d.contains(w) {
                    assert(front.contains(w));
                    let j = choose|j: int| 0 <= j < front.len() && front[j] == w;
                    assert(list[j] == w);
                } else {
                    let i = choose|i: int|
                        0 <= i < distinct(list).len() && distinct(list)[i] == w;
                    if i < d.len() {
                        assert(d[i] == w);
                    }
                    assert(w == last);
                }
            }
            if list.contains(w) {
                let j = choose|j: int| 0 <= j < list.len() && list[j] == w;
                if j < front.len() {
                    assert(front[j] == w);
                    assert(front.contains(w));
                    assert(d.contains(w));
                    let i = choose|i: int| 0 <= i < d.len() && d[i] == w;
                    assert(distinct(list)[i] == w);
                } else {
                    assert(w == last);
                    if d.contains(last) {
                    } else {
                        assert(distinct(list)[d.len() as int] == last);
                    }
                }
            }
        }
        if !d.contains(last) {
            assert forall|i: int, j: int|
                0 <= i < d.len() + 1 && 0 <= j < d.len() + 1 && i != j implies d.push(last)[i]
                != d.push(last)[j] by {
                if i < d.len() && j < d.len() {
                } else if i < d.len() {
                    assert(d.contains(d[i]));
                } else {
                    assert(d.contains(d[j]));
                }
            }
        }
    }
}

/// Filtering keeps a well-formed sequence well formed.
pub proof fn lemma_kept_well_formed(words: Seq<Seq<char>>, word_len: nat, rule: Constraint)
    requires
        well_formed(words, word_len),
    ensures
        well_formed(kept(words, rule), word_len),
        kept(words, rule).len() <= words.len(),
        forall|w: Seq<char>| #[trigger]
            kept(words, rule).contains(w) <==> words.contains(w) && rule.admits(w),
{
    let p = |w: Seq<char>| rule.admits(w);
    lemma_filter_members(words, p);
    lemma_filter_no_duplicates(words, p);
    let out = kept(words, rule);
    assert forall|i: int| 0 <= i < out.len() implies (#[trigger] out[i]).len() == word_len
        && is_normalized(out[i]) by {
        assert(out.contains(out[i]));
        assert(words.contains(out[i]));
        let j = choose|j: int| 0 <= j < words.len() && words[j] == out[i];
        assert(words[j].len() == word_len);
    }
}

/// Whether some string of `list` holds the characters of `word`.
fn list_has(list: &Vec<String>, word: &str) -> (r: bool)
    ensures
        r == views(list@).contains(word@),
{
    let n: usize = list.len();
    let mut i: usize = 0;
    while i < n
        invariant
            n == list@.len(),
            i <= n,
            forall|j: int| 0 <= j < i ==> views(list@)[j] != word@,
        decreases n - i,
    {
        if same_text(list[i].as_str(), word) {
            assert(views(list@)[i as int] == word@);
            return true;
        }
        i += 1;
    }
    false
}

/// Picks the entries out of the lines of a dictionary.
pub fn dictionary_entries(lines: &Vec<String>, word_len: usize) -> (r: Vec<String>)
    ensures
        views(r@) == entries(views(lines@), word_len as nat),
{
    let n: usize = lines.len();
    let mut out: Vec<String> = Vec::new();
    let mut i: usize = 0;
    assert(views(lines@.take(0)) =~= Seq::<Seq<char>>::empty());
    assert(entries(Seq::<Seq<char>>::empty(), word_len as nat) =~= Seq::<Seq<char>>::empty()) by {
        reveal(Seq::filter);
    }
    assert(views(out@) =~= Seq::<Seq<char>>::empty());
    while i < n
        invariant
            n == lines@.len(),
            i <= n,
            views(out@) == entries(views(lines@.take(i as int)), word_len as nat),
        decreases n - i,
    {
        let ghost before = views(lines@.take(i as int));
        let ghost fits = |l: Seq<char>| l.len() == word_len as nat;
        let ghost strip = |l: Seq<char>| trimmed(l);
        let line: &str = lines[i].as_str();
        proof {
            assert(views(lines@.take(i + 1)) =~= before.push(line@));
            before.lemma_filter_push(line@, fits);
        }
        if line.unicode_len() == word_len {
            let ghost old_out = out@;
            let entry: String = trim(line).to_owned();
            out.push(entry);
            proof {
                assert(views(out@) =~= views(old_out).push(trimmed(line@)));
                assert(before.filter(fits).push(line@).map_values(strip) =~= before.filter(
                    fits,
                ).map_values(strip).push(trimmed(line@)));
            }
        }
        i += 1;
    }
    assert(lines@.take(n as int) =~= lines@);
    out
}

/// The words that are still possible: distinct, all of one length, lower
/// case. The set is built once and from then on only shrinks.
#[derive(Debug)]
pub struct CandidateSet {
    words: Vec<String>,
    word_len: usize,
}

impl View for CandidateSet {
    type V = Seq<Seq<char>>;

    /// The candidates, in the order of the list they were taken from.
    closed spec fn view(&self) -> Seq<Seq<char>> {
        views(self.words@)
    }
}

impl CandidateSet {
    #[verifier::type_invariant]
    spec fn inv(&self) -> bool {
        well_formed(views(self.words@), self.word_len as nat)
    }

    /// The length that every candidate has.
    pub closed spec fn length(&self) -> nat {
        self.word_len as nat
    }

    /// The candidates as a set.
    pub open spec fn as_set(&self) -> Set<Seq<char>> {
        self@.to_set()
    }

    /// A set with no candidates, for words of `word_len` characters.
    pub fn new(word_len: usize) -> (r: Self)
        ensures
            r@ == Seq::<Seq<char>>::empty(),
            r.length() == word_len,
    {
        let r = CandidateSet { words: Vec::new(), word_len };
        assert(r@ =~= Seq::<Seq<char>>::empty());
        r
    }

    /// The number of characters in every candidate.
    pub fn word_len(&self) -> (r: usize)
        ensures
            r == self.length(),
            well_formed(self@, self.length()),
    {
        proof {
            use_type_invariant(self);
        }
        self.word_len
    }

    /// How many candidates are left.
    pub fn len(&self) -> (r: usize)
        ensures
            r == self@.len(),
            well_formed(self@, self.length()),
    {
        proof {
            use_type_invariant(self);
        }
        self.words.len()
    }

    /// Whether no candidate is left.
    pub fn is_empty(&self) -> (r: bool)
        ensures
            r == (self@.len() == 0),
    {
        self.words.len() == 0
    }

    /// The candidate at position `i`.
    pub fn get(&self, i: usize) -> (r: &str)
        requires
            i < self@.len(),
        ensures
            r@ == self@[i as int],
            r@.len() == self.length(),
            is_normalized(r@),
    {
        proof {
            use_type_invariant(self);
        }
        self.words[i].as_str()
    }

    /// Whether `word` is a candidate.
    pub fn contains(&self, word: &str) -> (r: bool)
        ensures
            r == self@.contains(word@),
    {
        list_has(&self.words, word)
    }

    /// The candidates, for display.
    pub fn words(&self) -> (r: Vec<String>)
        ensures
            views(r@) == self@,
    {
        let n: usize = self.words.len();
        let mut out: Vec<String> = Vec::new();
        let mut i: usize = 0;
        while i < n
            invariant
                n == self.words@.len(),
                i <= n,
                out@.len() == i,
                forall|j: int| 0 <= j < i ==> out@[j]@ == self.words@[j]@,
            decreases n - i,
        {
            out.push(self.words[i].clone());
            i += 1;
        }
        assert(views(out@) =~= self@);
        out
    }

    /// Builds the set from a word list: the words of `word_len` characters,
    /// lower-cased, each kept where it first occurs.
    pub fn from_words(list: &Vec<String>, word_len: usize) -> (r: Self)
        ensures
            r@ == distinct(normalized(views(list@), word_len as nat)),
            r.length() == word_len,
    {
        let mut out: Vec<String> = Vec::new();
        let n: usize = list.len();
        let mut i: usize = 0;
        assert(views(list@.take(0)) =~= Seq::<Seq<char>>::empty());
        assert(normalized(Seq::<Seq<char>>::empty(), word_len as nat) =~= Seq::<
            Seq<char>,
        >::empty()) by {
            reveal(Seq::filter);
        }
        while i < n
            invariant
                n == list@.len(),
                i <= n,
                views(out@) == distinct(normalized(views(list@.take(i as int)), word_len as nat)),
                well_formed(views(out@), word_len as nat),
            decreases n - i,
        {
            let ghost before = views(list@.take(i as int));
            let ghost fits = |w: Seq<char>| w.len() == word_len as nat;
            let ghost low = |w: Seq<char>| lowered(w);
            proof {
                assert(views(list@.take(i + 1)) =~= before.push(list@[i as int]@));
                before.lemma_filter_push(list@[i as int]@, fits);
            }
            let word: &str = list[i].as_str();
            if word.unicode_len() == word_len {
                let lowercase = to_lowercase(word);
                proof {
                    lemma_lowered_is_normalized(word@);
                    assert(before.filter(fits).push(word@).map_values(low) =~= before.filter(
                        fits,
                    ).map_values(low).push(lowered(word@)));
                    assert(normalized(before, word_len as nat).push(lowered(word@)).drop_last()
                        =~= normalized(before, word_len as nat));
                }
                if !list_has(&out, lowercase.as_str()) {
                    let ghost old_out = out@;
                    out.push(lowercase);
                    proof {
                        assert(views(out@) =~= views(old_out).push(lowercase@));
                        assert forall|a: int, b: int|
                            0 <= a < out@.len() && 0 <= b < out@.len() && a != b implies views(
                            out@,
                        )[a] != views(out@)[b] by {
                            if a < old_out.len() && b < old_out.len() {
                                assert(views(old_out)[a] != views(old_out)[b]);
                            } else if a < old_out.len() {
                                assert(views(old_out).contains(views(old_out)[a]));
                            } else {
                                assert(views(old_out).contains(views(old_out)[b]));
                            }
                        }
                        assert forall|j: int| 0 <= j < out@.len() implies (#[trigger] views(
                            out@,
                        )[j]).len() == word_len as nat && is_normalized(views(out@)[j]) by {
                            if j < old_out.len() {
                                assert(views(out@)[j] == views(old_out)[j]);
                            }
                        }
                    }
                }
            }
            i += 1;
        }
        assert(list@.take(n as int) =~= list@);
        CandidateSet { words: out, word_len }
    }

    /// Builds the set from the lines of a dictionary: the lines of
    /// `word_len` characters, without the white space around them, as
    /// [`CandidateSet::from_words`] takes them.
    pub fn from_lines(lines: &Vec<String>, word_len: usize) -> (r: Self)
        ensures
            r@ == distinct(
                normalized(entries(views(lines@), word_len as nat), word_len as nat),
            ),
            r.length() == word_len,
    {
        let list = dictionary_entries(lines, word_len);
        CandidateSet::from_words(&list, word_len)
    }

    /// Keeps the candidates that meet `rule` and drops the others.
    pub(crate) fn retain(&mut self, rule: &Constraint)
        ensures
            final(self)@ == kept(old(self)@, *rule),
            final(self).length() == old(self).length(),
            well_formed(old(self)@, old(self).length()),
    {
        let n: usize = self.words.len();
        let mut out: Vec<String> = Vec::new();
        let ghost p = |w: Seq<char>| rule.admits(w);
        let mut i: usize = 0;
        while i < n
            invariant
                n == self.words@.len(),
                i <= n,
                views(out@) == views(self.words@.take(i as int)).filter(p),
                p == (|w: Seq<char>| rule.admits(w)),
            decreases n - i,
        {
            let ghost before = views(self.words@.take(i as int));
            proof {
                assert(views(self.words@.take(i + 1)) =~= before.push(self.words@[i as int]@));
                before.lemma_filter_push(self.words@[i as int]@, p);
            }
            if rule.check(self.words[i].as_str()) {
                let ghost old_out = out@;
                out.push(self.words[i].clone());
                assert(views(out@) =~= views(old_out).push(self.words@[i as int]@));
            }
            i += 1;
        }
        proof {
            use_type_invariant(&*self);
            assert(self.words@.take(n as int) =~= self.words@);
            lemma_kept_well_formed(self@, self.word_len as nat, *rule);
        }
        self.words = out;
    }
}

/// Keeps the candidates that do not contain `ch`.
pub fn prune(words: &mut CandidateSet, ch: char)
    ensures
        final(words)@ == kept(old(words)@, Constraint::Prune(ch)),
        final(words).length() == old(words).length(),
        final(words)@.len() <= old(words)@.len(),
        forall|w: Seq<char>| #[trigger]
            final(words)@.contains(w) <==> old(words)@.contains(w) && !w.contains(ch),
{
    words.retain(&Constraint::Prune(ch));
    proof {
        lemma_kept_well_formed(old(words)@, old(words).length(), Constraint::Prune(ch));
    }
}

/// Keeps the candidates that contain `ch`.
pub fn require(words: &mut CandidateSet, ch: char)
    ensures
        final(words)@ == kept(old(words)@, Constraint::Require(ch)),
        final(words).length() == old(words).length(),
        final(words)@.len() <= old(words)@.len(),
        forall|w: Seq<char>| #[trigger]
            final(words)@.contains(w) <==> old(words)@.contains(w) && w.contains(ch),
{
    words.retain(&Constraint::Require(ch));
    proof {
        lemma_kept_well_formed(old(words)@, old(words).length(), Constraint::Require(ch));
    }
}

/// Keeps the candidates that do not have `ch` at position `idx`. A position
/// outside the word is refused and the set stays as it is.
pub fn prune_at(words: &mut CandidateSet, ch: char, idx: usize) -> (r: Result<(), Error>)
    ensures
        final(words).length() == old(words).length(),
        final(words)@.len() <= old(words)@.len(),
        match r {
            Ok(_) => {
                &&& idx < old(words).length()
                &&& final(words)@ == kept(old(words)@, Constraint::PruneAt(ch, idx))
                &&& forall|w: Seq<char>| #[trigger]
                    final(words)@.contains(w) <==> old(words)@.contains(w) && w[idx as int]
                        != ch
            },
            Err(e) => {
                &&& e == Error::IndexOutOfRange
                &&& idx >= old(words).length()
                &&& final(words)@ == old(words)@
            },
        },
{
    if idx >= words.word_len() {
        return Err(Error::IndexOutOfRange);
    }
    words.retain(&Constraint::PruneAt(ch, idx));
    proof {
        lemma_kept_well_formed(old(words)@, old(words).length(), Constraint::PruneAt(ch, idx));
        assert forall|w: Seq<char>| #[trigger]
            words@.contains(w) <==> old(words)@.contains(w) && w[idx as int] != ch by {
            if old(words)@.contains(w) {
                let j = choose|j: int| 0 <= j < old(words)@.len() && old(words)@[j] == w;
                assert(old(words)@[j].len() == old(words).length());
            }
        }
    }
    Ok(())
}

/// Keeps the candidates that have `ch` at position `idx`: afterwards every
/// candidate has. A position outside the word is refused and the set stays
/// as it is.
pub fn require_at(words: &mut CandidateSet, ch: char, idx: usize) -> (r: Result<(), Error>)
    ensures
        final(words).length() == old(words).length(),
        final(words)@.len() <= old(words)@.len(),
        match r {
            Ok(_) => {
                &&& idx < old(words).length()
                &&& final(words)@ == kept(old(words)@, Constraint::RequireAt(ch, idx))
                &&& forall|w: Seq<char>| #[trigger]
                    final(words)@.contains(w) <==> old(words)@.contains(w) && w[idx as int]
                        == ch
                &&& forall|i: int|
                    0 <= i < final(words)@.len() ==> (#[trigger] final(words)@[i])[idx as int]
                        == ch
            },
            Err(e) => {
                &&& e == Error::IndexOutOfRange
                &&& idx >= old(words).length()
                &&& final(words)@ == old(words)@
            },
        },
{
    if idx >= words.word_len() {
        return Err(Error::IndexOutOfRange);
    }
    words.retain(&Constraint::RequireAt(ch, idx));
    proof {
        lemma_kept_well_formed(old(words)@, old(words).length(), Constraint::RequireAt(ch, idx));
        assert forall|w: Seq<char>| #[trigger]
            words@.contains(w) <==> old(words)@.contains(w) && w[idx as int] == ch by {
            if old(words)@.contains(w) {
                let j = choose|j: int| 0 <= j < old(words)@.len() && old(words)@[j] == w;
                assert(old(words)@[j].len() == old(words).length());
            }
        }
        assert forall|i: int| 0 <= i < words@.len() implies (#[trigger] words@[i])[idx as int]
            == ch by {
            assert(words@.contains(words@[i]));
        }
    }
    Ok(())
}

} // verus!
