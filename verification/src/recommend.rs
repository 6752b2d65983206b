//! The recommendation engine: letter frequencies, word scores, and the
//! candidate to guess next.

use crate::candidates::{kept, CandidateSet, Constraint};
use crate::error::Error;
use crate::sieve::{lemma_filter_members, lemma_filter_no_duplicates};
use std::collections::HashMap;
use vstd::prelude::*;

verus! {

broadcast use vstd::std_specs::hash::group_hash_axioms;

/// The number of words that contain `ch` at least once.
pub open spec fn frequency(words: Seq<Seq<char>>, ch: char) -> nat {
    kept(words, Constraint::Require(ch)).len()
}

/// The score of a word: the frequencies of its letters, added up, a letter
/// counting as often as it occurs in the word.
pub open spec fn word_score(words: Seq<Seq<char>>, word: Seq<char>) -> nat
    decreases word.len(),
{
    if word.len() == 0 {
        0
    } else {
        word_score(words, word.drop_last()) + frequency(words, word.last())
    }
}

/// The dictionary order on words: the first letter in which two words
/// differ decides, and a word comes before each of its extensions.
pub open spec fn lex_le(a: Seq<char>, b: Seq<char>) -> bool
    decreases a.len(),
{
    if a.len() == 0 {
        true
    } else if b.len() == 0 {
        false
    } else if a[0] != b[0] {
        a[0] < b[0]
    } else {
        lex_le(a.drop_first(), b.drop_first())
    }
}

/// Whether `a` is at least as good a guess as `b`: a higher score wins, and
/// of two words with one score the earlier in dictionary order.
pub open spec fn preferred(words: Seq<Seq<char>>, a: Seq<char>, b: Seq<char>) -> bool {
    word_score(words, a) > word_score(words, b) || (word_score(words, a) == word_score(words, b)
        && lex_le(a, b))
}

/// Whether `word` is the candidate to recommend: one of `words`, and at
/// least as good as every one of them.
pub open spec fn is_best(words: Seq<Seq<char>>, word: Seq<char>) -> bool {
    &&& words.contains(word)
    &&& forall|i: int| 0 <= i < words.len() ==> preferred(words, word, #[trigger] words[i])
}

/// Of two words, one comes before the other or they are the same word.
pub proof fn lemma_lex_total(a: Seq<char>, b: Seq<char>)
    ensures
        lex_le(a, b) || lex_le(b, a),
        lex_le(a, b) && lex_le(b, a) ==> a == b,
        lex_le(a, a),
    decreases a.len(),
{
    if a.len() > 0 {
        lemma_lex_total(a.drop_first(), a.drop_first());
        if b.len() > 0 && a[0] == b[0] {
            lemma_lex_total(a.drop_first(), b.drop_first());
            if lex_le(a, b) && lex_le(b, a) {
                assert(a =~= seq![a[0]] + a.drop_first());
                assert(b =~= seq![b[0]] + b.drop_first());
            }
        }
    } else if lex_le(b, a) {
        assert(a =~= b);
    }
}

/// The dictionary order is transitive.
pub proof fn lemma_lex_transitive(a: Seq<char>, b: Seq<char>, c: Seq<char>)
    requires
        lex_le(a, b),
        lex_le(b, c),
    ensures
        lex_le(a, c),
    decreases a.len(),
{
    if a.len() > 0 && b.len() > 0 && c.len() > 0 {
        if a[0] == b[0] && b[0] == c[0] {
            lemma_lex_transitive(a.drop_first(), b.drop_first(), c.drop_first());
        }
    }
}

/// Preference is transitive, and of two words one is preferred.
pub proof fn lemma_preferred_order(
    words: Seq<Seq<char>>,
    a: Seq<char>,
    b: Seq<char>,
    c: Seq<char>,
)
    ensures
        preferred(words, a, b) || preferred(words, b, a),
        preferred(words, a, b) && preferred(words, b, c) ==> preferred(words, a, c),
        preferred(words, a, b) && preferred(words, b, a) ==> a == b,
{
    lemma_lex_total(a, b);
    if preferred(words, a, b) && preferred(words, b, c) {
        if word_score(words, a) == word_score(words, b) && word_score(words, b) == word_score(
            words,
            c,
        ) {
            lemma_lex_transitive(a, b, c);
        }
    }
}

/// A set has at most one best word: the recommendation depends on the
/// candidates alone.
pub proof fn lemma_best_unique(words: Seq<Seq<char>>, a: Seq<char>, b: Seq<char>)
    requires
        is_best(words, a),
        is_best(words, b),
    ensures
        a == b,
{
    let i = choose|i: int| 0 <= i < words.len() && words[i] == a;
    let j = choose|j: int| 0 <= j < words.len() && words[j] == b;
    assert(preferred(words, a, words[j]));
    assert(preferred(words, b, words[i]));
    lemma_preferred_order(words, a, b, a);
}

/// The frequency of a letter depends on which words there are, not on
/// their order.
pub proof fn lemma_frequency_of_set(a: Seq<Seq<char>>, b: Seq<Seq<char>>, ch: char)
    requires
        a.no_duplicates(),
        b.no_duplicates(),
        a.to_set() == b.to_set(),
    ensures
        frequency(a, ch) == frequency(b, ch),
{
    let p = |w: Seq<char>| Constraint::Require(ch).admits(w);
    lemma_filter_members(a, p);
    lemma_filter_members(b, p);
    lemma_filter_no_duplicates(a, p);
    lemma_filter_no_duplicates(b, p);
    assert forall|w: Seq<char>| a.filter(p).to_set().contains(w) == b.filter(p).to_set().contains(
        w,
    ) by {
        assert(a.contains(w) == a.to_set().contains(w));
        assert(b.contains(w) == b.to_set().contains(w));
        assert(a.filter(p).contains(w) == a.filter(p).to_set().contains(w));
        assert(b.filter(p).contains(w) == b.filter(p).to_set().contains(w));
    }
    assert(a.filter(p).to_set() =~= b.filter(p).to_set());
    a.filter(p).unique_seq_to_set();
    b.filter(p).unique_seq_to_set();
}

/// The score of a word depends on which candidates there are, not on their
/// order.
pub proof fn lemma_score_of_set(a: Seq<Seq<char>>, b: Seq<Seq<char>>, word: Seq<char>)
    requires
        a.no_duplicates(),
        b.no_duplicates(),
        a.to_set() == b.to_set(),
    ensures
        word_score(a, word) == word_score(b, word),
    decreases word.len(),
{
    if word.len() > 0 {
        lemma_score_of_set(a, b, word.drop_last());
        lemma_frequency_of_set(a, b, word.last());
    }
}

/// The recommendation depends on which candidates there are, not on their
/// order: two listings of one set have the same best word.
pub proof fn lemma_best_of_set(a: Seq<Seq<char>>, b: Seq<Seq<char>>, word: Seq<char>)
    requires
        a.no_duplicates(),
        b.no_duplicates(),
        a.to_set() == b.to_set(),
        is_best(a, word),
    ensures
        is_best(b, word),
{
    assert(a.to_set().contains(word));
    assert(b.to_set().contains(word));
    assert forall|i: int| 0 <= i < b.len() implies preferred(b, word, #[trigger] b[i]) by {
        assert(b.to_set().contains(b[i]));
        assert(a.to_set().contains(b[i]));
        let j = choose|j: int| 0 <= j < a.len() && a[j] == b[i];
        assert(preferred(a, word, a[j]));
        lemma_score_of_set(a, b, word);
        lemma_score_of_set(a, b, b[i]);
    }
}

/// One more word raises by one the frequency of each letter it contains.
pub proof fn lemma_frequency_push(words: Seq<Seq<char>>, word: Seq<char>, ch: char)
    ensures
        frequency(words.push(word), ch) == frequency(words, ch) + if word.contains(ch) {
            1nat
        } else {
            0nat
        },
        frequency(words, ch) <= words.len(),
{
    let p = |w: Seq<char>| Constraint::Require(ch).admits(w);
    words.lemma_filter_push(word, p);
    words.lemma_filter_len(p);
}

/// The letter frequency table of a candidate set.
#[derive(Debug)]
pub struct LetterCounts {
    counts: HashMap<u32, usize>,
}

impl LetterCounts {
    /// The count that the table holds for `ch`: zero for a letter it does
    /// not list.
    pub closed spec fn count(&self, ch: char) -> nat {
        if self.counts@.contains_key(ch as u32) {
            self.counts@[ch as u32] as nat
        } else {
            0
        }
    }

    /// Whether the table holds the frequency of every letter in `words`.
    pub open spec fn tabulates(&self, words: Seq<Seq<char>>) -> bool {
        forall|ch: char| #[trigger] self.count(ch) == frequency(words, ch)
    }

    /// The sum of the counts of the letters of `word`, a letter counting
    /// as often as it occurs.
    pub open spec fn total(&self, word: Seq<char>) -> nat
        decreases word.len(),
    {
        if word.len() == 0 {
            0
        } else {
            self.total(word.drop_last()) + self.count(word.last())
        }
    }

    /// The count of `ch`.
    pub fn get(&self, ch: char) -> (r: usize)
        ensures
            r == self.count(ch),
    {
        let key: u32 = ch as u32;
        match self.counts.get(&key) {
            Some(n) => *n,
            None => 0,
        }
    }

    /// A table that tabulates `words` gives each word its score.
    pub proof fn lemma_total_is_score(&self, words: Seq<Seq<char>>, word: Seq<char>)
        requires
            self.tabulates(words),
        ensures
            self.total(word) == word_score(words, word),
        decreases word.len(),
    {
        if word.len() > 0 {
            self.lemma_total_is_score(words, word.drop_last());
        }
    }

    /// A sum of counts is at most the largest count times the length.
    pub proof fn lemma_total_bound(&self, word: Seq<char>)
        ensures
            self.total(word) <= word.len() * usize::MAX,
        decreases word.len(),
    {
        if word.len() > 0 {
            self.lemma_total_bound(word.drop_last());
            assert((word.len() - 1) * usize::MAX + usize::MAX == word.len() * usize::MAX)
                by (nonlinear_arith);
        }
    }
}

/// Different characters have different code points.
proof fn lemma_code_injective(a: char, b: char)
    requires
        a != b,
    ensures
        a as u32 != b as u32,
{
}

/// Whether `ch` occurs in `word` before position `upto`.
fn occurs_before(word: &str, upto: usize, ch: char) -> (r: bool)
    requires
        upto <= word@.len(),
    ensures
        r == word@.take(upto as int).contains(ch),
{
    let mut i: usize = 0;
    while i < upto
        invariant
            i <= upto <= word@.len(),
            forall|j: int| 0 <= j < i ==> word@[j] != ch,
        decreases upto - i,
    {
        if word.get_char(i) == ch {
            assert(word@.take(upto as int)[i as int] == ch);
            return true;
        }
        i += 1;
    }
    assert forall|j: int| 0 <= j < word@.take(upto as int).len() implies word@.take(
        upto as int,
    )[j] != ch by {
        assert(word@[j] != ch);
    }
    false
}

/// Counts, for each letter, the candidates that contain it.
pub fn letter_counts(words: &CandidateSet) -> (r: LetterCounts)
    ensures
        r.tabulates(words@),
{
    let n: usize = words.len();
    let len: usize = words.word_len();
    let mut counts: HashMap<u32, usize> = HashMap::new();
    let mut k: usize = 0;
    assert(words@.take(0) =~= Seq::<Seq<char>>::empty());
    assert forall|ch: char| frequency(Seq::<Seq<char>>::empty(), ch) == 0 by {
        Seq::<Seq<char>>::empty().lemma_filter_len(
            |w: Seq<char>| Constraint::Require(ch).admits(w),
        );
    }
    while k < n
        invariant
            n == words@.len(),
            len == words.length(),
            k <= n,
            (LetterCounts { counts }).tabulates(words@.take(k as int)),
        decreases n - k,
    {
        let word: &str = words.get(k);
        let ghost seen = words@.take(k as int);
        let mut p: usize = 0;
        assert(word@.take(0) =~= Seq::<char>::empty());
        while p < len
            invariant
                n == words@.len(),
                k < n,
                seen == words@.take(k as int),
                word@ == words@[k as int],
                len == word@.len(),
                p <= len,
                forall|ch: char| #[trigger]
                    (LetterCounts { counts }).count(ch) == frequency(seen, ch) + if word@.take(
                        p as int,
                    ).contains(ch) {
                        1nat
                    } else {
                        0nat
                    },
            decreases len - p,
        {
            let ch: char = word.get_char(p);
            let ghost head = word@.take(p as int);
            let ghost next = word@.take(p + 1);
            let ghost before = LetterCounts { counts };
            proof {
                assert(next =~= head.push(ch));
                assert forall|c: char| next.contains(c) <==> head.contains(c) || c == ch by {
                    if head.contains(c) {
                        let j = choose|j: int| 0 <= j < head.len() && head[j] == c;
                        assert(next[j] == c);
                    }
                    if next.contains(c) && c != ch {
                        let j = choose|j: int| 0 <= j < next.len() && next[j] == c;
                        assert(head[j] == c);
                    }
                    assert(next[p as int] == ch);
                }
                lemma_frequency_push(seen, word@, ch);
                assert(before.count(ch) == frequency(seen, ch) + if head.contains(ch) {
                    1nat
                } else {
                    0nat
                });
            }
            if !occurs_before(word, p, ch) {
                let key: u32 = ch as u32;
                let so_far: usize = match counts.get(&key) {
                    Some(c) => *c,
                    None => 0,
                };
                assert(so_far == before.count(ch));
                counts.insert(key, so_far + 1);
                proof {
                    let after = LetterCounts { counts };
                    assert forall|c: char| #[trigger]
                        after.count(c) == frequency(seen, c) + if next.contains(c) {
                            1nat
                        } else {
                            0nat
                        } by {
                        if c != ch {
                            lemma_code_injective(c, ch);
                            assert(after.count(c) == before.count(c));
                        }
                    }
                }
            }
            p += 1;
        }
        proof {
            assert(word@.take(len as int) =~= word@);
            assert(words@.take(k + 1) =~= seen.push(word@));
            let table = LetterCounts { counts };
            assert forall|ch: char| #[trigger]
                table.count(ch) == frequency(words@.take(k + 1), ch) by {
                lemma_frequency_push(seen, word@, ch);
            }
        }
        k += 1;
    }
    assert(words@.take(n as int) =~= words@);
    LetterCounts { counts }
}

/// Adds up the counts of the letters of `word`.
pub fn score(word: &str, letter_counts: &LetterCounts) -> (r: u128)
    ensures
        r == letter_counts.total(word@),
{
    let n: usize = word.unicode_len();
    let mut sum: u128 = 0;
    let mut i: usize = 0;
    assert(word@.take(0) =~= Seq::<char>::empty());
    while i < n
        invariant
            n == word@.len(),
            i <= n,
            sum == letter_counts.total(word@.take(i as int)),
        decreases n - i,
    {
        let c: usize = letter_counts.get(word.get_char(i));
        proof {
            let next = word@.take(i + 1);
            assert(next.drop_last() =~= word@.take(i as int));
            letter_counts.lemma_total_bound(next);
            assert(next.len() * usize::MAX <= usize::MAX * usize::MAX) by (nonlinear_arith)
                requires
                    next.len() <= usize::MAX,
            ;
            assert(usize::MAX * usize::MAX <= u128::MAX) by (nonlinear_arith)
                requires
                    usize::MAX <= 0xffff_ffff_ffff_ffff,
            ;
        }
        sum = sum + c as u128;
        i += 1;
    }
    assert(word@.take(n as int) =~= word@);
    sum
}

/// Whether `a` comes before `b` in dictionary order, or is `b`.
pub fn in_order(a: &str, b: &str) -> (r: bool)
    ensures
        r == lex_le(a@, b@),
{
    let a_len: usize = a.unicode_len();
    let b_len: usize = b.unicode_len();
    let mut i: usize = 0;
    assert(a@.skip(0) =~= a@ && b@.skip(0) =~= b@);
    loop
        invariant
            a_len == a@.len(),
            b_len == b@.len(),
            i <= a_len,
            i <= b_len,
            lex_le(a@, b@) == lex_le(a@.skip(i as int), b@.skip(i as int)),
        decreases a_len - i,
    {
        if i == a_len {
            return true;
        }
        if i == b_len {
            return false;
        }
        let x: char = a.get_char(i);
        let y: char = b.get_char(i);
        if x != y {
            return x < y;
        }
        proof {
            assert(a@.skip(i as int).drop_first() =~= a@.skip(i + 1));
            assert(b@.skip(i as int).drop_first() =~= b@.skip(i + 1));
        }
        i += 1;
    }
}

/// The word to guess next, and its score.
#[derive(Debug)]
pub struct Recommendation {
    /// The recommended candidate.
    pub word: String,
    /// The sum of the frequencies of its letters.
    pub score: u128,
}

/// Picks the candidate with the highest score; of several with that score,
/// the first in dictionary order. A set with no candidates has none to
/// recommend.
pub fn recommend(words: &CandidateSet) -> (r: Result<Recommendation, Error>)
    ensures
        match r {
            Ok(rec) => {
                &&& words@.len() > 0
                &&& words@.contains(rec.word@)
                &&& is_best(words@, rec.word@)
                &&& rec.score == word_score(words@, rec.word@)
            },
            Err(e) => e == Error::EmptyCandidateSet && words@.len() == 0,
        },
{
    let n: usize = words.len();
    if n == 0 {
        return Err(Error::EmptyCandidateSet);
    }
    let counts = letter_counts(words);
    let mut best: usize = 0;
    let mut best_score: u128 = score(words.get(0), &counts);
    proof {
        counts.lemma_total_is_score(words@, words@[0]);
        lemma_preferred_order(words@, words@[0], words@[0], words@[0]);
    }
    let mut i: usize = 1;
    while i < n
        invariant
            n == words@.len(),
            1 <= i <= n,
            best < i,
            counts.tabulates(words@),
            best_score == word_score(words@, words@[best as int]),
            forall|j: int|
                0 <= j < i ==> preferred(words@, words@[best as int], #[trigger] words@[j]),
        decreases n - i,
    {
        let word: &str = words.get(i);
        let s: u128 = score(word, &counts);
        proof {
            counts.lemma_total_is_score(words@, word@);
        }
        let ghost old_best = words@[best as int];
        if s > best_score || (s == best_score && in_order(word, words.get(best))) {
            proof {
                assert forall|j: int| 0 <= j < i + 1 implies preferred(
                    words@,
                    word@,
                    #[trigger] words@[j],
                ) by {
                    if j < i {
                        lemma_preferred_order(words@, word@, old_best, words@[j]);
                    } else {
                        lemma_preferred_order(words@, word@, word@, word@);
                    }
                }
            }
            best = i;
            best_score = s;
        } else {
            proof {
                lemma_preferred_order(words@, old_best, word@, word@);
            }
        }
        i += 1;
    }
    let word: String = words.get(best).to_owned();
    assert(words@[best as int] == word@);
    Ok(Recommendation { word, score: best_score })
}

} // verus!
