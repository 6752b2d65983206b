//! The constraint engine: what a sequence of tiles says about a word, and
//! the narrowing of a candidate set by it.

use crate::candidates::{kept, CandidateSet, Constraint};
use crate::error::Error;
use crate::sieve::{
    lemma_filter_agree, lemma_filter_all, lemma_filter_commutes, lemma_filter_idempotent,
    lemma_filter_members, lemma_filter_twice,
};
use crate::tile::{classified, classify, in_range, overlap, Tile};
use vstd::prelude::*;

verus! {

/// Whether `word` has the letter `ch` at position `i`.
pub open spec fn has_at(word: Seq<char>, i: int, ch: char) -> bool {
    0 <= i < word.len() && word[i] == ch
}

/// A letter is marked when some tile of the guess shows it as correct or as
/// incorrect.
pub open spec fn is_marked(tiles: Seq<Tile>, ch: char) -> bool {
    exists|j: int|
        0 <= j < tiles.len() && (tiles[j] == Tile::Correct(ch) || tiles[j] == Tile::Incorrect(ch))
}

/// The letters that the tiles show as correct or as incorrect, in the
/// order of the tiles.
pub open spec fn marked(tiles: Seq<Tile>) -> Seq<char> {
    tiles.filter(|t: Tile| !(t is Unused)).map_values(|t: Tile| t.letter())
}

/// What a tile at position `i` says of `word` by itself: a correct letter
/// stands there, an incorrect one stands elsewhere, an unused one does not
/// stand there.
pub open spec fn position_admits(tile: Tile, i: int, word: Seq<char>) -> bool {
    match tile {
        Tile::Correct(ch) => has_at(word, i, ch),
        Tile::Incorrect(ch) => !has_at(word, i, ch) && word.contains(ch),
        Tile::Unused(ch) => !has_at(word, i, ch),
    }
}

/// What an unused tile says of the whole word: its letter is absent, unless
/// the guess marks the same letter elsewhere.
pub open spec fn absence_admits(tiles: Seq<Tile>, i: int, word: Seq<char>) -> bool {
    tiles[i] matches Tile::Unused(ch) ==> is_marked(tiles, ch) || !word.contains(ch)
}

/// Whether `word` agrees with the tile at position `i`.
pub open spec fn tile_admits(tiles: Seq<Tile>, i: int, word: Seq<char>) -> bool {
    position_admits(tiles[i], i, word) && absence_admits(tiles, i, word)
}

/// Whether `word` agrees with every tile.
pub open spec fn consistent(tiles: Seq<Tile>, word: Seq<char>) -> bool {
    forall|i: int| 0 <= i < tiles.len() ==> tile_admits(tiles, i, word)
}

/// The words that agree with every tile, in their order.
pub open spec fn narrowed(words: Seq<Seq<char>>, tiles: Seq<Tile>) -> Seq<Seq<char>> {
    words.filter(|w: Seq<char>| consistent(tiles, w))
}

/// Whether `word` agrees with the absence part of the first `upto` tiles.
pub open spec fn absences_hold(tiles: Seq<Tile>, upto: int, word: Seq<char>) -> bool {
    forall|j: int| 0 <= j < upto ==> absence_admits(tiles, j, word)
}

/// Whether `word` agrees with the position part of the first `upto` tiles.
pub open spec fn positions_hold(tiles: Seq<Tile>, upto: int, word: Seq<char>) -> bool {
    forall|j: int| 0 <= j < upto ==> position_admits(tiles[j], j, word)
}

/// Narrowing never adds a word and keeps exactly the consistent ones.
pub proof fn lemma_narrowed_members(words: Seq<Seq<char>>, tiles: Seq<Tile>)
    ensures
        narrowed(words, tiles).len() <= words.len(),
        forall|w: Seq<char>| #[trigger]
            narrowed(words, tiles).contains(w) <==> words.contains(w) && consistent(tiles, w),
{
    lemma_filter_members(words, |w: Seq<char>| consistent(tiles, w));
}

/// Narrowing a second time by the same tiles changes nothing.
pub proof fn lemma_narrowed_idempotent(words: Seq<Seq<char>>, tiles: Seq<Tile>)
    ensures
        narrowed(narrowed(words, tiles), tiles) == narrowed(words, tiles),
{
    lemma_filter_idempotent(words, |w: Seq<char>| consistent(tiles, w));
}

/// After narrowing, every word has the letter of each correct tile at that
/// tile's position.
pub proof fn lemma_correct_tiles_hold(words: Seq<Seq<char>>, tiles: Seq<Tile>, k: int, i: int)
    requires
        0 <= k < narrowed(words, tiles).len(),
        0 <= i < tiles.len(),
        tiles[i] is Correct,
    ensures
        i < narrowed(words, tiles)[k].len(),
        narrowed(words, tiles)[k][i] == tiles[i].letter(),
{
    let out = narrowed(words, tiles);
    lemma_narrowed_members(words, tiles);
    assert(out.contains(out[k]));
    assert(tile_admits(tiles, i, out[k]));
}

/// A letter that the guess marks is never banned outright: a word that
/// agrees with the position part of every tile, and lacks the unused
/// letters other than `ch`, is consistent whether or not it contains `ch`.
pub proof fn lemma_marked_letter_not_banned(tiles: Seq<Tile>, ch: char, word: Seq<char>)
    requires
        is_marked(tiles, ch),
        positions_hold(tiles, tiles.len() as int, word),
        forall|i: int|
            0 <= i < tiles.len() && tiles[i] is Unused && tiles[i].letter() != ch
                ==> !word.contains(tiles[i].letter()),
    ensures
        consistent(tiles, word),
{
    assert forall|i: int| 0 <= i < tiles.len() implies tile_admits(tiles, i, word) by {
        assert(position_admits(tiles[i], i, word));
    }
}

/// A letter that no tile marks is banned by each unused tile that shows it.
pub proof fn lemma_unmarked_letter_banned(tiles: Seq<Tile>, i: int, word: Seq<char>)
    requires
        0 <= i < tiles.len(),
        tiles[i] is Unused,
        !is_marked(tiles, tiles[i].letter()),
        consistent(tiles, word),
    ensures
        !word.contains(tiles[i].letter()),
{
    assert(tile_admits(tiles, i, word));
}

/// The order in which two constraints are applied does not matter.
pub proof fn lemma_constraints_commute(words: Seq<Seq<char>>, a: Constraint, b: Constraint)
    ensures
        kept(kept(words, a), b) == kept(kept(words, b), a),
{
    lemma_filter_commutes(
        words,
        |w: Seq<char>| a.admits(w),
        |w: Seq<char>| b.admits(w),
    );
}

/// Whether `ch` is in `list`.
fn holds(list: &Vec<char>, ch: char) -> (r: bool)
    ensures
        r == list@.contains(ch),
{
    let n: usize = list.len();
    let mut i: usize = 0;
    while i < n
        invariant
            n == list@.len(),
            i <= n,
            forall|j: int| 0 <= j < i ==> list@[j] != ch,
        decreases n - i,
    {
        if list[i] == ch {
            return true;
        }
        i += 1;
    }
    false
}

/// The letters that the tiles mark, in the order of the tiles.
pub fn marked_letters(tiles: &Vec<Tile>) -> (r: Vec<char>)
    ensures
        r@ == marked(tiles@),
        forall|ch: char| #[trigger] r@.contains(ch) <==> is_marked(tiles@, ch),
{
    let n: usize = tiles.len();
    let mut out: Vec<char> = Vec::new();
    let mut i: usize = 0;
    assert(marked(tiles@.take(0)) =~= Seq::<char>::empty()) by {
        reveal(Seq::filter);
    }
    while i < n
        invariant
            n == tiles@.len(),
            i <= n,
            out@ == marked(tiles@.take(i as int)),
            forall|ch: char| #[trigger] out@.contains(ch) <==> is_marked(tiles@.take(i as int), ch),
        decreases n - i,
    {
        let ghost before = tiles@.take(i as int);
        let ghost after = tiles@.take(i + 1);
        let ghost old_out = out@;
        proof {
            let shown = |t: Tile| !(t is Unused);
            let letter = |t: Tile| t.letter();
            assert(after =~= before.push(tiles@[i as int]));
            before.lemma_filter_push(tiles@[i as int], shown);
            assert(before.filter(shown).push(tiles@[i as int]).map_values(letter)
                =~= before.filter(shown).map_values(letter).push(tiles@[i as int].letter()));
        }
        match tiles[i] {
            Tile::Correct(ch) => {
                out.push(ch);
            },
            Tile::Incorrect(ch) => {
                out.push(ch);
            },
            Tile::Unused(_) => {},
        }
        proof {
            assert forall|ch: char| #[trigger] out@.contains(ch) <==> is_marked(after, ch) by {
                if is_marked(before, ch) {
                    let j = choose|j: int|
                        0 <= j < before.len() && (before[j] == Tile::Correct(ch) || before[j]
                            == Tile::Incorrect(ch));
                    assert(after[j] == before[j]);
                    assert(old_out.contains(ch));
                    let w = choose|w: int| 0 <= w < old_out.len() && old_out[w] == ch;
                    assert(out@[w] == ch);
                }
                if is_marked(after, ch) && !is_marked(before, ch) {
                    let j = choose|j: int|
                        0 <= j < after.len() && (after[j] == Tile::Correct(ch) || after[j]
                            == Tile::Incorrect(ch));
                    if j < i {
                        assert(before[j] == after[j]);
                    }
                    assert(j == i);
                    assert(out@[out@.len() - 1] == ch);
                }
                if out@.contains(ch) {
                    let w = choose|w: int| 0 <= w < out@.len() && out@[w] == ch;
                    if w < old_out.len() {
                        assert(old_out[w] == ch);
                        assert(old_out.contains(ch));
                    } else {
                        assert(after[i as int] == Tile::Correct(ch) || after[i as int]
                            == Tile::Incorrect(ch));
                    }
                }
            }
        }
        i += 1;
    }
    assert(tiles@.take(n as int) =~= tiles@);
    out
}

/// Narrows the set to the candidates that agree with every tile.
///
/// The letters that the tiles mark are collected first. Each unused letter
/// that is not marked is then pruned everywhere, and after that each tile
/// is applied at its own position. More tiles than the candidates have
/// letters are refused, and the set stays as it is.
pub fn apply_tiles(words: &mut CandidateSet, tiles: &Vec<Tile>) -> (r: Result<(), Error>)
    ensures
        final(words).length() == old(words).length(),
        final(words)@.len() <= old(words)@.len(),
        match r {
            Ok(_) => {
                &&& tiles@.len() <= old(words).length()
                &&& final(words)@ == narrowed(old(words)@, tiles@)
                &&& forall|w: Seq<char>| #[trigger]
                    final(words)@.contains(w) <==> old(words)@.contains(w) && consistent(
                        tiles@,
                        w,
                    )
            },
            Err(e) => {
                &&& e == Error::IndexOutOfRange
                &&& tiles@.len() > old(words).length()
                &&& final(words)@ == old(words)@
            },
        },
{
    let n: usize = tiles.len();
    if n > words.word_len() {
        return Err(Error::IndexOutOfRange);
    }
    let ghost start = words@;
    let marked = marked_letters(tiles);
    let mut k: usize = 0;
    proof {
        lemma_filter_all_hold(start, tiles@);
    }
    while k < n
        invariant
            n == tiles@.len(),
            k <= n,
            words.length() == old(words).length(),
            words@ == start.filter(|w: Seq<char>| absences_hold(tiles@, k as int, w)),
            forall|ch: char| #[trigger] marked@.contains(ch) <==> is_marked(tiles@, ch),
        decreases n - k,
    {
        let ghost done = |w: Seq<char>| absences_hold(tiles@, k as int, w);
        let ghost next = |w: Seq<char>| absences_hold(tiles@, k + 1, w);
        match tiles[k] {
            Tile::Unused(ch) => {
                if !holds(&marked, ch) {
                    words.retain(&Constraint::Prune(ch));
                    proof {
                        let rule = |w: Seq<char>| Constraint::Prune(ch).admits(w);
                        assert forall|i: int| 0 <= i < start.len() implies next(
                            #[trigger] start[i],
                        ) == (done(start[i]) && rule(start[i])) by {
                            let w = start[i];
                            if absences_hold(tiles@, k + 1, w) {
                                assert(absence_admits(tiles@, k as int, w));
                            }
                        }
                        lemma_filter_twice(start, done, rule, next);
                    }
                } else {
                    proof {
                        lemma_filter_agree(start, done, next);
                    }
                }
            },
            _ => {
                proof {
                    lemma_filter_agree(start, done, next);
                }
            },
        }
        k += 1;
    }
    proof {
        lemma_filter_agree(
            start,
            |w: Seq<char>| absences_hold(tiles@, n as int, w),
            |w: Seq<char>| absences_hold(tiles@, n as int, w) && positions_hold(tiles@, 0, w),
        );
    }
    let mut i: usize = 0;
    while i < n
        invariant
            n == tiles@.len(),
            n <= words.length(),
            i <= n,
            words.length() == old(words).length(),
            words@ == start.filter(
                |w: Seq<char>|
                    absences_hold(tiles@, n as int, w) && positions_hold(tiles@, i as int, w),
            ),
        decreases n - i,
    {
        let ghost done = |w: Seq<char>|
            absences_hold(tiles@, n as int, w) && positions_hold(tiles@, i as int, w);
        let ghost next = |w: Seq<char>|
            absences_hold(tiles@, n as int, w) && positions_hold(tiles@, i + 1, w);
        match tiles[i] {
            Tile::Correct(ch) => {
                words.retain(&Constraint::RequireAt(ch, i));
                proof {
                    let rule = |w: Seq<char>| Constraint::RequireAt(ch, i).admits(w);
                    assert forall|j: int| 0 <= j < start.len() implies next(#[trigger] start[j])
                        == (done(start[j]) && rule(start[j])) by {
                        let w = start[j];
                        if positions_hold(tiles@, i + 1, w) {
                            assert(position_admits(tiles@[i as int], i as int, w));
                        }
                    }
                    lemma_filter_twice(start, done, rule, next);
                }
            },
            Tile::Incorrect(ch) => {
                let ghost mid = words@;
                words.retain(&Constraint::PruneAt(ch, i));
                words.retain(&Constraint::Require(ch));
                proof {
                    let here = |w: Seq<char>| Constraint::PruneAt(ch, i).admits(w);
                    let some = |w: Seq<char>| Constraint::Require(ch).admits(w);
                    let half = |w: Seq<char>| done(w) && here(w);
                    lemma_filter_twice(start, done, here, half);
                    assert forall|j: int| 0 <= j < start.len() implies next(#[trigger] start[j])
                        == (half(start[j]) && some(start[j])) by {
                        let w = start[j];
                        if positions_hold(tiles@, i + 1, w) {
                            assert(position_admits(tiles@[i as int], i as int, w));
                        }
                    }
                    lemma_filter_twice(start, half, some, next);
                }
            },
            Tile::Unused(ch) => {
                words.retain(&Constraint::PruneAt(ch, i));
                proof {
                    let rule = |w: Seq<char>| Constraint::PruneAt(ch, i).admits(w);
                    assert forall|j: int| 0 <= j < start.len() implies next(#[trigger] start[j])
                        == (done(start[j]) && rule(start[j])) by {
                        let w = start[j];
                        if positions_hold(tiles@, i + 1, w) {
                            assert(position_admits(tiles@[i as int], i as int, w));
                        }
                    }
                    lemma_filter_twice(start, done, rule, next);
                }
            },
        }
        i += 1;
    }
    proof {
        let done = |w: Seq<char>|
            absences_hold(tiles@, n as int, w) && positions_hold(tiles@, n as int, w);
        let whole = |w: Seq<char>| consistent(tiles@, w);
        assert forall|j: int| 0 <= j < start.len() implies done(#[trigger] start[j]) == whole(
            start[j],
        ) by {
            let w = start[j];
            if done(w) {
                assert forall|a: int| 0 <= a < tiles@.len() implies tile_admits(tiles@, a, w) by {
                    assert(absence_admits(tiles@, a, w));
                    assert(position_admits(tiles@[a], a, w));
                }
            }
            if whole(w) {
                assert forall|a: int| 0 <= a < n implies absence_admits(tiles@, a, w) by {
                    assert(tile_admits(tiles@, a, w));
                }
                assert forall|a: int| 0 <= a < n implies position_admits(tiles@[a], a, w) by {
                    assert(tile_admits(tiles@, a, w));
                }
            }
        }
        lemma_filter_agree(start, done, whole);
        lemma_narrowed_members(start, tiles@);
    }
    Ok(())
}

/// Before any tile is looked at, nothing has been filtered out.
proof fn lemma_filter_all_hold(words: Seq<Seq<char>>, tiles: Seq<Tile>)
    ensures
        words.filter(|w: Seq<char>| absences_hold(tiles, 0, w)) == words,
{
    lemma_filter_all(words, |w: Seq<char>| absences_hold(tiles, 0, w));
}

/// What a guess leaves of `words`, or why it is refused: a guess longer
/// than the candidates or a marked position outside the guess is out of
/// range; failing that, a position marked twice is a conflict.
pub open spec fn guessed(
    words: Seq<Seq<char>>,
    word_len: nat,
    guess: Seq<char>,
    correct: Seq<usize>,
    incorrect: Seq<usize>,
) -> Result<Seq<Seq<char>>, Error> {
    if guess.len() > word_len || !in_range(correct, guess.len()) || !in_range(
        incorrect,
        guess.len(),
    ) {
        Err(Error::IndexOutOfRange)
    } else if overlap(correct, incorrect) {
        Err(Error::ConflictingClassification)
    } else {
        Ok(narrowed(words, classified(guess, correct, incorrect)))
    }
}

/// Classifies a guess and narrows the set by its tiles. A guess that is
/// refused leaves the set as it is.
pub fn apply_guess(
    words: &mut CandidateSet,
    guess: &str,
    correct: &Vec<usize>,
    incorrect: &Vec<usize>,
) -> (r: Result<(), Error>)
    ensures
        final(words).length() == old(words).length(),
        final(words)@.len() <= old(words)@.len(),
        match r {
            Ok(_) => guessed(old(words)@, old(words).length(), guess@, correct@, incorrect@)
                == Ok::<Seq<Seq<char>>, Error>(final(words)@),
            Err(e) => {
                &&& guessed(old(words)@, old(words).length(), guess@, correct@, incorrect@)
                    == Err::<Seq<Seq<char>>, Error>(e)
                &&& final(words)@ == old(words)@
            },
        },
{
    if guess.unicode_len() > words.word_len() {
        return Err(Error::IndexOutOfRange);
    }
    let tiles = match classify(guess, correct, incorrect) {
        Ok(tiles) => tiles,
        Err(e) => {
            return Err(e);
        },
    };
    apply_tiles(words, &tiles)
}

/// Whether `word` contains none of `letters`.
pub open spec fn lacks_all(word: Seq<char>, letters: Seq<char>) -> bool {
    forall|i: int| 0 <= i < letters.len() ==> !word.contains(#[trigger] letters[i])
}

/// Whether `word` contains every one of `letters`.
pub open spec fn has_all(word: Seq<char>, letters: Seq<char>) -> bool {
    forall|i: int| 0 <= i < letters.len() ==> word.contains(#[trigger] letters[i])
}

/// The words that contain none of `letters`, in their order.
pub open spec fn without_letters(words: Seq<Seq<char>>, letters: Seq<char>) -> Seq<Seq<char>> {
    words.filter(|w: Seq<char>| lacks_all(w, letters))
}

/// The words that contain every one of `letters`, in their order.
pub open spec fn with_letters(words: Seq<Seq<char>>, letters: Seq<char>) -> Seq<Seq<char>> {
    words.filter(|w: Seq<char>| has_all(w, letters))
}

/// Prunes each of `letters` in turn.
pub fn prune_letters(words: &mut CandidateSet, letters: &str)
    ensures
        final(words)@ == without_letters(old(words)@, letters@),
        final(words).length() == old(words).length(),
        final(words)@.len() <= old(words)@.len(),
{
    let n: usize = letters.unicode_len();
    let ghost start = words@;
    let mut k: usize = 0;
    proof {
        lemma_filter_all(start, |w: Seq<char>| lacks_all(w, letters@.take(0)));
    }
    while k < n
        invariant
            n == letters@.len(),
            k <= n,
            words.length() == old(words).length(),
            words@ == start.filter(|w: Seq<char>| lacks_all(w, letters@.take(k as int))),
        decreases n - k,
    {
        let ch: char = letters.get_char(k);
        words.retain(&Constraint::Prune(ch));
        proof {
            let done = |w: Seq<char>| lacks_all(w, letters@.take(k as int));
            let next = |w: Seq<char>| lacks_all(w, letters@.take(k + 1));
            let rule = |w: Seq<char>| Constraint::Prune(ch).admits(w);
            assert forall|i: int| 0 <= i < start.len() implies next(#[trigger] start[i]) == (done(
                start[i],
            ) && rule(start[i])) by {
                let w = start[i];
                let head = letters@.take(k as int);
                let more = letters@.take(k + 1);
                if lacks_all(w, more) {
                    assert(more[k as int] == ch);
                    assert forall|j: int| 0 <= j < head.len() implies !w.contains(
                        #[trigger] head[j],
                    ) by {
                        assert(more[j] == head[j]);
                    }
                }
                if lacks_all(w, head) && !w.contains(ch) {
                    assert forall|j: int| 0 <= j < more.len() implies !w.contains(
                        #[trigger] more[j],
                    ) by {
                        if j < k {
                            assert(more[j] == head[j]);
                        }
                    }
                }
            }
            lemma_filter_twice(start, done, rule, next);
        }
        k += 1;
    }
    proof {
        assert(letters@.take(n as int) =~= letters@);
        lemma_filter_members(start, |w: Seq<char>| lacks_all(w, letters@));
    }
}

/// Requires each of `letters` in turn.
pub fn require_letters(words: &mut CandidateSet, letters: &str)
    ensures
        final(words)@ == with_letters(old(words)@, letters@),
        final(words).length() == old(words).length(),
        final(words)@.len() <= old(words)@.len(),
{
    let n: usize = letters.unicode_len();
    let ghost start = words@;
    let mut k: usize = 0;
    proof {
        lemma_filter_all(start, |w: Seq<char>| has_all(w, letters@.take(0)));
    }
    while k < n
        invariant
            n == letters@.len(),
            k <= n,
            words.length() == old(words).length(),
            words@ == start.filter(|w: Seq<char>| has_all(w, letters@.take(k as int))),
        decreases n - k,
    {
        let ch: char = letters.get_char(k);
        words.retain(&Constraint::Require(ch));
        proof {
            let done = |w: Seq<char>| has_all(w, letters@.take(k as int));
            let next = |w: Seq<char>| has_all(w, letters@.take(k + 1));
            let rule = |w: Seq<char>| Constraint::Require(ch).admits(w);
            assert forall|i: int| 0 <= i < start.len() implies next(#[trigger] start[i]) == (done(
                start[i],
            ) && rule(start[i])) by {
                let w = start[i];
                let head = letters@.take(k as int);
                let more = letters@.take(k + 1);
                if has_all(w, more) {
                    assert(more[k as int] == ch);
                    assert forall|j: int| 0 <= j < head.len() implies w.contains(
                        #[trigger] head[j],
                    ) by {
                        assert(more[j] == head[j]);
                    }
                }
                if has_all(w, head) && w.contains(ch) {
                    assert forall|j: int| 0 <= j < more.len() implies w.contains(
                        #[trigger] more[j],
                    ) by {
                        if j < k {
                            assert(more[j] == head[j]);
                        }
                    }
                }
            }
            lemma_filter_twice(start, done, rule, next);
        }
        k += 1;
    }
    proof {
        assert(letters@.take(n as int) =~= letters@);
        lemma_filter_members(start, |w: Seq<char>| has_all(w, letters@));
    }
}

} // verus!
