//! Tiles: what the feedback on a guess says about each of its letters.

use crate::error::Error;
use vstd::prelude::*;

verus! {

/// The feedback on one letter of a guess.
#[derive(Clone, Copy, Debug, PartialEq, Eq, Structural)]
pub enum Tile {
    /// The solution has this letter at this position.
    Correct(char),
    /// The solution has this letter, but not at this position.
    Incorrect(char),
    /// The solution does not have this letter at this position, and not
    /// anywhere unless another tile of the same guess marks the letter.
    Unused(char),
}

impl Tile {
    /// The guessed letter that the tile speaks of.
    pub open spec fn spec_letter(self) -> char {
        match self {
            Tile::Correct(ch) => ch,
            Tile::Incorrect(ch) => ch,
            Tile::Unused(ch) => ch,
        }
    }

    /// The guessed letter that the tile speaks of.
    #[verifier::when_used_as_spec(spec_letter)]
    pub fn letter(self) -> (r: char)
        ensures
            r == self.spec_letter(),
    {
        match self {
            Tile::Correct(ch) => ch,
            Tile::Incorrect(ch) => ch,
            Tile::Unused(ch) => ch,
        }
    }
}

/// Whether position `i` is among `indices`.
pub open spec fn marks(indices: Seq<usize>, i: int) -> bool {
    exists|k: int| 0 <= k < indices.len() && indices[k] == i
}

/// Whether every one of `indices` is a position of a word of `len` letters.
pub open spec fn in_range(indices: Seq<usize>, len: nat) -> bool {
    forall|k: int| 0 <= k < indices.len() ==> indices[k] < len
}

/// Whether some position is in both lists.
pub open spec fn overlap(correct: Seq<usize>, incorrect: Seq<usize>) -> bool {
    exists|i: int| marks(correct, i) && marks(incorrect, i)
}

/// The tile at position `i` of `guess`: correct where `correct` marks the
/// position, incorrect where `incorrect` does, unused elsewhere.
pub open spec fn tile_at(
    guess: Seq<char>,
    correct: Seq<usize>,
    incorrect: Seq<usize>,
    i: int,
) -> Tile {
    if marks(correct, i) {
        Tile::Correct(guess[i])
    } else if marks(incorrect, i) {
        Tile::Incorrect(guess[i])
    } else {
        Tile::Unused(guess[i])
    }
}

/// The tiles of a guess, one for each of its letters.
pub open spec fn classified(guess: Seq<char>, correct: Seq<usize>, incorrect: Seq<usize>) -> Seq<
    Tile,
> {
    Seq::new(guess.len(), |i: int| tile_at(guess, correct, incorrect, i))
}

/// Turns a guess and the positions marked on it into tiles.
///
/// A position outside the guess is refused as out of range, in whichever
/// list it stands. With every position in range, one that stands in both
/// lists is refused as conflicting. A position repeated within one list
/// counts once.
pub fn classify(guess: &str, correct: &Vec<usize>, incorrect: &Vec<usize>) -> (r: Result<
    Vec<Tile>,
    Error,
>)
    ensures
        match r {
            Ok(tiles) => {
                &&& in_range(correct@, guess@.len())
                &&& in_range(incorrect@, guess@.len())
                &&& !overlap(correct@, incorrect@)
                &&& tiles@ == classified(guess@, correct@, incorrect@)
            },
            Err(e) => if in_range(correct@, guess@.len()) && in_range(incorrect@, guess@.len()) {
                e == Error::ConflictingClassification && overlap(correct@, incorrect@)
            } else {
                e == Error::IndexOutOfRange
            },
        },
{
    let n: usize = guess.unicode_len();
    let mut tiles: Vec<Tile> = Vec::new();
    let mut i: usize = 0;
    while i < n
        invariant
            n == guess@.len(),
            i <= n,
            tiles@.len() == i,
            forall|j: int| 0 <= j < i ==> tiles@[j] == Tile::Unused(guess@[j]),
        decreases n - i,
    {
        tiles.push(Tile::Unused(guess.get_char(i)));
        i += 1;
    }
    let mut k: usize = 0;
    while k < correct.len()
        invariant
            n == guess@.len(),
            tiles@.len() == n,
            k <= correct@.len(),
            in_range(correct@.take(k as int), n as nat),
            forall|j: int|
                0 <= j < n ==> tiles@[j] == tile_at(
                    guess@,
                    correct@.take(k as int),
                    Seq::<usize>::empty(),
                    j,
                ),
        decreases correct@.len() - k,
    {
        let at: usize = correct[k];
        if at >= n {
            assert(!in_range(correct@, n as nat));
            return Err(Error::IndexOutOfRange);
        }
        let ghost before = correct@.take(k as int);
        let ghost after = correct@.take(k + 1);
        tiles.set(at, Tile::Correct(guess.get_char(at)));
        proof {
            assert(after =~= before.push(at));
            assert(after[k as int] == at);
            assert forall|j: int| 0 <= j < n implies tiles@[j] == tile_at(
                guess@,
                after,
                Seq::<usize>::empty(),
                j,
            ) by {
                if marks(before, j) {
                    let w = choose|w: int| 0 <= w < before.len() && before[w] == j;
                    assert(after[w] == j);
                }
                if marks(after, j) && j != at {
                    let w = choose|w: int| 0 <= w < after.len() && after[w] == j;
                    assert(before[w] == j);
                }
            }
        }
        k += 1;
    }
    assert(correct@.take(k as int) =~= correct@);
    let mut conflict: bool = false;
    let mut m: usize = 0;
    while m < incorrect.len()
        invariant
            n == guess@.len(),
            tiles@.len() == n,
            m <= incorrect@.len(),
            in_range(correct@, n as nat),
            in_range(incorrect@.take(m as int), n as nat),
            conflict == overlap(correct@, incorrect@.take(m as int)),
            forall|j: int|
                0 <= j < n ==> tiles@[j] == tile_at(guess@, correct@, incorrect@.take(m as int), j),
        decreases incorrect@.len() - m,
    {
        let at: usize = incorrect[m];
        if at >= n {
            assert(!in_range(incorrect@, n as nat));
            return Err(Error::IndexOutOfRange);
        }
        let ghost before = incorrect@.take(m as int);
        let ghost after = incorrect@.take(m + 1);
        proof {
            assert(after =~= before.push(at));
            assert(after[m as int] == at);
            assert forall|j: int| marks(after, j) <==> marks(before, j) || j == at by {
                if marks(before, j) {
                    let w = choose|w: int| 0 <= w < before.len() && before[w] == j;
                    assert(after[w] == j);
                }
                if marks(after, j) && j != at {
                    let w = choose|w: int| 0 <= w < after.len() && after[w] == j;
                    assert(before[w] == j);
                }
            }
        }
        match tiles[at] {
            Tile::Correct(_) => {
                conflict = true;
                assert(marks(correct@, at as int) && marks(after, at as int));
            },
            Tile::Incorrect(_) => {},
            Tile::Unused(ch) => {
                tiles.set(at, Tile::Incorrect(ch));
            },
        }
        proof {
            if overlap(correct@, after) && !conflict {
                let j = choose|j: int| marks(correct@, j) && marks(after, j);
                assert(marks(before, j) || j == at);
                assert(false);
            }
            if overlap(correct@, before) {
                let j = choose|j: int| marks(correct@, j) && marks(before, j);
                assert(marks(after, j));
            }
        }
        m += 1;
    }
    assert(incorrect@.take(m as int) =~= incorrect@);
    if conflict {
        return Err(Error::ConflictingClassification);
    }
    assert(tiles@ =~= classified(guess@, correct@, incorrect@));
    Ok(tiles)
}

} // verus!
