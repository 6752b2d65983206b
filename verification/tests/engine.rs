use word_sieve::{
    apply_guess, apply_tiles, classify, marked_letters, prune_at, prune_letters, recommend,
    require_letters, CandidateSet, Error, Tile,
};

fn strings(words: &[&str]) -> Vec<String> {
    words.iter().map(|w| w.to_string()).collect()
}

fn set_of(words: &[&str], len: usize) -> CandidateSet {
    CandidateSet::from_words(&strings(words), len)
}

#[test]
fn guess_that_matches_nothing_empties_the_set() {
    let mut set = set_of(&["crane", "slate", "trace", "grate"], 5);
    let tiles = classify("crane", &vec![0, 3], &vec![]).unwrap();
    assert_eq!(apply_tiles(&mut set, &tiles), Ok(()));
    assert_eq!(set.len(), 0);
    assert!(set.words().is_empty());
    assert_eq!(recommend(&set).err(), Some(Error::EmptyCandidateSet));
}

#[test]
fn all_correct_guess_leaves_the_guessed_word() {
    let mut set = set_of(&["crane", "slate", "trace", "grate"], 5);
    assert_eq!(apply_guess(&mut set, "trace", &vec![0, 1, 2, 3, 4], &vec![]), Ok(()));
    assert_eq!(set.words(), strings(&["trace"]));
}

#[test]
fn correct_tile_keeps_words_with_the_letter_in_place() {
    let mut set = set_of(&["crane", "slate", "trace", "grate", "moist"], 5);
    let tiles = vec![Tile::Correct('m')];
    assert_eq!(apply_tiles(&mut set, &tiles), Ok(()));
    assert_eq!(set.words(), strings(&["moist"]));
}

#[test]
fn incorrect_tile_asks_for_the_letter_elsewhere() {
    let mut set = set_of(&["crane", "slate", "trace", "moist", "acrid"], 5);
    let tiles = vec![Tile::Incorrect('c')];
    assert_eq!(apply_tiles(&mut set, &tiles), Ok(()));
    assert_eq!(set.words(), strings(&["trace", "acrid"]));
}

#[test]
fn unused_tile_bans_an_unmarked_letter_everywhere() {
    let mut set = set_of(&["crane", "slate", "trace", "moist", "acrid"], 5);
    let tiles = vec![Tile::Unused('c')];
    assert_eq!(apply_tiles(&mut set, &tiles), Ok(()));
    assert_eq!(set.words(), strings(&["slate", "moist"]));
}

#[test]
fn repeated_letter_marked_once_is_pruned_by_position_only() {
    let mut set = set_of(&["crept", "creep", "crepe", "cream"], 5);
    let tiles = classify("creep", &vec![0, 1, 2], &vec![4]).unwrap();
    assert_eq!(marked_letters(&tiles), vec!['c', 'r', 'e', 'p']);
    assert_eq!(tiles[3], Tile::Unused('e'));
    assert_eq!(apply_tiles(&mut set, &tiles), Ok(()));
    assert_eq!(set.words(), strings(&["crept", "crepe"]));
}

#[test]
fn repeated_letter_marked_nowhere_is_banned() {
    let mut set = set_of(&["crept", "creep", "crepe", "cramp"], 5);
    let tiles = vec![
        Tile::Correct('c'),
        Tile::Correct('r'),
        Tile::Unused('e'),
        Tile::Unused('e'),
        Tile::Correct('p'),
    ];
    assert_eq!(apply_tiles(&mut set, &tiles), Ok(()));
    assert_eq!(set.words(), strings(&["cramp"]));
}

#[test]
fn speed_guess_with_one_e_unused_removes_words_by_position() {
    let words = ["sheep", "speed", "steep"];
    let mut by_position = set_of(&words, 5);
    assert_eq!(prune_at(&mut by_position, 'e', 3), Ok(()));
    assert!(by_position.is_empty());

    let mut set = set_of(&["sheep", "speed", "steep", "poets", "seeds", "eases", "essay"], 5);
    let tiles = classify("speed", &vec![], &vec![0, 2]).unwrap();
    assert_eq!(
        tiles,
        vec![
            Tile::Incorrect('s'),
            Tile::Unused('p'),
            Tile::Incorrect('e'),
            Tile::Unused('e'),
            Tile::Unused('d'),
        ]
    );
    assert_eq!(marked_letters(&tiles), vec!['s', 'e']);
    assert_eq!(apply_tiles(&mut set, &tiles), Ok(()));
    assert_eq!(set.words(), strings(&["essay"]));
}

#[test]
fn word_with_one_instance_of_a_marked_letter_survives() {
    let mut set = set_of(&["those", "these", "where", "hosts", "eight"], 5);
    let tiles = classify("eerie", &vec![4], &vec![]).unwrap();
    assert_eq!(apply_tiles(&mut set, &tiles), Ok(()));
    assert_eq!(set.words(), strings(&["those", "these"]));
}

#[test]
fn applying_the_same_tiles_twice_is_applying_them_once() {
    let words = ["crane", "slate", "trace", "grate", "moist", "eerie", "crept", "crepe"];
    let guesses: [(&str, Vec<usize>, Vec<usize>); 4] = [
        ("crane", vec![0, 3], vec![]),
        ("creep", vec![0, 1, 2], vec![4]),
        ("slate", vec![4], vec![2, 3]),
        ("zzzzz", vec![], vec![]),
    ];
    for (guess, correct, incorrect) in guesses.iter() {
        let tiles = classify(guess, correct, incorrect).unwrap();
        let mut once = set_of(&words, 5);
        assert_eq!(apply_tiles(&mut once, &tiles), Ok(()));
        let mut twice = set_of(&words, 5);
        assert_eq!(apply_tiles(&mut twice, &tiles), Ok(()));
        assert_eq!(apply_tiles(&mut twice, &tiles), Ok(()));
        assert_eq!(once.words(), twice.words());
    }
}

#[test]
fn applying_tiles_never_grows_the_set() {
    let words = ["crane", "slate", "trace", "grate", "moist", "eerie"];
    let mut set = set_of(&words, 5);
    let mut before = set.len();
    for (guess, correct, incorrect) in [
        ("moist", vec![], vec![4usize]),
        ("grate", vec![2usize, 3, 4], vec![]),
        ("slate", vec![1], vec![]),
    ] {
        assert_eq!(apply_guess(&mut set, guess, &correct, &incorrect), Ok(()));
        assert!(set.len() <= before);
        before = set.len();
    }
}

#[test]
fn tiles_shorter_than_the_words_constrain_the_first_positions() {
    let mut set = set_of(&["crane", "slate", "trace", "grate"], 5);
    let tiles = vec![Tile::Unused('c'), Tile::Correct('r')];
    assert_eq!(apply_tiles(&mut set, &tiles), Ok(()));
    assert_eq!(set.words(), strings(&["grate"]));
}

#[test]
fn no_tiles_change_nothing() {
    let mut set = set_of(&["crane", "slate"], 5);
    assert_eq!(apply_tiles(&mut set, &vec![]), Ok(()));
    assert_eq!(set.words(), strings(&["crane", "slate"]));
}

#[test]
fn more_tiles_than_letters_are_refused() {
    let mut set = set_of(&["crane", "slate"], 5);
    let tiles = vec![Tile::Unused('c'); 6];
    assert_eq!(apply_tiles(&mut set, &tiles), Err(Error::IndexOutOfRange));
    assert_eq!(set.words(), strings(&["crane", "slate"]));
}

#[test]
fn refused_guess_changes_nothing() {
    let mut set = set_of(&["crane", "slate"], 5);
    assert_eq!(
        apply_guess(&mut set, "cranes", &vec![], &vec![]),
        Err(Error::IndexOutOfRange)
    );
    assert_eq!(apply_guess(&mut set, "crane", &vec![5], &vec![]), Err(Error::IndexOutOfRange));
    assert_eq!(
        apply_guess(&mut set, "crane", &vec![1], &vec![1]),
        Err(Error::ConflictingClassification)
    );
    assert_eq!(
        apply_guess(&mut set, "cranes", &vec![1], &vec![1]),
        Err(Error::IndexOutOfRange)
    );
    assert_eq!(set.words(), strings(&["crane", "slate"]));
}

#[test]
fn marked_letters_collects_correct_and_incorrect_letters() {
    let tiles = vec![
        Tile::Unused('a'),
        Tile::Incorrect('b'),
        Tile::Correct('c'),
        Tile::Unused('b'),
        Tile::Incorrect('b'),
    ];
    assert_eq!(marked_letters(&tiles), vec!['b', 'c', 'b']);
    assert!(marked_letters(&vec![Tile::Unused('x')]).is_empty());
}

#[test]
fn prune_letters_removes_words_with_any_of_them() {
    let mut set = set_of(&["crane", "slate", "trace", "moist", "unzip"], 5);
    prune_letters(&mut set, "cz");
    assert_eq!(set.words(), strings(&["slate", "moist"]));
    prune_letters(&mut set, "");
    assert_eq!(set.words(), strings(&["slate", "moist"]));
}

#[test]
fn require_letters_keeps_words_with_all_of_them() {
    let mut set = set_of(&["crane", "slate", "trace", "moist", "unzip"], 5);
    require_letters(&mut set, "te");
    assert_eq!(set.words(), strings(&["slate", "trace"]));
    require_letters(&mut set, "");
    assert_eq!(set.words(), strings(&["slate", "trace"]));
}
