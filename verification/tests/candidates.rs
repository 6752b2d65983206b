use word_sieve::{
    dictionary_entries, prune, prune_at, require, require_at, CandidateSet, Constraint, Error,
};

fn strings(words: &[&str]) -> Vec<String> {
    words.iter().map(|w| w.to_string()).collect()
}

fn set_of(words: &[&str], len: usize) -> CandidateSet {
    CandidateSet::from_words(&strings(words), len)
}

#[test]
fn new_set_is_empty() {
    let set = CandidateSet::new(5);
    assert_eq!(set.len(), 0);
    assert!(set.is_empty());
    assert_eq!(set.word_len(), 5);
    assert!(set.words().is_empty());
}

#[test]
fn from_words_drops_repeats_and_keeps_first_occurrences() {
    let set = set_of(&["crane", "slate", "crane", "trace", "slate"], 5);
    assert_eq!(set.words(), strings(&["crane", "slate", "trace"]));
    assert_eq!(set.len(), 3);
}

#[test]
fn from_words_keeps_only_words_of_the_given_length() {
    let set = set_of(&["cat", "crane", "", "planet", "slate"], 5);
    assert_eq!(set.words(), strings(&["crane", "slate"]));
    assert_eq!(set.word_len(), 5);
}

#[test]
fn from_words_measures_length_in_characters() {
    let set = set_of(&["na\u{ef}ve", "caf\u{e9}s", "abcde"], 5);
    assert_eq!(set.len(), 3);
    assert_eq!(set.get(0), "na\u{ef}ve");
}

#[test]
fn from_words_lower_cases_ascii_letters_before_comparing() {
    let set = set_of(&["Crane", "CRANE", "crane", "SlAtE"], 5);
    assert_eq!(set.words(), strings(&["crane", "slate"]));
}

#[test]
fn from_words_leaves_other_characters_alone() {
    let set = set_of(&["\u{c9}COLE", "a-b'c", "[Z@`{"], 5);
    assert_eq!(set.words(), strings(&["\u{c9}cole", "a-b'c", "[z@`{"]));
}

#[test]
fn dictionary_entries_take_lines_of_the_length_and_trim_them() {
    let lines = strings(&["crane", " ab ", "toolong", "slate", "\tabc\u{a0}", "Trace"]);
    assert_eq!(
        dictionary_entries(&lines, 5),
        strings(&["crane", "slate", "abc", "Trace"])
    );
    assert_eq!(dictionary_entries(&lines, 4), strings(&["ab"]));
}

#[test]
fn from_lines_drops_entries_that_trimming_made_short() {
    let lines = strings(&["crane", "crane ", " abc ", "SLATE", "slate"]);
    let set = CandidateSet::from_lines(&lines, 5);
    assert_eq!(set.words(), strings(&["crane", "slate"]));
}

#[test]
fn contains_finds_exactly_the_candidates() {
    let set = set_of(&["crane", "slate"], 5);
    assert!(set.contains("crane"));
    assert!(set.contains("slate"));
    assert!(!set.contains("trace"));
    assert!(!set.contains("Crane"));
    assert!(!set.contains("cran"));
    assert!(!set.contains(""));
}

#[test]
fn get_returns_candidates_in_order() {
    let set = set_of(&["crane", "slate", "trace"], 5);
    assert_eq!(set.get(0), "crane");
    assert_eq!(set.get(2), "trace");
}

#[test]
fn prune_removes_words_with_the_letter() {
    let mut set = set_of(&["crane", "slate", "trace", "moist"], 5);
    prune(&mut set, 'c');
    assert_eq!(set.words(), strings(&["slate", "moist"]));
}

#[test]
fn prune_of_an_absent_letter_changes_nothing() {
    let mut set = set_of(&["crane", "slate"], 5);
    prune(&mut set, 'z');
    assert_eq!(set.words(), strings(&["crane", "slate"]));
}

#[test]
fn require_keeps_words_with_the_letter() {
    let mut set = set_of(&["crane", "slate", "trace", "moist"], 5);
    require(&mut set, 't');
    assert_eq!(set.words(), strings(&["slate", "trace", "moist"]));
}

#[test]
fn prune_at_removes_words_with_the_letter_at_the_position() {
    let mut set = set_of(&["crane", "slate", "trace", "grate"], 5);
    assert_eq!(prune_at(&mut set, 'a', 2), Ok(()));
    assert_eq!(set.words(), strings(&[]));
    let mut set = set_of(&["crane", "slate", "trace", "grate"], 5);
    assert_eq!(prune_at(&mut set, 'r', 1), Ok(()));
    assert_eq!(set.words(), strings(&["slate"]));
}

#[test]
fn require_at_keeps_words_with_the_letter_at_the_position() {
    let mut set = set_of(&["crane", "slate", "trace", "grate"], 5);
    assert_eq!(require_at(&mut set, 'r', 1), Ok(()));
    assert_eq!(set.words(), strings(&["crane", "trace", "grate"]));
    for word in set.words() {
        assert_eq!(word.chars().nth(1), Some('r'));
    }
}

#[test]
fn require_at_then_every_candidate_has_the_letter_there() {
    let words = ["crane", "slate", "trace", "grate", "eerie", "earth", "cater"];
    for idx in 0..5 {
        for ch in ['a', 'c', 'e', 'r', 't'] {
            let mut set = set_of(&words, 5);
            assert_eq!(require_at(&mut set, ch, idx), Ok(()));
            for word in set.words() {
                assert_eq!(word.chars().nth(idx), Some(ch));
            }
            let expected: Vec<String> = words
                .iter()
                .filter(|w| w.chars().nth(idx) == Some(ch))
                .map(|w| w.to_string())
                .collect();
            assert_eq!(set.words(), expected);
        }
    }
}

#[test]
fn position_outside_the_word_is_refused_and_changes_nothing() {
    let mut set = set_of(&["crane", "slate"], 5);
    assert_eq!(prune_at(&mut set, 'c', 5), Err(Error::IndexOutOfRange));
    assert_eq!(require_at(&mut set, 'c', 5), Err(Error::IndexOutOfRange));
    assert_eq!(require_at(&mut set, 'c', usize::MAX), Err(Error::IndexOutOfRange));
    assert_eq!(set.words(), strings(&["crane", "slate"]));
    assert_eq!(prune_at(&mut set, 'e', 4), Ok(()));
    assert!(set.is_empty());
}

#[test]
fn position_is_checked_on_an_empty_set_too() {
    let mut set = CandidateSet::new(3);
    assert_eq!(require_at(&mut set, 'a', 3), Err(Error::IndexOutOfRange));
    assert_eq!(require_at(&mut set, 'a', 2), Ok(()));
    assert!(set.is_empty());
}

#[test]
fn filters_never_grow_the_set() {
    let words = ["crane", "slate", "trace", "grate", "moist"];
    for ch in ['a', 'c', 'm', 'z'] {
        let mut set = set_of(&words, 5);
        let before = set.len();
        prune(&mut set, ch);
        assert!(set.len() <= before);
        let before = set.len();
        require(&mut set, 'e');
        assert!(set.len() <= before);
        let before = set.len();
        let _ = prune_at(&mut set, ch, 0);
        assert!(set.len() <= before);
    }
}

#[test]
fn filters_commute() {
    let words = ["crane", "slate", "trace", "grate", "moist", "eerie"];
    let mut one = set_of(&words, 5);
    prune(&mut one, 'c');
    require(&mut one, 't');
    assert_eq!(prune_at(&mut one, 'e', 4), Ok(()));
    let mut two = set_of(&words, 5);
    assert_eq!(prune_at(&mut two, 'e', 4), Ok(()));
    require(&mut two, 't');
    prune(&mut two, 'c');
    assert_eq!(one.words(), two.words());
    assert_eq!(one.words(), strings(&["moist"]));
}

#[test]
fn constraint_check_tests_one_word() {
    assert!(Constraint::Require('a').check("crane"));
    assert!(!Constraint::Require('z').check("crane"));
    assert!(Constraint::Prune('z').check("crane"));
    assert!(!Constraint::Prune('e').check("crane"));
    assert!(Constraint::RequireAt('c', 0).check("crane"));
    assert!(!Constraint::RequireAt('c', 1).check("crane"));
    assert!(!Constraint::RequireAt('c', 9).check("crane"));
    assert!(Constraint::PruneAt('c', 1).check("crane"));
    assert!(!Constraint::PruneAt('c', 0).check("crane"));
    assert!(Constraint::PruneAt('c', 9).check("crane"));
}
