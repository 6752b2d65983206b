use word_sieve::{
    apply_guess, in_order, letter_counts, recommend, score, CandidateSet, Error,
};

fn strings(words: &[&str]) -> Vec<String> {
    words.iter().map(|w| w.to_string()).collect()
}

fn set_of(words: &[&str], len: usize) -> CandidateSet {
    CandidateSet::from_words(&strings(words), len)
}

#[test]
fn letter_counts_count_words_not_occurrences() {
    let set = set_of(&["sheep", "those", "eerie"], 5);
    let counts = letter_counts(&set);
    assert_eq!(counts.get('e'), 3);
    assert_eq!(counts.get('s'), 2);
    assert_eq!(counts.get('h'), 2);
    assert_eq!(counts.get('p'), 1);
    assert_eq!(counts.get('t'), 1);
    assert_eq!(counts.get('o'), 1);
    assert_eq!(counts.get('r'), 1);
    assert_eq!(counts.get('i'), 1);
    assert_eq!(counts.get('z'), 0);
    assert_eq!(counts.get('E'), 0);
}

#[test]
fn letter_counts_of_an_empty_set_are_zero() {
    let counts = letter_counts(&CandidateSet::new(5));
    assert_eq!(counts.get('a'), 0);
    assert_eq!(counts.get('\u{e9}'), 0);
}

#[test]
fn letter_counts_tell_letters_apart_beyond_ascii() {
    let set = set_of(&["\u{e9}t\u{e9}", "ete"], 3);
    let counts = letter_counts(&set);
    assert_eq!(counts.get('\u{e9}'), 1);
    assert_eq!(counts.get('e'), 1);
    assert_eq!(counts.get('t'), 2);
}

#[test]
fn score_adds_the_count_of_each_letter_with_repeats() {
    let set = set_of(&["sheep", "those", "eerie"], 5);
    let counts = letter_counts(&set);
    assert_eq!(score("sheep", &counts), 2 + 2 + 3 + 3 + 1);
    assert_eq!(score("those", &counts), 1 + 2 + 1 + 2 + 3);
    assert_eq!(score("eerie", &counts), 3 + 3 + 1 + 1 + 3);
    assert_eq!(score("", &counts), 0);
    assert_eq!(score("zzz", &counts), 0);
    assert_eq!(score("ez", &counts), 3);
}

#[test]
fn recommend_picks_the_highest_score() {
    let set = set_of(&["sheep", "those", "moist"], 5);
    let best = recommend(&set).unwrap();
    assert_eq!(best.word, "those");
    assert_eq!(best.score, 2 + 2 + 2 + 3 + 2);
    assert!(set.contains(&best.word));
}

#[test]
fn recommend_breaks_ties_by_dictionary_order() {
    for words in [["ab", "ba"], ["ba", "ab"]] {
        let best = recommend(&set_of(&words, 2)).unwrap();
        assert_eq!(best.word, "ab");
        assert_eq!(best.score, 4);
    }
    for words in [["tac", "act", "cat"], ["cat", "tac", "act"], ["act", "cat", "tac"]] {
        let best = recommend(&set_of(&words, 3)).unwrap();
        assert_eq!(best.word, "act");
        assert_eq!(best.score, 9);
    }
}

#[test]
fn recommend_of_one_candidate_is_that_candidate() {
    let best = recommend(&set_of(&["crane"], 5)).unwrap();
    assert_eq!(best.word, "crane");
    assert_eq!(best.score, 5);
}

#[test]
fn recommend_is_always_a_candidate() {
    let words = ["crane", "slate", "trace", "grate", "moist", "eerie", "crept", "crepe"];
    let mut set = set_of(&words, 5);
    for (guess, correct, incorrect) in [
        ("zzzzz", vec![], vec![]),
        ("moist", vec![], vec![4usize]),
        ("crate", vec![0usize, 1], vec![4]),
    ] {
        assert_eq!(apply_guess(&mut set, guess, &correct, &incorrect), Ok(()));
        match recommend(&set) {
            Ok(best) => assert!(set.contains(&best.word)),
            Err(e) => {
                assert_eq!(e, Error::EmptyCandidateSet);
                assert!(set.is_empty());
            }
        }
    }
}

#[test]
fn recommend_on_an_empty_set_reports_it() {
    assert_eq!(recommend(&CandidateSet::new(5)).err(), Some(Error::EmptyCandidateSet));
    let mut set = set_of(&["crane", "slate", "trace", "grate"], 5);
    assert_eq!(apply_guess(&mut set, "crane", &vec![0, 3], &vec![]), Ok(()));
    assert!(set.is_empty());
    assert_eq!(recommend(&set).err(), Some(Error::EmptyCandidateSet));
    assert_eq!(recommend(&set).err(), Some(Error::EmptyCandidateSet));
}

#[test]
fn in_order_is_the_dictionary_order() {
    assert!(in_order("", ""));
    assert!(in_order("", "a"));
    assert!(!in_order("a", ""));
    assert!(in_order("abc", "abc"));
    assert!(in_order("abc", "abd"));
    assert!(!in_order("abd", "abc"));
    assert!(in_order("ab", "abc"));
    assert!(!in_order("abc", "ab"));
    assert!(in_order("Zebra", "apple"));
    assert!(in_order("az", "b"));
    assert!(in_order("z", "\u{e9}"));
}

#[test]
fn recommend_does_not_depend_on_the_order_of_the_list() {
    let one = set_of(&["crane", "slate", "trace", "grate", "react", "caret"], 5);
    let two = set_of(&["caret", "react", "grate", "trace", "slate", "crane"], 5);
    let a = recommend(&one).unwrap();
    let b = recommend(&two).unwrap();
    assert_eq!(a.word, b.word);
    assert_eq!(a.score, b.score);
    assert_eq!(a.word, "caret");
    assert_eq!(a.score, 4 + 6 + 5 + 6 + 5);
}
