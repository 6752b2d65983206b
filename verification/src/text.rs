//! Words as sequences of characters, and the few string operations the rest
//! of the library is built from.

use vstd::prelude::*;

verus! {

/// The lower-case letters, in order: the image of `'A'..='Z'` under
/// [`lower`].
pub const LOWER_CASE: &'static str = "abcdefghijklmnopqrstuvwxyz";

/// The ASCII lower-case form of a character: `'A'..='Z'` map to
/// `'a'..='z'`, every other character to itself.
pub open spec fn lower(c: char) -> char {
    if 'A' <= c <= 'Z' {
        ((c as u32) + 32) as char
    } else {
        c
    }
}

/// A word with every character replaced by its lower-case form.
pub open spec fn lowered(word: Seq<char>) -> Seq<char> {
    Seq::new(word.len(), |i: int| lower(word[i]))
}

/// A word is normalized when lower-casing would not change it.
pub open spec fn is_normalized(word: Seq<char>) -> bool {
    forall|i: int| 0 <= i < word.len() ==> !('A' <= #[trigger] word[i] <= 'Z')
}

/// Lower-casing yields a normalized word of the same length, and leaves a
/// normalized word as it is.
pub proof fn lemma_lowered_is_normalized(word: Seq<char>)
    ensures
        is_normalized(lowered(word)),
        lowered(word).len() == word.len(),
        is_normalized(word) ==> lowered(word) == word,
{
    if is_normalized(word) {
        assert(lowered(word) =~= word);
    }
}

/// Whether two strings hold the same characters.
pub fn same_text(a: &str, b: &str) -> (r: bool)
    ensures
        r == (a@ == b@),
{
    let n: usize = a.unicode_len();
    if b.unicode_len() != n {
        return false;
    }
    let mut i: usize = 0;
    while i < n
        invariant
            n == a@.len(),
            n == b@.len(),
            i <= n,
            forall|j: int| 0 <= j < i ==> a@[j] == b@[j],
        decreases n - i,
    {
        if a.get_char(i) != b.get_char(i) {
            return false;
        }
        i += 1;
    }
    assert(a@ =~= b@);
    true
}

/// Whether `ch` occurs anywhere in `word`.
pub fn has_letter(word: &str, ch: char) -> (r: bool)
    ensures
        r == word@.contains(ch),
{
    let n: usize = word.unicode_len();
    let mut i: usize = 0;
    while i < n
        invariant
            n == word@.len(),
            i <= n,
            forall|j: int| 0 <= j < i ==> word@[j] != ch,
        decreases n - i,
    {
        if word.get_char(i) == ch {
            return true;
        }
        i += 1;
    }
    false
}

/// The ASCII lower-case form of `word`.
pub fn to_lowercase(word: &str) -> (r: String)
    ensures
        r@ == lowered(word@),
{
    proof {
        reveal_strlit("abcdefghijklmnopqrstuvwxyz");
    }
    let n: usize = word.unicode_len();
    let mut out = String::new();
    let mut i: usize = 0;
    while i < n
        invariant
            n == word@.len(),
            i <= n,
            out@ == lowered(word@).subrange(0, i as int),
            LOWER_CASE@.len() == 26,
            forall|k: int| 0 <= k < 26 ==> LOWER_CASE@[k] == ((k + 97) as char),
        decreases n - i,
    {
        let c: char = word.get_char(i);
        if 'A' <= c && c <= 'Z' {
            let k: usize = (c as u8 - 65) as usize;
            out.append(LOWER_CASE.substring_char(k, k + 1));
        } else {
            out.append(word.substring_char(i, i + 1));
        }
        assert(out@ =~= lowered(word@).subrange(0, i + 1));
        i += 1;
    }
    assert(lowered(word@).subrange(0, n as int) =~= lowered(word@));
    out
}

/// The characters that count as white space.
pub open spec fn is_whitespace(c: char) -> bool {
    ||| '\u{9}' <= c <= '\u{d}'
    ||| c == ' '
    ||| c == '\u{85}'
    ||| c == '\u{a0}'
    ||| c == '\u{1680}'
    ||| '\u{2000}' <= c <= '\u{200a}'
    ||| c == '\u{2028}'
    ||| c == '\u{2029}'
    ||| c == '\u{202f}'
    ||| c == '\u{205f}'
    ||| c == '\u{3000}'
}

/// A text without the white space it begins with.
pub open spec fn trim_start(s: Seq<char>) -> Seq<char>
    decreases s.len(),
{
    if s.len() > 0 && is_whitespace(s[0]) {
        trim_start(s.drop_first())
    } else {
        s
    }
}

/// A text without the white space it ends with.
pub open spec fn trim_end(s: Seq<char>) -> Seq<char>
    decreases s.len(),
{
    if s.len() > 0 && is_whitespace(s.last()) {
        trim_end(s.drop_last())
    } else {
        s
    }
}

/// A text without the white space around it.
pub open spec fn trimmed(s: Seq<char>) -> Seq<char> {
    trim_end(trim_start(s))
}

/// Whether `pattern` stands in `s` at position `i`.
pub open spec fn matches_at(s: Seq<char>, pattern: Seq<char>, i: int) -> bool {
    0 <= i && i + pattern.len() <= s.len() && s.subrange(i, i + pattern.len()) == pattern
}

/// Whether `i` is the first position at which `pattern` stands in `s`.
pub open spec fn first_match(s: Seq<char>, pattern: Seq<char>, i: int) -> bool {
    matches_at(s, pattern, i) && forall|j: int| 0 <= j < i ==> !matches_at(s, pattern, j)
}

/// The first position at which `pattern` stands in `s`, if it stands
/// anywhere.
pub open spec fn found(s: Seq<char>, pattern: Seq<char>) -> Option<int> {
    if exists|i: int| first_match(s, pattern, i) {
        Some(choose|i: int| first_match(s, pattern, i))
    } else {
        None
    }
}

/// The text before the first occurrence of `pattern` and the text after
/// it, if `pattern` occurs.
pub open spec fn split_pair(s: Seq<char>, pattern: Seq<char>) -> Option<(Seq<char>, Seq<char>)> {
    match found(s, pattern) {
        Some(i) => Some((s.take(i), s.skip(i + pattern.len()))),
        None => None,
    }
}

/// A first match is the only first match.
pub proof fn lemma_first_match_unique(s: Seq<char>, pattern: Seq<char>, i: int)
    requires
        first_match(s, pattern, i),
    ensures
        found(s, pattern) == Some(i),
{
    let k = choose|k: int| first_match(s, pattern, k);
    if k < i {
        assert(!matches_at(s, pattern, k));
    }
    if i < k {
        assert(!matches_at(s, pattern, i));
    }
}

/// Tells white space from other characters.
pub fn is_space(c: char) -> (r: bool)
    ensures
        r == is_whitespace(c),
{
    ('\u{9}' <= c && c <= '\u{d}') || c == ' ' || c == '\u{85}' || c == '\u{a0}' || c
        == '\u{1680}' || ('\u{2000}' <= c && c <= '\u{200a}') || c == '\u{2028}' || c
        == '\u{2029}' || c == '\u{202f}' || c == '\u{205f}' || c == '\u{3000}'
}

/// The part of `s` between the white space around it.
pub fn trim(s: &str) -> (r: &str)
    ensures
        r@ == trimmed(s@),
{
    let n: usize = s.unicode_len();
    let mut from: usize = 0;
    assert(s@.skip(0) =~= s@);
    while from < n && is_space(s.get_char(from))
        invariant
            n == s@.len(),
            from <= n,
            trim_start(s@) == trim_start(s@.skip(from as int)),
        decreases n - from,
    {
        assert(s@.skip(from as int).drop_first() =~= s@.skip(from + 1));
        from += 1;
    }
    let ghost rest = s@.skip(from as int);
    assert(trim_start(s@) == rest);
    let mut to: usize = n;
    assert(s@.subrange(from as int, n as int) =~= rest);
    while to > from && is_space(s.get_char(to - 1))
        invariant
            n == s@.len(),
            from <= to <= n,
            trim_end(rest) == trim_end(s@.subrange(from as int, to as int)),
        decreases to,
    {
        assert(s@.subrange(from as int, to as int).drop_last() =~= s@.subrange(
            from as int,
            to - 1,
        ));
        to -= 1;
    }
    s.substring_char(from, to)
}

/// Whether `pattern` stands in `s` at position `i`.
fn stands_at(s: &str, pattern: &str, i: usize) -> (r: bool)
    requires
        i + pattern@.len() <= s@.len() <= usize::MAX,
    ensures
        r == matches_at(s@, pattern@, i as int),
{
    let m: usize = pattern.unicode_len();
    let mut k: usize = 0;
    while k < m
        invariant
            m == pattern@.len(),
            i + m <= s@.len() <= usize::MAX,
            k <= m,
            forall|j: int| 0 <= j < k ==> s@[i + j] == pattern@[j],
        decreases m - k,
    {
        if s.get_char(i + k) != pattern.get_char(k) {
            assert(s@.subrange(i as int, i + m)[k as int] != pattern@[k as int]);
            return false;
        }
        k += 1;
    }
    assert(s@.subrange(i as int, i + m) =~= pattern@);
    true
}

/// Finds the first occurrence of `pattern` in `s`.
pub fn find(s: &str, pattern: &str) -> (r: Option<usize>)
    ensures
        match r {
            Some(i) => found(s@, pattern@) == Some(i as int) && first_match(
                s@,
                pattern@,
                i as int,
            ),
            None => found(s@, pattern@) is None,
        },
{
    let n: usize = s.unicode_len();
    let m: usize = pattern.unicode_len();
    if m > n {
        return None;
    }
    let last: usize = n - m;
    let mut i: usize = 0;
    while i < last
        invariant
            n == s@.len(),
            m == pattern@.len(),
            last == n - m,
            i <= last,
            forall|j: int| 0 <= j < i ==> !matches_at(s@, pattern@, j),
        decreases last - i,
    {
        if stands_at(s, pattern, i) {
            proof {
                lemma_first_match_unique(s@, pattern@, i as int);
            }
            return Some(i);
        }
        i += 1;
    }
    if stands_at(s, pattern, last) {
        proof {
            lemma_first_match_unique(s@, pattern@, last as int);
        }
        return Some(last);
    }
    None
}

/// Splits `s` at the first occurrence of `pattern`.
pub fn split_once<'a>(s: &'a str, pattern: &str) -> (r: Option<(&'a str, &'a str)>)
    ensures
        match r {
            Some((before, after)) => split_pair(s@, pattern@) == Some((before@, after@)),
            None => split_pair(s@, pattern@) is None,
        },
{
    match find(s, pattern) {
        Some(i) => {
            let n: usize = s.unicode_len();
            let m: usize = pattern.unicode_len();
            let before = s.substring_char(0, i);
            let after = s.substring_char(i + m, n);
            assert(before@ =~= s@.take(i as int));
            assert(after@ =~= s@.skip(i + m));
            Some((before, after))
        },
        None => None,
    }
}

} // verus!
