//! The text form of a puzzle: numbers separated by white space, with
//! comments that start at a word holding `#` and run to the end of the line.
use vstd::prelude::*;

verus! {

/// White space between words: space, tab, line feed, vertical tab, form
/// feed and carriage return.
pub open spec fn is_space(b: u8) -> bool {
    b == 32 || (9 <= b && b <= 13)
}

/// The end of the word that starts at `i`: the next white space, or the end
/// of the text.
pub open spec fn word_end(text: Seq<u8>, i: int) -> int
    decreases text.len() - i,
{
    if i < 0 || i >= text.len() || is_space(text[i]) {
        i
    } else {
        word_end(text, i + 1)
    }
}

/// The end of the line that holds place `i`: the next line feed, or the end
/// of the text.
pub open spec fn line_end(text: Seq<u8>, i: int) -> int
    decreases text.len() - i,
{
    if i < 0 || i >= text.len() || text[i] == 10 {
        i
    } else {
        line_end(text, i + 1)
    }
}

/// The word holds the comment sign.
pub open spec fn has_hash(word: Seq<u8>) -> bool {
    exists|k: int| 0 <= k < word.len() && #[trigger] word[k] == 35
}

/// The number that a run of decimal digits writes, if it is one.
pub open spec fn digits_value(s: Seq<u8>) -> Option<int>
    decreases s.len(),
{
    if s.len() == 0 {
        Some(0)
    } else {
        match digits_value(s.drop_last()) {
            Some(v) => if 48 <= s.last() && s.last() <= 57 {
                Some(v * 10 + (s.last() - 48))
            } else {
                None
            },
            None => None,
        }
    }
}

/// The number that a word writes: decimal digits, with a plus sign before
/// them or without, and a value that a tile can hold.
pub open spec fn word_value(word: Seq<u8>) -> Option<u32> {
    let digits = if word.len() > 0 && word[0] == 43 { word.skip(1) } else { word };
    if digits.len() == 0 {
        None
    } else {
        digits_number(digits)
    }
}

/// The number that a run of decimal digits writes, if a tile can hold it.
pub open spec fn digits_number(digits: Seq<u8>) -> Option<u32> {
    match digits_value(digits) {
        Some(v) => if v <= u32::MAX { Some(v as u32) } else { None },
        None => None,
    }
}

/// The numbers of the text from place `i` on, up to the first word that
/// writes no number, and the place of that word if there is one. With
/// `comment` set, place `i` lies in a comment.
pub open spec fn numbers_from(text: Seq<u8>, i: int, comment: bool) -> (Seq<u32>, Option<int>)
    decreases text.len() - i,
{
    if i < 0 || i >= text.len() {
        (Seq::empty(), None)
    } else if comment {
        numbers_from(text, i + 1, text[i] != 10)
    } else if is_space(text[i]) {
        numbers_from(text, i + 1, false)
    } else {
        let e = word_end(text, i + 1);
        let word = text.subrange(i, e);
        if i < e && e <= text.len() {
            if has_hash(word) {
                numbers_from(text, e, true)
            } else {
                match word_value(word) {
                    Some(v) => (
                        seq![v] + numbers_from(text, e, false).0,
                        numbers_from(text, e, false).1,
                    ),
                    None => (Seq::empty(), Some(i)),
                }
            }
        } else {
            (Seq::empty(), None)
        }
    }
}

/// The numbers of a text.
pub open spec fn numbers_of(text: Seq<u8>) -> (Seq<u32>, Option<int>) {
    numbers_from(text, 0, false)
}

/// Reading on in a comment is reading on after the end of its line.
pub proof fn lemma_comment_skips_line(text: Seq<u8>, i: int)
    requires
        0 <= i <= text.len(),
    ensures
        numbers_from(text, i, true) == numbers_from(text, line_end(text, i), false),
    decreases text.len() - i,
{
    if i < text.len() {
        if text[i] != 10 {
            lemma_comment_skips_line(text, i + 1);
        }
    } else {
        assert(line_end(text, i) == i);
    }
}

/// What reading a text gives: the numbers before the first word that writes
/// no number, and the place of that word, if there is one.
pub struct Scan {
    pub numbers: Vec<u32>,
    pub bad: Option<usize>,
}

/// The end of a word lies between its start and the end of the text.
pub proof fn lemma_word_end_bounds(text: Seq<u8>, i: int)
    requires
        0 <= i <= text.len(),
    ensures
        i <= word_end(text, i) <= text.len(),
    decreases text.len() - i,
{
    if i < text.len() && !is_space(text[i]) {
        lemma_word_end_bounds(text, i + 1);
    }
}

/// A run of digits writes no less than any run that it starts with.
pub proof fn lemma_digits_grow(s: Seq<u8>, k: int)
    requires
        0 <= k <= s.len(),
        digits_value(s).is_some(),
    ensures
        digits_value(s.take(k)).is_some(),
        0 <= digits_value(s.take(k)).unwrap() <= digits_value(s).unwrap(),
    decreases s.len(),
{
    if k == s.len() {
        assert(s.take(k) =~= s);
        lemma_digits_nonnegative(s);
    } else {
        lemma_digits_grow(s.drop_last(), k);
        assert(s.drop_last().take(k) =~= s.take(k));
    }
}

/// A run of digits writes zero or more.
pub proof fn lemma_digits_nonnegative(s: Seq<u8>)
    requires
        digits_value(s).is_some(),
    ensures
        digits_value(s).unwrap() >= 0,
    decreases s.len(),
{
    if s.len() > 0 {
        lemma_digits_nonnegative(s.drop_last());
    }
}

/// The place where the word that holds place `i` ends.
fn find_word_end(text: &[u8], i: usize) -> (e: usize)
    requires
        i <= text@.len(),
    ensures
        e == word_end(text@, i as int),
        i <= e <= text@.len(),
{
    let mut e: usize = i;
    proof {
        lemma_word_end_bounds(text@, i as int);
    }
    while e < text.len() && !(text[e] == 32 || (9 <= text[e] && text[e] <= 13))
        invariant
            i <= e <= text@.len(),
            word_end(text@, e as int) == word_end(text@, i as int),
        decreases text@.len() - e,
    {
        e += 1;
    }
    e
}

/// The place where the line that holds place `i` ends.
fn find_line_end(text: &[u8], i: usize) -> (e: usize)
    requires
        i <= text@.len(),
    ensures
        e == line_end(text@, i as int),
        i <= e <= text@.len(),
{
    let mut e: usize = i;
    while e < text.len() && text[e] != 10
        invariant
            i <= e <= text@.len(),
            line_end(text@, e as int) == line_end(text@, i as int),
        decreases text@.len() - e,
    {
        e += 1;
    }
    e
}

/// Whether the word from `i` to `e` holds the comment sign.
fn word_has_hash(text: &[u8], i: usize, e: usize) -> (found: bool)
    requires
        i <= e <= text@.len(),
    ensures
        found == has_hash(text@.subrange(i as int, e as int)),
{
    let ghost word = text@.subrange(i as int, e as int);
    let mut k: usize = i;
    while k < e
        invariant
            i <= k <= e <= text@.len(),
            word == text@.subrange(i as int, e as int),
            forall|j: int| 0 <= j < k - i ==> #[trigger] word[j] != 35,
        decreases e - k,
    {
        if text[k] == 35 {
            assert(word[k - i] == 35);
            return true;
        }
        k += 1;
    }
    false
}

/// The number that the word from `i` to `e` writes.
fn read_word(text: &[u8], i: usize, e: usize) -> (res: Option<u32>)
    requires
        i < e <= text@.len(),
    ensures
        res == word_value(text@.subrange(i as int, e as int)),
{
    let ghost word = text@.subrange(i as int, e as int);
    let start: usize = if text[i] == 43 { i + 1 } else { i };
    let ghost digits = text@.subrange(start as int, e as int);
    assert(digits =~= if word.len() > 0 && word[0] == 43 { word.skip(1) } else { word });
    if start == e {
        return None;
    }
    let mut acc: u64 = 0;
    let mut k: usize = start;
    assert(digits.take(0) =~= Seq::<u8>::empty());
    while k < e
        invariant
            start <= k <= e <= text@.len(),
            digits == text@.subrange(start as int, e as int),
            word_value(text@.subrange(i as int, e as int)) == digits_number(digits),
            digits_value(digits.take(k - start)) == Some(acc as int),
            acc <= u32::MAX,
        decreases e - k,
    {
        let b: u8 = text[k];
        let ghost shorter = digits.take(k - start);
        let ghost longer = digits.take(k + 1 - start);
        assert(longer.drop_last() =~= shorter);
        assert(longer.last() == b);
        if b < 48 || b > 57 {
            proof {
                assert(digits_value(longer).is_none());
                if digits_value(digits).is_some() {
                    lemma_digits_grow(digits, k + 1 - start);
                }
            }
            return None;
        }
        let next: u64 = acc * 10 + (b - 48) as u64;
        if next > 0xffff_ffff {
            proof {
                assert(digits_value(longer) == Some(next as int));
                if digits_value(digits).is_some() {
                    lemma_digits_grow(digits, k + 1 - start);
                }
            }
            return None;
        }
        acc = next;
        k += 1;
    }
    assert(digits.take(e - start) =~= digits);
    Some(acc as u32)
}

/// Reads the numbers of a text. Words are separated by white space; a word
/// that holds `#` ends its line; reading stops at the first other word that
/// writes no number.
pub fn read_numbers(text: &[u8]) -> (scan: Scan)
    ensures
        scan.numbers@ == numbers_of(text@).0,
        match scan.bad {
            Some(at) => numbers_of(text@).1 == Some(at as int),
            None => numbers_of(text@).1.is_none(),
        },
{
    let mut numbers: Vec<u32> = Vec::new();
    let mut i: usize = 0;
    while i < text.len()
        invariant
            i <= text@.len(),
            numbers_of(text@).0 == numbers@ + numbers_from(text@, i as int, false).0,
            numbers_of(text@).1 == numbers_from(text@, i as int, false).1,
        decreases text@.len() - i,
    {
        let b: u8 = text[i];
        if b == 32 || (9 <= b && b <= 13) {
            i += 1;
        } else {
            let e = find_word_end(text, i + 1);
            if word_has_hash(text, i, e) {
                proof {
                    lemma_comment_skips_line(text@, e as int);
                }
                i = find_line_end(text, e);
            } else {
                match read_word(text, i, e) {
                    Some(v) => {
                        let ghost before = numbers@;
                        numbers.push(v);
                        assert(numbers@ + numbers_from(text@, e as int, false).0 =~= before + (seq![v]
                            + numbers_from(text@, e as int, false).0));
                        i = e;
                    },
                    None => {
                        assert(numbers@ + Seq::<u32>::empty() =~= numbers@);
                        return Scan { numbers, bad: Some(i) };
                    },
                }
            }
        }
    }
    assert(numbers@ + Seq::<u32>::empty() =~= numbers@);
    Scan { numbers, bad: None }
}

} // verus!
