//! The outside language tools the analysis relies on: the word-frequency
//! dictionary, the English stemmer, the segmentation dictionary, Unicode word
//! boundaries and character classes. Each is reached through one small
//! function whose contract names what the tool returns.
use rust_stemmers::{Algorithm, Stemmer};
use symspell::{AsciiStringStrategy, SymSpell};
use unicode_segmentation::UnicodeSegmentation;
use crate::text::split_by;
use vstd::prelude::*;
use wordfreq::WordFreq;

verus! {

#[verifier::external_type_specification]
#[verifier::external_body]
pub struct ExWordFreq(WordFreq);

/// The segmentation dictionary: word counts that a text-extraction artifact
/// such as `"isabout"` can be split against.
#[verifier::external_body]
pub struct Segmenter {
    dict: SymSpell<AsciiStringStrategy>,
}

/// For every word, the frequency that the dictionary reports for it, as the
/// bit pattern of the `f32` it returns (the dictionary's minimum, 0 unless set,
/// for a word it does not hold).
pub uninterp spec fn frequency_table(wf: WordFreq) -> Map<Seq<char>, u32>;

/// For every word, the segmentation (words separated by single spaces) that
/// the segmentation dictionary finds within edit distance 2.
pub uninterp spec fn segmentation_table(s: Segmenter) -> Map<
    Seq<char>,
    Seq<char>,
>;

/// The largest edit distance that the segmentation dictionary was built for.
pub uninterp spec fn segmentation_distance(s: Segmenter) -> int;

/// The word counts that the segmentation dictionary holds.
pub uninterp spec fn segmenter_words(s: Segmenter) -> Map<Seq<char>, int>;

/// The least count that the segmentation dictionary takes a word with.
pub uninterp spec fn segmenter_count_threshold(s: Segmenter) -> int;

/// A string transliterated to ASCII, as the segmentation dictionary prepares
/// its keys (`unidecode`).
pub uninterp spec fn ascii_transliteration(s: Seq<char>) -> Seq<char>;

/// The English (Porter 2) stem of a word.
pub uninterp spec fn english_stem(w: Seq<char>) -> Seq<char>;

/// The lowercase mapping of a string.
pub uninterp spec fn lower_of(s: Seq<char>) -> Seq<char>;

/// The words of a string by the Unicode word-boundary rules (UAX #29).
pub uninterp spec fn unicode_words_of(s: Seq<char>) -> Seq<Seq<char>>;

/// The Unicode `Numeric` classes (Nd, Nl, No).
pub uninterp spec fn numeric(c: char) -> bool;

/// The Unicode `Uppercase` property.
pub uninterp spec fn uppercase(c: char) -> bool;

/// No character of `w` is numeric.
pub open spec fn digit_free(w: Seq<char>) -> bool {
    forall|i: int| 0 <= i < w.len() ==> !numeric(#[trigger] w[i])
}

/// The frequency used for a word: the dictionary's for a word without
/// numeric characters, 0 for any other (such a word is never looked up).
pub open spec fn dictionary_frequency(wf: WordFreq, w: Seq<char>) -> u32 {
    if digit_free(w) {
        frequency_table(wf)[w]
    } else {
        0
    }
}

/// Whether `w` has no numeric character.
pub fn is_digit_free(w: &Vec<char>) -> (r: bool)
    ensures
        r == digit_free(w@),
{
    let mut i: usize = 0;
    while i < w.len()
        invariant
            i <= w.len(),
            forall|j: int| 0 <= j < i ==> !numeric(#[trigger] w@[j]),
        decreases w.len() - i,
    {
        if is_numeric(w[i]) {
            return false;
        }
        i = i + 1;
    }
    true
}

/// Printable ASCII other than the space.
pub open spec fn plain_ascii(w: Seq<char>) -> bool {
    forall|i: int| 0 <= i < w.len() ==> 0x20 < (#[trigger] w[i]) as u32 && (w[i] as u32) < 0x7f
}

/// Relies on `WordFreq::word_frequency`: the dictionary's frequency of the
/// word, a function of the dictionary and the word alone; the `f32` is handed
/// on as its bit pattern. A word with digits can reach a digit table that
/// lacks some Unicode digits and panic, so numeric characters are ruled out.
#[verifier::external_body]
pub(crate) fn word_frequency(wf: &WordFreq, w: &Vec<char>) -> (r: u32)
    requires
        digit_free(w@),
    ensures
        r == frequency_table(*wf)[w@],
{
    let s: String = w.iter().collect();
    wf.word_frequency(&s).to_bits()
}

/// Relies on `rust_stemmers::Stemmer::stem` with the English algorithm.
#[verifier::external_body]
pub(crate) fn stem(w: &Vec<char>) -> (r: Vec<char>)
    ensures
        r@ == english_stem(w@),
{
    let s: String = w.iter().collect();
    Stemmer::create(Algorithm::English).stem(&s).chars().collect()
}

/// Relies on `str::to_lowercase`.
#[verifier::external_body]
pub(crate) fn to_lower(w: &Vec<char>) -> (r: Vec<char>)
    ensures
        r@ == lower_of(w@),
{
    let s: String = w.iter().collect();
    s.to_lowercase().chars().collect()
}

/// Relies on `UnicodeSegmentation::unicode_words`: the words of the text, in order.
#[verifier::external_body]
pub(crate) fn unicode_words(s: &Vec<char>) -> (r: Vec<Vec<char>>)
    ensures
        r@.map_values(|x: Vec<char>| x@) == unicode_words_of(s@),
{
    let t: String = s.iter().collect();
    t.unicode_words().map(|w| w.chars().collect()).collect()
}

/// Relies on `unidecode::unidecode`, the transliteration that the
/// segmentation dictionary applies to its keys and its input.
#[verifier::external_body]
pub(crate) fn transliterate(w: &Vec<char>) -> (r: Vec<char>)
    ensures
        r@ == ascii_transliteration(w@),
{
    let s: String = w.iter().collect();
    unidecode::unidecode(&s).chars().collect()
}

/// Relies on `char::is_numeric`.
#[verifier::external_body]
pub(crate) fn is_numeric(c: char) -> (r: bool)
    ensures
        r == numeric(c),
{
    c.is_numeric()
}

/// Relies on `char::is_uppercase`.
#[verifier::external_body]
pub(crate) fn is_uppercase(c: char) -> (r: bool)
    ensures
        r == uppercase(c),
{
    c.is_uppercase()
}

/// Relies on `SymSpell::default`: an empty dictionary built for edit
/// distance 2 that takes words with a count of 1 or more.
#[verifier::external_body]
pub(crate) fn empty_segmenter() -> (r: Segmenter)
    ensures
        segmentation_distance(r) == 2,
        segmenter_count_threshold(r) == 1,
        segmenter_words(r).dom() == Set::<Seq<char>>::empty(),
{
    Segmenter { dict: SymSpell::default() }
}

/// Relies on `SymSpell::load_dictionary_line` (with `create_dictionary_entry`):
/// a `word count` line whose count parses and reaches the threshold adds the
/// count to the transliterated word, capped at `i64::MAX`; any other line
/// changes nothing. The counts held are positive, so the addition cannot
/// overflow.
#[verifier::external_body]
pub(crate) fn segmenter_add_line(s: &mut Segmenter, line: &str)
    requires
        segmenter_count_threshold(*old(s)) >= 1,
        counts_positive(segmenter_words(*old(s))),
    ensures
        segmentation_distance(*final(s)) == segmentation_distance(*old(s)),
        segmenter_count_threshold(*final(s)) == segmenter_count_threshold(*old(s)),
        segmenter_words(*final(s)) == with_line(
            segmenter_words(*old(s)),
            segmenter_count_threshold(*old(s)),
            line@,
            ascii_transliteration(line_fields(line@)[0]),
        ),
{
    s.dict.load_dictionary_line(line, 0, 1, " ");
}

/// Relies on `SymSpell::word_segmentation` at edit distance 2. It first
/// transliterates the word to ASCII (`unidecode`); it panics where that
/// gives nothing and on a dictionary built for a smaller distance, and is
/// used only where the transliteration is printable ASCII without spaces.
#[verifier::external_body]
pub(crate) fn segment(s: &Segmenter, w: &Vec<char>) -> (r: Vec<char>)
    requires
        ascii_transliteration(w@).len() > 0,
        plain_ascii(ascii_transliteration(w@)),
        segmentation_distance(*s) >= 2,
    ensures
        r@ == segmentation_table(*s)[w@],
{
    let t: String = w.iter().collect();
    s.dict.word_segmentation(&t, 2).segmented_string.chars().collect()
}

/// The fields of a dictionary line, split at each space.
pub open spec fn line_fields(line: Seq<char>) -> Seq<Seq<char>> {
    split_by(line, |c: char| c == ' ')
}

pub open spec fn counts_positive(m: Map<Seq<char>, int>) -> bool {
    forall|k: Seq<char>| #[trigger] m.contains_key(k) ==> m[k] >= 1
}

/// The value of a string of decimal digits.
pub open spec fn digits_value(s: Seq<char>) -> int
    decreases s.len(),
{
    if s.len() == 0 {
        0
    } else {
        digits_value(s.drop_last()) * 10 + (s.last() as int - '0' as int)
    }
}

/// `s` read as an `i64` the way `str::parse` reads one: an optional sign,
/// one or more decimal digits, a value in range.
pub open spec fn parsed_i64(s: Seq<char>) -> Option<int> {
    let neg = s.len() > 0 && s[0] == '-';
    let d = if s.len() > 0 && (s[0] == '-' || s[0] == '+') {
        s.drop_first()
    } else {
        s
    };
    let v = if neg {
        -digits_value(d)
    } else {
        digits_value(d)
    };
    if d.len() == 0 || exists|i: int| 0 <= i < d.len() && !('0' <= #[trigger] d[i] && d[i] <= '9') {
        None
    } else if v < i64::MIN || v > i64::MAX {
        None
    } else {
        Some(v)
    }
}

/// The counts after one dictionary line whose first field, transliterated, is `key`.
pub open spec fn with_line(
    words: Map<Seq<char>, int>,
    threshold: int,
    line: Seq<char>,
    key: Seq<char>,
) -> Map<Seq<char>, int> {
    let fields = line_fields(line);
    if fields.len() < 2 {
        words
    } else {
        match parsed_i64(fields[1]) {
            None => words,
            Some(c) => if c < threshold {
                words
            } else if words.contains_key(key) {
                let i = words[key];
                words.insert(
                    key,
                    if i64::MAX - i > c {
                        i + c
                    } else {
                        i64::MAX as int
                    },
                )
            } else {
                words.insert(key, c)
            },
        }
    }
}

/// The counts after the lines, in order, into a dictionary with threshold 1.
pub open spec fn counts_of(lines: Seq<Seq<char>>) -> Map<Seq<char>, int>
    decreases lines.len(),
{
    if lines.len() == 0 {
        Map::empty()
    } else {
        let l = lines.last();
        with_line(counts_of(lines.drop_last()), 1, l, ascii_transliteration(line_fields(l)[0]))
    }
}

proof fn lemma_with_line_positive(words: Map<Seq<char>, int>, threshold: int, line: Seq<char>, key: Seq<char>)
    requires
        counts_positive(words),
        threshold >= 1,
    ensures
        counts_positive(with_line(words, threshold, line, key)),
{
    let r = with_line(words, threshold, line, key);
    assert forall|k: Seq<char>| #[trigger] r.contains_key(k) implies r[k] >= 1 by {
        if k != key {
            assert(words.contains_key(k));
        }
    }
}

/// Builds a segmentation dictionary from `word count` lines.
pub fn segmenter_from_lines(lines: &Vec<String>) -> (r: Segmenter)
    ensures
        segmentation_distance(r) == 2,
        segmenter_words(r) == counts_of(lines@.map_values(|l: String| l@)),
{
    let ghost ls = lines@.map_values(|l: String| l@);
    let mut s = empty_segmenter();
    let mut i: usize = 0;
    assert(ls.subrange(0, 0) =~= Seq::<Seq<char>>::empty());
    assert(segmenter_words(s) =~= Map::<Seq<char>, int>::empty());
    while i < lines.len()
        invariant
            i <= lines.len(),
            ls == lines@.map_values(|l: String| l@),
            segmentation_distance(s) == 2,
            segmenter_count_threshold(s) == 1,
            counts_positive(segmenter_words(s)),
            segmenter_words(s) == counts_of(ls.subrange(0, i as int)),
        decreases lines.len() - i,
    {
        proof {
            lemma_with_line_positive(
                segmenter_words(s),
                1,
                lines@[i as int]@,
                ascii_transliteration(line_fields(lines@[i as int]@)[0]),
            );
            assert(ls.subrange(0, i + 1).drop_last() =~= ls.subrange(0, i as int));
            assert(ls.subrange(0, i + 1).last() == lines@[i as int]@);
        }
        segmenter_add_line(&mut s, lines[i].as_str());
        i = i + 1;
    }
    assert(ls.subrange(0, i as int) =~= ls);
    s
}

/// A frequency that is a number above zero: the sign bit is clear, the bits
/// are not all zero, and it is no NaN.
pub open spec fn positive(bits: u32) -> bool {
    0 < bits && bits <= 0x7f80_0000
}

pub fn is_positive(bits: u32) -> (r: bool)
    ensures
        r == positive(bits),
{
    0 < bits && bits <= 0x7f80_0000
}

/// Relies on `String`'s `FromIterator<char>`: the string of these characters.
#[verifier::external_body]
pub(crate) fn string_of(v: &Vec<char>) -> (r: String)
    ensures
        r@ == v@,
{
    v.iter().collect()
}

/// Relies on `str::chars`: the characters of the string, in order.
#[verifier::external_body]
pub(crate) fn chars_of(s: &str) -> (r: Vec<char>)
    ensures
        r@ == s@,
{
    s.chars().collect()
}

} // verus!
