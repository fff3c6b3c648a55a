//! Recognising words that text extraction glued together, such as
//! `"believesthat's"`.
use crate::lexicon::{
    ascii_transliteration, english_stem, plain_ascii, positive, transliterate, segmentation_table, dictionary_frequency, Segmenter, stem,
    is_positive, segment,
};
use crate::pipeline::NlpPipeline;
use crate::text::{ws_words, split_words};
use vstd::prelude::*;
use wordfreq::WordFreq;

verus! {

/// The part of `w` before its first apostrophe (all of `w` if it has none).
pub open spec fn before_apostrophe(w: Seq<char>) -> Seq<char>
    decreases w.len(),
{
    if w.len() == 0 {
        w
    } else if w[0] == '\'' {
        Seq::empty()
    } else {
        seq![w[0]] + before_apostrophe(w.drop_first())
    }
}

pub open spec fn ends_with(w: Seq<char>, tail: Seq<char>) -> bool {
    tail.len() <= w.len() && w.subrange(w.len() - tail.len(), w.len() as int) == tail
}

/// The common short words that extraction artifacts most often end in.
pub open spec fn common_tails() -> Seq<Seq<char>> {
    seq![
        seq!['t', 'h', 'a', 't', '\'', 's'],
        seq!['t', 'h', 'a', 't'],
        seq!['t', 'h', 'e'],
        seq!['t', 'h', 'i', 's'],
        seq!['t', 'h', 'e', 'y'],
    ]
}

pub open spec fn in_dictionary(wf: WordFreq, w: Seq<char>) -> bool {
    positive(dictionary_frequency(wf, w))
}

/// A segmentation of two or more parts, each at least three characters long
/// and in the dictionary.
pub open spec fn splits_into_words(wf: WordFreq, segmented: Seq<char>) -> bool {
    let parts = ws_words(segmented);
    parts.len() >= 2 && forall|i: int|
        0 <= i < parts.len() ==> (#[trigger] parts[i]).len() >= 3 && in_dictionary(wf, parts[i])
}

/// `w` ends in `tail` and what comes before it, at least four characters,
/// is a dictionary word.
pub open spec fn glued_to(wf: WordFreq, w: Seq<char>, tail: Seq<char>) -> bool {
    ends_with(w, tail) && w.len() >= tail.len() + 4 && in_dictionary(
        wf,
        w.subrange(0, w.len() - tail.len()),
    )
}

/// Whether the segmentation dictionary is asked about `c`: one is loaded,
/// and `c` transliterates to a non-empty word of printable ASCII, the input
/// that the dictionary can take.
pub open spec fn segmentable(seg: Option<Segmenter>, c: Seq<char>) -> bool {
    seg is Some && ascii_transliteration(c).len() > 0 && plain_ascii(ascii_transliteration(c))
}

/// A word of ten or more characters that neither it (up to an apostrophe)
/// nor its stem is in the dictionary, and that either splits into dictionary
/// words or is a dictionary word glued to a common short word.
pub open spec fn malformed(wf: WordFreq, seg: Option<Segmenter>, w: Seq<char>) -> bool {
    let c = before_apostrophe(w);
    if w.len() < 10 {
        false
    } else if in_dictionary(wf, c) || in_dictionary(wf, english_stem(c)) {
        false
    } else if segmentable(seg, c) && splits_into_words(wf, segmentation_table(seg->Some_0)[c]) {
        true
    } else {
        exists|k: int| 0 <= k < common_tails().len() && glued_to(wf, w, #[trigger] common_tails()[k])
    }
}

fn prefix_before_apostrophe(w: &Vec<char>) -> (r: Vec<char>)
    ensures
        r@ == before_apostrophe(w@),
{
    let mut r: Vec<char> = Vec::new();
    let mut i: usize = 0;
    assert(w@.subrange(0, w.len() as int) =~= w@);
    assert(r@ + before_apostrophe(w@) =~= before_apostrophe(w@));
    while i < w.len() && w[i] != '\''
        invariant
            i <= w.len(),
            r@ == w@.subrange(0, i as int),
            before_apostrophe(w@) == r@ + before_apostrophe(w@.subrange(i as int, w.len() as int)),
        decreases w.len() - i,
    {
        let ghost rest = w@.subrange(i as int, w.len() as int);
        assert(rest.drop_first() =~= w@.subrange(i + 1, w.len() as int));
        assert(rest[0] == w[i as int]);
        r.push(w[i]);
        i = i + 1;
        assert(r@ =~= w@.subrange(0, i as int));
        assert(before_apostrophe(w@) =~= r@ + before_apostrophe(
            w@.subrange(i as int, w.len() as int),
        ));
    }
    let ghost rest = w@.subrange(i as int, w.len() as int);
    if i < w.len() {
        assert(rest[0] == w[i as int]);
    } else {
        assert(rest.len() == 0);
    }
    assert(r@ =~= r@ + before_apostrophe(rest));
    r
}

fn is_plain_ascii(w: &Vec<char>) -> (r: bool)
    ensures
        r == plain_ascii(w@),
{
    let mut i: usize = 0;
    while i < w.len()
        invariant
            i <= w.len(),
            forall|j: int| 0 <= j < i ==> 0x20 < (#[trigger] w@[j]) as u32 && (w@[j] as u32) < 0x7f,
        decreases w.len() - i,
    {
        let u = w[i] as u32;
        if !(0x20 < u && u < 0x7f) {
            return false;
        }
        i = i + 1;
    }
    true
}

fn has_tail(w: &Vec<char>, tail: &Vec<char>) -> (r: bool)
    ensures
        r == ends_with(w@, tail@),
{
    if tail.len() > w.len() {
        return false;
    }
    let off = w.len() - tail.len();
    let mut i: usize = 0;
    while i < tail.len()
        invariant
            off + tail.len() == w.len(),
            i <= tail.len(),
            forall|j: int| 0 <= j < i ==> w@[off + j] == tail@[j],
        decreases tail.len() - i,
    {
        if w[off + i] != tail[i] {
            assert(w@.subrange(off as int, w.len() as int)[i as int] != tail@[i as int]);
            return false;
        }
        i = i + 1;
    }
    assert(w@.subrange(off as int, w.len() as int) =~= tail@);
    true
}

fn tails() -> (r: Vec<Vec<char>>)
    ensures
        r@.len() == common_tails().len(),
        forall|k: int| 0 <= k < r@.len() ==> (#[trigger] r@[k])@ == common_tails()[k],
{
    let r = vec![
        vec!['t', 'h', 'a', 't', '\'', 's'],
        vec!['t', 'h', 'a', 't'],
        vec!['t', 'h', 'e'],
        vec!['t', 'h', 'i', 's'],
        vec!['t', 'h', 'e', 'y'],
    ];
    assert(r@[0]@ =~= common_tails()[0]);
    assert(r@[1]@ =~= common_tails()[1]);
    assert(r@[2]@ =~= common_tails()[2]);
    assert(r@[3]@ =~= common_tails()[3]);
    assert(r@[4]@ =~= common_tails()[4]);
    r
}

impl NlpPipeline {
    /// Whether a segmentation names two or more dictionary words of three or
    /// more characters each.
    pub fn splits_into_dictionary_words(&self, segmented: &Vec<char>) -> (r: bool)
        ensures
            r == splits_into_words(self.dictionary(), segmented@),
    {
        let parts = split_words(segmented);
        proof {
            assert(parts@.len() == ws_words(segmented@).len());
        }
        if parts.len() < 2 {
            return false;
        }
        let mut i: usize = 0;
        while i < parts.len()
            invariant
                i <= parts.len(),
                crate::text::views(parts@) == ws_words(segmented@),
                forall|j: int|
                    0 <= j < i ==> (#[trigger] ws_words(segmented@)[j]).len() >= 3
                        && in_dictionary(self.dictionary(), ws_words(segmented@)[j]),
            decreases parts.len() - i,
        {
            assert(ws_words(segmented@)[i as int] == parts@[i as int]@);
            if parts[i].len() < 3 || !is_positive(self.frequency(&parts[i])) {
                return false;
            }
            i = i + 1;
        }
        true
    }

    /// Whether `w` looks like two words that text extraction glued together.
    pub fn is_malformed_word(&self, w: &Vec<char>) -> (r: bool)
        requires
            self.wf(),
        ensures
            r == malformed(self.dictionary(), self.segmenter(), w@),
    {
        let ghost wf = self.dictionary();
        if w.len() < 10 {
            return false;
        }
        let c = prefix_before_apostrophe(w);
        if is_positive(self.frequency(&c)) {
            return false;
        }
        let st = stem(&c);
        if is_positive(self.frequency(&st)) {
            return false;
        }
        let found = match self.segmenter_ref() {
            Some(seg) => {
                let t = transliterate(&c);
                if t.len() > 0 && is_plain_ascii(&t) {
                    let segmented = segment(seg, &c);
                    self.splits_into_dictionary_words(&segmented)
                } else {
                    false
                }
            },
            None => false,
        };
        if found {
            return true;
        }
        let ts = tails();
        let mut k: usize = 0;
        while k < ts.len()
            invariant
                k <= ts.len(),
                wf == self.dictionary(),
                w@.len() >= 10,
                !in_dictionary(wf, before_apostrophe(w@)),
                !in_dictionary(wf, english_stem(before_apostrophe(w@))),
                !(segmentable(self.segmenter(), before_apostrophe(w@)) && splits_into_words(
                    wf,
                    segmentation_table(self.segmenter()->Some_0)[before_apostrophe(w@)],
                )),
                ts@.len() == common_tails().len(),
                forall|j: int| 0 <= j < ts@.len() ==> (#[trigger] ts@[j])@ == common_tails()[j],
                forall|j: int| 0 <= j < k ==> !glued_to(wf, w@, #[trigger] common_tails()[j]),
            decreases ts.len() - k,
        {
            let t = &ts[k];
            assert(t@ == common_tails()[k as int]);
            if has_tail(w, t) && w.len() >= t.len() + 4 {
                let p = crate::text::copy_range(w, 0, w.len() - t.len());
                let fp = self.frequency(&p);
                if is_positive(fp) {
                    assert(glued_to(wf, w@, common_tails()[k as int]));
                    return true;
                }
                assert(!glued_to(wf, w@, common_tails()[k as int]));
            }
            k = k + 1;
        }
        false
    }
}

proof fn lemma_no_apostrophe(w: Seq<char>)
    requires
        !w.contains('\''),
    ensures
        before_apostrophe(w) == w,
    decreases w.len(),
{
    if w.len() > 0 {
        assert(w[0] != '\'') by {
            if w[0] == '\'' {
                assert(w.contains(w[0]));
            }
        }
        assert(!w.drop_first().contains('\'')) by {
            if w.drop_first().contains('\'') {
                let i = choose|i: int| 0 <= i < w.drop_first().len() && w.drop_first()[i] == '\'';
                assert(w[i + 1] == '\'');
            }
        }
        lemma_no_apostrophe(w.drop_first());
        assert(seq![w[0]] + w.drop_first() =~= w);
    }
}

/// A word that the dictionary holds, without an apostrophe, is never judged
/// malformed, however it could be split.
pub proof fn lemma_dictionary_words_not_malformed(wf: WordFreq, seg: Option<Segmenter>, w: Seq<char>)
    requires
        in_dictionary(wf, w),
        !w.contains('\''),
    ensures
        !malformed(wf, seg, w),
{
    lemma_no_apostrophe(w);
}

/// A word that only the segmentation dictionary can judge: ten or more
/// characters, neither it (up to an apostrophe) nor its stem in the
/// dictionary, and a part before the apostrophe that transliterates to a
/// non-empty word of printable ASCII.
pub open spec fn needs_segmenter(wf: WordFreq, w: Seq<char>) -> bool {
    let c = before_apostrophe(w);
    w.len() >= 10 && !in_dictionary(wf, c) && !in_dictionary(wf, english_stem(c))
        && ascii_transliteration(c).len() > 0 && plain_ascii(ascii_transliteration(c))
}

impl NlpPipeline {
    /// Whether judging `w` takes the segmentation dictionary.
    pub fn needs_segmenter_for(&self, w: &Vec<char>) -> (r: bool)
        ensures
            r == needs_segmenter(self.dictionary(), w@),
    {
        if w.len() < 10 {
            return false;
        }
        let c = prefix_before_apostrophe(w);
        if is_positive(self.frequency(&c)) {
            return false;
        }
        let st = stem(&c);
        if is_positive(self.frequency(&st)) {
            return false;
        }
        let t = transliterate(&c);
        t.len() > 0 && is_plain_ascii(&t)
    }
}

} // verus!
