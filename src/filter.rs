//! The frequency filter: which stem groups are rare, known words.
//!
//! Frequencies travel as the bit patterns of the `f32` values that the
//! dictionary gives. Those values are never negative nor NaN, and for such
//! values the order of the bit patterns is the order of the numbers.
use crate::candidates::{groups_wf, StemGroup};
use crate::lexicon::{dictionary_frequency, is_positive, positive, Segmenter};
use crate::malformed::malformed;
use crate::pipeline::NlpPipeline;
use crate::text::views;
use vstd::prelude::*;
use wordfreq::WordFreq;

verus! {

/// `f` is above zero and at most `threshold`, read as numbers; a negative or
/// NaN threshold admits nothing.
pub open spec fn rare_enough(f: u32, threshold: u32) -> bool {
    positive(f) && threshold <= 0x7f80_0000 && f <= threshold
}

/// The largest frequency among `forms`, 0 for none.
pub open spec fn max_frequency(wf: WordFreq, forms: Seq<Seq<char>>) -> u32
    decreases forms.len(),
{
    if forms.len() == 0 {
        0
    } else {
        let m = max_frequency(wf, forms.drop_last());
        let f = dictionary_frequency(wf, forms.last());
        if f > m {
            f
        } else {
            m
        }
    }
}

/// The frequency of the stem, or where the dictionary does not hold the
/// stem, the largest frequency among the surface forms.
pub open spec fn group_frequency(wf: WordFreq, g: StemGroup) -> u32 {
    let s = dictionary_frequency(wf, g.stem@);
    if s == 0 {
        max_frequency(wf, views(g.surface_forms@))
    } else {
        s
    }
}

pub open spec fn any_malformed(wf: WordFreq, seg: Option<Segmenter>, forms: Seq<Seq<char>>) -> bool {
    exists|i: int| 0 <= i < forms.len() && malformed(wf, seg, #[trigger] forms[i])
}

/// No surface form is malformed, and the group's frequency is rare enough.
pub open spec fn survives(wf: WordFreq, seg: Option<Segmenter>, g: StemGroup, threshold: u32) -> bool {
    !any_malformed(wf, seg, views(g.surface_forms@)) && rare_enough(
        group_frequency(wf, g),
        threshold,
    )
}

/// The groups that survive, in order.
pub open spec fn survivors(
    wf: WordFreq,
    seg: Option<Segmenter>,
    gs: Seq<StemGroup>,
    threshold: u32,
) -> Seq<StemGroup>
    decreases gs.len(),
{
    if gs.len() == 0 {
        seq![]
    } else {
        let rest = survivors(wf, seg, gs.drop_first(), threshold);
        if survives(wf, seg, gs[0], threshold) {
            seq![gs[0]] + rest
        } else {
            rest
        }
    }
}

/// Raising the rarity threshold never takes a candidate away: every group
/// that survives the lower threshold survives the higher one, and there are
/// at least as many of them.
pub proof fn lemma_threshold_monotone(
    wf: WordFreq,
    seg: Option<Segmenter>,
    gs: Seq<StemGroup>,
    low: u32,
    high: u32,
)
    requires
        low <= high <= 0x7f80_0000,
    ensures
        survivors(wf, seg, gs, low).len() <= survivors(wf, seg, gs, high).len(),
        forall|g: StemGroup|
            survivors(wf, seg, gs, low).contains(g) ==> #[trigger] survivors(
                wf,
                seg,
                gs,
                high,
            ).contains(g),
    decreases gs.len(),
{
    if gs.len() > 0 {
        lemma_threshold_monotone(wf, seg, gs.drop_first(), low, high);
        let rl = survivors(wf, seg, gs.drop_first(), low);
        let rh = survivors(wf, seg, gs.drop_first(), high);
        assert forall|g: StemGroup|
            survivors(wf, seg, gs, low).contains(g) implies #[trigger] survivors(
            wf,
            seg,
            gs,
            high,
        ).contains(g) by {
            let sl = survivors(wf, seg, gs, low);
            let sh = survivors(wf, seg, gs, high);
            let i = choose|i: int| 0 <= i < sl.len() && sl[i] == g;
            if survives(wf, seg, gs[0], low) {
                assert(survives(wf, seg, gs[0], high));
                assert(sh == seq![gs[0]] + rh);
                if i == 0 {
                    assert(sh[0] == g);
                } else {
                    assert(rl[i - 1] == g);
                    assert(rl.contains(g));
                    assert(rh.contains(g));
                    let j = choose|j: int| 0 <= j < rh.len() && rh[j] == g;
                    assert(sh[j + 1] == g);
                }
            } else {
                assert(sl == rl);
                assert(rl[i] == g);
                assert(rl.contains(g));
                assert(rh.contains(g));
                let j = choose|j: int| 0 <= j < rh.len() && rh[j] == g;
                if survives(wf, seg, gs[0], high) {
                    assert(sh == seq![gs[0]] + rh);
                    assert(sh[j + 1] == g);
                } else {
                    assert(sh == rh);
                    assert(sh[j] == g);
                }
            }
        }
    }
}

/// Moves the elements of `v` into a new vector in the opposite order.
pub fn into_reversed<T>(v: Vec<T>) -> (r: Vec<T>)
    ensures
        r@ == v@.reverse(),
{
    let mut v = v;
    let ghost orig = v@;
    let mut r: Vec<T> = Vec::new();
    while v.len() > 0
        invariant
            orig.len() == v@.len() + r@.len(),
            v@ == orig.subrange(0, v@.len() as int),
            r@ == orig.subrange(v@.len() as int, orig.len() as int).reverse(),
        decreases v.len(),
    {
        let x = v.pop().unwrap();
        r.push(x);
        assert(r@ =~= orig.subrange(v@.len() as int, orig.len() as int).reverse());
        assert(v@ =~= orig.subrange(0, v@.len() as int));
    }
    assert(orig.subrange(0, orig.len() as int) =~= orig);
    r
}

impl NlpPipeline {
    /// The largest frequency among `forms`.
    pub fn max_form_frequency(&self, forms: &Vec<Vec<char>>) -> (r: u32)
        ensures
            r == max_frequency(self.dictionary(), views(forms@)),
    {
        let mut m: u32 = 0;
        let mut i: usize = 0;
        assert(views(forms@).subrange(0, 0) =~= Seq::<Seq<char>>::empty());
        while i < forms.len()
            invariant
                i <= forms.len(),
                m == max_frequency(self.dictionary(), views(forms@).subrange(0, i as int)),
            decreases forms.len() - i,
        {
            let f = self.frequency(&forms[i]);
            assert(views(forms@).subrange(0, i + 1).drop_last() =~= views(forms@).subrange(
                0,
                i as int,
            ));
            assert(views(forms@).subrange(0, i + 1).last() == forms@[i as int]@);
            if f > m {
                m = f;
            }
            i = i + 1;
        }
        assert(views(forms@).subrange(0, i as int) =~= views(forms@));
        m
    }

    /// The representative frequency of a stem group.
    pub fn group_frequency_of(&self, g: &StemGroup) -> (r: u32)
        ensures
            r == group_frequency(self.dictionary(), *g),
    {
        let s = self.frequency(&g.stem);
        if s == 0 {
            self.max_form_frequency(&g.surface_forms)
        } else {
            s
        }
    }

    /// Whether some surface form is malformed.
    pub fn has_malformed_form(&self, forms: &Vec<Vec<char>>) -> (r: bool)
        requires
            self.wf(),
        ensures
            r == any_malformed(self.dictionary(), self.segmenter(), views(forms@)),
    {
        let mut i: usize = 0;
        while i < forms.len()
            invariant
                i <= forms.len(),
                self.wf(),
                forall|j: int|
                    0 <= j < i ==> !malformed(
                        self.dictionary(),
                        self.segmenter(),
                        #[trigger] views(forms@)[j],
                    ),
            decreases forms.len() - i,
        {
            assert(views(forms@)[i as int] == forms@[i as int]@);
            if self.is_malformed_word(&forms[i]) {
                return true;
            }
            i = i + 1;
        }
        false
    }

    /// Whether a stem group is a rare, well-formed dictionary word.
    pub fn survives_filter(&self, g: &StemGroup, threshold: u32) -> (r: bool)
        requires
            self.wf(),
        ensures
            r == survives(self.dictionary(), self.segmenter(), *g, threshold),
    {
        if self.has_malformed_form(&g.surface_forms) {
            return false;
        }
        let f = self.group_frequency_of(g);
        is_positive(f) && threshold <= 0x7f80_0000 && f <= threshold
    }

    /// The stem groups that are rare, known and well-formed words, in order.
    pub fn select_candidates(&self, groups: Vec<StemGroup>, threshold: u32) -> (r: Vec<StemGroup>)
        requires
            self.wf(),
            groups_wf(groups@),
        ensures
            r@ == survivors(self.dictionary(), self.segmenter(), groups@, threshold),
            groups_wf(r@),
    {
        let ghost gs = groups@;
        let ghost wf = self.dictionary();
        let ghost seg = self.segmenter();
        let mut rest = into_reversed(groups);
        let mut out: Vec<StemGroup> = Vec::new();
        proof {
            assert(rest@.reverse() =~= gs);
            assert(gs.subrange(0, 0) =~= Seq::<StemGroup>::empty());
        }
        while rest.len() > 0
            invariant
                self.wf(),
                wf == self.dictionary(),
                seg == self.segmenter(),
                rest@.len() <= gs.len(),
                rest@.reverse() == gs.subrange(gs.len() - rest@.len(), gs.len() as int),
                out@ + survivors(wf, seg, rest@.reverse(), threshold) == survivors(
                    wf,
                    seg,
                    gs,
                    threshold,
                ),
            decreases rest.len(),
        {
            let ghost tail = rest@.reverse();
            let g = rest.pop().unwrap();
            proof {
                assert(tail[0] == g);
                assert(tail.drop_first() =~= rest@.reverse());
            }
            let ghost before = out@;
            if self.survives_filter(&g, threshold) {
                out.push(g);
                assert(out@ + survivors(wf, seg, rest@.reverse(), threshold) =~= before + (seq![g]
                    + survivors(wf, seg, rest@.reverse(), threshold)));
            }
            proof {
                assert(rest@.reverse() =~= gs.subrange(gs.len() - rest@.len(), gs.len() as int));
            }
        }
        proof {
            assert(rest@.reverse() =~= Seq::<StemGroup>::empty());
            assert(out@ =~= out@ + Seq::<StemGroup>::empty());
            lemma_survivors_wf(wf, seg, gs, threshold);
        }
        out
    }
}

pub proof fn lemma_survivors_wf(wf: WordFreq, seg: Option<Segmenter>, gs: Seq<StemGroup>, threshold: u32)
    requires
        groups_wf(gs),
    ensures
        groups_wf(survivors(wf, seg, gs, threshold)),
        forall|g: StemGroup| #[trigger] survivors(wf, seg, gs, threshold).contains(g) ==> gs.contains(g),
    decreases gs.len(),
{
    if gs.len() > 0 {
        let t = gs.drop_first();
        assert(groups_wf(t)) by {
            assert forall|a: int, b: int|
                0 <= a < t.len() && 0 <= b < t.len() && a != b implies (#[trigger] t[a]).stem@ != (
                #[trigger] t[b]).stem@ by {
                assert(t[a] == gs[a + 1] && t[b] == gs[b + 1]);
            }
            assert forall|k: int| 0 <= k < t.len() implies (#[trigger] t[k]).wf() by {
                assert(t[k] == gs[k + 1]);
            }
        }
        lemma_survivors_wf(wf, seg, t, threshold);
        let rest = survivors(wf, seg, t, threshold);
        assert forall|g: StemGroup| #[trigger] survivors(wf, seg, gs, threshold).contains(g) implies gs.contains(g) by {
            let s = survivors(wf, seg, gs, threshold);
            let i = choose|i: int| 0 <= i < s.len() && s[i] == g;
            if survives(wf, seg, gs[0], threshold) && i == 0 {
                assert(gs[0] == g);
            } else {
                if survives(wf, seg, gs[0], threshold) {
                    assert(rest[i - 1] == g);
                } else {
                    assert(rest[i] == g);
                }
                assert(rest.contains(g));
                let j = choose|j: int| 0 <= j < t.len() && t[j] == g;
                assert(gs[j + 1] == g);
            }
        }
        if survives(wf, seg, gs[0], threshold) {
            let s = seq![gs[0]] + rest;
            assert forall|a: int, b: int|
                0 <= a < s.len() && 0 <= b < s.len() && a != b implies (#[trigger] s[a]).stem@ != (
                #[trigger] s[b]).stem@ by {
                if a == 0 && b > 0 {
                    assert(rest.contains(s[b]));
                    assert(rest[b - 1] == s[b]);
                    let j = choose|j: int| 0 <= j < t.len() && t[j] == s[b];
                    assert(gs[j + 1] == s[b]);
                } else if b == 0 && a > 0 {
                    assert(rest[a - 1] == s[a]);
                    assert(rest.contains(s[a]));
                    let j = choose|j: int| 0 <= j < t.len() && t[j] == s[a];
                    assert(gs[j + 1] == s[a]);
                } else if a > 0 && b > 0 {
                    assert(rest[a - 1] == s[a] && rest[b - 1] == s[b]);
                }
            }
            assert forall|k: int| 0 <= k < s.len() implies (#[trigger] s[k]).wf() by {
                if k > 0 {
                    assert(rest[k - 1] == s[k]);
                }
            }
        }
    }
}

/// Rejecting glued words never drops a real rare word: a group whose
/// surface forms are each shorter than ten characters, or a dictionary word
/// without an apostrophe, survives exactly when its frequency is rare enough.
pub proof fn lemma_real_words_survive(wf: WordFreq, seg: Option<Segmenter>, g: StemGroup, threshold: u32)
    requires
        forall|i: int|
            0 <= i < g.surface_forms@.len() ==> (#[trigger] g.surface_forms@[i])@.len() < 10 || (
            crate::malformed::in_dictionary(wf, g.surface_forms@[i]@) && !g.surface_forms@[i]@.contains('\'')),
    ensures
        survives(wf, seg, g, threshold) == rare_enough(group_frequency(wf, g), threshold),
{
    let forms = views(g.surface_forms@);
    assert forall|i: int| 0 <= i < forms.len() implies !malformed(wf, seg, #[trigger] forms[i]) by {
        assert(forms[i] == g.surface_forms@[i]@);
        if forms[i].len() >= 10 {
            crate::malformed::lemma_dictionary_words_not_malformed(wf, seg, forms[i]);
        }
    }
}

} // verus!
