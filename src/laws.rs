//! What holds of whole analysis runs: the range of the reported
//! frequencies, repeatability, and what raising the threshold does.
use crate::analysis::{candidates_of, finished, not_entities, text_groups};
use crate::candidates::{groups_wf, model, models, sentence_covered, StemGroup};
use crate::entities::names_entity;
use crate::filter::{max_frequency, rare_enough, survivors, survives};
use crate::lexicon::{dictionary_frequency, positive, Segmenter};
use crate::ranking::{best_known, ranked, score_of, score_slot, scored, strs, HardWord};
use crate::text::{sentences_of, views};
use vstd::prelude::*;
use wordfreq::WordFreq;

verus! {

proof fn lemma_best_known_none(wf: WordFreq, forms: Seq<Seq<char>>)
    requires
        best_known(wf, forms) is None,
    ensures
        forall|i: int| 0 <= i < forms.len() ==> !positive(dictionary_frequency(wf, #[trigger] forms[i])),
    decreases forms.len(),
{
    if forms.len() > 0 {
        let b = best_known(wf, forms.drop_last());
        if b is Some {
            assert(best_known(wf, forms) is Some);
        }
        lemma_best_known_none(wf, forms.drop_last());
        assert forall|i: int| 0 <= i < forms.len() implies !positive(
            dictionary_frequency(wf, #[trigger] forms[i]),
        ) by {
            if i < forms.len() - 1 {
                assert(forms.drop_last()[i] == forms[i]);
            }
        }
    }
}

proof fn lemma_max_frequency_is_a_form(wf: WordFreq, forms: Seq<Seq<char>>)
    ensures
        max_frequency(wf, forms) == 0 || exists|i: int|
            0 <= i < forms.len() && max_frequency(wf, forms) == dictionary_frequency(wf, #[trigger] forms[i]),
    decreases forms.len(),
{
    if forms.len() > 0 {
        lemma_max_frequency_is_a_form(wf, forms.drop_last());
        let m = max_frequency(wf, forms.drop_last());
        if m != 0 && max_frequency(wf, forms) == m {
            let i = choose|i: int|
                0 <= i < forms.drop_last().len() && m == dictionary_frequency(wf, #[trigger] forms.drop_last()[i]);
            assert(forms[i] == forms.drop_last()[i]);
        }
        if max_frequency(wf, forms) != m {
            assert(max_frequency(wf, forms) == dictionary_frequency(wf, forms[forms.len() - 1]));
        }
    }
}

/// The frequency reported for a candidate is above zero, and it is within
/// the threshold where no surface form of the candidate is more frequent
/// than the threshold.
pub proof fn lemma_score_in_range(wf: WordFreq, seg: Option<Segmenter>, g: StemGroup, threshold: u32)
    requires
        survives(wf, seg, g, threshold),
    ensures
        positive(score_of(wf, g)),
        (forall|i: int|
            0 <= i < g.surface_forms@.len() ==> dictionary_frequency(wf, (#[trigger] g.surface_forms@[i])@)
                <= threshold) ==> rare_enough(score_of(wf, g), threshold),
{
    let forms = views(g.surface_forms@);
    crate::ranking::lemma_best_known_range(wf, forms);
    match best_known(wf, forms) {
        Some(i) => {
            assert(forms[i] == g.surface_forms@[i]@);
        },
        None => {
            lemma_best_known_none(wf, forms);
            lemma_max_frequency_is_a_form(wf, forms);
            if dictionary_frequency(wf, g.stem@) == 0 {
                let m = max_frequency(wf, forms);
                assert(positive(m));
                let i = choose|i: int| 0 <= i < forms.len() && m == dictionary_frequency(wf, #[trigger] forms[i]);
                assert(!positive(dictionary_frequency(wf, forms[i])));
            }
        },
    }
}

proof fn lemma_survivors_survive(wf: WordFreq, seg: Option<Segmenter>, gs: Seq<StemGroup>, threshold: u32)
    ensures
        forall|g: StemGroup| #[trigger] survivors(wf, seg, gs, threshold).contains(g) ==> survives(wf, seg, g, threshold),
    decreases gs.len(),
{
    if gs.len() > 0 {
        lemma_survivors_survive(wf, seg, gs.drop_first(), threshold);
        let rest = survivors(wf, seg, gs.drop_first(), threshold);
        assert forall|g: StemGroup| #[trigger] survivors(wf, seg, gs, threshold).contains(g) implies survives(
            wf,
            seg,
            g,
            threshold,
        ) by {
            let s = survivors(wf, seg, gs, threshold);
            let i = choose|i: int| 0 <= i < s.len() && s[i] == g;
            if survives(wf, seg, gs[0], threshold) {
                if i > 0 {
                    assert(rest[i - 1] == g);
                    assert(rest.contains(g));
                }
            } else {
                assert(rest[i] == g);
                assert(rest.contains(g));
            }
        }
    }
}

proof fn lemma_not_entities_within(index: Set<Seq<char>>, cs: Seq<StemGroup>)
    ensures
        forall|g: StemGroup| #[trigger] not_entities(index, cs).contains(g) ==> cs.contains(g),
    decreases cs.len(),
{
    if cs.len() > 0 {
        lemma_not_entities_within(index, cs.drop_last());
        let k = not_entities(index, cs.drop_last());
        assert forall|g: StemGroup| #[trigger] not_entities(index, cs).contains(g) implies cs.contains(g) by {
            let n = not_entities(index, cs);
            let i = choose|i: int| 0 <= i < n.len() && n[i] == g;
            if i < k.len() {
                assert(k[i] == g);
                assert(k.contains(g));
                let j = choose|j: int| 0 <= j < cs.drop_last().len() && cs.drop_last()[j] == g;
                assert(cs[j] == g);
            } else {
                assert(cs[cs.len() - 1] == g);
            }
        }
    }
}

/// Every result of a run has a frequency above zero; where no surface form
/// of any candidate is more frequent than the threshold, every result's
/// frequency is within the threshold too.
pub proof fn lemma_results_in_range(
    wf: WordFreq,
    seg: Option<Segmenter>,
    text: Seq<char>,
    threshold: u32,
    index: Set<Seq<char>>,
    cs: Seq<StemGroup>,
    words: Seq<HardWord>,
)
    requires
        candidates_of(wf, seg, text, threshold, cs),
        finished(wf, index, cs, words),
    ensures
        forall|i: int| 0 <= i < words.len() ==> positive((#[trigger] words[i]).frequency_score),
        (forall|k: int, i: int|
            0 <= k < cs.len() && 0 <= i < cs[k].surface_forms@.len() ==> dictionary_frequency(wf, (
            #[trigger] cs[k].surface_forms@[i])@) <= threshold) ==> forall|i: int|
            0 <= i < words.len() ==> rare_enough((#[trigger] words[i]).frequency_score, threshold),
{
    let gs = choose|gs: Seq<StemGroup>|
        groups_wf(gs) && models(gs) == text_groups(text) && (forall|i: int|
            0 <= i < sentences_of(text).len() ==> sentence_covered(gs, #[trigger] sentences_of(text)[i]))
            && cs == survivors(wf, seg, gs, threshold);
    let kept = not_entities(index, cs);
    let s = choose|s: Seq<HardWord>|
        s.len() == kept.len() && (forall|i: int| 0 <= i < s.len() ==> scored(wf, kept[i], #[trigger] s[i]))
            && words == ranked(s);
    crate::ranking::lemma_ranked_contents(s);
    lemma_survivors_survive(wf, seg, gs, threshold);
    lemma_not_entities_within(index, cs);
    assert forall|i: int| 0 <= i < words.len() implies positive((#[trigger] words[i]).frequency_score)
        && ((forall|k: int, m: int|
        0 <= k < cs.len() && 0 <= m < cs[k].surface_forms@.len() ==> dictionary_frequency(wf, (
        #[trigger] cs[k].surface_forms@[m])@) <= threshold) ==> rare_enough(words[i].frequency_score, threshold)) by {
        assert(ranked(s).contains(words[i]));
        let j = choose|j: int| 0 <= j < s.len() && s[j] == words[i];
        assert(scored(wf, kept[j], s[j]));
        assert(kept.contains(kept[j]));
        assert(cs.contains(kept[j]));
        let k = choose|k: int| 0 <= k < cs.len() && cs[k] == kept[j];
        assert(survivors(wf, seg, gs, threshold).contains(kept[j]));
        lemma_score_in_range(wf, seg, kept[j], threshold);
    }
}

/// Two results that hold the same text and numbers.
pub open spec fn same_result(a: HardWord, b: HardWord) -> bool {
    &&& a.word@ == b.word@
    &&& a.frequency_score == b.frequency_score
    &&& strs(a.contexts@) == strs(b.contexts@)
    &&& a.count == b.count
    &&& strs(a.variants@) == strs(b.variants@)
}

pub open spec fn same_results(a: Seq<HardWord>, b: Seq<HardWord>) -> bool {
    a.len() == b.len() && forall|i: int| 0 <= i < a.len() ==> same_result(#[trigger] a[i], b[i])
}

proof fn lemma_slot_same(t1: Seq<HardWord>, t2: Seq<HardWord>, score: u32)
    requires
        same_results(t1, t2),
    ensures
        score_slot(t1, score) == score_slot(t2, score),
    decreases t1.len(),
{
    if t1.len() > 0 {
        assert(same_result(t1[0], t2[0]));
        assert forall|i: int| 0 <= i < t1.drop_first().len() implies same_result(
            #[trigger] t1.drop_first()[i],
            t2.drop_first()[i],
        ) by {
            assert(same_result(t1[i + 1], t2[i + 1]));
        }
        lemma_slot_same(t1.drop_first(), t2.drop_first(), score);
    }
}

proof fn lemma_slot_range(t: Seq<HardWord>, score: u32)
    ensures
        0 <= score_slot(t, score) <= t.len(),
    decreases t.len(),
{
    if t.len() > 0 {
        lemma_slot_range(t.drop_first(), score);
    }
}

proof fn lemma_ranked_same(s1: Seq<HardWord>, s2: Seq<HardWord>)
    requires
        same_results(s1, s2),
    ensures
        same_results(ranked(s1), ranked(s2)),
    decreases s1.len(),
{
    if s1.len() > 0 {
        assert forall|i: int| 0 <= i < s1.drop_last().len() implies same_result(
            #[trigger] s1.drop_last()[i],
            s2.drop_last()[i],
        ) by {
            assert(same_result(s1[i], s2[i]));
        }
        lemma_ranked_same(s1.drop_last(), s2.drop_last());
        let t1 = ranked(s1.drop_last());
        let t2 = ranked(s2.drop_last());
        let x1 = s1.last();
        let x2 = s2.last();
        assert(same_result(s1[s1.len() - 1], s2[s1.len() - 1]));
        lemma_slot_same(t1, t2, x1.frequency_score);
        let p = score_slot(t1, x1.frequency_score);
        lemma_slot_range(t1, x1.frequency_score);
        t1.insert_ensures(p, x1);
        t2.insert_ensures(p, x2);
        let r1 = ranked(s1);
        let r2 = ranked(s2);
        assert forall|i: int| 0 <= i < r1.len() implies same_result(#[trigger] r1[i], r2[i]) by {
            if i < p {
                assert(same_result(t1[i], t2[i]));
            } else if i > p {
                assert(same_result(t1[i - 1], t2[i - 1]));
            }
        }
    }
}

proof fn lemma_survivors_models(
    wf: WordFreq,
    seg: Option<Segmenter>,
    a: Seq<StemGroup>,
    b: Seq<StemGroup>,
    threshold: u32,
)
    requires
        models(a) == models(b),
    ensures
        models(survivors(wf, seg, a, threshold)) == models(survivors(wf, seg, b, threshold)),
    decreases a.len(),
{
    assert(a.len() == models(a).len() && b.len() == models(b).len());
    if a.len() > 0 {
        assert(models(a.drop_first()) =~= models(a).drop_first());
        assert(models(b.drop_first()) =~= models(b).drop_first());
        lemma_survivors_models(wf, seg, a.drop_first(), b.drop_first(), threshold);
        assert(models(a)[0] == models(b)[0]);
        assert(model(a[0]) == model(b[0]));
        let ra = survivors(wf, seg, a.drop_first(), threshold);
        let rb = survivors(wf, seg, b.drop_first(), threshold);
        if survives(wf, seg, a[0], threshold) {
            assert(models(seq![a[0]] + ra) =~= seq![model(a[0])] + models(ra));
            assert(models(seq![b[0]] + rb) =~= seq![model(b[0])] + models(rb));
        }
    }
}

proof fn lemma_names_entity_model(index: Set<Seq<char>>, g1: StemGroup, g2: StemGroup)
    requires
        model(g1) == model(g2),
    ensures
        names_entity(index, g1) == names_entity(index, g2),
{
    assert(views(g1.surface_forms@) == views(g2.surface_forms@));
    assert(g1.surface_forms@.len() == g2.surface_forms@.len()) by {
        assert(views(g1.surface_forms@).len() == g1.surface_forms@.len());
        assert(views(g2.surface_forms@).len() == g2.surface_forms@.len());
    }
    if exists|i: int| 0 <= i < g1.surface_forms@.len() && index.contains(#[trigger] g1.surface_forms@[i]@) {
        let i = choose|i: int| 0 <= i < g1.surface_forms@.len() && index.contains(#[trigger] g1.surface_forms@[i]@);
        assert(views(g1.surface_forms@)[i] == g1.surface_forms@[i]@);
        assert(views(g2.surface_forms@)[i] == g2.surface_forms@[i]@);
        assert(index.contains(g2.surface_forms@[i]@));
    }
    if exists|i: int| 0 <= i < g2.surface_forms@.len() && index.contains(#[trigger] g2.surface_forms@[i]@) {
        let i = choose|i: int| 0 <= i < g2.surface_forms@.len() && index.contains(#[trigger] g2.surface_forms@[i]@);
        assert(views(g1.surface_forms@)[i] == g1.surface_forms@[i]@);
        assert(views(g2.surface_forms@)[i] == g2.surface_forms@[i]@);
        assert(index.contains(g1.surface_forms@[i]@));
    }
}

proof fn lemma_not_entities_models(index: Set<Seq<char>>, a: Seq<StemGroup>, b: Seq<StemGroup>)
    requires
        models(a) == models(b),
    ensures
        models(not_entities(index, a)) == models(not_entities(index, b)),
    decreases a.len(),
{
    assert(a.len() == models(a).len() && b.len() == models(b).len());
    if a.len() > 0 {
        assert(models(a.drop_last()) =~= models(a).drop_last());
        assert(models(b.drop_last()) =~= models(b).drop_last());
        lemma_not_entities_models(index, a.drop_last(), b.drop_last());
        assert(models(a)[a.len() - 1] == models(b)[a.len() - 1]);
        lemma_names_entity_model(index, a.last(), b.last());
        let ka = not_entities(index, a.drop_last());
        let kb = not_entities(index, b.drop_last());
        assert(models(ka.push(a.last())) =~= models(ka).push(model(a.last())));
        assert(models(kb.push(b.last())) =~= models(kb).push(model(b.last())));
    }
}

/// Finishing runs whose candidates hold the same stems, forms, counts and
/// contexts, with the same entity names, gives the same words, scores,
/// contexts, counts and variants, in the same order.
pub proof fn lemma_finish_repeatable(
    wf: WordFreq,
    index: Set<Seq<char>>,
    cs1: Seq<StemGroup>,
    cs2: Seq<StemGroup>,
    first: Seq<HardWord>,
    second: Seq<HardWord>,
)
    requires
        models(cs1) == models(cs2),
        finished(wf, index, cs1, first),
        finished(wf, index, cs2, second),
    ensures
        same_results(first, second),
{
    let kept1 = not_entities(index, cs1);
    let kept2 = not_entities(index, cs2);
    lemma_not_entities_models(index, cs1, cs2);
    assert(kept1.len() == models(kept1).len() && kept2.len() == models(kept2).len());
    let s1 = choose|s: Seq<HardWord>|
        s.len() == kept1.len() && (forall|i: int| 0 <= i < s.len() ==> scored(wf, kept1[i], #[trigger] s[i]))
            && first == ranked(s);
    let s2 = choose|s: Seq<HardWord>|
        s.len() == kept2.len() && (forall|i: int| 0 <= i < s.len() ==> scored(wf, kept2[i], #[trigger] s[i]))
            && second == ranked(s);
    assert forall|i: int| 0 <= i < s1.len() implies same_result(#[trigger] s1[i], s2[i]) by {
        assert(scored(wf, kept1[i], s1[i]));
        assert(scored(wf, kept2[i], s2[i]));
        assert(models(kept1)[i] == models(kept2)[i]);
        assert(model(kept1[i]) == model(kept2[i]));
    }
    lemma_ranked_same(s1, s2);
}

/// Two runs on the same text, with the same threshold, dictionaries and
/// entity names, give the same words, scores, contexts, counts and variants,
/// in the same order.
pub proof fn lemma_runs_repeatable(
    wf: WordFreq,
    seg: Option<Segmenter>,
    text: Seq<char>,
    threshold: u32,
    index: Set<Seq<char>>,
    cs1: Seq<StemGroup>,
    cs2: Seq<StemGroup>,
    first: Seq<HardWord>,
    second: Seq<HardWord>,
)
    requires
        candidates_of(wf, seg, text, threshold, cs1),
        candidates_of(wf, seg, text, threshold, cs2),
        finished(wf, index, cs1, first),
        finished(wf, index, cs2, second),
    ensures
        same_results(first, second),
{
    let g1 = choose|gs: Seq<StemGroup>|
        groups_wf(gs) && models(gs) == text_groups(text) && (forall|i: int|
            0 <= i < sentences_of(text).len() ==> sentence_covered(gs, #[trigger] sentences_of(text)[i]))
            && cs1 == survivors(wf, seg, gs, threshold);
    let g2 = choose|gs: Seq<StemGroup>|
        groups_wf(gs) && models(gs) == text_groups(text) && (forall|i: int|
            0 <= i < sentences_of(text).len() ==> sentence_covered(gs, #[trigger] sentences_of(text)[i]))
            && cs2 == survivors(wf, seg, gs, threshold);
    lemma_survivors_models(wf, seg, g1, g2, threshold);
    lemma_finish_repeatable(wf, index, cs1, cs2, first, second);
}

proof fn lemma_not_entities_cons(index: Set<Seq<char>>, x: StemGroup, rest: Seq<StemGroup>)
    ensures
        not_entities(index, seq![x] + rest) == (if names_entity(index, x) {
            Seq::<StemGroup>::empty()
        } else {
            seq![x]
        }) + not_entities(index, rest),
    decreases rest.len(),
{
    let head = if names_entity(index, x) {
        Seq::<StemGroup>::empty()
    } else {
        seq![x]
    };
    if rest.len() == 0 {
        assert(seq![x] + rest =~= seq![x]);
        assert(seq![x].drop_last() =~= Seq::<StemGroup>::empty());
        assert(seq![x].last() == x);
        assert(Seq::<StemGroup>::empty().push(x) =~= seq![x]);
        assert(head + Seq::<StemGroup>::empty() =~= head);
        assert(not_entities(index, Seq::<StemGroup>::empty()) == Seq::<StemGroup>::empty());
        assert(not_entities(index, seq![x]) =~= head);
    } else {
        lemma_not_entities_cons(index, x, rest.drop_last());
        assert((seq![x] + rest).drop_last() =~= seq![x] + rest.drop_last());
        assert((seq![x] + rest).last() == rest.last());
        let k = not_entities(index, rest.drop_last());
        assert((head + k).push(rest.last()) =~= head + k.push(rest.last()));
        assert(not_entities(index, seq![x] + rest) =~= head + not_entities(index, rest));
    }
}

proof fn lemma_kept_monotone(
    wf: WordFreq,
    seg: Option<Segmenter>,
    gs: Seq<StemGroup>,
    index: Set<Seq<char>>,
    low: u32,
    high: u32,
)
    requires
        low <= high <= 0x7f80_0000,
    ensures
        not_entities(index, survivors(wf, seg, gs, low)).len() <= not_entities(
            index,
            survivors(wf, seg, gs, high),
        ).len(),
    decreases gs.len(),
{
    if gs.len() > 0 {
        lemma_kept_monotone(wf, seg, gs.drop_first(), index, low, high);
        let rl = survivors(wf, seg, gs.drop_first(), low);
        let rh = survivors(wf, seg, gs.drop_first(), high);
        lemma_not_entities_cons(index, gs[0], rl);
        lemma_not_entities_cons(index, gs[0], rh);
    }
}

/// Raising the rarity threshold, all else equal (the same text,
/// dictionaries and entity names), never gives fewer results.
pub proof fn lemma_results_monotone(
    wf: WordFreq,
    seg: Option<Segmenter>,
    text: Seq<char>,
    index: Set<Seq<char>>,
    low: u32,
    high: u32,
    cs_low: Seq<StemGroup>,
    cs_high: Seq<StemGroup>,
    words_low: Seq<HardWord>,
    words_high: Seq<HardWord>,
)
    requires
        low <= high <= 0x7f80_0000,
        candidates_of(wf, seg, text, low, cs_low),
        candidates_of(wf, seg, text, high, cs_high),
        finished(wf, index, cs_low, words_low),
        finished(wf, index, cs_high, words_high),
    ensures
        words_low.len() <= words_high.len(),
{
    let g1 = choose|gs: Seq<StemGroup>|
        groups_wf(gs) && models(gs) == text_groups(text) && (forall|i: int|
            0 <= i < sentences_of(text).len() ==> sentence_covered(gs, #[trigger] sentences_of(text)[i]))
            && cs_low == survivors(wf, seg, gs, low);
    let g2 = choose|gs: Seq<StemGroup>|
        groups_wf(gs) && models(gs) == text_groups(text) && (forall|i: int|
            0 <= i < sentences_of(text).len() ==> sentence_covered(gs, #[trigger] sentences_of(text)[i]))
            && cs_high == survivors(wf, seg, gs, high);
    lemma_survivors_models(wf, seg, g1, g2, low);
    let other = survivors(wf, seg, g2, low);
    lemma_not_entities_models(index, cs_low, other);
    assert(not_entities(index, cs_low).len() == models(not_entities(index, cs_low)).len());
    assert(not_entities(index, other).len() == models(not_entities(index, other)).len());
    lemma_kept_monotone(wf, seg, g2, index, low, high);
    let k1 = not_entities(index, cs_low);
    let s1 = choose|s: Seq<HardWord>|
        s.len() == k1.len() && (forall|i: int| 0 <= i < s.len() ==> scored(wf, k1[i], #[trigger] s[i]))
            && words_low == ranked(s);
    let k2 = not_entities(index, cs_high);
    let s2 = choose|s: Seq<HardWord>|
        s.len() == k2.len() && (forall|i: int| 0 <= i < s.len() ==> scored(wf, k2[i], #[trigger] s[i]))
            && words_high == ranked(s);
    crate::ranking::lemma_ranked_contents(s1);
    crate::ranking::lemma_ranked_contents(s2);
}

/// Some result of `ws` holds the same text and numbers as `w`.
pub open spec fn has_same(ws: Seq<HardWord>, w: HardWord) -> bool {
    exists|j: int| 0 <= j < ws.len() && same_result(w, #[trigger] ws[j])
}

proof fn lemma_not_entities_keeps(index: Set<Seq<char>>, cs: Seq<StemGroup>, g: StemGroup)
    requires
        cs.contains(g),
        !names_entity(index, g),
    ensures
        not_entities(index, cs).contains(g),
    decreases cs.len(),
{
    let k = not_entities(index, cs.drop_last());
    if cs.last() == g {
        assert(not_entities(index, cs) == k.push(g));
        assert(k.push(g)[k.len() as int] == g);
    } else {
        let j = choose|j: int| 0 <= j < cs.len() && cs[j] == g;
        assert(cs.drop_last()[j] == g);
        lemma_not_entities_keeps(index, cs.drop_last(), g);
        let m = choose|m: int| 0 <= m < k.len() && k[m] == g;
        if !names_entity(index, cs.last()) {
            assert(k.push(cs.last())[m] == g);
        }
    }
}

proof fn lemma_not_entities_names(index: Set<Seq<char>>, cs: Seq<StemGroup>)
    ensures
        forall|g: StemGroup| #[trigger] not_entities(index, cs).contains(g) ==> !names_entity(index, g),
    decreases cs.len(),
{
    if cs.len() > 0 {
        lemma_not_entities_names(index, cs.drop_last());
        let k = not_entities(index, cs.drop_last());
        assert forall|g: StemGroup| #[trigger] not_entities(index, cs).contains(g) implies !names_entity(index, g) by {
            let n = not_entities(index, cs);
            let i = choose|i: int| 0 <= i < n.len() && n[i] == g;
            if i < k.len() {
                assert(k[i] == g);
                assert(k.contains(g));
            }
        }
    }
}

/// Raising the rarity threshold, all else equal (the same text,
/// dictionaries and entity names), keeps every result: each result at the
/// lower threshold is among the results at the higher one, with the same
/// word, score, contexts, count and variants.
pub proof fn lemma_results_superset(
    wf: WordFreq,
    seg: Option<Segmenter>,
    text: Seq<char>,
    index: Set<Seq<char>>,
    low: u32,
    high: u32,
    cs_low: Seq<StemGroup>,
    cs_high: Seq<StemGroup>,
    words_low: Seq<HardWord>,
    words_high: Seq<HardWord>,
)
    requires
        low <= high <= 0x7f80_0000,
        candidates_of(wf, seg, text, low, cs_low),
        candidates_of(wf, seg, text, high, cs_high),
        finished(wf, index, cs_low, words_low),
        finished(wf, index, cs_high, words_high),
    ensures
        forall|i: int| 0 <= i < words_low.len() ==> has_same(words_high, #[trigger] words_low[i]),
{
    let g1 = choose|gs: Seq<StemGroup>|
        groups_wf(gs) && models(gs) == text_groups(text) && (forall|i: int|
            0 <= i < sentences_of(text).len() ==> sentence_covered(gs, #[trigger] sentences_of(text)[i]))
            && cs_low == survivors(wf, seg, gs, low);
    let g2 = choose|gs: Seq<StemGroup>|
        groups_wf(gs) && models(gs) == text_groups(text) && (forall|i: int|
            0 <= i < sentences_of(text).len() ==> sentence_covered(gs, #[trigger] sentences_of(text)[i]))
            && cs_high == survivors(wf, seg, gs, high);
    let other = survivors(wf, seg, g2, low);
    lemma_survivors_models(wf, seg, g1, g2, low);
    crate::filter::lemma_threshold_monotone(wf, seg, g2, low, high);
    let k1 = not_entities(index, cs_low);
    let k2 = not_entities(index, cs_high);
    let s1 = choose|s: Seq<HardWord>|
        s.len() == k1.len() && (forall|i: int| 0 <= i < s.len() ==> scored(wf, k1[i], #[trigger] s[i]))
            && words_low == ranked(s);
    let s2 = choose|s: Seq<HardWord>|
        s.len() == k2.len() && (forall|i: int| 0 <= i < s.len() ==> scored(wf, k2[i], #[trigger] s[i]))
            && words_high == ranked(s);
    crate::ranking::lemma_ranked_contents(s1);
    crate::ranking::lemma_ranked_keeps(s2);
    lemma_not_entities_within(index, cs_low);
    lemma_not_entities_names(index, cs_low);
    assert(cs_low.len() == models(cs_low).len() && other.len() == models(other).len());
    assert forall|i: int| 0 <= i < words_low.len() implies has_same(words_high, #[trigger] words_low[i]) by {
        assert(ranked(s1).contains(words_low[i]));
        let a = choose|a: int| 0 <= a < s1.len() && s1[a] == words_low[i];
        let g = k1[a];
        assert(scored(wf, g, s1[a]));
        assert(k1.contains(g));
        assert(cs_low.contains(g));
        assert(!names_entity(index, g));
        let p = choose|p: int| 0 <= p < cs_low.len() && cs_low[p] == g;
        let h = other[p];
        assert(models(cs_low)[p] == models(other)[p]);
        assert(model(g) == model(h));
        assert(other.contains(h));
        assert(cs_high.contains(h));
        lemma_names_entity_model(index, g, h);
        lemma_not_entities_keeps(index, cs_high, h);
        let q = choose|q: int| 0 <= q < k2.len() && k2[q] == h;
        assert(scored(wf, h, s2[q]));
        assert(same_result(s1[a], s2[q]));
        assert(s2.contains(s2[q]));
        assert(ranked(s2).contains(s2[q]));
        let j = choose|j: int| 0 <= j < words_high.len() && words_high[j] == s2[q];
        assert(same_result(words_low[i], words_high[j]));
    }
}

} // verus!
