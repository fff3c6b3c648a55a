//! The scorer and ranker: display form, cleaned contexts, sorted variants,
//! and the rarest-first order of the results.
use crate::candidates::{valid_form, StemGroup};
use crate::lexicon::{dictionary_frequency, is_positive, positive, string_of};
use crate::pipeline::NlpPipeline;
use crate::text::{clean_context, cleaned, copy_range, views};
use vstd::prelude::*;
use wordfreq::WordFreq;

verus! {

/// One hard word found in the text.
pub struct HardWord {
    /// The surface form shown for the word.
    pub word: String,
    /// Its dictionary frequency, as the bit pattern of an `f32`.
    pub frequency_score: u32,
    /// The sentences it was seen in, cleaned for display.
    pub contexts: Vec<String>,
    pub count: usize,
    /// The other surface forms, sorted.
    pub variants: Vec<String>,
}

/// The character sequences that a list of strings holds.
pub open spec fn strs(v: Seq<String>) -> Seq<Seq<char>> {
    v.map_values(|s: String| s@)
}

/// Lexicographic order by code point, the order of `String`'s `Ord`.
pub open spec fn lex_le(a: Seq<char>, b: Seq<char>) -> bool
    decreases a.len(),
{
    if a.len() == 0 {
        true
    } else if b.len() == 0 {
        false
    } else if (a[0] as u32) < (b[0] as u32) {
        true
    } else if (a[0] as u32) == (b[0] as u32) {
        lex_le(a.drop_first(), b.drop_first())
    } else {
        false
    }
}

pub proof fn lemma_lex_total(a: Seq<char>, b: Seq<char>)
    ensures
        lex_le(a, b) || lex_le(b, a),
    decreases a.len(),
{
    if a.len() > 0 && b.len() > 0 && (a[0] as u32) == (b[0] as u32) {
        lemma_lex_total(a.drop_first(), b.drop_first());
    }
}

/// The first place in `s` whose element is not `<=` `x`: where `x` goes.
pub open spec fn lex_slot(s: Seq<Seq<char>>, x: Seq<char>) -> int
    decreases s.len(),
{
    if s.len() == 0 {
        0
    } else if !lex_le(s[0], x) {
        0
    } else {
        1 + lex_slot(s.drop_first(), x)
    }
}

/// `s` sorted by insertion, each element after those `<=` it.
pub open spec fn lex_sorted(s: Seq<Seq<char>>) -> Seq<Seq<char>>
    decreases s.len(),
{
    if s.len() == 0 {
        s
    } else {
        let t = lex_sorted(s.drop_last());
        t.insert(lex_slot(t, s.last()), s.last())
    }
}

pub open spec fn lex_sorted_adjacent(s: Seq<Seq<char>>) -> bool {
    forall|i: int| 0 <= i < s.len() - 1 ==> lex_le(#[trigger] s[i], s[i + 1])
}

/// `s` without the elements equal to `x`.
pub open spec fn without(s: Seq<Seq<char>>, x: Seq<char>) -> Seq<Seq<char>>
    decreases s.len(),
{
    if s.len() == 0 {
        s
    } else if s.last() == x {
        without(s.drop_last(), x)
    } else {
        without(s.drop_last(), x).push(s.last())
    }
}

/// The place of the shortest form with a frequency above zero, the first of
/// equals; `None` where no form has one.
pub open spec fn best_known(wf: WordFreq, forms: Seq<Seq<char>>) -> Option<int>
    decreases forms.len(),
{
    if forms.len() == 0 {
        None
    } else {
        let b = best_known(wf, forms.drop_last());
        let f = forms.last();
        if positive(dictionary_frequency(wf, f)) && (b is None || f.len() < forms[b->Some_0].len()) {
            Some(forms.len() - 1)
        } else {
            b
        }
    }
}

/// The place of the first shortest form.
pub open spec fn shortest(forms: Seq<Seq<char>>) -> int
    decreases forms.len(),
{
    if forms.len() <= 1 {
        0
    } else {
        let b = shortest(forms.drop_last());
        if forms.last().len() < forms[b].len() {
            forms.len() - 1
        } else {
            b
        }
    }
}

/// The form shown for a group.
pub open spec fn display_of(wf: WordFreq, g: StemGroup) -> Seq<char> {
    let forms = views(g.surface_forms@);
    match best_known(wf, forms) {
        Some(i) => forms[i],
        None => forms[shortest(forms)],
    }
}

/// The frequency reported for a group: the display form's, or the stem's
/// where no form is in the dictionary.
pub open spec fn score_of(wf: WordFreq, g: StemGroup) -> u32 {
    let forms = views(g.surface_forms@);
    match best_known(wf, forms) {
        Some(i) => dictionary_frequency(wf, forms[i]),
        None => dictionary_frequency(wf, g.stem@),
    }
}

/// A context as shown: `&nbsp;` entities made spaces, whitespace collapsed.
pub open spec fn shown_context(c: Seq<char>) -> Seq<char> {
    cleaned(c)
}

/// The elements of `s` in order, each kept at its first place only.
pub open spec fn distinct(s: Seq<Seq<char>>) -> Seq<Seq<char>>
    decreases s.len(),
{
    if s.len() == 0 {
        s
    } else {
        let d = distinct(s.drop_last());
        if d.contains(s.last()) {
            d
        } else {
            d.push(s.last())
        }
    }
}

pub proof fn lemma_distinct_no_duplicates(s: Seq<Seq<char>>)
    ensures
        distinct(s).no_duplicates(),
    decreases s.len(),
{
    if s.len() > 0 {
        lemma_distinct_no_duplicates(s.drop_last());
        let d = distinct(s.drop_last());
        if !d.contains(s.last()) {
            assert forall|a: int, b: int|
                0 <= a < d.len() + 1 && 0 <= b < d.len() + 1 && a != b implies d.push(s.last())[a]
                != d.push(s.last())[b] by {
                if a == d.len() {
                    assert(d[b] != s.last());
                } else if b == d.len() {
                    assert(d[a] != s.last());
                }
            }
        }
    }
}

/// The result made of one candidate group.
pub open spec fn scored(wf: WordFreq, g: StemGroup, r: HardWord) -> bool {
    &&& r.word@ == display_of(wf, g)
    &&& r.frequency_score == score_of(wf, g)
    &&& strs(r.contexts@) == distinct(views(g.contexts@).map_values(|c: Seq<char>| shown_context(c)))
    &&& r.count == g.occurrence_count
    &&& strs(r.variants@) == lex_sorted(without(views(g.surface_forms@), display_of(wf, g)))
}

pub proof fn lemma_best_known_range(wf: WordFreq, forms: Seq<Seq<char>>)
    ensures
        best_known(wf, forms) is Some ==> 0 <= best_known(wf, forms)->Some_0 < forms.len()
            && positive(dictionary_frequency(wf, forms[best_known(wf, forms)->Some_0])),
    decreases forms.len(),
{
    if forms.len() > 0 {
        lemma_best_known_range(wf, forms.drop_last());
    }
}

proof fn lemma_shortest_range(forms: Seq<Seq<char>>)
    ensures
        forms.len() > 0 ==> 0 <= shortest(forms) < forms.len(),
    decreases forms.len(),
{
    if forms.len() > 1 {
        lemma_shortest_range(forms.drop_last());
    }
}

/// The display form is one of the group's surface forms.
pub proof fn lemma_display_is_form(wf: WordFreq, g: StemGroup)
    requires
        g.wf(),
    ensures
        views(g.surface_forms@).contains(display_of(wf, g)),
        valid_form(display_of(wf, g)),
{
    let forms = views(g.surface_forms@);
    lemma_best_known_range(wf, forms);
    lemma_shortest_range(forms);
    let i = match best_known(wf, forms) {
        Some(i) => i,
        None => shortest(forms),
    };
    assert(forms[i] == g.surface_forms@[i]@);
}

pub fn lex_le_exec(a: &Vec<char>, b: &Vec<char>) -> (r: bool)
    ensures
        r == lex_le(a@, b@),
{
    let mut i: usize = 0;
    assert(a@.subrange(0, a.len() as int) =~= a@);
    assert(b@.subrange(0, b.len() as int) =~= b@);
    while i < a.len() && i < b.len() && (a[i] as u32) == (b[i] as u32)
        invariant
            i <= a.len(),
            i <= b.len(),
            lex_le(a@, b@) == lex_le(a@.subrange(i as int, a.len() as int), b@.subrange(i as int, b.len() as int)),
        decreases a.len() - i,
    {
        let ghost sa = a@.subrange(i as int, a.len() as int);
        let ghost sb = b@.subrange(i as int, b.len() as int);
        assert(sa.drop_first() =~= a@.subrange(i + 1, a.len() as int));
        assert(sb.drop_first() =~= b@.subrange(i + 1, b.len() as int));
        i = i + 1;
    }
    proof {
        assert(a@.subrange(0, a.len() as int) =~= a@);
        assert(b@.subrange(0, b.len() as int) =~= b@);
    }
    if i == a.len() {
        return true;
    }
    if i == b.len() {
        return false;
    }
    (a[i] as u32) < (b[i] as u32)
}

/// Puts `x` into `v` after every element `<=` it.
fn insert_lex(v: &mut Vec<Vec<char>>, x: Vec<char>)
    requires
        lex_sorted_adjacent(views(old(v)@)),
    ensures
        lex_sorted_adjacent(views(final(v)@)),
        views(final(v)@) == views(old(v)@).insert(lex_slot(views(old(v)@), x@), x@),
{
    let ghost s = views(v@);
    let mut p: usize = 0;
    assert(s.subrange(0, s.len() as int) =~= s);
    while p < v.len() && lex_le_exec(&v[p], &x)
        invariant
            p <= v.len(),
            s == views(v@),
            forall|q: int| 0 <= q < p ==> lex_le(#[trigger] s[q], x@),
            lex_slot(s, x@) == p + lex_slot(s.subrange(p as int, s.len() as int), x@),
        decreases v.len() - p,
    {
        assert(s.subrange(p as int, s.len() as int).drop_first() =~= s.subrange(p + 1, s.len() as int));
        p = p + 1;
    }
    proof {
        if p < s.len() {
            assert(s.subrange(p as int, s.len() as int)[0] == s[p as int]);
            lemma_lex_total(s[p as int], x@);
        }
        assert(s.subrange(0, s.len() as int) =~= s);
    }
    let ghost xv = x@;
    v.insert(p, x);
    proof {
        assert(views(v@) =~= s.insert(p as int, xv));
        let t = views(v@);
        assert forall|i: int| 0 <= i < t.len() - 1 implies lex_le(#[trigger] t[i], t[i + 1]) by {
            if i + 1 < p {
                assert(t[i] == s[i] && t[i + 1] == s[i + 1]);
            } else if i + 1 == p {
                assert(t[i] == s[i] && t[i + 1] == xv);
            } else if i == p {
                assert(t[i] == xv && t[i + 1] == s[i]);
            } else {
                assert(t[i] == s[i - 1] && t[i + 1] == s[i]);
            }
        }
    }
}

/// `forms` without `display`, sorted.
pub fn sorted_variants(forms: &Vec<Vec<char>>, display: &Vec<char>) -> (r: Vec<Vec<char>>)
    ensures
        views(r@) == lex_sorted(without(views(forms@), display@)),
        lex_sorted_adjacent(views(r@)),
{
    let mut r: Vec<Vec<char>> = Vec::new();
    let ghost fs = views(forms@);
    let mut i: usize = 0;
    assert(views(r@) =~= lex_sorted(without(fs.subrange(0, 0), display@)));
    while i < forms.len()
        invariant
            i <= forms.len(),
            fs == views(forms@),
            views(r@) == lex_sorted(without(fs.subrange(0, i as int), display@)),
            lex_sorted_adjacent(views(r@)),
        decreases forms.len() - i,
    {
        let ghost pre = fs.subrange(0, i + 1);
        assert(pre.drop_last() =~= fs.subrange(0, i as int));
        assert(pre.last() == forms@[i as int]@);
        if !crate::candidates::same_chars(&forms[i], display) {
            let f = copy_range(&forms[i], 0, forms[i].len());
            assert(f@ =~= forms@[i as int]@);
            assert(without(pre, display@) == without(fs.subrange(0, i as int), display@).push(f@));
            assert(without(pre, display@).drop_last() =~= without(fs.subrange(0, i as int), display@));
            insert_lex(&mut r, f);
        }
        i = i + 1;
    }
    assert(fs.subrange(0, i as int) =~= fs);
    r
}

/// Stable place by score: after every result that scores no higher.
pub open spec fn score_slot(s: Seq<HardWord>, score: u32) -> int
    decreases s.len(),
{
    if s.len() == 0 {
        0
    } else if s[0].frequency_score > score {
        0
    } else {
        1 + score_slot(s.drop_first(), score)
    }
}

/// The results sorted by score, rarest first, equals in their first order.
pub open spec fn ranked(s: Seq<HardWord>) -> Seq<HardWord>
    decreases s.len(),
{
    if s.len() == 0 {
        s
    } else {
        let t = ranked(s.drop_last());
        t.insert(score_slot(t, s.last().frequency_score), s.last())
    }
}

pub open spec fn sorted_by_score(s: Seq<HardWord>) -> bool {
    forall|i: int, j: int| 0 <= i < j < s.len() ==> (#[trigger] s[i]).frequency_score <= (
    #[trigger] s[j]).frequency_score
}

/// Sorts the results rarest first, keeping the order of equal scores.
pub fn rank(words: Vec<HardWord>) -> (r: Vec<HardWord>)
    ensures
        r@ == ranked(words@),
        sorted_by_score(r@),
{
    let ghost ws = words@;
    let mut rest = crate::filter::into_reversed(words);
    let mut out: Vec<HardWord> = Vec::new();
    proof {
        assert(rest@.reverse() =~= ws);
        assert(ws.subrange(0, 0) =~= Seq::<HardWord>::empty());
    }
    while rest.len() > 0
        invariant
            rest@.len() <= ws.len(),
            rest@.reverse() == ws.subrange(ws.len() - rest@.len(), ws.len() as int),
            out@ == ranked(ws.subrange(0, ws.len() - rest@.len())),
            sorted_by_score(out@),
        decreases rest.len(),
    {
        let ghost done = ws.subrange(0, ws.len() - rest@.len());
        let ghost tail = rest@.reverse();
        let x = rest.pop().unwrap();
        proof {
            assert(tail[0] == x);
            assert(tail.drop_first() =~= rest@.reverse());
            assert(ws.subrange(0, ws.len() - rest@.len()).drop_last() =~= done);
            assert(rest@.reverse() =~= ws.subrange(ws.len() - rest@.len(), ws.len() as int));
        }
        let ghost s = out@;
        let mut p: usize = 0;
        assert(s.subrange(0, s.len() as int) =~= s);
        while p < out.len() && out[p].frequency_score <= x.frequency_score
            invariant
                p <= out.len(),
                s == out@,
                forall|q: int| 0 <= q < p ==> (#[trigger] s[q]).frequency_score <= x.frequency_score,
                score_slot(s, x.frequency_score) == p + score_slot(
                    s.subrange(p as int, s.len() as int),
                    x.frequency_score,
                ),
            decreases out.len() - p,
        {
            assert(s.subrange(p as int, s.len() as int).drop_first() =~= s.subrange(p + 1, s.len() as int));
            p = p + 1;
        }
        proof {
            if p < s.len() {
                assert(s.subrange(p as int, s.len() as int)[0] == s[p as int]);
            }
        }
        let ghost xv = x;
        out.insert(p, x);
        proof {
            assert(out@ =~= s.insert(p as int, xv));
            assert forall|i: int, j: int| 0 <= i < j < out@.len() implies (
            #[trigger] out@[i]).frequency_score <= (#[trigger] out@[j]).frequency_score by {
                if j < p {
                    assert(out@[i] == s[i] && out@[j] == s[j]);
                } else if j == p {
                    assert(out@[i] == s[i]);
                } else if i < p {
                    assert(out@[i] == s[i] && out@[j] == s[j - 1]);
                    if p < s.len() {
                        assert(s[p as int].frequency_score > xv.frequency_score);
                    }
                } else if i == p {
                    assert(out@[j] == s[j - 1]);
                    assert(s[p as int].frequency_score > xv.frequency_score);
                } else {
                    assert(out@[i] == s[i - 1] && out@[j] == s[j - 1]);
                }
            }
        }
    }
    assert(ws.subrange(0, ws.len() as int) =~= ws);
    out
}

impl NlpPipeline {
    /// The display form of a group and the frequency reported for it.
    pub fn choose_display(&self, g: &StemGroup) -> (r: (Vec<char>, u32))
        requires
            g.wf(),
        ensures
            r.0@ == display_of(self.dictionary(), *g),
            r.1 == score_of(self.dictionary(), *g),
    {
        let ghost wf = self.dictionary();
        let ghost fs = views(g.surface_forms@);
        let mut best: Option<usize> = None;
        let mut best_freq: u32 = 0;
        let mut short: usize = 0;
        let mut i: usize = 0;
        while i < g.surface_forms.len()
            invariant
                i <= g.surface_forms.len(),
                wf == self.dictionary(),
                fs == views(g.surface_forms@),
                g.surface_forms@.len() > 0,
                i > 0 ==> short == shortest(fs.subrange(0, i as int)) && short < i,
                short < g.surface_forms.len(),
                best is None ==> best_known(wf, fs.subrange(0, i as int)) is None,
                best is Some ==> best_known(wf, fs.subrange(0, i as int)) == Some(best->Some_0 as int)
                    && best->Some_0 < i && best_freq == dictionary_frequency(wf, fs[best->Some_0 as int]),
            decreases g.surface_forms.len() - i,
        {
            let ghost pre = fs.subrange(0, i + 1);
            assert(pre.drop_last() =~= fs.subrange(0, i as int));
            assert(pre.last() == g.surface_forms@[i as int]@);
            let f = self.frequency(&g.surface_forms[i]);
            let better = match best {
                None => is_positive(f),
                Some(b) => {
                    assert(pre[b as int] == fs[b as int]);
                    is_positive(f) && g.surface_forms[i].len() < g.surface_forms[b].len()
                },
            };
            if better {
                best = Some(i);
                best_freq = f;
            }
            if i == 0 {
                short = 0;
            } else {
                assert(pre[short as int] == fs[short as int]);
                if g.surface_forms[i].len() < g.surface_forms[short].len() {
                    short = i;
                }
            }
            i = i + 1;
        }
        assert(fs.subrange(0, i as int) =~= fs);
        match best {
            Some(b) => {
                let d = copy_range(&g.surface_forms[b], 0, g.surface_forms[b].len());
                assert(d@ =~= fs[b as int]);
                (d, best_freq)
            },
            None => {
                let d = copy_range(&g.surface_forms[short], 0, g.surface_forms[short].len());
                assert(d@ =~= fs[short as int]);
                (d, self.frequency(&g.stem))
            },
        }
    }

    /// The result made of one candidate group.
    pub fn score_candidate(&self, g: &StemGroup) -> (r: HardWord)
        requires
            g.wf(),
        ensures
            scored(self.dictionary(), *g, r),
    {
        let (display, score) = self.choose_display(g);
        let mut shown: Vec<Vec<char>> = Vec::new();
        let ghost cs = views(g.contexts@);
        let mut i: usize = 0;
        assert(views(shown@) =~= distinct(cs.subrange(0, 0).map_values(|c: Seq<char>| shown_context(c))));
        while i < g.contexts.len()
            invariant
                i <= g.contexts.len(),
                cs == views(g.contexts@),
                views(shown@) == distinct(cs.subrange(0, i as int).map_values(|c: Seq<char>| shown_context(c))),
            decreases g.contexts.len() - i,
        {
            let c = copy_range(&g.contexts[i], 0, g.contexts[i].len());
            let cc = clean_context(&c);
            assert(c@ =~= cs[i as int]);
            let ghost pre = cs.subrange(0, i + 1).map_values(|c: Seq<char>| shown_context(c));
            assert(pre.drop_last() =~= cs.subrange(0, i as int).map_values(|c: Seq<char>| shown_context(c)));
            assert(pre.last() == cc@);
            let ghost before = shown@;
            if !crate::candidates::holds(&shown, &cc) {
                shown.push(cc);
                assert(views(shown@) =~= views(before).push(pre.last()));
            }
            i = i + 1;
        }
        assert(cs.subrange(0, i as int) =~= cs);
        let mut contexts: Vec<String> = Vec::new();
        let mut k: usize = 0;
        while k < shown.len()
            invariant
                k <= shown.len(),
                strs(contexts@) == views(shown@).subrange(0, k as int),
            decreases shown.len() - k,
        {
            let s = string_of(&shown[k]);
            let ghost before = strs(contexts@);
            contexts.push(s);
            assert(strs(contexts@) =~= before.push(shown@[k as int]@));
            assert(views(shown@).subrange(0, k + 1) =~= views(shown@).subrange(0, k as int).push(
                shown@[k as int]@,
            ));
            k = k + 1;
        }
        assert(views(shown@).subrange(0, k as int) =~= views(shown@));
        let vs = sorted_variants(&g.surface_forms, &display);
        let mut variants: Vec<String> = Vec::new();
        let mut j: usize = 0;
        while j < vs.len()
            invariant
                j <= vs.len(),
                strs(variants@) == views(vs@).subrange(0, j as int),
            decreases vs.len() - j,
        {
            let s = string_of(&vs[j]);
            assert(views(vs@)[j as int] == vs@[j as int]@);
            let ghost before = strs(variants@);
            variants.push(s);
            assert(strs(variants@) =~= before.push(vs@[j as int]@));
            assert(views(vs@).subrange(0, j + 1) =~= views(vs@).subrange(0, j as int).push(
                vs@[j as int]@,
            ));
            j = j + 1;
        }
        assert(views(vs@).subrange(0, j as int) =~= views(vs@));
        let word = string_of(&display);
        HardWord { word, frequency_score: score, contexts, count: g.occurrence_count, variants }
    }
}

proof fn lemma_lex_slot_range(s: Seq<Seq<char>>, x: Seq<char>)
    ensures
        0 <= lex_slot(s, x) <= s.len(),
    decreases s.len(),
{
    if s.len() > 0 {
        lemma_lex_slot_range(s.drop_first(), x);
    }
}

/// Sorting keeps the elements.
pub proof fn lemma_lex_sorted_contents(s: Seq<Seq<char>>)
    ensures
        lex_sorted(s).len() == s.len(),
        forall|y: Seq<char>| #[trigger] lex_sorted(s).contains(y) ==> s.contains(y),
    decreases s.len(),
{
    if s.len() > 0 {
        let t = lex_sorted(s.drop_last());
        lemma_lex_sorted_contents(s.drop_last());
        lemma_lex_slot_range(t, s.last());
        let p = lex_slot(t, s.last());
        t.insert_ensures(p, s.last());
        assert forall|y: Seq<char>| #[trigger] lex_sorted(s).contains(y) implies s.contains(y) by {
            let u = lex_sorted(s);
            let k = choose|k: int| 0 <= k < u.len() && u[k] == y;
            if k == p {
                assert(s[s.len() - 1] == y);
            } else {
                let m = if k < p { k } else { k - 1 };
                assert(t[m] == y);
                assert(t.contains(y));
                assert(s.drop_last().contains(y));
                let q = choose|q: int| 0 <= q < s.drop_last().len() && s.drop_last()[q] == y;
                assert(s[q] == y);
            }
        }
    }
}

pub proof fn lemma_without_contents(s: Seq<Seq<char>>, x: Seq<char>)
    ensures
        forall|y: Seq<char>| #[trigger] without(s, x).contains(y) ==> s.contains(y) && y != x,
    decreases s.len(),
{
    if s.len() > 0 {
        lemma_without_contents(s.drop_last(), x);
        assert forall|y: Seq<char>| #[trigger] without(s, x).contains(y) implies s.contains(y) && y != x by {
            let w = without(s.drop_last(), x);
            if s.last() != x && y == s.last() {
                assert(s[s.len() - 1] == y);
            } else {
                if s.last() != x {
                    let k = choose|k: int| 0 <= k < without(s, x).len() && without(s, x)[k] == y;
                    assert(w[k] == y);
                }
                assert(w.contains(y));
                let q = choose|q: int| 0 <= q < s.drop_last().len() && s.drop_last()[q] == y;
                assert(s[q] == y);
            }
        }
    }
}

proof fn lemma_score_slot_range(s: Seq<HardWord>, score: u32)
    ensures
        0 <= score_slot(s, score) <= s.len(),
    decreases s.len(),
{
    if s.len() > 0 {
        lemma_score_slot_range(s.drop_first(), score);
    }
}

/// Ranking keeps the results.
pub proof fn lemma_ranked_contents(s: Seq<HardWord>)
    ensures
        ranked(s).len() == s.len(),
        forall|w: HardWord| #[trigger] ranked(s).contains(w) ==> s.contains(w),
    decreases s.len(),
{
    if s.len() > 0 {
        let t = ranked(s.drop_last());
        lemma_ranked_contents(s.drop_last());
        lemma_score_slot_range(t, s.last().frequency_score);
        let p = score_slot(t, s.last().frequency_score);
        t.insert_ensures(p, s.last());
        assert forall|w: HardWord| #[trigger] ranked(s).contains(w) implies s.contains(w) by {
            let u = ranked(s);
            let k = choose|k: int| 0 <= k < u.len() && u[k] == w;
            if k == p {
                assert(s[s.len() - 1] == w);
            } else {
                let m = if k < p { k } else { k - 1 };
                assert(t[m] == w);
                assert(t.contains(w));
                assert(s.drop_last().contains(w));
                let q = choose|q: int| 0 <= q < s.drop_last().len() && s.drop_last()[q] == w;
                assert(s[q] == w);
            }
        }
    }
}

/// Ranking loses no result.
pub proof fn lemma_ranked_keeps(s: Seq<HardWord>)
    ensures
        forall|w: HardWord| #[trigger] s.contains(w) ==> ranked(s).contains(w),
    decreases s.len(),
{
    if s.len() > 0 {
        let t = ranked(s.drop_last());
        lemma_ranked_keeps(s.drop_last());
        lemma_score_slot_range(t, s.last().frequency_score);
        let p = score_slot(t, s.last().frequency_score);
        t.insert_ensures(p, s.last());
        assert forall|w: HardWord| #[trigger] s.contains(w) implies ranked(s).contains(w) by {
            let u = ranked(s);
            let k = choose|k: int| 0 <= k < s.len() && s[k] == w;
            if k == s.len() - 1 {
                assert(u[p] == w);
            } else {
                assert(s.drop_last()[k] == w);
                assert(s.drop_last().contains(w));
                assert(t.contains(w));
                let m = choose|m: int| 0 <= m < t.len() && t[m] == w;
                if m < p {
                    assert(u[m] == w);
                } else {
                    assert(u[m + 1] == w);
                }
            }
        }
    }
}

} // verus!
