//! The candidate extractor: tokens grouped by their stem, with the contexts
//! they were seen in.
use crate::lexicon::{
    english_stem, is_numeric, is_uppercase, lower_of, numeric, stem, to_lower, unicode_words,
    unicode_words_of, uppercase,
};
use crate::text::{copy_range, views};
use vstd::prelude::*;

verus! {

/// A lowercase token worth keeping: three or more characters, no digit.
pub open spec fn valid_form(f: Seq<char>) -> bool {
    f.len() >= 3 && forall|i: int| 0 <= i < f.len() ==> !numeric(#[trigger] f[i])
}

/// A sentence of 20 to 500 characters, fit to show as a context.
pub open spec fn fits_context(s: Seq<char>) -> bool {
    20 <= s.len() <= 500
}

/// Capitalised, and not the first word of its sentence (`position` is its
/// place among the sentence's words): likely a proper noun.
pub open spec fn likely_proper_noun(word: Seq<char>, position: int) -> bool {
    word.len() > 0 && uppercase(word[0]) && position > 0
}

/// All the surface forms of one stem found in a text.
pub struct StemGroup {
    pub stem: Vec<char>,
    pub occurrence_count: usize,
    /// Distinct lowercase spellings, in the order first seen.
    pub surface_forms: Vec<Vec<char>>,
    /// Distinct sentences that hold a form, of a length fit to show.
    pub contexts: Vec<Vec<char>>,
    /// Whether a form was ever capitalised inside a sentence.
    pub needs_entity_check: bool,
    /// The contexts in which a form was capitalised inside the sentence.
    pub entity_check_contexts: Vec<Vec<char>>,
}

impl StemGroup {
    pub open spec fn wf(&self) -> bool {
        &&& self.surface_forms@.len() > 0
        &&& self.occurrence_count > 0
        &&& self.surface_forms@.len() <= self.occurrence_count
        &&& views(self.surface_forms@).no_duplicates()
        &&& forall|i: int|
            0 <= i < self.surface_forms@.len() ==> valid_form(#[trigger] self.surface_forms@[i]@)
                && english_stem(self.surface_forms@[i]@) == self.stem@
        &&& views(self.contexts@).no_duplicates()
        &&& forall|i: int|
            0 <= i < self.contexts@.len() ==> fits_context(#[trigger] self.contexts@[i]@)
        &&& views(self.entity_check_contexts@).no_duplicates()
        &&& forall|i: int|
            0 <= i < self.entity_check_contexts@.len() ==> views(self.contexts@).contains(
                #[trigger] self.entity_check_contexts@[i]@,
            )
        &&& self.entity_check_contexts@.len() > 0 ==> self.needs_entity_check
    }

    pub open spec fn holds_form(&self, f: Seq<char>) -> bool {
        views(self.surface_forms@).contains(f)
    }
}

/// Groups with distinct stems, each well formed.
pub open spec fn groups_wf(gs: Seq<StemGroup>) -> bool {
    &&& forall|k: int| 0 <= k < gs.len() ==> (#[trigger] gs[k]).wf()
    &&& forall|a: int, b: int|
        0 <= a < gs.len() && 0 <= b < gs.len() && a != b ==> (#[trigger] gs[a]).stem@ != (
        #[trigger] gs[b]).stem@
}

/// Some group holds `f` under its stem.
pub open spec fn covers(gs: Seq<StemGroup>, f: Seq<char>) -> bool {
    exists|k: int| 0 <= k < gs.len() && (#[trigger] gs[k]).stem@ == english_stem(f) && gs[k].holds_form(f)
}

/// Every group of `a` is in `b` at the same place, with its stem and at
/// least its forms and contexts.
pub open spec fn grown_from(a: Seq<StemGroup>, b: Seq<StemGroup>) -> bool {
    &&& a.len() <= b.len()
    &&& forall|k: int|
        0 <= k < a.len() ==> (#[trigger] b[k]).stem@ == a[k].stem@ && (forall|f: Seq<char>|
            a[k].holds_form(f) ==> #[trigger] b[k].holds_form(f))
}

/// What a stem group holds: stem, count, surface forms, contexts, whether
/// it needs the entity check, and the contexts for the entity check.
pub type GroupView = (Seq<char>, usize, Seq<Seq<char>>, Seq<Seq<char>>, bool, Seq<Seq<char>>);

pub open spec fn model(g: StemGroup) -> GroupView {
    (
        g.stem@,
        g.occurrence_count,
        views(g.surface_forms@),
        views(g.contexts@),
        g.needs_entity_check,
        views(g.entity_check_contexts@),
    )
}

pub open spec fn models(gs: Seq<StemGroup>) -> Seq<GroupView> {
    gs.map_values(|g: StemGroup| model(g))
}

pub open spec fn push_new_spec(s: Seq<Seq<char>>, x: Seq<char>) -> Seq<Seq<char>> {
    if s.contains(x) {
        s
    } else {
        s.push(x)
    }
}

/// The place of the first group of stem `st`.
pub open spec fn stem_place(gs: Seq<GroupView>, st: Seq<char>) -> Option<int>
    decreases gs.len(),
{
    if gs.len() == 0 {
        None
    } else if gs[0].0 == st {
        Some(0)
    } else {
        match stem_place(gs.drop_first(), st) {
            Some(i) => Some(i + 1),
            None => None,
        }
    }
}

/// The groups after one more token, lowercase form `lower`, of `sentence`.
pub open spec fn with_token(gs: Seq<GroupView>, lower: Seq<char>, proper: bool, sentence: Seq<char>) -> Seq<
    GroupView,
> {
    let st = english_stem(lower);
    let fits = fits_context(sentence);
    match stem_place(gs, st) {
        Some(k) => {
            let g = gs[k];
            gs.update(
                k,
                (
                    g.0,
                    if g.1 < usize::MAX {
                        (g.1 + 1) as usize
                    } else {
                        g.1
                    },
                    push_new_spec(g.2, lower),
                    if fits {
                        push_new_spec(g.3, sentence)
                    } else {
                        g.3
                    },
                    g.4 || proper,
                    if fits && proper {
                        push_new_spec(g.5, sentence)
                    } else {
                        g.5
                    },
                ),
            )
        },
        None => gs.push(
            (
                st,
                1usize,
                seq![lower],
                if fits {
                    seq![sentence]
                } else {
                    seq![]
                },
                proper,
                if fits && proper {
                    seq![sentence]
                } else {
                    seq![]
                },
            ),
        ),
    }
}

proof fn lemma_stem_place(gs: Seq<GroupView>, st: Seq<char>, i: int)
    requires
        0 <= i <= gs.len(),
        forall|k: int| 0 <= k < i ==> (#[trigger] gs[k]).0 != st,
        i < gs.len() ==> gs[i].0 == st,
    ensures
        i < gs.len() ==> stem_place(gs, st) == Some(i),
        i == gs.len() ==> stem_place(gs, st) is None,
    decreases i,
{
    if gs.len() > 0 && i > 0 {
        let t = gs.drop_first();
        assert forall|k: int| 0 <= k < i - 1 implies (#[trigger] t[k]).0 != st by {
            assert(t[k] == gs[k + 1]);
        }
        if i < gs.len() {
            assert(t[i - 1] == gs[i]);
        }
        lemma_stem_place(t, st, i - 1);
    }
}

pub fn same_chars(a: &Vec<char>, b: &Vec<char>) -> (r: bool)
    ensures
        r == (a@ == b@),
{
    if a.len() != b.len() {
        return false;
    }
    let mut i: usize = 0;
    while i < a.len()
        invariant
            i <= a.len(),
            a.len() == b.len(),
            forall|j: int| 0 <= j < i ==> a@[j] == b@[j],
        decreases a.len() - i,
    {
        if a[i] != b[i] {
            return false;
        }
        i = i + 1;
    }
    assert(a@ =~= b@);
    true
}

/// Whether `v` holds `x`.
pub fn holds(v: &Vec<Vec<char>>, x: &Vec<char>) -> (r: bool)
    ensures
        r == views(v@).contains(x@),
{
    let mut i: usize = 0;
    while i < v.len()
        invariant
            i <= v.len(),
            forall|j: int| 0 <= j < i ==> v@[j]@ != x@,
        decreases v.len() - i,
    {
        if same_chars(&v[i], x) {
            assert(views(v@)[i as int] == x@);
            return true;
        }
        i = i + 1;
    }
    assert(!views(v@).contains(x@)) by {
        if views(v@).contains(x@) {
            let j = choose|j: int| 0 <= j < views(v@).len() && views(v@)[j] == x@;
            assert(v@[j]@ == x@);
        }
    }
    false
}

/// Pushes `x` onto `v` unless `v` holds it already.
pub fn push_new(v: &mut Vec<Vec<char>>, x: Vec<char>)
    requires
        views(old(v)@).no_duplicates(),
    ensures
        views(final(v)@).no_duplicates(),
        views(old(v)@).contains(x@) ==> final(v)@ == old(v)@,
        !views(old(v)@).contains(x@) ==> final(v)@ == old(v)@.push(x),
        forall|y: Seq<char>| #[trigger] views(final(v)@).contains(y) <==> (views(old(v)@).contains(y) || y == x@),
{
    let ghost before = views(v@);
    if !holds(v, &x) {
        let ghost xv = x@;
        v.push(x);
        assert(views(v@) =~= before.push(xv));
        assert forall|y: Seq<char>| #[trigger] views(v@).contains(y) <==> (before.contains(y) || y == xv) by {
            if views(v@).contains(y) {
                let j = choose|j: int| 0 <= j < views(v@).len() && views(v@)[j] == y;
                if j < before.len() {
                    assert(before[j] == y);
                }
            }
            if y == xv {
                assert(views(v@)[before.len() as int] == y);
            }
            if before.contains(y) {
                let j = choose|j: int| 0 <= j < before.len() && before[j] == y;
                assert(views(v@)[j] == y);
            }
        }
    }
}

/// Whether `word`, the word at `position` of its sentence, is capitalised
/// and not the sentence's first word.
pub fn is_likely_proper_noun(word: &Vec<char>, position: usize) -> (r: bool)
    ensures
        r == likely_proper_noun(word@, position as int),
{
    word.len() > 0 && is_uppercase(word[0]) && position > 0
}

/// Whether a lowercase token is worth keeping.
pub fn is_valid_form(f: &Vec<char>) -> (r: bool)
    ensures
        r == valid_form(f@),
{
    if f.len() < 3 {
        return false;
    }
    let mut i: usize = 0;
    while i < f.len()
        invariant
            i <= f.len(),
            forall|j: int| 0 <= j < i ==> !numeric(#[trigger] f@[j]),
        decreases f.len() - i,
    {
        if is_numeric(f[i]) {
            return false;
        }
        i = i + 1;
    }
    true
}

/// The place of the group of `stem`, if there is one.
fn find_group(groups: &Vec<StemGroup>, stem: &Vec<char>) -> (r: Option<usize>)
    ensures
        r is Some ==> stem_place(models(groups@), stem@) == Some(r->Some_0 as int),
        r is None ==> stem_place(models(groups@), stem@) is None,
        r is Some ==> r->Some_0 < groups@.len() && groups@[r->Some_0 as int].stem@ == stem@,
        r is None ==> forall|k: int| 0 <= k < groups@.len() ==> (#[trigger] groups@[k]).stem@ != stem@,
{
    let mut i: usize = 0;
    while i < groups.len()
        invariant
            i <= groups.len(),
            forall|k: int| 0 <= k < i ==> (#[trigger] groups@[k]).stem@ != stem@,
        decreases groups.len() - i,
    {
        if same_chars(&groups[i].stem, stem) {
            proof {
                lemma_stem_place(models(groups@), stem@, i as int);
            }
            return Some(i);
        }
        i = i + 1;
    }
    proof {
        lemma_stem_place(models(groups@), stem@, i as int);
    }
    None
}

/// Records one token of `sentence` (its lowercase form `lower`).
fn add_token(
    groups: &mut Vec<StemGroup>,
    lower: Vec<char>,
    proper: bool,
    sentence: &Vec<char>,
)
    requires
        groups_wf(old(groups)@),
        valid_form(lower@),
    ensures
        groups_wf(final(groups)@),
        grown_from(old(groups)@, final(groups)@),
        covers(final(groups)@, lower@),
        models(final(groups)@) == with_token(models(old(groups)@), lower@, proper, sentence@),
{
    let st = stem(&lower);
    let fits = sentence.len() >= 20 && sentence.len() <= 500;
    assert(sentence@.subrange(0, sentence.len() as int) =~= sentence@);
    let ghost lv = lower@;
    match find_group(groups, &st) {
        Some(k) => {
            let ghost old_groups = groups@;
            let mut g = groups.remove(k);
            assert(g == old_groups[k as int]);
            let ghost g0 = model(g);
            assert(models(old_groups)[k as int] == g0);
            if g.occurrence_count < usize::MAX {
                g.occurrence_count = g.occurrence_count + 1;
            }
            if proper {
                g.needs_entity_check = true;
            }
            push_new(&mut g.surface_forms, lower);
            let forms_now = g.surface_forms.len();
            assert(forms_now <= g.occurrence_count);
            if fits {
                let ctx = copy_range(sentence, 0, sentence.len());
                assert(ctx@ =~= sentence@);
                push_new(&mut g.contexts, ctx);
                if proper {
                    let ectx = copy_range(sentence, 0, sentence.len());
                    assert(ectx@ =~= sentence@);
                    push_new(&mut g.entity_check_contexts, ectx);
                }
            }
            proof {
                assert forall|i: int| 0 <= i < g.surface_forms@.len() implies valid_form(
                    #[trigger] g.surface_forms@[i]@,
                ) && english_stem(g.surface_forms@[i]@) == g.stem@ by {
                    let f = g.surface_forms@[i]@;
                    assert(views(g.surface_forms@)[i] == f);
                    assert(views(g.surface_forms@).contains(f));
                    if f != lv {
                        assert(views(old_groups[k as int].surface_forms@).contains(f));
                        let j = choose|j: int|
                            0 <= j < views(old_groups[k as int].surface_forms@).len() && views(
                                old_groups[k as int].surface_forms@,
                            )[j] == f;
                        assert(old_groups[k as int].surface_forms@[j]@ == f);
                    }
                }
                assert forall|i: int| 0 <= i < g.contexts@.len() implies fits_context(
                    #[trigger] g.contexts@[i]@,
                ) by {
                    let c = g.contexts@[i]@;
                    assert(views(g.contexts@)[i] == c);
                    assert(views(g.contexts@).contains(c));
                    if c != sentence@ || !fits {
                        assert(views(old_groups[k as int].contexts@).contains(c));
                        let j = choose|j: int|
                            0 <= j < views(old_groups[k as int].contexts@).len() && views(
                                old_groups[k as int].contexts@,
                            )[j] == c;
                        assert(old_groups[k as int].contexts@[j]@ == c);
                    }
                }
                assert forall|i: int| 0 <= i < g.entity_check_contexts@.len() implies views(
                    g.contexts@,
                ).contains(#[trigger] g.entity_check_contexts@[i]@) by {
                    let c = g.entity_check_contexts@[i]@;
                    assert(views(g.entity_check_contexts@)[i] == c);
                    assert(views(g.entity_check_contexts@).contains(c));
                    if c != sentence@ || !fits || !proper {
                        assert(views(old_groups[k as int].entity_check_contexts@).contains(c));
                        let j = choose|j: int|
                            0 <= j < views(old_groups[k as int].entity_check_contexts@).len()
                                && views(old_groups[k as int].entity_check_contexts@)[j] == c;
                        assert(old_groups[k as int].entity_check_contexts@[j]@ == c);
                        assert(views(old_groups[k as int].contexts@).contains(c));
                    }
                }
            }
            proof {
                let fits_s = fits_context(sentence@);
                assert(views(g.surface_forms@) == push_new_spec(g0.2, lv)) by {
                    if !g0.2.contains(lv) {
                        assert(views(g.surface_forms@) =~= g0.2.push(lv));
                    }
                }
                assert(views(g.contexts@) == (if fits_s {
                    push_new_spec(g0.3, sentence@)
                } else {
                    g0.3
                })) by {
                    if fits_s && !g0.3.contains(sentence@) {
                        assert(views(g.contexts@) =~= g0.3.push(sentence@));
                    }
                }
                assert(views(g.entity_check_contexts@) == (if fits_s && proper {
                    push_new_spec(g0.5, sentence@)
                } else {
                    g0.5
                })) by {
                    if fits_s && proper && !g0.5.contains(sentence@) {
                        assert(views(g.entity_check_contexts@) =~= g0.5.push(sentence@));
                    }
                }
            }
            let ghost gm = model(g);
            groups.insert(k, g);
            proof {
                assert(groups@ =~= old_groups.update(k as int, g));
                assert(groups@[k as int].holds_form(lv));
                assert(models(groups@) =~= models(old_groups).update(k as int, gm));
            }
        },
        None => {
            let mut forms: Vec<Vec<char>> = Vec::new();
            forms.push(lower);
            let mut contexts: Vec<Vec<char>> = Vec::new();
            let mut entity_contexts: Vec<Vec<char>> = Vec::new();
            if fits {
                contexts.push(copy_range(sentence, 0, sentence.len()));
                if proper {
                    entity_contexts.push(copy_range(sentence, 0, sentence.len()));
                }
            }
            let g = StemGroup {
                stem: st,
                occurrence_count: 1,
                surface_forms: forms,
                contexts,
                needs_entity_check: proper,
                entity_check_contexts: entity_contexts,
            };
            proof {
                assert(views(g.surface_forms@) =~= seq![lv]);
                assert(views(g.surface_forms@)[0] == lv);
                if fits {
                    assert(views(g.contexts@) =~= seq![sentence@]);
                    assert(views(g.contexts@)[0] == sentence@);
                    if proper {
                        assert(views(g.entity_check_contexts@) =~= seq![sentence@]);
                    }
                } else {
                    assert(views(g.contexts@) =~= Seq::<Seq<char>>::empty());
                }
                assert(views(g.entity_check_contexts@).len() <= 1);
            }
            let ghost old_groups = groups@;
            let ghost gm = model(g);
            proof {
                if !(fits && proper) {
                    assert(views(g.entity_check_contexts@) =~= Seq::<Seq<char>>::empty());
                }
                assert(gm == (
                    english_stem(lv),
                    1usize,
                    seq![lv],
                    if fits_context(sentence@) {
                        seq![sentence@]
                    } else {
                        seq![]
                    },
                    proper,
                    if fits_context(sentence@) && proper {
                        seq![sentence@]
                    } else {
                        seq![]
                    },
                ));
            }
            groups.push(g);
            proof {
                assert(models(groups@) =~= models(old_groups).push(gm));
                assert(groups@[old_groups.len() as int] == g);
                assert(groups@[old_groups.len() as int].holds_form(lv));
            }
        },
    }
}

/// The lowercase form of the `j`th word of `sentence`.
pub open spec fn token_form(sentence: Seq<char>, j: int) -> Seq<char> {
    lower_of(unicode_words_of(sentence)[j])
}

/// Every word of `sentence` worth keeping has its group.
pub open spec fn sentence_covered(gs: Seq<StemGroup>, sentence: Seq<char>) -> bool {
    forall|j: int|
        0 <= j < unicode_words_of(sentence).len() && valid_form(#[trigger] token_form(sentence, j))
            ==> covers(gs, token_form(sentence, j))
}

pub proof fn lemma_grown_trans(a: Seq<StemGroup>, b: Seq<StemGroup>, c: Seq<StemGroup>)
    requires
        grown_from(a, b),
        grown_from(b, c),
    ensures
        grown_from(a, c),
{
    assert forall|k: int| 0 <= k < a.len() implies (#[trigger] c[k]).stem@ == a[k].stem@ && (
    forall|f: Seq<char>| a[k].holds_form(f) ==> #[trigger] c[k].holds_form(f)) by {
        assert(b[k].stem@ == a[k].stem@);
        assert forall|f: Seq<char>| a[k].holds_form(f) implies #[trigger] c[k].holds_form(f) by {
            assert(b[k].holds_form(f));
        }
    }
}

pub proof fn lemma_covers_grown(a: Seq<StemGroup>, b: Seq<StemGroup>, f: Seq<char>)
    requires
        covers(a, f),
        grown_from(a, b),
    ensures
        covers(b, f),
{
    let k = choose|k: int| 0 <= k < a.len() && (#[trigger] a[k]).stem@ == english_stem(f) && a[k].holds_form(f);
    assert(b[k].holds_form(f));
}

pub proof fn lemma_sentence_covered_grown(a: Seq<StemGroup>, b: Seq<StemGroup>, s: Seq<char>)
    requires
        sentence_covered(a, s),
        grown_from(a, b),
    ensures
        sentence_covered(b, s),
{
    assert forall|j: int|
        0 <= j < unicode_words_of(s).len() && valid_form(#[trigger] token_form(s, j)) implies covers(
        b,
        token_form(s, j),
    ) by {
        lemma_covers_grown(a, b, token_form(s, j));
    }
}

/// The groups after the words `ws` of `sentence`, those worth keeping.
pub open spec fn with_words(gs: Seq<GroupView>, sentence: Seq<char>, ws: Seq<Seq<char>>) -> Seq<GroupView>
    decreases ws.len(),
{
    if ws.len() == 0 {
        gs
    } else {
        let before = with_words(gs, sentence, ws.drop_last());
        let w = ws.last();
        if valid_form(lower_of(w)) {
            with_token(before, lower_of(w), likely_proper_noun(w, ws.len() - 1), sentence)
        } else {
            before
        }
    }
}

/// The groups after the sentences `ss`, in order.
pub open spec fn with_sentences(gs: Seq<GroupView>, ss: Seq<Seq<char>>) -> Seq<GroupView>
    decreases ss.len(),
{
    if ss.len() == 0 {
        gs
    } else {
        let before = with_sentences(gs, ss.drop_last());
        with_words(before, ss.last(), unicode_words_of(ss.last()))
    }
}

/// Records every word of `sentence` that is worth keeping.
pub fn add_sentence(groups: &mut Vec<StemGroup>, sentence: &Vec<char>)
    requires
        groups_wf(old(groups)@),
    ensures
        groups_wf(final(groups)@),
        grown_from(old(groups)@, final(groups)@),
        sentence_covered(final(groups)@, sentence@),
        models(final(groups)@) == with_words(models(old(groups)@), sentence@, unicode_words_of(sentence@)),
{
    let words = unicode_words(sentence);
    let ghost ws = unicode_words_of(sentence@);
    let ghost start = groups@;
    assert(ws.subrange(0, 0) =~= Seq::<Seq<char>>::empty());
    assert(words@.len() == ws.len());
    let mut j: usize = 0;
    while j < words.len()
        invariant
            j <= words.len(),
            words@.len() == ws.len(),
            ws == unicode_words_of(sentence@),
            forall|i: int| 0 <= i < ws.len() ==> (#[trigger] words@[i])@ == ws[i],
            groups_wf(groups@),
            grown_from(start, groups@),
            forall|i: int|
                0 <= i < j && valid_form(#[trigger] token_form(sentence@, i)) ==> covers(
                    groups@,
                    token_form(sentence@, i),
                ),
            models(groups@) == with_words(models(start), sentence@, ws.subrange(0, j as int)),
        decreases words.len() - j,
    {
        assert(words@[j as int]@ == ws[j as int]);
        assert(ws.subrange(0, j + 1).drop_last() =~= ws.subrange(0, j as int));
        assert(ws.subrange(0, j + 1).last() == ws[j as int]);
        let lower = to_lower(&words[j]);
        if is_valid_form(&lower) {
            let proper = is_likely_proper_noun(&words[j], j);
            let ghost before = groups@;
            add_token(groups, lower, proper, sentence);
            proof {
                lemma_grown_trans(start, before, groups@);
                assert forall|i: int|
                    0 <= i < j + 1 && valid_form(#[trigger] token_form(sentence@, i)) implies covers(
                    groups@,
                    token_form(sentence@, i),
                ) by {
                    if i < j {
                        lemma_covers_grown(before, groups@, token_form(sentence@, i));
                    }
                }
            }
        }
        j = j + 1;
    }
    assert(ws.subrange(0, j as int) =~= ws);
}

/// Records the words of `sentences[lo..hi]`.
pub fn add_sentences(groups: &mut Vec<StemGroup>, sentences: &Vec<Vec<char>>, lo: usize, hi: usize)
    requires
        groups_wf(old(groups)@),
        lo <= hi <= sentences.len(),
    ensures
        groups_wf(final(groups)@),
        grown_from(old(groups)@, final(groups)@),
        forall|i: int| lo <= i < hi ==> sentence_covered(final(groups)@, #[trigger] sentences@[i]@),
        models(final(groups)@) == with_sentences(models(old(groups)@), views(sentences@).subrange(lo as int, hi as int)),
{
    let ghost start = groups@;
    let mut i: usize = lo;
    assert(views(sentences@).subrange(lo as int, lo as int) =~= Seq::<Seq<char>>::empty());
    while i < hi
        invariant
            lo <= i <= hi <= sentences.len(),
            groups_wf(groups@),
            grown_from(start, groups@),
            forall|k: int| lo <= k < i ==> sentence_covered(groups@, #[trigger] sentences@[k]@),
            models(groups@) == with_sentences(models(start), views(sentences@).subrange(lo as int, i as int)),
        decreases hi - i,
    {
        let ghost before = groups@;
        assert(views(sentences@).subrange(lo as int, i + 1).drop_last() =~= views(sentences@).subrange(lo as int, i as int));
        assert(views(sentences@).subrange(lo as int, i + 1).last() == sentences@[i as int]@);
        add_sentence(groups, &sentences[i]);
        proof {
            lemma_grown_trans(start, before, groups@);
            assert forall|k: int| lo <= k < i + 1 implies sentence_covered(groups@, #[trigger] sentences@[k]@) by {
                if k < i {
                    lemma_sentence_covered_grown(before, groups@, sentences@[k]@);
                }
            }
        }
        i = i + 1;
    }
}

pub proof fn lemma_with_sentences_append(gs: Seq<GroupView>, a: Seq<Seq<char>>, b: Seq<Seq<char>>)
    ensures
        with_sentences(with_sentences(gs, a), b) == with_sentences(gs, a + b),
    decreases b.len(),
{
    if b.len() > 0 {
        lemma_with_sentences_append(gs, a, b.drop_last());
        assert((a + b).drop_last() =~= a + b.drop_last());
        assert((a + b).last() == b.last());
    } else {
        assert(a + b =~= a);
    }
}

} // verus!
