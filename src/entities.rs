//! The entity index: lowercase names that the entity model found, whole and
//! word by word.
use crate::candidates::{holds, push_new, StemGroup};
use crate::lexicon::{lower_of, to_lower};
use crate::text::{split_words, views, ws_words};
use vstd::prelude::*;

verus! {

/// The keys that one entity span adds: the lowercase span and each of its words.
pub open spec fn span_keys(span: Seq<char>) -> Set<Seq<char>> {
    set![lower_of(span)].union(ws_words(lower_of(span)).to_set())
}

/// `b` is `a` with more elements after it.
pub open spec fn grows(a: Seq<Seq<char>>, b: Seq<Seq<char>>) -> bool {
    a.len() <= b.len() && b.subrange(0, a.len() as int) == a
}

pub proof fn lemma_grows_trans(a: Seq<Seq<char>>, b: Seq<Seq<char>>, c: Seq<Seq<char>>)
    requires
        grows(a, b),
        grows(b, c),
    ensures
        grows(a, c),
{
    assert(c.subrange(0, a.len() as int) =~= b.subrange(0, a.len() as int));
}

/// A set of lowercase strings that grows as entity spans come in.
pub struct EntityIndex {
    entries: Vec<Vec<char>>,
}

impl EntityIndex {
    pub closed spec fn view(&self) -> Set<Seq<char>> {
        views(self.entries@).to_set()
    }

    pub closed spec fn wf(&self) -> bool {
        views(self.entries@).no_duplicates()
    }

    /// The keys in the order they came in.
    pub closed spec fn keys(&self) -> Seq<Seq<char>> {
        views(self.entries@)
    }

    /// The keys that `later` holds beyond `self`, whose keys it extends, are
    /// exactly the new ones: none of them was in `self`.
    pub proof fn lemma_new_keys(&self, later: &EntityIndex)
        requires
            later.wf(),
            grows(self.keys(), later.keys()),
        ensures
            forall|i: int|
                self.keys().len() <= i < later.keys().len() ==> !self.view().contains(
                    #[trigger] later.keys()[i],
                ),
            forall|k: Seq<char>|
                #[trigger] later.view().contains(k) <==> (self.view().contains(k) || later.keys().subrange(
                    self.keys().len() as int,
                    later.keys().len() as int,
                ).contains(k)),
    {
        let a = self.keys();
        let b = later.keys();
        assert forall|i: int| a.len() <= i < b.len() implies !self.view().contains(#[trigger] b[i]) by {
            if self.view().contains(b[i]) {
                let j = choose|j: int| 0 <= j < a.len() && a[j] == b[i];
                assert(b.subrange(0, a.len() as int)[j] == b[j]);
            }
        }
        assert forall|k: Seq<char>| #[trigger] later.view().contains(k) <==> (self.view().contains(k)
            || b.subrange(a.len() as int, b.len() as int).contains(k)) by {
            if later.view().contains(k) {
                let j = choose|j: int| 0 <= j < b.len() && b[j] == k;
                if j < a.len() {
                    assert(b.subrange(0, a.len() as int)[j] == b[j]);
                    assert(self.view().contains(k));
                } else {
                    assert(b.subrange(a.len() as int, b.len() as int)[j - a.len()] == k);
                }
            }
            if self.view().contains(k) {
                let j = choose|j: int| 0 <= j < a.len() && a[j] == k;
                assert(b.subrange(0, a.len() as int)[j] == b[j]);
                assert(later.view().contains(k));
            }
            if b.subrange(a.len() as int, b.len() as int).contains(k) {
                let j = choose|j: int|
                    0 <= j < b.len() - a.len() && b.subrange(a.len() as int, b.len() as int)[j] == k;
                assert(b[j + a.len()] == k);
                assert(later.view().contains(k));
            }
        }
    }

    /// The number of keys.
    pub fn key_count(&self) -> (r: usize)
        ensures
            r == self.keys().len(),
    {
        self.entries.len()
    }

    /// The keys from place `start` on, in order.
    pub fn keys_from(&self, start: usize) -> (r: Vec<Vec<char>>)
        requires
            start <= self.keys().len(),
        ensures
            views(r@) == self.keys().subrange(start as int, self.keys().len() as int),
    {
        let mut out: Vec<Vec<char>> = Vec::new();
        let mut i: usize = start;
        while i < self.entries.len()
            invariant
                start <= i <= self.entries.len(),
                views(out@) == views(self.entries@).subrange(start as int, i as int),
            decreases self.entries.len() - i,
        {
            let k = crate::text::copy_range(&self.entries[i], 0, self.entries[i].len());
            assert(k@ =~= self.entries@[i as int]@);
            let ghost before = views(out@);
            out.push(k);
            assert(views(out@) =~= before.push(self.entries@[i as int]@));
            assert(views(self.entries@).subrange(start as int, i + 1) =~= views(self.entries@).subrange(
                start as int,
                i as int,
            ).push(self.entries@[i as int]@));
            i = i + 1;
        }
        out
    }

    pub fn new() -> (r: EntityIndex)
        ensures
            r.wf(),
            r.view() == Set::<Seq<char>>::empty(),
    {
        let r = EntityIndex { entries: Vec::new() };
        assert(views(r.entries@) =~= Seq::<Seq<char>>::empty());
        assert(r.view() =~= Set::<Seq<char>>::empty());
        r
    }

    /// The number of distinct keys.
    pub fn len(&self) -> (r: usize)
        requires
            self.wf(),
        ensures
            r == self.view().len(),
    {
        proof {
            views(self.entries@).unique_seq_to_set();
        }
        self.entries.len()
    }

    pub fn contains(&self, w: &Vec<char>) -> (r: bool)
        ensures
            r == self.view().contains(w@),
    {
        holds(&self.entries, w)
    }

    fn insert(&mut self, w: Vec<char>)
        requires
            old(self).wf(),
        ensures
            final(self).wf(),
            final(self).view() == old(self).view().insert(w@),
            grows(old(self).keys(), final(self).keys()),
    {
        let ghost wv = w@;
        push_new(&mut self.entries, w);
        assert(self.view() =~= old(self).view().insert(wv));
        assert(self.keys().subrange(0, old(self).keys().len() as int) =~= old(self).keys());
    }

    /// Adds an entity span: its lowercase form and each of its words.
    pub fn add_span(&mut self, span: &Vec<char>)
        requires
            old(self).wf(),
        ensures
            final(self).wf(),
            final(self).view() == old(self).view().union(span_keys(span@)),
            grows(old(self).keys(), final(self).keys()),
    {
        let lower = to_lower(span);
        let words = split_words(&lower);
        let ghost ws = ws_words(lower@);
        let ghost start = self.view();
        let ghost start_keys = self.keys();
        self.insert(lower);
        let mut i: usize = 0;
        while i < words.len()
            invariant
                i <= words.len(),
                self.wf(),
                grows(start_keys, self.keys()),
                views(words@) == ws,
                self.view() == start.insert(lower_of(span@)).union(ws.subrange(0, i as int).to_set()),
            decreases words.len() - i,
        {
            let w = crate::text::copy_range(&words[i], 0, words[i].len());
            assert(w@ =~= ws[i as int]);
            let ghost mid = self.keys();
            self.insert(w);
            proof {
                lemma_grows_trans(start_keys, mid, self.keys());
            }
            assert(ws.subrange(0, i + 1) =~= ws.subrange(0, i as int).push(ws[i as int]));
            assert(ws.subrange(0, i + 1).to_set() =~= ws.subrange(0, i as int).to_set().insert(ws[i as int])) by {
                ws.subrange(0, i as int).lemma_push_to_set_commute(ws[i as int]);
            }
            assert(self.view() =~= start.insert(lower_of(span@)).union(
                ws.subrange(0, i + 1).to_set(),
            ));
            i = i + 1;
        }
        assert(ws.subrange(0, i as int) =~= ws);
        assert(self.view() =~= start.union(span_keys(span@)));
    }

    /// Adds every span that the entity model returned for a batch.
    pub fn add_spans(&mut self, spans: &Vec<Vec<char>>)
        requires
            old(self).wf(),
        ensures
            final(self).wf(),
            forall|k: Seq<char>| #[trigger] final(self).view().contains(k) <==> (old(self).view().contains(k)
                || exists|j: int| 0 <= j < spans@.len() && #[trigger] span_keys(spans@[j]@).contains(k)),
            grows(old(self).keys(), final(self).keys()),
    {
        let ghost start = self.view();
        let ghost start_keys = self.keys();
        assert(start_keys.subrange(0, start_keys.len() as int) =~= start_keys);
        let mut i: usize = 0;
        while i < spans.len()
            invariant
                i <= spans.len(),
                self.wf(),
                grows(start_keys, self.keys()),
                forall|k: Seq<char>| #[trigger] self.view().contains(k) <==> (start.contains(k)
                    || exists|j: int| 0 <= j < i && #[trigger] span_keys(spans@[j]@).contains(k)),
            decreases spans.len() - i,
        {
            let ghost before = self.view();
            let ghost mid = self.keys();
            self.add_span(&spans[i]);
            proof {
                lemma_grows_trans(start_keys, mid, self.keys());
            }
            assert forall|k: Seq<char>| #[trigger] self.view().contains(k) <==> (start.contains(k)
                || exists|j: int| 0 <= j < i + 1 && #[trigger] span_keys(spans@[j]@).contains(k)) by {
                if span_keys(spans@[i as int]@).contains(k) {
                    assert(exists|j: int| 0 <= j < i + 1 && #[trigger] span_keys(spans@[j]@).contains(k));
                }
                if exists|j: int| 0 <= j < i + 1 && #[trigger] span_keys(spans@[j]@).contains(k) {
                    let j = choose|j: int| 0 <= j < i + 1 && #[trigger] span_keys(spans@[j]@).contains(k);
                    if j < i {
                        assert(before.contains(k));
                    }
                }
            }
            i = i + 1;
        }
    }
}

/// The stem or a surface form of `g` is in the index.
pub open spec fn names_entity(index: Set<Seq<char>>, g: StemGroup) -> bool {
    index.contains(g.stem@) || exists|i: int|
        0 <= i < g.surface_forms@.len() && index.contains(#[trigger] g.surface_forms@[i]@)
}

impl EntityIndex {
    /// What of `g` is in the index: its stem if that is, else the first
    /// surface form that is.
    pub fn entity_match(&self, g: &StemGroup) -> (r: Option<Vec<char>>)
        ensures
            r is Some <==> names_entity(self.view(), *g),
            r is Some ==> self.view().contains(r->Some_0@),
    {
        if self.contains(&g.stem) {
            let st = crate::text::copy_range(&g.stem, 0, g.stem.len());
            assert(st@ =~= g.stem@);
            return Some(st);
        }
        let mut i: usize = 0;
        while i < g.surface_forms.len()
            invariant
                i <= g.surface_forms.len(),
                !self.view().contains(g.stem@),
                forall|j: int| 0 <= j < i ==> !self.view().contains(#[trigger] g.surface_forms@[j]@),
            decreases g.surface_forms.len() - i,
        {
            if self.contains(&g.surface_forms[i]) {
                let f = crate::text::copy_range(&g.surface_forms[i], 0, g.surface_forms[i].len());
                assert(f@ =~= g.surface_forms@[i as int]@);
                return Some(f);
            }
            i = i + 1;
        }
        None
    }
}

} // verus!
