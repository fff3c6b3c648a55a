//! One analysis run, stage by stage.
//!
//! A run is prepared (sentences, stem groups, frequency and malformed-word
//! filters), then fed the entity model's findings batch by batch, then
//! finished (entity filter, scoring, ranking). The caller runs the entity
//! model between the steps; every step that can be cancelled checks the
//! shared flag first.
use crate::candidates::{
    add_sentences, groups_wf, models, sentence_covered, valid_form, with_sentences, GroupView,
    StemGroup,
};
use crate::candidates::push_new;
use crate::entities::{names_entity, span_keys, EntityIndex};
use crate::malformed::needs_segmenter;
use crate::filter::survivors;
use crate::lexicon::{chars_of, string_of, Segmenter};
use crate::pipeline::NlpPipeline;
use crate::progress::{
    decimal, decimal_of, AnalysisError, AnalysisProgress, AnalysisStats, ProgressLog, ProgressSink, SampleWord,
};
use crate::ranking::{rank, ranked, scored, sorted_by_score, HardWord};
use crate::text::{copy_range, sentences_of, split_sentences, views};
use std::sync::atomic::{AtomicBool, Ordering};
use vstd::prelude::*;
use wordfreq::WordFreq;

verus! {

/// Sentences sent to the entity model in one batch.
pub const BATCH_SIZE: usize = 64;

/// Sentences tokenised between two looks at the cancellation flag.
pub const CHECK_EVERY: usize = 100;

/// Sentences this long or longer are not sent to the entity model.
pub const MAX_ENTITY_SENTENCE: usize = 512;

/// The stem groups of a text, its sentences taken in order.
pub open spec fn text_groups(text: Seq<char>) -> Seq<GroupView> {
    with_sentences(seq![], sentences_of(text))
}

/// The candidates of a text: the surviving groups of its grouping, which is
/// well formed and covers every word of every sentence.
pub open spec fn candidates_of(
    wf: WordFreq,
    seg: Option<Segmenter>,
    text: Seq<char>,
    threshold: u32,
    cs: Seq<StemGroup>,
) -> bool {
    exists|gs: Seq<StemGroup>|
        groups_wf(gs) && models(gs) == text_groups(text) && (forall|i: int|
            0 <= i < sentences_of(text).len() ==> sentence_covered(gs, #[trigger] sentences_of(text)[i]))
            && cs == survivors(wf, seg, gs, threshold)
}

/// Some surface form of the text's words needs the segmentation dictionary.
pub open spec fn text_needs_segmenter(wf: WordFreq, text: Seq<char>) -> bool {
    exists|k: int, i: int|
        0 <= k < text_groups(text).len() && 0 <= i < text_groups(text)[k].2.len()
            && needs_segmenter(wf, #[trigger] text_groups(text)[k].2[i])
}

/// Whether some surface form of the groups needs the segmentation dictionary.
fn groups_need_segmenter(pipe: &NlpPipeline, groups: &Vec<StemGroup>) -> (r: bool)
    ensures
        r == exists|k: int, i: int|
            0 <= k < models(groups@).len() && 0 <= i < models(groups@)[k].2.len() && needs_segmenter(
                pipe.dictionary(),
                #[trigger] models(groups@)[k].2[i],
            ),
{
    let ghost ms = models(groups@);
    let mut k: usize = 0;
    while k < groups.len()
        invariant
            k <= groups.len(),
            ms == models(groups@),
            forall|a: int, i: int|
                0 <= a < k && 0 <= i < ms[a].2.len() ==> !needs_segmenter(
                    pipe.dictionary(),
                    #[trigger] ms[a].2[i],
                ),
        decreases groups.len() - k,
    {
        let forms = &groups[k].surface_forms;
        assert(ms[k as int].2 == views(forms@));
        let mut i: usize = 0;
        while i < forms.len()
            invariant
                i <= forms.len(),
                k < groups.len(),
                ms == models(groups@),
                ms[k as int].2 == views(forms@),
                forall|a: int, j: int|
                    0 <= a < k && 0 <= j < ms[a].2.len() ==> !needs_segmenter(
                        pipe.dictionary(),
                        #[trigger] ms[a].2[j],
                    ),
                forall|j: int| 0 <= j < i ==> !needs_segmenter(pipe.dictionary(), #[trigger] ms[k as int].2[j]),
            decreases forms.len() - i,
        {
            assert(ms[k as int].2[i as int] == forms@[i as int]@);
            if pipe.needs_segmenter_for(&forms[i]) {
                return true;
            }
            i = i + 1;
        }
        k = k + 1;
    }
    false
}

/// A sentence that the entity model is to see: one where a candidate was
/// capitalised inside the sentence, short enough.
pub open spec fn entity_sentence(cs: Seq<StemGroup>, s: Seq<char>) -> bool {
    s.len() < MAX_ENTITY_SENTENCE && exists|i: int|
        0 <= i < cs.len() && (#[trigger] cs[i]).needs_entity_check && views(
            cs[i].entity_check_contexts@,
        ).contains(s)
}

pub open spec fn needs_entities(cs: Seq<StemGroup>) -> bool {
    exists|i: int| 0 <= i < cs.len() && (#[trigger] cs[i]).needs_entity_check
}

/// The candidates that no entity names, in order.
pub open spec fn not_entities(index: Set<Seq<char>>, cs: Seq<StemGroup>) -> Seq<StemGroup>
    decreases cs.len(),
{
    if cs.len() == 0 {
        cs
    } else {
        let k = not_entities(index, cs.drop_last());
        if names_entity(index, cs.last()) {
            k
        } else {
            k.push(cs.last())
        }
    }
}

/// The detail of a batch event: sentences done, of how many, and names
/// found so far.
pub open spec fn batch_detail(done: nat, total: nat, found: nat) -> Seq<char> {
    decimal_of(done) + " of "@ + decimal_of(total) + " sentences, "@ + decimal_of(found)
        + " names found"@
}

/// The sample words of a batch event: the names found in this batch, each
/// marked as an entity, then every candidate word that the entity model is
/// to judge, marked by whether the index now holds it.
pub open spec fn batch_samples(
    sw: Seq<SampleWord>,
    recent: Seq<Seq<char>>,
    words: Seq<Seq<char>>,
    index: Set<Seq<char>>,
) -> bool {
    &&& sw.len() == recent.len() + words.len()
    &&& forall|i: int| 0 <= i < recent.len() ==> (#[trigger] sw[i]).word@ == recent[i] && sw[i].is_entity
    &&& forall|j: int|
        0 <= j < words.len() ==> (#[trigger] sw[recent.len() + j]).word@ == words[j] && sw[recent.len()
            + j].is_entity == index.contains(words[j])
}

/// A run between its preparation and its end.
pub struct PreparedAnalysis {
    candidates: Vec<StemGroup>,
    entity_sentences: Vec<Vec<char>>,
    candidate_words: Vec<Vec<char>>,
    index: EntityIndex,
    processed: usize,
}

impl PreparedAnalysis {
    pub closed spec fn candidates(&self) -> Seq<StemGroup> {
        self.candidates@
    }

    pub closed spec fn entity_sentences(&self) -> Seq<Seq<char>> {
        views(self.entity_sentences@)
    }

    /// The entity names found so far.
    pub closed spec fn index(&self) -> Set<Seq<char>> {
        self.index.view()
    }

    /// The index's keys in the order they came in.
    pub closed spec fn index_keys(&self) -> Seq<Seq<char>> {
        self.index.keys()
    }

    /// The candidate words that the entity model is to judge.
    pub closed spec fn candidate_words(&self) -> Seq<Seq<char>> {
        views(self.candidate_words@)
    }

    /// How many of the entity sentences went through the model.
    pub closed spec fn processed(&self) -> nat {
        self.processed as nat
    }

    pub closed spec fn wf(&self) -> bool {
        &&& groups_wf(self.candidates@)
        &&& self.index.wf()
        &&& self.processed <= self.entity_sentences@.len()
        &&& views(self.entity_sentences@).no_duplicates()
        &&& forall|s: Seq<char>|
            #[trigger] views(self.entity_sentences@).contains(s) <==> entity_sentence(
                self.candidates@,
                s,
            )
    }

    /// Whether some candidate needs the entity model.
    pub fn needs_entity_model(&self) -> (r: bool)
        ensures
            r == needs_entities(self.candidates()),
    {
        let mut i: usize = 0;
        while i < self.candidates.len()
            invariant
                i <= self.candidates.len(),
                forall|j: int| 0 <= j < i ==> !(#[trigger] self.candidates@[j]).needs_entity_check,
            decreases self.candidates.len() - i,
        {
            if self.candidates[i].needs_entity_check {
                return true;
            }
            i = i + 1;
        }
        false
    }

    /// The run fails rather than let names through when candidates need the
    /// entity model and it is not available.
    pub fn require_entity_model(&self, available: bool) -> (r: Result<(), AnalysisError>)
        ensures
            r is Err <==> needs_entities(self.candidates()) && !available,
            r is Err ==> r == Err::<(), AnalysisError>(AnalysisError::ResourceUnavailable),
    {
        if self.needs_entity_model() && !available {
            Err(AnalysisError::ResourceUnavailable)
        } else {
            Ok(())
        }
    }

    /// The number of sentences for the entity model.
    pub fn entity_sentence_count(&self) -> (r: usize)
        ensures
            r == self.entity_sentences().len(),
    {
        self.entity_sentences.len()
    }

    /// Whether sentences remain for the entity model.
    pub fn has_pending_batch(&self) -> (r: bool)
        requires
            self.wf(),
        ensures
            r == (self.processed() < self.entity_sentences().len()),
    {
        self.processed < self.entity_sentences.len()
    }

    /// Where the next batch ends: at most `BATCH_SIZE` sentences on.
    pub closed spec fn batch_end(&self) -> int {
        if self.entity_sentences@.len() - self.processed > BATCH_SIZE {
            self.processed + BATCH_SIZE
        } else {
            self.entity_sentences@.len() as int
        }
    }

    /// The next batch of sentences for the entity model.
    pub fn next_batch(&self) -> (r: Vec<String>)
        requires
            self.wf(),
        ensures
            r@.map_values(|s: String| s@) == self.entity_sentences().subrange(
                self.processed() as int,
                self.batch_end(),
            ),
            r@.len() <= BATCH_SIZE,
            forall|i: int| 0 <= i < r@.len() ==> (#[trigger] r@[i])@.len() < MAX_ENTITY_SENTENCE,
    {
        let n = self.entity_sentences.len();
        let end = if n - self.processed > BATCH_SIZE {
            self.processed + BATCH_SIZE
        } else {
            n
        };
        let mut out: Vec<String> = Vec::new();
        let mut i: usize = self.processed;
        while i < end
            invariant
                self.processed <= i <= end <= n,
                n == self.entity_sentences@.len(),
                end == self.batch_end(),
                out@.map_values(|s: String| s@) == views(self.entity_sentences@).subrange(
                    self.processed as int,
                    i as int,
                ),
            decreases end - i,
        {
            let s = string_of(&self.entity_sentences[i]);
            let ghost before = out@.map_values(|s: String| s@);
            out.push(s);
            assert(out@.map_values(|s: String| s@) =~= before.push(self.entity_sentences@[i as int]@));
            assert(views(self.entity_sentences@).subrange(self.processed as int, i + 1) =~= views(
                self.entity_sentences@,
            ).subrange(self.processed as int, i as int).push(self.entity_sentences@[i as int]@));
            i = i + 1;
        }
        proof {
            let es = views(self.entity_sentences@);
            assert forall|k: int| 0 <= k < out@.len() implies (#[trigger] out@[k])@.len()
                < MAX_ENTITY_SENTENCE by {
                assert(out@.map_values(|s: String| s@)[k] == out@[k]@);
                assert(es[self.processed + k] == out@[k]@);
                assert(es.contains(out@[k]@));
            }
        }
        out
    }

    /// Looks at the cancellation flag, then gives the next batch for the
    /// entity model. With no flag it cannot be cancelled.
    pub fn start_batch(&self, cancel: Option<&AtomicBool>) -> (r: Result<Vec<String>, AnalysisError>)
        requires
            self.wf(),
        ensures
            cancel is None ==> r is Ok,
            r is Err ==> r == Err::<Vec<String>, AnalysisError>(AnalysisError::Cancelled),
            r is Ok ==> r->Ok_0@.map_values(|s: String| s@) == self.entity_sentences().subrange(
                self.processed() as int,
                self.batch_end(),
            ),
            r is Ok ==> r->Ok_0@.len() <= BATCH_SIZE,
            r is Ok ==> forall|i: int|
                0 <= i < r->Ok_0@.len() ==> (#[trigger] r->Ok_0@[i])@.len() < MAX_ENTITY_SENTENCE,
    {
        match checkpoint(cancel) {
            Err(e) => Err(e),
            Ok(()) => Ok(self.next_batch()),
        }
    }

    /// The percent done while the entity model works: 45, plus 35 times the
    /// share of the sentences it has seen.
    pub open spec fn batch_percent(&self) -> int {
        if self.entity_sentences().len() > 0 {
            45 + (self.processed() * 35) as int / self.entity_sentences().len() as int
        } else {
            45
        }
    }

    /// Progress event before a batch goes to the entity model.
    pub fn batch_started_event(&self) -> (r: AnalysisProgress)
        requires
            self.wf(),
        ensures
            45 <= r.progress <= 80,
            r.progress as int == self.batch_percent(),
    {
        let n = self.entity_sentences.len();
        let p = percent_between(45, 35, self.processed, n);
        assert(self.entity_sentences().len() == n);
        let mut d = decimal(self.processed as u64);
        let mut b = chars_of(" of ");
        d.append(&mut b);
        let mut c = decimal(n as u64);
        d.append(&mut c);
        let mut e = chars_of(" sentences done, processing the next batch");
        d.append(&mut e);
        AnalysisProgress {
            stage: "Filtering names & places".to_owned(),
            progress: p,
            detail: Some(string_of(&d)),
            sample_words: None,
        }
    }

    /// Takes in the entity spans that the model found in the batch that
    /// `next_batch` gave (none where the model failed on it), and reports
    /// progress.
    pub fn absorb_batch(&mut self, spans: &Vec<String>) -> (r: AnalysisProgress)
        requires
            old(self).wf(),
            old(self).processed() < old(self).entity_sentences().len(),
        ensures
            final(self).wf(),
            final(self).candidates() == old(self).candidates(),
            final(self).entity_sentences() == old(self).entity_sentences(),
            final(self).processed() == old(self).batch_end(),
            old(self).processed() < final(self).processed() <= final(self).entity_sentences().len(),
            final(self).processed() == final(self).entity_sentences().len() || final(self).processed()
                == old(self).processed() + BATCH_SIZE,
            forall|k: Seq<char>| #[trigger] final(self).index().contains(k) <==> (old(
                self,
            ).index().contains(k) || exists|j: int|
                0 <= j < spans@.len() && #[trigger] span_keys(spans@[j]@).contains(k)),
            45 <= r.progress <= 80,
            r.progress as int == final(self).batch_percent(),
            old(self).batch_percent() <= final(self).batch_percent(),
            r.stage@ == "Filtering names & places"@,
            r.detail is Some,
            r.detail->Some_0@ == batch_detail(
                final(self).processed(),
                final(self).entity_sentences().len(),
                final(self).index().len(),
            ),
            final(self).candidate_words() == old(self).candidate_words(),
            old(self).index_keys().len() <= final(self).index_keys().len(),
            forall|i: int|
                old(self).index_keys().len() <= i < final(self).index_keys().len() ==> !old(
                    self,
                ).index().contains(#[trigger] final(self).index_keys()[i]),
            forall|k: Seq<char>| #[trigger] final(self).index().contains(k) <==> (old(
                self,
            ).index().contains(k) || final(self).index_keys().subrange(
                old(self).index_keys().len() as int,
                final(self).index_keys().len() as int,
            ).contains(k)),
            r.sample_words is Some,
            batch_samples(
                r.sample_words->Some_0@,
                final(self).index_keys().subrange(
                    old(self).index_keys().len() as int,
                    final(self).index_keys().len() as int,
                ),
                final(self).candidate_words(),
                final(self).index(),
            ),
    {
        let mut cs: Vec<Vec<char>> = Vec::new();
        let mut i: usize = 0;
        while i < spans.len()
            invariant
                i <= spans.len(),
                cs@.len() == i,
                forall|j: int| 0 <= j < i ==> (#[trigger] cs@[j])@ == spans@[j]@,
            decreases spans.len() - i,
        {
            cs.push(chars_of(spans[i].as_str()));
            i = i + 1;
        }
        let ghost before = self.index.view();
        let ghost old_index = self.index;
        let start = self.index.key_count();
        self.index.add_spans(&cs);
        proof {
            old_index.lemma_new_keys(&self.index);
            assert forall|k: Seq<char>| #[trigger] self.index.view().contains(k) <==> (before.contains(k)
                || exists|j: int| 0 <= j < spans@.len() && #[trigger] span_keys(spans@[j]@).contains(k)) by {
                if exists|j: int| 0 <= j < spans@.len() && #[trigger] span_keys(spans@[j]@).contains(k) {
                    let j = choose|j: int| 0 <= j < spans@.len() && #[trigger] span_keys(spans@[j]@).contains(k);
                    assert(span_keys(cs@[j]@).contains(k));
                }
                if exists|j: int| 0 <= j < cs@.len() && #[trigger] span_keys(cs@[j]@).contains(k) {
                    let j = choose|j: int| 0 <= j < cs@.len() && #[trigger] span_keys(cs@[j]@).contains(k);
                    assert(span_keys(spans@[j]@).contains(k));
                }
            }
        }
        let n = self.entity_sentences.len();
        let before_processed = self.processed;
        self.processed = if n - self.processed > BATCH_SIZE {
            self.processed + BATCH_SIZE
        } else {
            n
        };
        let p = percent_between(45, 35, self.processed, n);
        proof {
            let a = before_processed as int;
            let b = self.processed as int;
            let m = n as int;
            assert((a * 35) / m <= (b * 35) / m) by (nonlinear_arith)
                requires
                    0 <= a <= b,
                    m > 0,
            ;
            assert(self.entity_sentences().len() == n);
        }
        let recent = self.index.keys_from(start);
        let ghost rk = views(recent@);
        let mut states: Vec<SampleWord> = Vec::new();
        let mut j: usize = 0;
        while j < recent.len()
            invariant
                j <= recent.len(),
                rk == views(recent@),
                states@.len() == j,
                forall|i: int| 0 <= i < j ==> (#[trigger] states@[i]).word@ == rk[i] && states@[i].is_entity,
            decreases recent.len() - j,
        {
            states.push(SampleWord { word: string_of(&recent[j]), is_entity: true });
            j = j + 1;
        }
        let ghost cw = views(self.candidate_words@);
        let mut j: usize = 0;
        while j < self.candidate_words.len()
            invariant
                j <= self.candidate_words.len(),
                cw == views(self.candidate_words@),
                self.index.wf(),
                states@.len() == rk.len() + j,
                forall|i: int| 0 <= i < rk.len() ==> (#[trigger] states@[i]).word@ == rk[i] && states@[i].is_entity,
                forall|i: int|
                    0 <= i < j ==> (#[trigger] states@[rk.len() + i]).word@ == cw[i] && states@[rk.len()
                        + i].is_entity == self.index.view().contains(cw[i]),
            decreases self.candidate_words.len() - j,
        {
            let e = self.index.contains(&self.candidate_words[j]);
            let ghost before_states = states@;
            states.push(SampleWord { word: string_of(&self.candidate_words[j]), is_entity: e });
            assert forall|i: int| 0 <= i < rk.len() implies (#[trigger] states@[i]).word@ == rk[i]
                && states@[i].is_entity by {
                assert(states@[i] == before_states[i]);
            }
            assert forall|i: int|
                0 <= i < j + 1 implies (#[trigger] states@[rk.len() + i]).word@ == cw[i]
                    && states@[rk.len() + i].is_entity == self.index.view().contains(cw[i]) by {
                if i < j {
                    assert(states@[rk.len() + i] == before_states[rk.len() + i]);
                }
            }
            j = j + 1;
        }
        let found = self.index.len();
        let mut d = decimal(self.processed as u64);
        let mut a = chars_of(" of ");
        d.append(&mut a);
        let mut b = decimal(n as u64);
        d.append(&mut b);
        let mut c = chars_of(" sentences, ");
        d.append(&mut c);
        let mut e = decimal(found as u64);
        d.append(&mut e);
        let mut f = chars_of(" names found");
        d.append(&mut f);
        AnalysisProgress {
            stage: "Filtering names & places".to_owned(),
            progress: p,
            detail: Some(string_of(&d)),
            sample_words: Some(states),
        }
    }

    /// Progress event before the entity model is loaded: the words it will judge.
    pub fn loading_model_event(&self) -> (r: AnalysisProgress)
        ensures
            r.progress == 42,
    {
        let mut d = decimal(self.candidate_words.len() as u64);
        let mut a = chars_of(" words to check");
        d.append(&mut a);
        AnalysisProgress {
            stage: "Loading NER model".to_owned(),
            progress: 42,
            detail: Some(string_of(&d)),
            sample_words: Some(self.candidate_samples()),
        }
    }

    /// Progress event once the entity model is ready.
    pub fn model_ready_event(&self) -> (r: AnalysisProgress)
        ensures
            r.progress == 44,
    {
        AnalysisProgress {
            stage: "Filtering names & places".to_owned(),
            progress: 44,
            detail: Some("NER model ready, processing...".to_owned()),
            sample_words: Some(self.candidate_samples()),
        }
    }

    /// Progress event where no candidate needs the entity model.
    pub fn no_entity_check_event(&self) -> (r: AnalysisProgress)
        ensures
            r.progress == 80,
    {
        AnalysisProgress {
            stage: "Filtering names & places".to_owned(),
            progress: 80,
            detail: Some("No proper noun candidates".to_owned()),
            sample_words: None,
        }
    }

    fn candidate_samples(&self) -> Vec<SampleWord> {
        let mut out: Vec<SampleWord> = Vec::new();
        let mut j: usize = 0;
        while j < self.candidate_words.len()
            invariant
                j <= self.candidate_words.len(),
            decreases self.candidate_words.len() - j,
        {
            out.push(SampleWord { word: string_of(&self.candidate_words[j]), is_entity: false });
            j = j + 1;
        }
        out
    }
}

/// `base` plus the share `done / total` of `span`, rounded down.
fn percent_between(base: u8, span: u8, done: usize, total: usize) -> (r: u8)
    requires
        done <= total,
        base as int + span as int <= 100,
    ensures
        base <= r <= base + span,
        total > 0 ==> r as int == base as int + (done as int * span as int) / total as int,
        total == 0 ==> r == base,
{
    if total == 0 {
        return base;
    }
    proof {
        let d = done as int;
        let sp = span as int;
        let t = total as int;
        assert(d * sp <= t * sp) by (nonlinear_arith)
            requires
                0 <= d <= t,
                0 <= sp,
        ;
        assert(0 <= d * sp) by (nonlinear_arith)
            requires
                0 <= d,
                0 <= sp,
        ;
        assert((d * sp) / t <= sp) by (nonlinear_arith)
            requires
                d * sp <= t * sp,
                t > 0,
                0 <= d * sp,
        ;
        assert(d * sp <= 0xffff_ffff_ffff_ffff * 0xff) by (nonlinear_arith)
            requires
                0 <= d <= 0xffff_ffff_ffff_ffff,
                0 <= sp <= 0xff,
        ;
    }
    let share: u128 = (done as u128) * (span as u128) / (total as u128);
    base + share as u8
}

/// Returns `Cancelled` where there is a flag and it is set.
pub fn checkpoint(cancel: Option<&AtomicBool>) -> (r: Result<(), AnalysisError>)
    ensures
        r is Err ==> r == Err::<(), AnalysisError>(AnalysisError::Cancelled),
        cancel is None ==> r is Ok,
{
    match cancel {
        Some(flag) => cancel_outcome(flag.load(Ordering::SeqCst)),
        None => Ok(()),
    }
}

/// What a look at the cancellation flag decides: `Cancelled` exactly when
/// it was seen set.
pub fn cancel_outcome(set: bool) -> (r: Result<(), AnalysisError>)
    ensures
        set ==> r == Err::<(), AnalysisError>(AnalysisError::Cancelled),
        !set ==> r is Ok,
{
    if set {
        Err(AnalysisError::Cancelled)
    } else {
        Ok(())
    }
}

/// Adds to `es` each context of `ctxs` shorter than the entity-model limit.
fn add_entity_contexts(es: &mut Vec<Vec<char>>, ctxs: &Vec<Vec<char>>)
    requires
        views(old(es)@).no_duplicates(),
    ensures
        views(final(es)@).no_duplicates(),
        forall|s: Seq<char>| #[trigger] views(final(es)@).contains(s) <==> (views(old(es)@).contains(s)
            || (s.len() < MAX_ENTITY_SENTENCE && views(ctxs@).contains(s))),
{
    let ghost start = views(es@);
    let mut j: usize = 0;
    while j < ctxs.len()
        invariant
            j <= ctxs.len(),
            views(es@).no_duplicates(),
            forall|s: Seq<char>| #[trigger] views(es@).contains(s) <==> (start.contains(s) || (s.len()
                < MAX_ENTITY_SENTENCE && views(ctxs@).subrange(0, j as int).contains(s))),
        decreases ctxs.len() - j,
    {
        let ghost before = views(es@);
        let ghost c = ctxs@[j as int]@;
        assert(views(ctxs@).subrange(0, j + 1) =~= views(ctxs@).subrange(0, j as int).push(c));
        if ctxs[j].len() < MAX_ENTITY_SENTENCE {
            let x = copy_range(&ctxs[j], 0, ctxs[j].len());
            assert(x@ =~= c);
            push_new(es, x);
        }
        assert forall|s: Seq<char>| #[trigger] views(es@).contains(s) <==> (start.contains(s) || (s.len()
            < MAX_ENTITY_SENTENCE && views(ctxs@).subrange(0, j + 1).contains(s))) by {
            if views(ctxs@).subrange(0, j + 1).contains(s) && s != c {
                let k = choose|k: int| 0 <= k < j + 1 && #[trigger] views(ctxs@).subrange(0, j + 1)[k] == s;
                assert(views(ctxs@).subrange(0, j as int)[k] == s);
            }
            if views(ctxs@).subrange(0, j as int).contains(s) {
                let k = choose|k: int| 0 <= k < j && #[trigger] views(ctxs@).subrange(0, j as int)[k] == s;
                assert(views(ctxs@).subrange(0, j + 1)[k] == s);
            }
            if s == c {
                assert(views(ctxs@).subrange(0, j + 1)[j as int] == s);
            }
        }
        j = j + 1;
    }
    assert(views(ctxs@).subrange(0, j as int) =~= views(ctxs@));
}

/// The distinct sentences that the entity model is to see.
fn collect_entity_sentences(cs: &Vec<StemGroup>) -> (r: Vec<Vec<char>>)
    ensures
        views(r@).no_duplicates(),
        forall|s: Seq<char>| #[trigger] views(r@).contains(s) <==> entity_sentence(cs@, s),
{
    let mut es: Vec<Vec<char>> = Vec::new();
    let mut i: usize = 0;
    assert(views(es@) =~= Seq::<Seq<char>>::empty());
    while i < cs.len()
        invariant
            i <= cs.len(),
            views(es@).no_duplicates(),
            forall|s: Seq<char>| #[trigger] views(es@).contains(s) <==> (s.len() < MAX_ENTITY_SENTENCE
                && exists|k: int|
                0 <= k < i && (#[trigger] cs@[k]).needs_entity_check && views(
                    cs@[k].entity_check_contexts@,
                ).contains(s)),
        decreases cs.len() - i,
    {
        if cs[i].needs_entity_check {
            add_entity_contexts(&mut es, &cs[i].entity_check_contexts);
        }
        assert forall|s: Seq<char>| #[trigger] views(es@).contains(s) <==> (s.len() < MAX_ENTITY_SENTENCE
            && exists|k: int|
            0 <= k < i + 1 && (#[trigger] cs@[k]).needs_entity_check && views(
                cs@[k].entity_check_contexts@,
            ).contains(s)) by {
            if s.len() < MAX_ENTITY_SENTENCE && exists|k: int|
                0 <= k < i + 1 && (#[trigger] cs@[k]).needs_entity_check && views(
                    cs@[k].entity_check_contexts@,
                ).contains(s) {
                let k = choose|k: int|
                    0 <= k < i + 1 && (#[trigger] cs@[k]).needs_entity_check && views(
                        cs@[k].entity_check_contexts@,
                    ).contains(s);
                if k < i {
                    assert(exists|k: int|
                        0 <= k < i && (#[trigger] cs@[k]).needs_entity_check && views(
                            cs@[k].entity_check_contexts@,
                        ).contains(s));
                }
            }
        }
        i = i + 1;
    }
    es
}

/// The distinct surface forms of the candidates that need the entity model.
fn collect_candidate_words(cs: &Vec<StemGroup>) -> (r: Vec<Vec<char>>)
    ensures
        views(r@).no_duplicates(),
{
    let mut ws: Vec<Vec<char>> = Vec::new();
    assert(views(ws@) =~= Seq::<Seq<char>>::empty());
    let mut i: usize = 0;
    while i < cs.len()
        invariant
            i <= cs.len(),
            views(ws@).no_duplicates(),
        decreases cs.len() - i,
    {
        if cs[i].needs_entity_check {
            let forms = &cs[i].surface_forms;
            let mut j: usize = 0;
            while j < forms.len()
                invariant
                    j <= forms.len(),
                    views(ws@).no_duplicates(),
                decreases forms.len() - j,
            {
                let f = copy_range(&forms[j], 0, forms[j].len());
                push_new(&mut ws, f);
                j = j + 1;
            }
        }
        i = i + 1;
    }
    ws
}

fn event(stage: &str, progress: u8, detail: Vec<char>) -> (r: AnalysisProgress)
    ensures
        r.progress == progress,
        r.stage@ == stage@,
{
    AnalysisProgress {
        stage: stage.to_owned(),
        progress,
        detail: Some(string_of(&detail)),
        sample_words: None,
    }
}

fn counted(n: usize, what: &str) -> Vec<char> {
    let mut d = decimal(n as u64);
    let mut w = chars_of(what);
    d.append(&mut w);
    d
}

impl NlpPipeline {
    /// Splits the text, groups its words by stem and keeps the rare, known,
    /// well-formed ones as candidates, with the sentences that the entity
    /// model is to see. With no flag the run cannot be cancelled.
    pub fn prepare<S: ProgressSink>(
        &self,
        text: &str,
        threshold: u32,
        cancel: Option<&AtomicBool>,
        log: &mut ProgressLog<S>,
    ) -> (r: Result<PreparedAnalysis, AnalysisError>)
        requires
            self.wf(),
            old(log).last() <= 20,
        ensures
            old(log).last() <= final(log).last() <= 40,
            old(log).count() == 0 && final(log).count() > 0 ==> final(log).first_stage()
                == "Analyzing text"@,
            r is Ok ==> final(log).last_stage() == "Filtering names & places"@,
            r is Ok ==> final(log).last() == 40,
            cancel is None ==> (r is Err <==> self.segmenter() is None && text_needs_segmenter(
                self.dictionary(),
                text@,
            )),
            cancel is None && r is Err ==> r == Err::<PreparedAnalysis, AnalysisError>(
                AnalysisError::ResourceUnavailable,
            ),
            r is Err ==> r == Err::<PreparedAnalysis, AnalysisError>(AnalysisError::Cancelled) || (r
                == Err::<PreparedAnalysis, AnalysisError>(AnalysisError::ResourceUnavailable)
                && self.segmenter() is None && text_needs_segmenter(self.dictionary(), text@)),
            r is Ok ==> r->Ok_0.wf() && r->Ok_0.processed() == 0 && r->Ok_0.index() == Set::<
                Seq<char>,
            >::empty() && candidates_of(
                self.dictionary(),
                self.segmenter(),
                text@,
                threshold,
                r->Ok_0.candidates(),
            ),
    {
        if let Err(e) = checkpoint(cancel) {
            return Err(e);
        }
        let chars = chars_of(text);
        let sentences = split_sentences(&chars);
        log.report(event("Analyzing text", 20, counted(sentences.len(), " sentences")));
        let mut groups: Vec<StemGroup> = Vec::new();
        let n = sentences.len();
        assert(models(groups@) =~= seq![]);
        assert(views(sentences@).subrange(0, 0) =~= Seq::<Seq<char>>::empty());
        let mut i: usize = 0;
        while i < n
            invariant
                i <= n,
                n == sentences@.len(),
                views(sentences@) == sentences_of(chars@),
                chars@ == text@,
                old(log).last() <= 20,
                log.last() == 20,
                log.count() > 0,
                old(log).count() == 0 ==> log.first_stage() == "Analyzing text"@,
                groups_wf(groups@),
                forall|k: int| 0 <= k < i ==> sentence_covered(groups@, #[trigger] sentences@[k]@),
                models(groups@) == with_sentences(seq![], views(sentences@).subrange(0, i as int)),
            decreases n - i,
        {
            if let Err(e) = checkpoint(cancel) {
                return Err(e);
            }
            let hi = if n - i > CHECK_EVERY {
                i + CHECK_EVERY
            } else {
                n
            };
            let ghost before = groups@;
            add_sentences(&mut groups, &sentences, i, hi);
            proof {
                crate::candidates::lemma_with_sentences_append(
                    seq![],
                    views(sentences@).subrange(0, i as int),
                    views(sentences@).subrange(i as int, hi as int),
                );
                assert(views(sentences@).subrange(0, i as int) + views(sentences@).subrange(
                    i as int,
                    hi as int,
                ) =~= views(sentences@).subrange(0, hi as int));
                assert forall|k: int| 0 <= k < hi implies sentence_covered(groups@, #[trigger] sentences@[k]@) by {
                    if k < i {
                        crate::candidates::lemma_sentence_covered_grown(before, groups@, sentences@[k]@);
                    }
                }
            }
            i = hi;
        }
        if let Err(e) = checkpoint(cancel) {
            return Err(e);
        }
        let ghost gs = groups@;
        assert(views(sentences@).subrange(0, i as int) =~= views(sentences@));
        assert(models(groups@) == text_groups(text@));
        if !self.has_segmenter() && groups_need_segmenter(self, &groups) {
            proof {
                let (k, i) = choose|k: int, i: int|
                    0 <= k < models(groups@).len() && 0 <= i < models(groups@)[k].2.len()
                        && needs_segmenter(self.dictionary(), #[trigger] models(groups@)[k].2[i]);
                assert(needs_segmenter(self.dictionary(), text_groups(text@)[k].2[i]));
            }
            return Err(AnalysisError::ResourceUnavailable);
        }
        proof {
            if self.segmenter() is None && text_needs_segmenter(self.dictionary(), text@) {
                let (k, i) = choose|k: int, i: int|
                    0 <= k < text_groups(text@).len() && 0 <= i < text_groups(text@)[k].2.len()
                        && needs_segmenter(self.dictionary(), #[trigger] text_groups(text@)[k].2[i]);
                assert(needs_segmenter(self.dictionary(), models(groups@)[k].2[i]));
            }
        }
        let candidates = self.select_candidates(groups, threshold);
        proof {
            assert forall|k: int| 0 <= k < sentences_of(text@).len() implies sentence_covered(
                gs,
                #[trigger] sentences_of(text@)[k],
            ) by {
                assert(views(sentences@)[k] == sentences@[k]@);
            }
        }
        if let Err(e) = checkpoint(cancel) {
            return Err(e);
        }
        log.report(
            event("Filtering names & places", 40, counted(candidates.len(), " candidates to check")),
        );
        let entity_sentences = collect_entity_sentences(&candidates);
        let candidate_words = collect_candidate_words(&candidates);
        let index = EntityIndex::new();
        Ok(PreparedAnalysis { candidates, entity_sentences, candidate_words, index, processed: 0 })
    }
}

/// A result fit to show: its word and variants are kept tokens (three or
/// more characters, no digit), none is an entity name, and its contexts are
/// distinct.
pub open spec fn presentable(index: Set<Seq<char>>, w: HardWord) -> bool {
    &&& valid_form(w.word@)
    &&& !index.contains(w.word@)
    &&& crate::ranking::strs(w.contexts@).no_duplicates()
    &&& forall|i: int|
        0 <= i < w.variants@.len() ==> valid_form(#[trigger] w.variants@[i]@) && !index.contains(
            w.variants@[i]@,
        )
}

/// `words` are the results made of the candidates that no entity names,
/// ranked rarest first.
pub open spec fn finished(
    wf: WordFreq,
    index: Set<Seq<char>>,
    cs: Seq<StemGroup>,
    words: Seq<HardWord>,
) -> bool {
    let kept = not_entities(index, cs);
    exists|s: Seq<HardWord>|
        s.len() == kept.len() && (forall|i: int| 0 <= i < s.len() ==> scored(wf, kept[i], #[trigger] s[i]))
            && words == ranked(s)
}

proof fn lemma_presentable(wf: WordFreq, index: Set<Seq<char>>, g: StemGroup, w: HardWord)
    requires
        g.wf(),
        !names_entity(index, g),
        scored(wf, g, w),
    ensures
        presentable(index, w),
{
    let forms = views(g.surface_forms@);
    crate::ranking::lemma_distinct_no_duplicates(
        views(g.contexts@).map_values(|c: Seq<char>| crate::ranking::shown_context(c)),
    );
    crate::ranking::lemma_display_is_form(wf, g);
    let d = crate::ranking::display_of(wf, g);
    let k = choose|k: int| 0 <= k < forms.len() && forms[k] == d;
    assert(g.surface_forms@[k]@ == d);
    crate::ranking::lemma_without_contents(forms, d);
    crate::ranking::lemma_lex_sorted_contents(crate::ranking::without(forms, d));
    assert forall|i: int| 0 <= i < w.variants@.len() implies valid_form(#[trigger] w.variants@[i]@)
        && !index.contains(w.variants@[i]@) by {
        let v = w.variants@[i]@;
        assert(crate::ranking::strs(w.variants@)[i] == v);
        assert(crate::ranking::lex_sorted(crate::ranking::without(forms, d)).contains(v));
        assert(crate::ranking::without(forms, d).contains(v));
        assert(forms.contains(v));
        let q = choose|q: int| 0 <= q < forms.len() && forms[q] == v;
        assert(g.surface_forms@[q]@ == v);
    }
}

proof fn lemma_not_entities_wf(index: Set<Seq<char>>, cs: Seq<StemGroup>)
    requires
        groups_wf(cs),
    ensures
        forall|i: int| 0 <= i < not_entities(index, cs).len() ==> (#[trigger] not_entities(index, cs)[i]).wf()
            && !names_entity(index, not_entities(index, cs)[i]),
    decreases cs.len(),
{
    if cs.len() > 0 {
        let t = cs.drop_last();
        assert(groups_wf(t)) by {
            assert forall|k: int| 0 <= k < t.len() implies (#[trigger] t[k]).wf() by {
                assert(t[k] == cs[k]);
            }
            assert forall|a: int, b: int|
                0 <= a < t.len() && 0 <= b < t.len() && a != b implies (#[trigger] t[a]).stem@ != (
                #[trigger] t[b]).stem@ by {
                assert(t[a] == cs[a] && t[b] == cs[b]);
            }
        }
        lemma_not_entities_wf(index, t);
        assert(cs[cs.len() - 1].wf());
        let k = not_entities(index, t);
        let n = not_entities(index, cs);
        assert forall|i: int| 0 <= i < n.len() implies (#[trigger] n[i]).wf() && !names_entity(index, n[i]) by {
            if i < k.len() {
                assert(n[i] == k[i]);
            } else {
                assert(n[i] == cs.last());
            }
        }
    }
}

impl PreparedAnalysis {
    /// Drops the candidates that an entity names, scores the others and ranks
    /// them rarest first. With no flag it cannot be cancelled.
    pub fn finish<S: ProgressSink>(
        self,
        pipe: &NlpPipeline,
        cancel: Option<&AtomicBool>,
        log: &mut ProgressLog<S>,
    ) -> (r: Result<(Vec<HardWord>, AnalysisStats), AnalysisError>)
        requires
            self.wf(),
            old(log).last() <= 100,
        ensures
            r is Ok ==> final(log).last() == 100,
            r is Ok ==> final(log).last_stage() == "Complete"@,
            r is Err ==> final(log).last() == old(log).last(),
            cancel is None ==> r is Ok,
            r is Err ==> r == Err::<(Vec<HardWord>, AnalysisStats), AnalysisError>(
                AnalysisError::Cancelled,
            ),
            r is Ok ==> finished(pipe.dictionary(), self.index(), self.candidates(), r->Ok_0.0@),
            r is Ok ==> sorted_by_score(r->Ok_0.0@),
            r is Ok ==> forall|i: int|
                0 <= i < r->Ok_0.0@.len() ==> presentable(self.index(), #[trigger] r->Ok_0.0@[i]),
            r is Ok ==> r->Ok_0.1.total_candidates == self.candidates().len(),
            r is Ok ==> r->Ok_0.1.hard_words_count == r->Ok_0.0@.len(),
            r is Ok ==> r->Ok_0.1.total_candidates == r->Ok_0.0@.len() + r->Ok_0.1.filtered_by_ner@.len(),
            r is Ok ==> forall|j: int|
                0 <= j < r->Ok_0.1.filtered_by_ner@.len() ==> self.index().contains(
                    (#[trigger] r->Ok_0.1.filtered_by_ner@[j])@,
                ),
    {
        if let Err(e) = checkpoint(cancel) {
            return Err(e);
        }
        let ghost wf = pipe.dictionary();
        let ghost index = self.index.view();
        let ghost cs = self.candidates@;
        proof {
            lemma_not_entities_wf(index, cs);
        }
        let mut scored_words: Vec<HardWord> = Vec::new();
        let mut filtered: Vec<String> = Vec::new();
        let mut i: usize = 0;
        while i < self.candidates.len()
            invariant
                i <= self.candidates.len(),
                wf == pipe.dictionary(),
                index == self.index.view(),
                cs == self.candidates@,
                groups_wf(cs),
                forall|j: int| 0 <= j < not_entities(index, cs).len() ==> (#[trigger] not_entities(index, cs)[j]).wf()
                    && !names_entity(index, not_entities(index, cs)[j]),
                scored_words@.len() == not_entities(index, cs.subrange(0, i as int)).len(),
                filtered@.len() + scored_words@.len() == i,
                forall|j: int| 0 <= j < filtered@.len() ==> index.contains((#[trigger] filtered@[j])@),
                forall|j: int|
                    0 <= j < scored_words@.len() ==> scored(
                        wf,
                        not_entities(index, cs.subrange(0, i as int))[j],
                        #[trigger] scored_words@[j],
                    ),
            decreases self.candidates.len() - i,
        {
            let ghost pre = cs.subrange(0, i + 1);
            assert(pre.drop_last() =~= cs.subrange(0, i as int));
            assert(pre.last() == cs[i as int]);
            let g = &self.candidates[i];
            match self.index.entity_match(g) {
                Some(m) => {
                    let ghost before = filtered@;
                    filtered.push(string_of(&m));
                    assert forall|j: int| 0 <= j < filtered@.len() implies index.contains(
                        (#[trigger] filtered@[j])@,
                    ) by {
                        if j < before.len() {
                            assert(filtered@[j] == before[j]);
                        }
                    }
                },
                None => {
                    assert(cs[i as int].wf());
                    let w = pipe.score_candidate(g);
                    let ghost before = scored_words@;
                    scored_words.push(w);
                    assert forall|j: int| 0 <= j < scored_words@.len() implies scored(
                        wf,
                        not_entities(index, pre)[j],
                        #[trigger] scored_words@[j],
                    ) by {
                        if j < before.len() {
                            assert(scored_words@[j] == before[j]);
                        }
                    }
                },
            }
            i = i + 1;
        }
        assert(cs.subrange(0, i as int) =~= cs);
        if let Err(e) = checkpoint(cancel) {
            return Err(e);
        }
        let ghost s = scored_words@;
        let words = rank(scored_words);
        proof {
            let kept = not_entities(index, cs);
            crate::ranking::lemma_ranked_contents(s);
            assert forall|k: int| 0 <= k < words@.len() implies presentable(index, #[trigger] words@[k]) by {
                assert(ranked(s).contains(words@[k]));
                assert(s.contains(words@[k]));
                let j = choose|j: int| 0 <= j < s.len() && s[j] == words@[k];
                assert(scored(wf, kept[j], s[j]));
                lemma_presentable(wf, index, kept[j], s[j]);
            }
        }
        let total = self.candidates.len();
        let count = words.len();
        log.report(event("Complete", 100, counted(count, " hard words found")));
        Ok((words, AnalysisStats { total_candidates: total, filtered_by_ner: filtered, hard_words_count: count }))
    }
}

} // verus!
