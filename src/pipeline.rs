//! The analysis pipeline: its shared read-only resources and its stages.
use crate::lexicon::{segmentation_distance, Segmenter};
use vstd::prelude::*;
use wordfreq::WordFreq;

verus! {

/// The read-only resources that every analysis run shares: the word-frequency
/// dictionary and, when it could be loaded, the segmentation dictionary.
pub struct NlpPipeline {
    wordfreq: WordFreq,
    segmenter: Option<Segmenter>,
}

impl NlpPipeline {
    pub closed spec fn dictionary(&self) -> WordFreq {
        self.wordfreq
    }

    pub closed spec fn segmenter(&self) -> Option<Segmenter> {
        self.segmenter
    }

    /// A segmentation dictionary, where there is one, was built for edit distance 2.
    pub open spec fn wf(&self) -> bool {
        self.segmenter() is Some ==> segmentation_distance(self.segmenter()->Some_0) >= 2
    }

    pub fn new(wordfreq: WordFreq, segmenter: Option<Segmenter>) -> (r: NlpPipeline)
        requires
            segmenter is Some ==> segmentation_distance(segmenter->Some_0) >= 2,
        ensures
            r.wf(),
            r.dictionary() == wordfreq,
            r.segmenter() == segmenter,
    {
        NlpPipeline { wordfreq, segmenter }
    }

    /// Whether the entity model's files are on disk.
    pub fn is_gliner_available() -> bool {
        crate::resources::is_gliner_available()
    }

    /// Whether the segmentation dictionary is loaded.
    pub fn has_segmenter(&self) -> (r: bool)
        ensures
            r == self.segmenter() is Some,
    {
        self.segmenter.is_some()
    }

    pub(crate) fn frequency(&self, w: &Vec<char>) -> (r: u32)
        ensures
            r == crate::lexicon::dictionary_frequency(self.dictionary(), w@),
    {
        if crate::lexicon::is_digit_free(w) {
            crate::lexicon::word_frequency(&self.wordfreq, w)
        } else {
            0
        }
    }

    pub(crate) fn segmenter_ref(&self) -> (r: Option<&Segmenter>)
        ensures
            r is Some <==> self.segmenter() is Some,
            r is Some ==> *r->Some_0 == self.segmenter()->Some_0,
    {
        match &self.segmenter {
            Some(s) => Some(s),
            None => None,
        }
    }
}

} // verus!
