//! Progress events, run statistics and the outcomes of a run.
use vstd::prelude::*;

verus! {

/// A word shown while names are being looked for, with whether it was found
/// to be a name (and so will be dropped).
pub struct SampleWord {
    pub word: String,
    pub is_entity: bool,
}

/// One step of a run, for a progress display.
pub struct AnalysisProgress {
    /// The phase, in words.
    pub stage: String,
    /// Percent done, 0 to 100, never going back within a run.
    pub progress: u8,
    pub detail: Option<String>,
    pub sample_words: Option<Vec<SampleWord>>,
}

/// What a successful run reports besides its words.
pub struct AnalysisStats {
    /// The number of candidates that passed the frequency filter.
    pub total_candidates: usize,
    /// The stems or forms that the entity filter dropped.
    pub filtered_by_ner: Vec<String>,
    pub hard_words_count: usize,
}

/// Why a run produced no result.
#[derive(PartialEq, Eq, Structural, Debug, Clone, Copy)]
pub enum AnalysisError {
    /// The cancellation flag was seen set at a checkpoint.
    Cancelled,
    /// A resource that the run needs (the entity model or the segmentation
    /// dictionary) is not available.
    ResourceUnavailable,
}

/// Where a run's progress events go. Emission is fire-and-forget.
pub trait ProgressSink {
    fn report(&mut self, event: AnalysisProgress);
}

impl ProgressSink for Vec<AnalysisProgress> {
    fn report(&mut self, event: AnalysisProgress) {
        self.push(event);
    }
}

/// A progress sink that passes on only events whose percent does not go
/// back (nor above 100); it drops any other.
pub struct ProgressLog<S: ProgressSink> {
    sink: S,
    last: u8,
    count: Ghost<nat>,
    first_stage: Ghost<Seq<char>>,
    last_stage: Ghost<Seq<char>>,
}

impl<S: ProgressSink> ProgressLog<S> {
    /// The percent of the last event passed on (0 before any).
    pub closed spec fn last(&self) -> u8 {
        self.last
    }

    /// How many events were passed on.
    pub closed spec fn count(&self) -> nat {
        self.count@
    }

    /// The stage of the first event passed on.
    pub closed spec fn first_stage(&self) -> Seq<char> {
        self.first_stage@
    }

    /// The stage of the last event passed on.
    pub closed spec fn last_stage(&self) -> Seq<char> {
        self.last_stage@
    }

    pub fn new(sink: S) -> (r: ProgressLog<S>)
        ensures
            r.last() == 0,
            r.count() == 0,
    {
        ProgressLog {
            sink,
            last: 0,
            count: Ghost(0),
            first_stage: Ghost(Seq::empty()),
            last_stage: Ghost(Seq::empty()),
        }
    }

    /// Passes `event` on to the sink, unless its percent goes back or is
    /// above 100.
    pub fn report(&mut self, event: AnalysisProgress)
        ensures
            old(self).last() <= event.progress <= 100 ==> {
                &&& final(self).last() == event.progress
                &&& final(self).count() == old(self).count() + 1
                &&& final(self).last_stage() == event.stage@
                &&& final(self).first_stage() == if old(self).count() == 0 {
                    event.stage@
                } else {
                    old(self).first_stage()
                }
            },
            !(old(self).last() <= event.progress <= 100) ==> *final(self) == *old(self),
    {
        let p = event.progress;
        if self.last <= p && p <= 100 {
            let ghost st = event.stage@;
            proof {
                if self.count@ == 0 {
                    self.first_stage = Ghost(st);
                }
                self.last_stage = Ghost(st);
                self.count = Ghost(self.count@ + 1);
            }
            self.sink.report(event);
            self.last = p;
        }
    }

    /// The sink the events went to.
    pub fn into_sink(self) -> S {
        self.sink
    }
}

/// The decimal digit for `d < 10`.
pub open spec fn digit_char(d: nat) -> char {
    if d == 0 {
        '0'
    } else if d == 1 {
        '1'
    } else if d == 2 {
        '2'
    } else if d == 3 {
        '3'
    } else if d == 4 {
        '4'
    } else if d == 5 {
        '5'
    } else if d == 6 {
        '6'
    } else if d == 7 {
        '7'
    } else if d == 8 {
        '8'
    } else {
        '9'
    }
}

/// `n` written in decimal.
pub open spec fn decimal_of(n: nat) -> Seq<char>
    decreases n,
{
    if n < 10 {
        seq![digit_char(n)]
    } else {
        decimal_of(n / 10).push(digit_char(n % 10))
    }
}

fn digit(d: u64) -> (r: char)
    requires
        d < 10,
    ensures
        r == digit_char(d as nat),
{
    if d == 0 {
        '0'
    } else if d == 1 {
        '1'
    } else if d == 2 {
        '2'
    } else if d == 3 {
        '3'
    } else if d == 4 {
        '4'
    } else if d == 5 {
        '5'
    } else if d == 6 {
        '6'
    } else if d == 7 {
        '7'
    } else if d == 8 {
        '8'
    } else {
        '9'
    }
}

/// `n` written in decimal.
pub fn decimal(n: u64) -> (r: Vec<char>)
    ensures
        r@ == decimal_of(n as nat),
    decreases n,
{
    if n < 10 {
        let mut v: Vec<char> = Vec::new();
        v.push(digit(n));
        assert(v@ =~= seq![digit_char(n as nat)]);
        v
    } else {
        let mut v = decimal(n / 10);
        v.push(digit(n % 10));
        v
    }
}

} // verus!
