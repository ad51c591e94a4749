//! Counting validation outcomes of a binary classifier.
use vstd::prelude::*;

verus! {

/// Counts of true/false positives and negatives.
#[derive(Clone, Copy, Debug, PartialEq, Eq, Structural)]
pub struct Confusion {
    /// Wake word predicted, wake word spoken.
    pub tp: usize,
    /// Nothing predicted, wake word spoken.
    pub fn_: usize,
    /// Nothing predicted, nothing spoken.
    pub tn: usize,
    /// Wake word predicted, nothing spoken.
    pub fp: usize,
}

impl Confusion {
    /// No outcome counted yet.
    pub fn new() -> (c: Confusion)
        ensures
            c == (Confusion { tp: 0, fn_: 0, tn: 0, fp: 0 }),
    {
        Confusion { tp: 0, fn_: 0, tn: 0, fp: 0 }
    }

    /// Counts one outcome: the prediction `predicted` for a sample whose true
    /// class is `actual` (true: the wake word).
    pub fn record(&mut self, predicted: bool, actual: bool)
        requires
            predicted && actual ==> old(self).tp < usize::MAX,
            !predicted && actual ==> old(self).fn_ < usize::MAX,
            !predicted && !actual ==> old(self).tn < usize::MAX,
            predicted && !actual ==> old(self).fp < usize::MAX,
        ensures
            *final(self) == (match (predicted, actual) {
                (true, true) => Confusion { tp: (old(self).tp + 1) as usize, ..*old(self) },
                (false, true) => Confusion { fn_: (old(self).fn_ + 1) as usize, ..*old(self) },
                (false, false) => Confusion { tn: (old(self).tn + 1) as usize, ..*old(self) },
                (true, false) => Confusion { fp: (old(self).fp + 1) as usize, ..*old(self) },
            }),
    {
        match (predicted, actual) {
            (true, true) => self.tp = self.tp + 1,
            (false, true) => self.fn_ = self.fn_ + 1,
            (false, false) => self.tn = self.tn + 1,
            (true, false) => self.fp = self.fp + 1,
        }
    }
}

} // verus!
