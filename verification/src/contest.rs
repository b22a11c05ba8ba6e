//! What the engine keeps of a finished contest.

use crate::scalar::Scalar;
use vstd::prelude::*;

verus! {

/// One line of a contest's detail: the player, the score, the performance,
/// the rating after the contest and the rank by rating after it.
pub type DetailRow = (i64, i64, Scalar, Scalar, usize);

/// The detail of one contest: a line for each participant, from the best
/// score to the worst.
#[derive(Debug)]
pub struct ContestDetailEntry {
    data: Vec<DetailRow>,
}

impl View for ContestDetailEntry {
    type V = Seq<DetailRow>;

    closed spec fn view(&self) -> Seq<DetailRow> {
        self.data@
    }
}

impl ContestDetailEntry {
    /// The detail that holds the given lines.
    pub fn new(data: Vec<DetailRow>) -> (detail: ContestDetailEntry)
        ensures
            detail@ == data@,
    {
        ContestDetailEntry { data }
    }

    /// The lines of the detail.
    pub fn data(&self) -> (data: &Vec<DetailRow>)
        ensures
            data@ == self@,
    {
        &self.data
    }

    /// A copy of the detail.
    pub fn duplicate(&self) -> (copy: ContestDetailEntry)
        ensures
            copy@ == self@,
    {
        let mut data: Vec<DetailRow> = Vec::new();
        let mut i: usize = 0;
        while i < self.data.len()
            invariant
                i <= self.data.len(),
                data@ == self.data@.take(i as int),
            decreases self.data.len() - i,
        {
            data.push(self.data[i]);
            assert(self.data@.take(i + 1) =~= self.data@.take(i as int).push(self.data@[i as int]));
            i += 1;
        }
        assert(self.data@.take(self.data.len() as int) =~= self.data@);
        ContestDetailEntry { data }
    }
}

} // verus!
