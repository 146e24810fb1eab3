//! A decoded value whose embedded constraint programs still await the
//! interpreter's verdict.
use vstd::prelude::*;

use crate::error::DecodeError;

verus! {

/// What decoding found: the value or the first structural error, and the
/// constraint programs read before decoding stopped, in order.
///
/// A constraint program that the interpreter rejects fails the whole decode,
/// and it always comes before any later structural error; `settle` applies
/// the interpreter's verdicts accordingly.
pub struct Parsed<T> {
    pub result: Result<T, DecodeError>,
    pub constraints: Vec<Vec<u8>>,
}

/// The view of constraint programs.
pub open spec fn blobs_view(v: Seq<Vec<u8>>) -> Seq<Seq<u8>> {
    v.map_values(|x: Vec<u8>| x@)
}

/// Whether `verdicts` accepts each of the first `n` constraint programs.
pub open spec fn all_accepted(n: nat, verdicts: Seq<bool>) -> bool {
    n <= verdicts.len() && forall|i: int| 0 <= i < n ==> #[trigger] verdicts[i]
}

impl<T> Parsed<T> {
    /// The outcome of decoding once the interpreter has judged each
    /// constraint program: `verdicts[i]` tells whether it could read the
    /// `i`-th. The decode fails with `InvalidConstraints` unless every program
    /// has a verdict and every verdict accepts.
    pub fn settle(self, verdicts: &[bool]) -> (r: Result<T, DecodeError>)
        ensures
            all_accepted(self.constraints@.len(), verdicts@) ==> r == self.result,
            !all_accepted(self.constraints@.len(), verdicts@) ==> r == Err::<T, DecodeError>(
                DecodeError::InvalidConstraints,
            ),
    {
        if verdicts.len() < self.constraints.len() {
            return Err(DecodeError::InvalidConstraints);
        }
        let mut i: usize = 0;
        while i < self.constraints.len()
            invariant
                i <= self.constraints@.len() <= verdicts@.len(),
                forall|j: int| 0 <= j < i ==> #[trigger] verdicts@[j],
            decreases self.constraints.len() - i,
        {
            if !verdicts[i] {
                return Err(DecodeError::InvalidConstraints);
            }
            i = i + 1;
        }
        self.result
    }
}

} // verus!
