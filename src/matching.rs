//! Choosing the closest stored template.
//!
//! Distances are handed over as order-preserving `u64` keys: for the
//! non-negative distances that the comparison produces, a larger key means a
//! larger distance and equal distances have equal keys.
use vstd::prelude::*;

verus! {

/// Why a stroke could not be matched against the stored templates.
#[derive(Debug, Clone, Copy, PartialEq, Eq, Structural)]
pub enum RecognizeError {
    /// Fewer than two points, or a stroke whose bounding box has no width
    /// or no height.
    DegenerateInput,
    /// There is no template to compare with.
    EmptyPatternStore,
    /// Resampling did not produce the configured number of points.
    InternalInvariantViolation,
}

/// `i` holds the smallest key, and no earlier index holds one as small.
pub open spec fn is_first_minimum(keys: Seq<u64>, i: int) -> bool {
    &&& 0 <= i < keys.len()
    &&& forall|j: int| 0 <= j < keys.len() ==> keys[i] <= #[trigger] keys[j]
    &&& forall|j: int| 0 <= j < i ==> keys[i] < #[trigger] keys[j]
}

/// Index of the template with the smallest distance key, the earliest one
/// on ties; an empty store is reported rather than indexed.
pub fn best_match(keys: &Vec<u64>) -> (r: Result<usize, RecognizeError>)
    ensures
        keys@.len() == 0 <==> r == Err::<usize, RecognizeError>(RecognizeError::EmptyPatternStore),
        r is Ok ==> is_first_minimum(keys@, r->Ok_0 as int),
        r is Ok || r == Err::<usize, RecognizeError>(RecognizeError::EmptyPatternStore),
{
    if keys.len() == 0 {
        return Err(RecognizeError::EmptyPatternStore);
    }
    let mut best: usize = 0;
    let mut i: usize = 1;
    while i < keys.len()
        invariant
            1 <= i <= keys@.len(),
            best < i,
            forall|j: int| 0 <= j < i ==> keys@[best as int] <= #[trigger] keys@[j],
            forall|j: int| 0 <= j < best ==> keys@[best as int] < #[trigger] keys@[j],
        decreases keys@.len() - i,
    {
        if keys[i] < keys[best] {
            best = i;
        }
        i = i + 1;
    }
    Ok(best)
}

/// What the resampler does with its output of `produced` points when `n`
/// were asked for: `Ok(true)` when the stroke's last point must be appended
/// to close the gap left by rounding, `Ok(false)` when the count is already
/// right; any other count is a defect.
pub fn resample_closure(produced: usize, n: usize) -> (r: Result<bool, RecognizeError>)
    ensures
        r == Ok::<bool, RecognizeError>(true) <==> produced + 1 == n,
        r == Ok::<bool, RecognizeError>(false) <==> produced == n,
        r is Err <==> (produced + 1 != n && produced != n),
        r is Err ==> r == Err::<bool, RecognizeError>(RecognizeError::InternalInvariantViolation),
{
    if n > 0 && produced == n - 1 {
        Ok(true)
    } else if produced == n {
        Ok(false)
    } else {
        Err(RecognizeError::InternalInvariantViolation)
    }
}

} // verus!
