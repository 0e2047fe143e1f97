use vstd::prelude::*;

verus! {

/// Largest subset size the arithmetic in this crate is proved exact for.
/// Impurity comparisons cross-multiply rationals whose numerators and
/// denominators are cubic in the subset size, so this bound keeps every
/// intermediate product inside `u128`.
pub const MAX_ROWS: usize = 1048576;

/// In-memory tabular container: string-valued feature rows plus one string
/// label per row. Built by the caller (typically from a CSV file); the
/// learning core only reads it.
pub struct Dataset {
    /// One entry per sample; each entry has one string per feature column.
    pub features: Vec<Vec<String>>,
    /// The class label of each sample; same length as `features`.
    pub targets: Vec<String>,
    /// Number of rows; equals the lengths of `features` and `targets`.
    pub num_samples: usize,
    /// Number of feature columns; every row has exactly this many entries.
    pub num_features: usize,
}

impl Dataset {
    /// Shape invariant: the counts agree with the vectors and every row has
    /// uniform width.
    pub open spec fn wf(self) -> bool {
        &&& self.num_samples == self.features@.len()
        &&& self.num_samples == self.targets@.len()
        &&& forall|i: int|
            0 <= i < self.features@.len() ==> (#[trigger] self.features@[i])@.len()
                == self.num_features
    }

    /// The label of row `i`, as a sequence of characters.
    pub open spec fn target(self, i: int) -> Seq<char> {
        self.targets@[i]@
    }

    /// The value of feature column `f` in row `i`.
    pub open spec fn feat(self, i: int, f: int) -> Seq<char> {
        self.features@[i]@[f]@
    }

    /// Runtime check for `wf`, so that unverified callers can validate a
    /// dataset they assembled before handing it to the core.
    pub fn check_shape(&self) -> (b: bool)
        ensures
            b == self.wf(),
    {
        if self.num_samples != self.features.len() || self.num_samples != self.targets.len() {
            return false;
        }
        let mut i: usize = 0;
        while i < self.features.len()
            invariant
                i <= self.features@.len(),
                forall|k: int|
                    0 <= k < i ==> (#[trigger] self.features@[k])@.len() == self.num_features,
            decreases self.features@.len() - i,
        {
            if self.features[i].len() != self.num_features {
                return false;
            }
            i += 1;
        }
        true
    }
}

/// Every index in `s` addresses a row of `d`.
pub open spec fn valid_subset(d: Dataset, s: Seq<usize>) -> bool {
    forall|j: int| 0 <= j < s.len() ==> (#[trigger] s[j]) < d.num_samples
}

/// The views of a vector of strings, as sequences of characters.
pub open spec fn views_of(xs: Seq<String>) -> Seq<Seq<char>> {
    xs.map_values(|x: String| x@)
}

/// Runtime check that a row-index subset is usable by the core: every index
/// in range and the subset small enough for the exact impurity arithmetic.
pub fn check_subset(dataset: &Dataset, row_indices: &Vec<usize>) -> (b: bool)
    ensures
        b == (valid_subset(*dataset, row_indices@) && row_indices@.len() <= MAX_ROWS),
{
    if row_indices.len() > MAX_ROWS {
        return false;
    }
    let mut j: usize = 0;
    while j < row_indices.len()
        invariant
            j <= row_indices@.len(),
            forall|k: int| 0 <= k < j ==> (#[trigger] row_indices@[k]) < dataset.num_samples,
        decreases row_indices@.len() - j,
    {
        if row_indices[j] >= dataset.num_samples {
            return false;
        }
        j += 1;
    }
    true
}

} // verus!
