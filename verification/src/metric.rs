//! Distance / similarity metric selector.

use vstd::prelude::*;

verus! {

/// The metric an index ranks by.
///
/// * `Metric::L2`: squared Euclidean distance is used internally for ranking (the square
///   root is monotonic, so it is skipped on the hot path); the public interface reports the
///   true Euclidean distance. Smaller is more similar.
/// * `Metric::InnerProduct`: dot product, which equals cosine similarity for
///   unit-normalized vectors. Larger is more similar.
#[derive(Clone, Copy, Debug, PartialEq, Eq, Structural)]
pub enum Metric {
    L2,
    InnerProduct,
}

impl Metric {
    /// The number by which a stored index and the GPU kernel know the metric.
    pub open spec fn spec_code(self) -> u32 {
        match self {
            Metric::L2 => 0,
            Metric::InnerProduct => 1,
        }
    }

    /// The number by which a stored index and the GPU kernel know the metric.
    pub fn code(self) -> (r: u32)
        ensures
            r == self.spec_code(),
    {
        match self {
            Metric::L2 => 0,
            Metric::InnerProduct => 1,
        }
    }

    /// The metric that a number stands for, if it stands for one.
    pub fn from_code(code: u32) -> (r: Option<Metric>)
        ensures
            r is Some <==> code < 2,
            r matches Some(m) ==> m.spec_code() == code,
    {
        if code == 0 {
            Some(Metric::L2)
        } else if code == 1 {
            Some(Metric::InnerProduct)
        } else {
            None
        }
    }
}

/// Stored indexes and the GPU kernel know distance as 0 and the dot product as 1.
pub proof fn codes_are_fixed(m: Metric)
    ensures
        m.spec_code() == 0 <==> m == Metric::L2,
        m.spec_code() == 1 <==> m == Metric::InnerProduct,
{
}

} // verus!
