//! What is asked of an index, and why it is turned down.

use vstd::arithmetic::power2::pow2;
use vstd::prelude::*;
use crate::binary32::{all_finite, finite, is_all_finite};
use crate::integral::finite_means;
use crate::quantizer::centroid_count;

verus! {

/// Why a request is turned down.
#[derive(Clone, Copy, Debug, PartialEq, Eq, Structural)]
pub enum Rejection {
    /// Vectors must have a length.
    ZeroDim,
    /// A graph needs at least two neighbors for each node.
    TooFewNeighbors,
    /// Linking needs at least one candidate.
    ZeroEfConstruction,
    /// Searching needs at least one candidate.
    ZeroEfSearch,
    /// A vector must be cut into at least one part.
    ZeroParts,
    /// A vector must be cut into equal parts.
    UnequalParts,
    /// The code of a part has one to eight bits.
    CodeBits,
    /// Vectors have another length than those of the index.
    VectorDim { got: usize, dim: usize },
    /// A query has another length than the vectors of the index.
    QueryDim,
    /// Training vectors have another length than those of the index.
    TrainingDim,
    /// There are fewer training vectors than centroids.
    TooFewTrainingVectors { need: usize, nbits: usize, got: usize },
    /// A mask has another length than the index.
    MaskLength { got: usize, len: usize },
    /// A query holds an infinity or a NaN.
    NotFinite,
    /// The index was not trained.
    Untrained,
}

/// What is wrong with an exact index that is asked for.
pub open spec fn flat_verdict(dim: int) -> Option<Rejection> {
    if dim == 0 {
        Some(Rejection::ZeroDim)
    } else {
        None
    }
}

/// What is wrong with a graph index that is asked for.
pub open spec fn hnsw_verdict(
    dim: int,
    m: int,
    ef_construction: int,
    ef_search: int,
) -> Option<Rejection> {
    if dim == 0 {
        Some(Rejection::ZeroDim)
    } else if m < 2 {
        Some(Rejection::TooFewNeighbors)
    } else if ef_construction < 1 {
        Some(Rejection::ZeroEfConstruction)
    } else if ef_search < 1 {
        Some(Rejection::ZeroEfSearch)
    } else {
        None
    }
}

/// What is wrong with a compressed index that is asked for.
pub open spec fn pq_verdict(dim: int, m: int, nbits: int) -> Option<Rejection> {
    if m == 0 {
        Some(Rejection::ZeroParts)
    } else if dim == 0 || dim % m != 0 {
        Some(Rejection::UnequalParts)
    } else if !(1 <= nbits <= 8) {
        Some(Rejection::CodeBits)
    } else {
        None
    }
}

/// What is wrong with vectors that are to be added.
pub open spec fn vectors_verdict(got: usize, dim: usize) -> Option<Rejection> {
    if got != dim {
        Some(Rejection::VectorDim { got, dim })
    } else {
        None
    }
}

/// What is wrong with training vectors.
pub open spec fn training_verdict(
    cols: int,
    rows: usize,
    dim: int,
    nbits: usize,
) -> Option<Rejection> {
    let k = pow2(nbits as nat);
    if cols != dim {
        Some(Rejection::TrainingDim)
    } else if rows < k {
        Some(Rejection::TooFewTrainingVectors { need: k as usize, nbits, got: rows })
    } else {
        None
    }
}

/// What is wrong with queries, to an index of `len` vectors of length `dim` that is trained
/// or not, with a mask of some length or without one.
pub open spec fn query_verdict(
    trained: bool,
    cols: int,
    dim: int,
    mask: Option<usize>,
    len: usize,
    queries: Seq<u32>,
) -> Option<Rejection> {
    if !trained {
        Some(Rejection::Untrained)
    } else if cols != dim {
        Some(Rejection::QueryDim)
    } else if mask is Some && mask->0 != len {
        Some(Rejection::MaskLength { got: mask->0, len })
    } else if !all_finite(queries) {
        Some(Rejection::NotFinite)
    } else {
        None
    }
}

/// Checks an exact index that is asked for.
pub fn check_flat(dim: usize) -> (r: Option<Rejection>)
    ensures
        r == flat_verdict(dim as int),
{
    if dim == 0 {
        Some(Rejection::ZeroDim)
    } else {
        None
    }
}

/// Checks a graph index that is asked for.
pub fn check_hnsw(dim: usize, m: usize, ef_construction: usize, ef_search: usize) -> (r: Option<
    Rejection,
>)
    ensures
        r == hnsw_verdict(dim as int, m as int, ef_construction as int, ef_search as int),
{
    if dim == 0 {
        Some(Rejection::ZeroDim)
    } else if m < 2 {
        Some(Rejection::TooFewNeighbors)
    } else if ef_construction < 1 {
        Some(Rejection::ZeroEfConstruction)
    } else if ef_search < 1 {
        Some(Rejection::ZeroEfSearch)
    } else {
        None
    }
}

/// Checks a compressed index that is asked for.
pub fn check_pq(dim: usize, m: usize, nbits: usize) -> (r: Option<Rejection>)
    ensures
        r == pq_verdict(dim as int, m as int, nbits as int),
{
    if m == 0 {
        Some(Rejection::ZeroParts)
    } else if dim == 0 || dim % m != 0 {
        Some(Rejection::UnequalParts)
    } else if nbits < 1 || nbits > 8 {
        Some(Rejection::CodeBits)
    } else {
        None
    }
}

/// Checks vectors that are to be added.
pub fn check_vectors(got: usize, dim: usize) -> (r: Option<Rejection>)
    ensures
        r == vectors_verdict(got, dim),
{
    if got != dim {
        Some(Rejection::VectorDim { got, dim })
    } else {
        None
    }
}

/// Checks training vectors.
pub fn check_training(cols: usize, rows: usize, dim: usize, nbits: usize) -> (r: Option<Rejection>)
    requires
        1 <= nbits <= 8,
    ensures
        r == training_verdict(cols as int, rows, dim as int, nbits),
{
    let need: usize = centroid_count(nbits);
    if cols != dim {
        Some(Rejection::TrainingDim)
    } else if rows < need {
        Some(Rejection::TooFewTrainingVectors { need, nbits, got: rows })
    } else {
        None
    }
}

/// Checks queries to an index of `len` vectors of length `dim`.
pub fn check_queries(
    trained: bool,
    cols: usize,
    dim: usize,
    mask: Option<usize>,
    len: usize,
    queries: &[u32],
) -> (r: Option<Rejection>)
    ensures
        r == query_verdict(trained, cols as int, dim as int, mask, len, queries@),
{
    if !trained {
        return Some(Rejection::Untrained);
    }
    if cols != dim {
        return Some(Rejection::QueryDim);
    }
    if let Some(got) = mask {
        if got != len {
            return Some(Rejection::MaskLength { got, len });
        }
    }
    if !is_all_finite(queries) {
        return Some(Rejection::NotFinite);
    }
    None
}

/// An exact index is turned down only if its vectors would have no length.
pub proof fn flat_is_turned_down_for_a_reason(dim: int)
    requires
        dim >= 0,
    ensures
        flat_verdict(dim) is None <==> dim >= 1,
        flat_verdict(dim) is Some ==> flat_verdict(dim) == Some(Rejection::ZeroDim),
{
}

/// A graph index is taken if and only if vectors have a length, nodes at least two neighbors, and
/// linking and searching at least one candidate. What it is turned down for is so, and all that
/// comes before it is not.
pub proof fn hnsw_is_turned_down_for_a_reason(
    dim: int,
    m: int,
    ef_construction: int,
    ef_search: int,
)
    requires
        dim >= 0,
        m >= 0,
        ef_construction >= 0,
        ef_search >= 0,
    ensures
        ({
            let r = hnsw_verdict(dim, m, ef_construction, ef_search);
            &&& r is None <==> dim >= 1 && m >= 2 && ef_construction >= 1 && ef_search >= 1
            &&& r == Some(Rejection::ZeroDim) <==> dim == 0
            &&& r == Some(Rejection::TooFewNeighbors) <==> dim >= 1 && m <= 1
            &&& r == Some(Rejection::ZeroEfConstruction) <==> dim >= 1 && m >= 2 && ef_construction
                == 0
            &&& r == Some(Rejection::ZeroEfSearch) <==> dim >= 1 && m >= 2 && ef_construction >= 1
                && ef_search == 0
        }),
{
}

/// A compressed index is taken if and only if vectors can be cut into equal parts, at least one,
/// and codes have one to eight bits.
pub proof fn pq_is_turned_down_for_a_reason(dim: int, m: int, nbits: int)
    requires
        dim >= 0,
        m >= 0,
    ensures
        ({
            let r = pq_verdict(dim, m, nbits);
            &&& r is None <==> m >= 1 && dim >= 1 && dim % m == 0 && 1 <= nbits <= 8
            &&& r == Some(Rejection::ZeroParts) <==> m == 0
            &&& r == Some(Rejection::UnequalParts) <==> m >= 1 && (dim == 0 || dim % m != 0)
            &&& r == Some(Rejection::CodeBits) <==> m >= 1 && dim >= 1 && dim % m == 0 && (nbits
                <= 0 || nbits >= 9)
        }),
{
}

/// Vectors are taken if and only if they have the length of those of the index; else both lengths
/// are told.
pub proof fn vectors_are_turned_down_for_a_reason(got: usize, dim: usize)
    ensures
        vectors_verdict(got, dim) is None <==> got == dim,
        got != dim ==> vectors_verdict(got, dim) == Some(Rejection::VectorDim { got, dim }),
{
}

/// Training vectors are taken if and only if they have the length of those of the index and are at
/// least as many as there are centroids, two to the power of the bits of a code.
pub proof fn training_is_turned_down_for_a_reason(cols: int, rows: usize, dim: int, nbits: usize)
    requires
        1 <= nbits <= 8,
    ensures
        ({
            let r = training_verdict(cols, rows, dim, nbits);
            let k = pow2(nbits as nat) as int;
            &&& r is None <==> cols == dim && rows >= k
            &&& r == Some(Rejection::TrainingDim) <==> cols != dim
            &&& cols == dim && rows < k ==> r == Some(
                Rejection::TooFewTrainingVectors { need: k as usize, nbits, got: rows },
            )
        }),
{
}

/// Queries are taken if and only if the index is trained, they have the length of its vectors, a
/// mask has an entry for each vector, and no query holds an infinity or a NaN, whose exponent bits
/// are all set.
pub proof fn queries_are_turned_down_for_a_reason(
    trained: bool,
    cols: int,
    dim: int,
    mask: Option<usize>,
    len: usize,
    queries: Seq<u32>,
)
    ensures
        ({
            let r = query_verdict(trained, cols, dim, mask, len, queries);
            let fits = match mask {
                Some(n) => n == len,
                None => true,
            };
            let plain = forall|i: int|
                0 <= i < queries.len() ==> (#[trigger] queries[i]) as int % 0x8000_0000
                    < 0x7f80_0000;
            &&& r is None <==> trained && cols == dim && fits && plain
            &&& r == Some(Rejection::Untrained) <==> !trained
            &&& r == Some(Rejection::QueryDim) <==> trained && cols != dim
            &&& trained && cols == dim && !fits ==> r == Some(
                Rejection::MaskLength { got: mask->0, len },
            )
            &&& r == Some(Rejection::NotFinite) <==> trained && cols == dim && fits && !plain
        }),
{
    assert(all_finite(queries) <==> forall|i: int|
        0 <= i < queries.len() ==> (#[trigger] queries[i]) as int % 0x8000_0000 < 0x7f80_0000) by {
        assert forall|i: int| 0 <= i < queries.len() implies (finite(#[trigger] queries[i])
            <==> queries[i] as int % 0x8000_0000 < 0x7f80_0000) by {
            finite_means(queries[i]);
        }
        if all_finite(queries) {
            assert forall|i: int| 0 <= i < queries.len() implies (#[trigger] queries[i]) as int
                % 0x8000_0000 < 0x7f80_0000 by {
                assert(finite(queries[i]));
            }
        }
    }
}

} // verus!
