//! Compressed indexes as bytes, and back.

use vstd::arithmetic::power2::pow2;
use vstd::prelude::*;
use crate::format::{
    byte, byte_list_delimits, le, le_delimits, le_ranges, list, peel, starts, starts_means, word,
    word_list_delimits, LoadError,
};
use crate::metric::Metric;
use crate::pq::{PqIndex, PqView, ProductQuantizer};
use crate::quantizer::{books_len, code_counts, codes_differ};
use crate::rows::row_count;

verus! {

/// The parts of a compressed index.
#[verifier::ext_equal]
pub struct PqParts {
    pub metric: u32,
    pub dim: int,
    pub m: int,
    pub dsub: int,
    pub k: int,
    pub books: Seq<u32>,
    pub codes: Seq<u8>,
    pub n: int,
}

impl PqParts {
    /// Every part is one that memory can hold.
    pub open spec fn in_range(self) -> bool {
        &&& 0 <= self.dim <= usize::MAX
        &&& 0 <= self.m <= usize::MAX
        &&& 0 <= self.dsub <= usize::MAX
        &&& 0 <= self.k <= usize::MAX
        &&& self.books.len() <= usize::MAX
        &&& self.codes.len() <= usize::MAX
        &&& 0 <= self.n <= usize::MAX
    }

    /// The parts as bytes.
    pub open spec fn bytes(self) -> Seq<u8> {
        le(self.metric as int, 4) + (le(self.dim, 8) + (le(self.m, 8) + (le(self.dsub, 8) + (le(
            self.k,
            8,
        ) + (list(word(), self.books) + (list(byte(), self.codes) + le(self.n, 8)))))))
    }
}

/// Bytes start with the parts of one compressed index only.
pub proof fn pq_parts_are_exact(bytes: Seq<u8>, p: PqParts, q: PqParts)
    requires
        p.in_range(),
        q.in_range(),
        starts(bytes, p.bytes()),
        starts(bytes, q.bytes()),
    ensures
        p == q,
{
    le_ranges();
    starts_means(bytes, p.bytes());
    starts_means(bytes, q.bytes());
    let r1 = bytes.skip(p.bytes().len() as int);
    let r2 = bytes.skip(q.bytes().len() as int);
    let a1 = le(p.n, 8);
    let a2 = le(q.n, 8);
    let b1 = list(byte(), p.codes) + a1;
    let b2 = list(byte(), q.codes) + a2;
    let c1 = list(word(), p.books) + b1;
    let c2 = list(word(), q.books) + b2;
    let d1 = le(p.k, 8) + c1;
    let d2 = le(q.k, 8) + c2;
    let e1 = le(p.dsub, 8) + d1;
    let e2 = le(q.dsub, 8) + d2;
    let f1 = le(p.m, 8) + e1;
    let f2 = le(q.m, 8) + e2;
    let g1 = le(p.dim, 8) + f1;
    let g2 = le(q.dim, 8) + f2;
    peel(le(p.metric as int, 4), g1, r1);
    peel(le(q.metric as int, 4), g2, r2);
    le_delimits(p.metric as int, q.metric as int, 4, g1 + r1, g2 + r2);
    peel(le(p.dim, 8), f1, r1);
    peel(le(q.dim, 8), f2, r2);
    le_delimits(p.dim, q.dim, 8, f1 + r1, f2 + r2);
    peel(le(p.m, 8), e1, r1);
    peel(le(q.m, 8), e2, r2);
    le_delimits(p.m, q.m, 8, e1 + r1, e2 + r2);
    peel(le(p.dsub, 8), d1, r1);
    peel(le(q.dsub, 8), d2, r2);
    le_delimits(p.dsub, q.dsub, 8, d1 + r1, d2 + r2);
    peel(le(p.k, 8), c1, r1);
    peel(le(q.k, 8), c2, r2);
    le_delimits(p.k, q.k, 8, c1 + r1, c2 + r2);
    peel(list(word(), p.books), b1, r1);
    peel(list(word(), q.books), b2, r2);
    word_list_delimits(p.books, q.books, b1 + r1, b2 + r2);
    peel(list(byte(), p.codes), a1, r1);
    peel(list(byte(), q.codes), a2, r2);
    byte_list_delimits(p.codes, q.codes, a1 + r1, a2 + r2);
    le_delimits(p.n, q.n, 8, r1, r2);
    assert(p =~= q);
}

impl PqView {
    /// The parts of the index.
    pub open spec fn parts(self) -> PqParts {
        PqParts {
            metric: self.metric.spec_code(),
            dim: self.pq.dim,
            m: self.pq.m,
            dsub: self.pq.dsub(),
            k: self.pq.k(),
            books: self.pq.books,
            codes: self.codes,
            n: self.len(),
        }
    }

    /// A compressed index as bytes.
    pub open spec fn bytes(self) -> Seq<u8> {
        self.parts().bytes()
    }

    /// The index is one that memory can hold.
    pub open spec fn is_storable(self) -> bool {
        self.fits() && self.pq.dim <= usize::MAX
    }

    /// The compressed index that bytes start with.
    pub open spec fn loaded(bytes: Seq<u8>) -> Result<PqView, LoadError> {
        if exists|v: PqView| v.is_storable() && starts(bytes, #[trigger] v.bytes()) {
            Ok(choose|v: PqView| v.is_storable() && starts(bytes, #[trigger] v.bytes()))
        } else if exists|p: PqParts|
            p.metric < 2 && p.in_range() && starts(bytes, #[trigger] p.bytes()) {
            Err(LoadError::Inconsistent)
        } else {
            Err(LoadError::Malformed)
        }
    }
}

/// The parts of an index are in range.
proof fn pq_is_in_range(v: PqView)
    requires
        v.is_storable(),
    ensures
        v.parts().in_range(),
        1 <= v.parts().k <= 256,
{
    code_counts();
    let b = v.pq.nbits;
    assert(b == 1 || b == 2 || b == 3 || b == 4 || b == 5 || b == 6 || b == 7 || b == 8);
    row_count(v.pq.dim, v.pq.m);
    let (m, dim, d, n, len) = (v.pq.m, v.pq.dim, v.pq.dsub(), v.len(), v.codes.len() as int);
    assert(m <= dim) by (nonlinear_arith)
        requires
            d * m == dim,
            dim > 0,
            m > 0,
    ;
    assert(0 <= n <= len) by (nonlinear_arith)
        requires
            n * m == len,
            m >= 1,
            len >= 0,
    ;
}

/// The parts of a compressed index name it.
proof fn pq_parts_name(v: PqView, w: PqView)
    requires
        v.fits(),
        w.fits(),
        v.parts() == w.parts(),
    ensures
        v == w,
{
    codes_differ();
    assert(pow2(v.pq.nbits) == pow2(w.pq.nbits));
    assert(v.metric == w.metric);
    assert(v.pq =~= w.pq);
    assert(v =~= w);
}

/// The bytes of a compressed index are those of no other.
pub proof fn pq_bytes_are_exact(bytes: Seq<u8>, v: PqView, w: PqView)
    requires
        v.is_storable(),
        w.is_storable(),
        starts(bytes, v.bytes()),
        starts(bytes, w.bytes()),
    ensures
        v == w,
{
    pq_is_in_range(v);
    pq_is_in_range(w);
    pq_parts_are_exact(bytes, v.parts(), w.parts());
    pq_parts_name(v, w);
}

/// What is loaded from the bytes of a compressed index, whatever follows them, is that index.
pub proof fn pq_load_gives_back(v: PqView, rest: Seq<u8>)
    requires
        v.is_storable(),
    ensures
        PqView::loaded(v.bytes() + rest) == Ok::<PqView, LoadError>(v),
{
    let bytes = v.bytes() + rest;
    assert(bytes.take(v.bytes().len() as int) =~= v.bytes());
    assert(starts(bytes, v.bytes()));
    let w = choose|w: PqView| w.is_storable() && starts(bytes, #[trigger] w.bytes());
    pq_bytes_are_exact(bytes, v, w);
}

/// Bytes hold an index only if its parts are those that they start with.
proof fn pq_has_parts(bytes: Seq<u8>, p: PqParts)
    requires
        p.in_range(),
        starts(bytes, p.bytes()),
    ensures
        forall|v: PqView|
            v.is_storable() && starts(bytes, #[trigger] v.bytes()) ==> v.parts() == p,
        forall|q: PqParts| q.in_range() && starts(bytes, #[trigger] q.bytes()) ==> q == p,
{
    assert forall|v: PqView| v.is_storable() && starts(bytes, #[trigger] v.bytes()) implies v.parts()
        == p by {
        pq_is_in_range(v);
        pq_parts_are_exact(bytes, v.parts(), p);
    }
    assert forall|q: PqParts| q.in_range() && starts(bytes, #[trigger] q.bytes()) implies q == p by {
        pq_parts_are_exact(bytes, q, p);
    }
}

/// Writes the parts of a compressed index.
///
/// Trusted: `bincode::serialize` on these values writes integers in a fixed number of bytes,
/// the lowest first, counts in eight, and a slice as its length and its elements. Without a
/// size limit, and into memory, it does not fail.
#[verifier::external_body]
fn write_pq(
    metric: u32,
    shape: (usize, usize, usize, usize),
    books: &[u32],
    codes: &[u8],
    n: usize,
) -> (r: Option<Vec<u8>>)
    ensures
        r is Some,
        r->0@ == (PqParts {
            metric,
            dim: shape.0 as int,
            m: shape.1 as int,
            dsub: shape.2 as int,
            k: shape.3 as int,
            books: books@,
            codes: codes@,
            n: n as int,
        }).bytes(),
{
    bincode::serialize(&(metric, shape, books, codes, n)).ok()
}

/// Reads the parts of a compressed index.
///
/// Trusted: `bincode::deserialize` for these types reads what [`write_pq`] writes, and lets
/// other bytes follow. It fails if the bytes do not start with such parts.
#[verifier::external_body]
fn read_pq(bytes: &[u8]) -> (r: Option<
    (u32, (usize, usize, usize, usize), Vec<u32>, Vec<u8>, usize),
>)
    ensures
        r matches Some(p) ==> starts(
            bytes@,
            (PqParts {
                metric: p.0,
                dim: p.1.0 as int,
                m: p.1.1 as int,
                dsub: p.1.2 as int,
                k: p.1.3 as int,
                books: p.2@,
                codes: p.3@,
                n: p.4 as int,
            }).bytes(),
        ),
        r is None ==> forall|p: PqParts| p.in_range() ==> !starts(bytes@, #[trigger] p.bytes()),
{
    bincode::deserialize(bytes).ok()
}

impl PqIndex {
    /// The index as bytes.
    pub fn to_bytes(&self) -> (r: Vec<u8>)
        ensures
            r@ == self@.bytes(),
    {
        let q: &ProductQuantizer = self.quantizer();
        let shape: (usize, usize, usize, usize) = (q.dim(), q.m(), q.dsub(), q.k());
        let r: Option<Vec<u8>> = write_pq(
            self.metric().code(),
            shape,
            q.codebooks(),
            self.codes(),
            self.len(),
        );
        r.unwrap()
    }

    /// The index that bytes start with.
    pub fn from_bytes(bytes: &[u8]) -> (r: Result<Self, LoadError>)
        ensures
            (match r {
                Ok(x) => Ok::<PqView, LoadError>(x@),
                Err(e) => Err::<PqView, LoadError>(e),
            }) == PqView::loaded(bytes@),
    {
        let (code, shape, books, codes, n) = match read_pq(bytes) {
            Some(p) => p,
            None => {
                proof {
                    assert forall|v: PqView| v.is_storable() implies !starts(
                        bytes@,
                        #[trigger] v.bytes(),
                    ) by {
                        pq_is_in_range(v);
                        assert(!starts(bytes@, v.parts().bytes()));
                    }
                }
                return Err(LoadError::Malformed);
            },
        };
        let (dim, m, dsub, k) = shape;
        let ghost p = PqParts {
            metric: code,
            dim: dim as int,
            m: m as int,
            dsub: dsub as int,
            k: k as int,
            books: books@,
            codes: codes@,
            n: n as int,
        };
        proof {
            assert(books.len() == books@.len());
            assert(codes.len() == codes@.len());
            pq_has_parts(bytes@, p);
        }
        let metric: Metric = match Metric::from_code(code) {
            Some(metric) => metric,
            None => {
                return Err(LoadError::Malformed);
            },
        };
        let pq: ProductQuantizer = match ProductQuantizer::from_parts(dim, m, dsub, k, books) {
            Some(pq) => pq,
            None => {
                proof {
                    assert forall|v: PqView| v.is_storable() implies !starts(
                        bytes@,
                        #[trigger] v.bytes(),
                    ) by {
                        if starts(bytes@, v.bytes()) {
                            assert(v.parts() == p);
                            pq_is_in_range(v);
                            books_len(v.pq.dim, v.pq.m, v.pq.k());
                            assert(k == pow2(v.pq.nbits));
                        }
                    }
                    assert(p.metric < 2 && p.in_range() && starts(bytes@, p.bytes()));
                }
                return Err(LoadError::Inconsistent);
            },
        };
        match PqIndex::from_parts(metric, pq, codes, n) {
            Some(x) => {
                proof {
                    assert(x@.parts() =~= p);
                    assert(x@.is_storable() && starts(bytes@, x@.bytes()));
                    let w = choose|w: PqView|
                        w.is_storable() && starts(bytes@, #[trigger] w.bytes());
                    pq_bytes_are_exact(bytes@, x@, w);
                }
                Ok(x)
            },
            None => {
                proof {
                    assert forall|v: PqView| v.is_storable() implies !starts(
                        bytes@,
                        #[trigger] v.bytes(),
                    ) by {
                        if starts(bytes@, v.bytes()) {
                            assert(v.parts() == p);
                            codes_differ();
                            assert(pow2(v.pq.nbits) == pow2(pq@.nbits));
                            assert(v.pq =~= pq@);
                            assert(v == (PqView { metric, pq: pq@, codes: p.codes }));
                        }
                    }
                    assert(p.metric < 2 && p.in_range() && starts(bytes@, p.bytes()));
                }
                Err(LoadError::Inconsistent)
            },
        }
    }
}

} // verus!
