//! Exact indexes as bytes, and back.

use vstd::prelude::*;
use crate::flat::{FlatIndex, FlatView};
use crate::format::{
    le, le_delimits, le_ranges, list, list_delimits, starts, starts_means, word, word_delimits,
    LoadError,
};
use crate::metric::Metric;
use crate::rows::{capacity, rows_counted};

verus! {

/// The parts of an exact index.
pub open spec fn flat_format(dim: int, metric: u32, n: int, data: Seq<u32>) -> Seq<u8> {
    le(dim, 8) + (le(metric as int, 4) + (le(n, 8) + list(word(), data)))
}

/// Bytes start with the parts of one exact index only.
pub proof fn flat_format_is_exact(
    bytes: Seq<u8>,
    d1: int,
    m1: u32,
    n1: int,
    s1: Seq<u32>,
    d2: int,
    m2: u32,
    n2: int,
    s2: Seq<u32>,
)
    requires
        0 <= d1 <= usize::MAX,
        0 <= n1 <= usize::MAX,
        s1.len() <= usize::MAX,
        0 <= d2 <= usize::MAX,
        0 <= n2 <= usize::MAX,
        s2.len() <= usize::MAX,
        starts(bytes, flat_format(d1, m1, n1, s1)),
        starts(bytes, flat_format(d2, m2, n2, s2)),
    ensures
        d1 == d2,
        m1 == m2,
        n1 == n2,
        s1 == s2,
{
    le_ranges();
    word_delimits();
    let f1 = flat_format(d1, m1, n1, s1);
    let f2 = flat_format(d2, m2, n2, s2);
    starts_means(bytes, f1);
    starts_means(bytes, f2);
    let r1 = bytes.skip(f1.len() as int);
    let r2 = bytes.skip(f2.len() as int);
    let c1 = list(word(), s1) + r1;
    let c2 = list(word(), s2) + r2;
    let b1 = le(n1, 8) + c1;
    let b2 = le(n2, 8) + c2;
    let a1 = le(m1 as int, 4) + b1;
    let a2 = le(m2 as int, 4) + b2;
    assert(f1 + r1 =~= le(d1, 8) + a1);
    assert(f2 + r2 =~= le(d2, 8) + a2);
    le_delimits(d1, d2, 8, a1, a2);
    le_delimits(m1 as int, m2 as int, 4, b1, b2);
    le_delimits(n1, n2, 8, c1, c2);
    list_delimits(word(), |x: u32| true, s1, s2, r1, r2);
}

impl FlatView {
    /// An exact index as bytes.
    pub open spec fn bytes(self) -> Seq<u8> {
        flat_format(self.dim, self.metric.spec_code(), self.len(), self.data)
    }

    /// The exact index that bytes start with.
    pub open spec fn loaded(bytes: Seq<u8>) -> Result<FlatView, LoadError> {
        if exists|v: FlatView| v.fits() && starts(bytes, #[trigger] v.bytes()) {
            Ok(choose|v: FlatView| v.fits() && starts(bytes, #[trigger] v.bytes()))
        } else if exists|dim: usize, metric: u32, n: usize, data: Seq<u32>|
            metric < 2 && data.len() <= usize::MAX && starts(
                bytes,
                #[trigger] flat_format(dim as int, metric, n as int, data),
            ) {
            Err(LoadError::Inconsistent)
        } else {
            Err(LoadError::Malformed)
        }
    }
}

/// The bytes of an exact index are those of no other.
pub proof fn flat_bytes_are_exact(bytes: Seq<u8>, v: FlatView, w: FlatView)
    requires
        v.fits(),
        w.fits(),
        starts(bytes, v.bytes()),
        starts(bytes, w.bytes()),
    ensures
        v == w,
{
    flat_is_counted(v);
    flat_is_counted(w);
    flat_format_is_exact(
        bytes,
        v.dim,
        v.metric.spec_code(),
        v.len(),
        v.data,
        w.dim,
        w.metric.spec_code(),
        w.len(),
        w.data,
    );
}

/// How many vectors an exact index can hold.
proof fn flat_is_counted(v: FlatView)
    requires
        v.fits(),
    ensures
        0 <= v.len() <= v.data.len() <= usize::MAX,
{
    let n = v.len();
    let d = v.dim;
    assert(0 <= n <= n * d) by (nonlinear_arith)
        requires
            d >= 1,
            n * d >= 0,
    ;
}

/// What is loaded from the bytes of an exact index, whatever follows them, is that index.
pub proof fn flat_load_gives_back(v: FlatView, rest: Seq<u8>)
    requires
        v.fits(),
    ensures
        FlatView::loaded(v.bytes() + rest) == Ok::<FlatView, LoadError>(v),
{
    let bytes = v.bytes() + rest;
    assert(bytes.take(v.bytes().len() as int) =~= v.bytes());
    assert(starts(bytes, v.bytes()));
    let w = choose|w: FlatView| w.fits() && starts(bytes, #[trigger] w.bytes());
    flat_bytes_are_exact(bytes, v, w);
}

/// Bytes that do not start with parts hold no exact index.
proof fn flat_without_parts(bytes: Seq<u8>)
    requires
        forall|dim: usize, metric: u32, n: usize, data: Seq<u32>|
            data.len() <= usize::MAX ==> !starts(
                bytes,
                #[trigger] flat_format(dim as int, metric, n as int, data),
            ),
    ensures
        FlatView::loaded(bytes) == Err::<FlatView, LoadError>(LoadError::Malformed),
{
    assert forall|v: FlatView| v.fits() implies !starts(bytes, #[trigger] v.bytes()) by {
        flat_is_counted(v);
        let (d, n) = (v.dim as usize, v.len() as usize);
        assert(!starts(bytes, flat_format(d as int, v.metric.spec_code(), n as int, v.data)));
    }
}

/// Parts with a metric that is none hold no exact index.
proof fn flat_without_metric(bytes: Seq<u8>, dim: usize, code: u32, n: usize, data: Seq<u32>)
    requires
        data.len() <= usize::MAX,
        starts(bytes, flat_format(dim as int, code, n as int, data)),
        code >= 2,
    ensures
        FlatView::loaded(bytes) == Err::<FlatView, LoadError>(LoadError::Malformed),
{
    assert forall|d: usize, m: u32, c: usize, s: Seq<u32>|
        m < 2 && s.len() <= usize::MAX implies !starts(
        bytes,
        #[trigger] flat_format(d as int, m, c as int, s),
    ) by {
        if starts(bytes, flat_format(d as int, m, c as int, s)) {
            flat_format_is_exact(
                bytes,
                d as int,
                m,
                c as int,
                s,
                dim as int,
                code,
                n as int,
                data,
            );
        }
    }
    assert forall|v: FlatView| v.fits() implies !starts(bytes, #[trigger] v.bytes()) by {
        flat_is_counted(v);
        let (d, n) = (v.dim as usize, v.len() as usize);
        assert(!starts(bytes, flat_format(d as int, v.metric.spec_code(), n as int, v.data)));
    }
}

/// Parts with a metric hold an exact index if they belong together.
proof fn flat_with_parts(bytes: Seq<u8>, dim: usize, metric: Metric, n: usize, data: Seq<u32>)
    requires
        data.len() <= usize::MAX,
        starts(bytes, flat_format(dim as int, metric.spec_code(), n as int, data)),
    ensures
        FlatView::loaded(bytes) == if dim > 0 && n * dim == data.len() && data.len()
            <= capacity() {
            Ok::<FlatView, LoadError>(FlatView { dim: dim as int, metric, data })
        } else {
            Err(LoadError::Inconsistent)
        },
{
    let code = metric.spec_code();
    if dim > 0 && n * dim == data.len() && data.len() <= capacity() {
        rows_counted(n as int, dim as int);
        let v = FlatView { dim: dim as int, metric, data };
        assert(v.fits() && starts(bytes, v.bytes()));
        let w = choose|w: FlatView| w.fits() && starts(bytes, #[trigger] w.bytes());
        flat_bytes_are_exact(bytes, v, w);
    } else {
        assert forall|v: FlatView| v.fits() implies !starts(bytes, #[trigger] v.bytes()) by {
            if starts(bytes, v.bytes()) {
                flat_is_counted(v);
                flat_format_is_exact(
                    bytes,
                    v.dim,
                    v.metric.spec_code(),
                    v.len(),
                    v.data,
                    dim as int,
                    code,
                    n as int,
                    data,
                );
            }
        }
    }
}

/// Writes the parts of an exact index.
///
/// Trusted: `bincode::serialize` on these values writes integers in a fixed number of bytes,
/// the lowest first, counts in eight, and a slice as its length and its elements. Without a
/// size limit, and into memory, it does not fail.
#[verifier::external_body]
fn write_flat(dim: usize, metric: u32, n: usize, data: &[u32]) -> (r: Option<Vec<u8>>)
    ensures
        r is Some,
        r->0@ == flat_format(dim as int, metric, n as int, data@),
{
    bincode::serialize(&(dim, metric, n, data)).ok()
}

/// Reads the parts of an exact index.
///
/// Trusted: `bincode::deserialize` for these types reads what [`write_flat`] writes, and lets
/// other bytes follow. It fails if the bytes do not start with such parts.
#[verifier::external_body]
fn read_flat(bytes: &[u8]) -> (r: Option<(usize, u32, usize, Vec<u32>)>)
    ensures
        r matches Some(p) ==> starts(bytes@, flat_format(p.0 as int, p.1, p.2 as int, p.3@)),
        r is None ==> forall|dim: usize, metric: u32, n: usize, data: Seq<u32>|
            data.len() <= usize::MAX ==> !starts(
                bytes@,
                #[trigger] flat_format(dim as int, metric, n as int, data),
            ),
{
    bincode::deserialize(bytes).ok()
}

impl FlatIndex {
    /// The index as bytes.
    pub fn to_bytes(&self) -> (r: Vec<u8>)
        ensures
            r@ == self@.bytes(),
    {
        write_flat(self.dim(), self.metric().code(), self.len(), self.data()).unwrap()
    }

    /// The index that bytes start with.
    pub fn from_bytes(bytes: &[u8]) -> (r: Result<Self, LoadError>)
        ensures
            (match r {
                Ok(x) => Ok::<FlatView, LoadError>(x@),
                Err(e) => Err::<FlatView, LoadError>(e),
            }) == FlatView::loaded(bytes@),
    {
        let (dim, code, n, data) = match read_flat(bytes) {
            Some(p) => p,
            None => {
                proof {
                    flat_without_parts(bytes@);
                }
                return Err(LoadError::Malformed);
            },
        };
        assert(data.len() == data@.len());
        match Metric::from_code(code) {
            Some(metric) => {
                proof {
                    flat_with_parts(bytes@, dim, metric, n, data@);
                }
                match FlatIndex::from_parts(dim, metric, n, data) {
                    Some(x) => Ok(x),
                    None => Err(LoadError::Inconsistent),
                }
            },
            None => {
                proof {
                    flat_without_metric(bytes@, dim, code, n, data@);
                }
                Err(LoadError::Malformed)
            },
        }
    }
}

} // verus!
