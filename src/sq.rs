//! Storage of scalar-quantized vectors: chunks of row ids and 8-bit codes, addressed by a
//! running row count, and the integer distances between stored codes and a query's.
use vstd::prelude::*;

use crate::error::Error;

verus! {

/// Rows above which a store merges its chunks into one.
pub const SQ_CHUNK_CAPACITY: usize = 1024;

/// The distance between vectors.
#[derive(Debug, Clone, Copy, PartialEq, Eq, Structural)]
pub enum DistanceType {
    L2,
    Cosine,
    Dot,
    Hamming,
}

/// The code column of a batch: a fixed-size list of `dim` items per row, with its items
/// when they are bytes.
pub struct CodeColumn {
    pub dim: u32,
    pub values: Option<Vec<u8>>,
}

/// A batch of rows to store: its row-id column and its code column, when present.
pub struct CodeBatch {
    pub row_ids: Option<Vec<u64>>,
    pub sq_codes: Option<CodeColumn>,
}

/// The error, if any, of making a chunk of `b`.
pub open spec fn chunk_error(b: CodeBatch) -> Option<Error> {
    match b.row_ids {
        None => Some(Error::MissingColumn),
        Some(ids) => match b.sq_codes {
            None => Some(Error::MissingColumn),
            Some(col) => match col.values {
                None => Some(Error::MissingColumn),
                Some(vals) => if vals@.len() != ids@.len() * col.dim {
                    Some(Error::ColumnLengthMismatch)
                } else {
                    None
                },
            },
        },
    }
}

/// An immutable chunk of a store: parallel row ids and codes, `dim` codes per row.
pub struct SQStorageChunk {
    pub dim: usize,
    pub row_ids: Vec<u64>,
    pub sq_codes: Vec<u8>,
}

impl SQStorageChunk {
    pub open spec fn wf(&self) -> bool {
        &&& self.dim <= u32::MAX
        &&& self.sq_codes@.len() == self.row_ids@.len() * self.dim
    }

    /// Whether this chunk holds exactly the columns of `b`.
    pub open spec fn holds(&self, b: CodeBatch) -> bool {
        &&& b.row_ids matches Some(ids)
        &&& b.sq_codes matches Some(col)
        &&& col.values matches Some(vals)
        &&& self.row_ids == ids
        &&& self.sq_codes == vals
        &&& self.dim == col.dim
    }

    /// The codes of row `id`.
    pub open spec fn code(&self, id: int) -> Seq<u8> {
        self.sq_codes@.subrange(id * self.dim, (id + 1) * self.dim)
    }

    /// A chunk from the columns of a batch.
    pub fn new(batch: CodeBatch) -> (r: Result<Self, Error>)
        ensures
            match chunk_error(batch) {
                Some(e) => r == Err::<Self, Error>(e),
                None => r matches Ok(c) && c.wf() && c.holds(batch),
            },
    {
        let row_ids = match batch.row_ids {
            Some(ids) => ids,
            None => {
                return Err(Error::MissingColumn);
            },
        };
        let col = match batch.sq_codes {
            Some(col) => col,
            None => {
                return Err(Error::MissingColumn);
            },
        };
        let dim = col.dim as usize;
        let sq_codes = match col.values {
            Some(v) => v,
            None => {
                return Err(Error::MissingColumn);
            },
        };
        let mismatch = if dim == 0 {
            sq_codes.len() != 0
        } else {
            sq_codes.len() / dim != row_ids.len() || sq_codes.len() % dim != 0
        };
        if mismatch {
            proof {
                if sq_codes@.len() == row_ids@.len() * dim && dim != 0 {
                    vstd::arithmetic::div_mod::lemma_fundamental_div_mod_converse(
                        sq_codes@.len() as int,
                        dim as int,
                        row_ids@.len() as int,
                        0,
                    );
                }
            }
            return Err(Error::ColumnLengthMismatch);
        }
        proof {
            if dim != 0 {
                let l = sq_codes@.len() as int;
                let d = dim as int;
                vstd::arithmetic::div_mod::lemma_fundamental_div_mod(l, d);
                assert(l == row_ids@.len() * d) by (nonlinear_arith)
                    requires
                        l == d * (l / d) + l % d,
                        l / d == row_ids@.len(),
                        l % d == 0,
                ;
            } else {
                assert(row_ids@.len() * dim == 0) by (nonlinear_arith)
                    requires
                        dim == 0,
                ;
            }
        }
        Ok(SQStorageChunk { dim, row_ids, sq_codes })
    }

    /// Vector dimension.
    pub fn dim(&self) -> (r: usize)
        ensures
            r == self.dim,
    {
        self.dim
    }

    /// Number of rows.
    pub fn len(&self) -> (r: usize)
        ensures
            r == self.row_ids@.len(),
    {
        self.row_ids.len()
    }

    /// Row id of row `id`.
    pub fn row_id(&self, id: u32) -> (r: u64)
        requires
            id < self.row_ids@.len(),
        ensures
            r == self.row_ids@[id as int],
    {
        self.row_ids[id as usize]
    }

    /// The codes of row `id`.
    pub fn sq_code_slice(&self, id: u32) -> (r: &[u8])
        requires
            self.wf(),
            id < self.row_ids@.len(),
        ensures
            r@ == self.code(id as int),
            r@.len() == self.dim,
    {
        proof {
            assert((id + 1) * self.dim <= self.row_ids@.len() * self.dim) by (nonlinear_arith)
                requires
                    id < self.row_ids@.len(),
            ;
            assert(id * self.dim <= (id + 1) * self.dim) by (nonlinear_arith);
            assert((id + 1) * self.dim - id * self.dim == self.dim) by (nonlinear_arith);
        }
        let _codes_len = self.sq_codes.len();
        let _rows_len = self.row_ids.len();
        let start = id as usize * self.dim;
        let end = (id as usize + 1) * self.dim;
        &self.sq_codes.as_slice()[start..end]
    }
}

} // verus!

verus! {

/// The row ids of the first `k` chunks, in order.
pub open spec fn ids_upto(chunks: Seq<SQStorageChunk>, k: int) -> Seq<u64>
    decreases k,
{
    if k <= 0 {
        Seq::empty()
    } else {
        ids_upto(chunks, k - 1) + chunks[k - 1].row_ids@
    }
}

/// The codes of the rows of the first `k` chunks, one sequence per row, in order.
pub open spec fn codes_upto(chunks: Seq<SQStorageChunk>, k: int) -> Seq<Seq<u8>>
    decreases k,
{
    if k <= 0 {
        Seq::empty()
    } else {
        codes_upto(chunks, k - 1) + Seq::new(
            chunks[k - 1].row_ids@.len(),
            |t: int| chunks[k - 1].code(t),
        )
    }
}

proof fn lemma_upto_len(chunks: Seq<SQStorageChunk>, k: int)
    requires
        0 <= k <= chunks.len(),
    ensures
        ids_upto(chunks, k).len() == codes_upto(chunks, k).len(),
    decreases k,
{
    if k > 0 {
        lemma_upto_len(chunks, k - 1);
    }
}

proof fn lemma_upto_prefix(chunks: Seq<SQStorageChunk>, k: int, n: int)
    requires
        0 <= k <= n <= chunks.len(),
    ensures
        ids_upto(chunks, k).len() == codes_upto(chunks, k).len(),
        ids_upto(chunks, k).len() <= ids_upto(chunks, n).len(),
        forall|t: int|
            0 <= t < ids_upto(chunks, k).len() ==> #[trigger] ids_upto(chunks, n)[t] == ids_upto(
                chunks,
                k,
            )[t] && codes_upto(chunks, n)[t] == codes_upto(chunks, k)[t],
    decreases n - k,
{
    lemma_upto_len(chunks, k);
    lemma_upto_len(chunks, n);
    if k < n {
        lemma_upto_prefix(chunks, k + 1, n);
        lemma_upto_len(chunks, k + 1);
        assert forall|t: int| 0 <= t < ids_upto(chunks, k).len() implies #[trigger] ids_upto(
            chunks,
            n,
        )[t] == ids_upto(chunks, k)[t] && codes_upto(chunks, n)[t] == codes_upto(chunks, k)[t] by {
            assert(ids_upto(chunks, k + 1) == ids_upto(chunks, k) + chunks[k].row_ids@);
            assert(codes_upto(chunks, k + 1) == codes_upto(chunks, k) + Seq::new(
                chunks[k].row_ids@.len(),
                |u: int| chunks[k].code(u),
            ));
            assert(ids_upto(chunks, k + 1)[t] == ids_upto(chunks, k)[t]);
            assert(codes_upto(chunks, k + 1)[t] == codes_upto(chunks, k)[t]);
        }
    }
}

/// Squared Euclidean distance between two code vectors.
pub open spec fn l2_spec(a: Seq<u8>, b: Seq<u8>) -> int
    decreases a.len(),
{
    if a.len() == 0 {
        0
    } else {
        let d = a.last() - b[a.len() - 1];
        l2_spec(a.drop_last(), b) + d * d
    }
}

/// Dot product of two code vectors.
pub open spec fn dot_spec(a: Seq<u8>, b: Seq<u8>) -> int
    decreases a.len(),
{
    if a.len() == 0 {
        0
    } else {
        dot_spec(a.drop_last(), b) + a.last() * b[a.len() - 1]
    }
}

/// The distance that a metric computes on codes: squared Euclidean for L2 and cosine, the
/// dot product for dot.
pub open spec fn code_distance(dt: DistanceType, a: Seq<u8>, b: Seq<u8>) -> int {
    match dt {
        DistanceType::Dot => dot_spec(a, b),
        _ => l2_spec(a, b),
    }
}

/// Squared Euclidean distance between two code vectors of one length.
pub fn l2_distance_uint_scalar(a: &[u8], b: &[u8]) -> (r: u64)
    requires
        a@.len() == b@.len(),
        a@.len() <= u32::MAX,
    ensures
        r == l2_spec(a@, b@),
{
    let mut sum: u64 = 0;
    let mut i: usize = 0;
    while i < a.len()
        invariant
            a@.len() == b@.len(),
            a@.len() <= u32::MAX,
            i <= a@.len(),
            sum == l2_spec(a@.take(i as int), b@),
            sum <= i * 65025,
        decreases a@.len() - i,
    {
        assert(a@.take(i as int + 1).drop_last() =~= a@.take(i as int));
        let x = a[i];
        let y = b[i];
        let d: u64 = if x >= y {
            (x - y) as u64
        } else {
            (y - x) as u64
        };
        assert(d * d <= 65025) by (nonlinear_arith)
            requires
                d <= 255,
        ;
        assert(d * d == (x - y) * (x - y)) by (nonlinear_arith)
            requires
                d == x - y || d == y - x,
        ;
        assert(i * 65025 + 65025 <= u32::MAX * 65025 + 65025);
        sum = sum + d * d;
        i += 1;
    }
    assert(a@.take(a@.len() as int) =~= a@);
    sum
}

/// Dot product of two code vectors of one length.
pub fn dot_distance(a: &[u8], b: &[u8]) -> (r: u64)
    requires
        a@.len() == b@.len(),
        a@.len() <= u32::MAX,
    ensures
        r == dot_spec(a@, b@),
{
    let mut sum: u64 = 0;
    let mut i: usize = 0;
    while i < a.len()
        invariant
            a@.len() == b@.len(),
            a@.len() <= u32::MAX,
            i <= a@.len(),
            sum == dot_spec(a@.take(i as int), b@),
            sum <= i * 65025,
        decreases a@.len() - i,
    {
        assert(a@.take(i as int + 1).drop_last() =~= a@.take(i as int));
        let x = a[i] as u64;
        let y = b[i] as u64;
        assert(x * y <= 65025) by (nonlinear_arith)
            requires
                x <= 255,
                y <= 255,
        ;
        assert(i * 65025 + 65025 <= u32::MAX * 65025 + 65025);
        sum = sum + x * y;
        i += 1;
    }
    assert(a@.take(a@.len() as int) =~= a@);
    sum
}

/// Copies a vector element by element.
pub fn copy_vec<T: Copy>(v: &Vec<T>) -> (r: Vec<T>)
    ensures
        r@ == v@,
{
    let mut r: Vec<T> = Vec::new();
    let mut i: usize = 0;
    while i < v.len()
        invariant
            i <= v@.len(),
            r@ == v@.take(i as int),
        decreases v@.len() - i,
    {
        r.push(v[i]);
        i += 1;
        assert(r@ =~= v@.take(i as int));
    }
    assert(v@.take(v@.len() as int) =~= v@);
    r
}

} // verus!

verus! {

/// Rows in the first `k` batches.
pub open spec fn batch_rows(bs: Seq<CodeBatch>, k: int) -> int
    decreases k,
{
    if k <= 0 {
        0
    } else {
        batch_rows(bs, k - 1) + match bs[k - 1].row_ids {
            Some(ids) => ids@.len() as int,
            None => 0,
        }
    }
}

/// The code dimension of a batch with a code column.
pub open spec fn batch_dim(b: CodeBatch) -> int {
    match b.sq_codes {
        Some(col) => col.dim as int,
        None => 0,
    }
}

/// The error, if any, that batch `i` brings to a store of the batches `bs`.
pub open spec fn batch_error(bs: Seq<CodeBatch>, i: int) -> Option<Error> {
    match chunk_error(bs[i]) {
        Some(e) => Some(e),
        None => if batch_dim(bs[i]) != batch_dim(bs[0]) {
            Some(Error::DimensionMismatch)
        } else if batch_rows(bs, i + 1) > u32::MAX {
            Some(Error::TooManyRows)
        } else {
            None
        },
    }
}

/// The first error among the first `k` batches of a store.
pub open spec fn store_error(bs: Seq<CodeBatch>, k: int) -> Option<Error>
    decreases k,
{
    if k <= 0 {
        None
    } else {
        match store_error(bs, k - 1) {
            Some(e) => Some(e),
            None => batch_error(bs, k - 1),
        }
    }
}

/// Scalar-quantized vectors in chunks, with the running row count before each chunk.
pub struct ScalarQuantizationStorage {
    pub num_bits: u16,
    pub dim: usize,
    pub distance_type: DistanceType,
    /// `offsets[i]` rows come before chunk `i`; the last entry is the total.
    pub offsets: Vec<u32>,
    pub chunks: Vec<SQStorageChunk>,
}

impl ScalarQuantizationStorage {
    pub open spec fn wf(&self) -> bool {
        &&& self.chunks@.len() >= 1
        &&& self.offsets@.len() == self.chunks@.len() + 1
        &&& forall|i: int|
            0 <= i <= self.chunks@.len() ==> #[trigger] self.offsets@[i] == ids_upto(
                self.chunks@,
                i,
            ).len()
        &&& forall|i: int|
            0 <= i < self.chunks@.len() ==> #[trigger] self.chunks@[i].wf() && self.chunks@[i].dim
                == self.dim
    }

    /// The row ids of all chunks, in order.
    pub open spec fn row_ids_view(&self) -> Seq<u64> {
        ids_upto(self.chunks@, self.chunks@.len() as int)
    }

    /// The codes of all rows, in order.
    pub open spec fn codes_view(&self) -> Seq<Seq<u8>> {
        codes_upto(self.chunks@, self.chunks@.len() as int)
    }

    /// A store of the batches, one chunk each. The vector dimension is the first batch's.
    pub fn try_new(num_bits: u16, distance_type: DistanceType, batches: Vec<CodeBatch>) -> (r:
        Result<Self, Error>)
        requires
            batches@.len() > 0,
        ensures
            match store_error(batches@, batches@.len() as int) {
                Some(e) => r == Err::<Self, Error>(e),
                None => {
                    &&& r matches Ok(s)
                    &&& s.wf()
                    &&& s.num_bits == num_bits
                    &&& s.distance_type == distance_type
                    &&& s.dim == batch_dim(batches@[0])
                    &&& s.chunks@.len() == batches@.len()
                    &&& forall|i: int|
                        0 <= i < batches@.len() ==> #[trigger] s.chunks@[i].holds(batches@[i])
                },
            },
    {
        let ghost bs = batches@;
        let mut chunks: Vec<SQStorageChunk> = Vec::new();
        let mut offsets: Vec<u32> = vec![0u32];
        let mut total: u64 = 0;
        let mut dim: usize = 0;
        let n = batches.len();
        let mut rest = batches;
        let mut k: usize = 0;
        while rest.len() > 0
            invariant
                bs.len() > 0,
                bs == batches@,
                n == bs.len(),
                k + rest@.len() == bs.len(),
                rest@ == bs.subrange(k as int, bs.len() as int),
                chunks@.len() == k,
                offsets@.len() == k + 1,
                store_error(bs, k as int) is None,
                total == batch_rows(bs, k as int),
                total <= u32::MAX,
                offsets@[k as int] == total,
                k > 0 ==> dim == batch_dim(bs[0]),
                forall|i: int|
                    0 <= i <= chunks@.len() ==> #[trigger] offsets@[i] == ids_upto(chunks@, i).len(),
                forall|i: int|
                    0 <= i < chunks@.len() ==> #[trigger] chunks@[i].wf() && chunks@[i].dim == dim
                        && chunks@[i].holds(bs[i]),
            decreases rest@.len(),
        {
            let batch = rest.remove(0);
            assert(batch == bs[k as int]);
            proof {
                lemma_store_error_stays(bs, k as int + 1, bs.len() as int);
                assert(store_error(bs, k as int + 1) == batch_error(bs, k as int));
                assert(batch_rows(bs, k as int + 1) == batch_rows(bs, k as int) + match bs[k as int].row_ids {
                    Some(ids) => ids@.len() as int,
                    None => 0,
                });
            }
            let chunk = match SQStorageChunk::new(batch) {
                Ok(c) => c,
                Err(e) => {
                    assert(chunk_error(bs[k as int]) == Some(e));
                    assert(batch_error(bs, k as int) == Some(e));
                    assert(store_error(bs, k as int + 1) == Some(e));
                    assert(store_error(bs, n as int) == Some(e));
                    assert(bs == batches@);
                    return Err(e);
                },
            };
            if k == 0 {
                dim = chunk.dim();
            }
            if chunk.dim() != dim {
                assert(bs == batches@);
                return Err(Error::DimensionMismatch);
            }
            let rows = chunk.len() as u64;
            if rows > 0xFFFF_FFFF - total {
                assert(bs == batches@);
                return Err(Error::TooManyRows);
            }
            total = total + rows;
            let ghost before = chunks@;
            chunks.push(chunk);
            offsets.push(total as u32);
            proof {
                assert forall|i: int| 0 <= i <= k implies ids_upto(chunks@, i) == ids_upto(before, i) by {
                    lemma_ids_upto_same(chunks@, before, i);
                }
                assert(ids_upto(chunks@, k + 1) == ids_upto(before, k as int) + chunks@[k as int].row_ids@);
            }
            k = k + 1;
            assert(rest@ =~= bs.subrange(k as int, bs.len() as int));
        }
        let s = ScalarQuantizationStorage { num_bits, dim, distance_type, offsets, chunks };
        assert(s.chunks@.len() >= 1);
        assert(s.offsets@.len() == s.chunks@.len() + 1);
        assert(s.wf());
        assert forall|i: int| 0 <= i < bs.len() implies #[trigger] s.chunks@[i].holds(bs[i]) by {
            assert(s.chunks@[i].wf());
        }
        Ok(s)
    }
}

impl ScalarQuantizationStorage {
    /// A store of one batch.
    pub fn try_from_batch(batch: CodeBatch, num_bits: u16, distance_type: DistanceType) -> (r:
        Result<Self, Error>)
        ensures
            match store_error(seq![batch], 1) {
                Some(e) => r == Err::<Self, Error>(e),
                None => {
                    &&& r matches Ok(s)
                    &&& s.wf()
                    &&& s.num_bits == num_bits
                    &&& s.distance_type == distance_type
                    &&& s.chunks@.len() == 1
                    &&& s.chunks@[0].holds(batch)
                },
            },
    {
        let ghost b = batch;
        let mut batches: Vec<CodeBatch> = Vec::new();
        batches.push(batch);
        assert(batches@ =~= seq![b]);
        Self::try_new(num_bits, distance_type, batches)
    }

    /// Number of rows.
    pub fn len(&self) -> (r: usize)
        requires
            self.wf(),
        ensures
            r == self.row_ids_view().len(),
            r <= u32::MAX,
    {
        let n = self.offsets.len();
        self.offsets[n - 1] as usize
    }

    /// The metric of the stored vectors.
    pub fn distance_type(&self) -> (r: DistanceType)
        ensures
            r == self.distance_type,
    {
        self.distance_type
    }

    /// The chunk that holds row `id`, with the number of rows before it: row `id` is row
    /// `id - offset` of that chunk.
    pub fn chunk(&self, id: u32) -> (r: (u32, &SQStorageChunk))
        requires
            self.wf(),
            id < self.row_ids_view().len(),
        ensures
            exists|i: int|
                0 <= i < self.chunks@.len() && r.0 == self.offsets@[i] && *r.1 == self.chunks@[i],
            r.0 <= id < r.0 + r.1.row_ids@.len(),
            r.1.wf(),
            r.1.dim == self.dim,
            self.row_ids_view()[id as int] == r.1.row_ids@[id - r.0],
            self.codes_view()[id as int] == r.1.code(id - r.0),
    {
        let n = self.chunks.len();
        let mut lo: usize = 0;
        let mut hi: usize = n;
        while hi - lo > 1
            invariant
                self.wf(),
                n == self.chunks@.len(),
                id < self.row_ids_view().len(),
                0 <= lo < hi <= n,
                self.offsets@[lo as int] <= id,
                id < self.offsets@[hi as int],
            decreases hi - lo,
        {
            let mid = lo + (hi - lo) / 2;
            if self.offsets[mid] <= id {
                lo = mid;
            } else {
                hi = mid;
            }
        }
        proof {
            let c = self.chunks@;
            lemma_upto_prefix(c, lo as int + 1, n as int);
            lemma_upto_len(c, lo as int);
            assert(ids_upto(c, lo as int + 1) == ids_upto(c, lo as int) + c[lo as int].row_ids@);
            assert(codes_upto(c, lo as int + 1) == codes_upto(c, lo as int) + Seq::new(
                c[lo as int].row_ids@.len(),
                |u: int| c[lo as int].code(u),
            ));
            assert(self.chunks@[lo as int].wf());
            assert(self.offsets@[lo as int] == ids_upto(c, lo as int).len());
            assert(self.offsets@[lo as int + 1] == ids_upto(c, lo as int + 1).len());
        }
        (self.offsets[lo], &self.chunks[lo])
    }

    /// The row id of row `id`: the `id`-th of the row ids of all chunks in order.
    pub fn row_id(&self, id: u32) -> (r: u64)
        requires
            self.wf(),
            id < self.row_ids_view().len(),
        ensures
            r == self.row_ids_view()[id as int],
    {
        let (offset, chunk) = self.chunk(id);
        chunk.row_id(id - offset)
    }

    /// The row ids of all chunks, in order.
    pub fn row_ids(&self) -> (r: Vec<u64>)
        requires
            self.wf(),
        ensures
            r@ == self.row_ids_view(),
    {
        let mut r: Vec<u64> = Vec::new();
        let mut k: usize = 0;
        while k < self.chunks.len()
            invariant
                k <= self.chunks@.len(),
                r@ == ids_upto(self.chunks@, k as int),
            decreases self.chunks@.len() - k,
        {
            let ids = &self.chunks[k].row_ids;
            let mut t: usize = 0;
            while t < ids.len()
                invariant
                    k < self.chunks@.len(),
                    *ids == self.chunks@[k as int].row_ids,
                    t <= ids@.len(),
                    r@ == ids_upto(self.chunks@, k as int) + ids@.take(t as int),
                decreases ids@.len() - t,
            {
                r.push(ids[t]);
                t += 1;
                assert(r@ =~= ids_upto(self.chunks@, k as int) + ids@.take(t as int));
            }
            assert(ids@.take(ids@.len() as int) =~= ids@);
            k += 1;
        }
        r
    }
}

/// The code bytes of the first `k` chunks, one after another.
pub open spec fn flat_codes_upto(chunks: Seq<SQStorageChunk>, k: int) -> Seq<u8>
    decreases k,
{
    if k <= 0 {
        Seq::empty()
    } else {
        flat_codes_upto(chunks, k - 1) + chunks[k - 1].sq_codes@
    }
}

/// In the bytes of chunks of one dimension, row `g` has the codes it had in its chunk.
proof fn lemma_flat_codes(chunks: Seq<SQStorageChunk>, dim: int, k: int)
    requires
        0 <= k <= chunks.len(),
        forall|i: int| 0 <= i < chunks.len() ==> (#[trigger] chunks[i]).wf() && chunks[i].dim == dim,
    ensures
        flat_codes_upto(chunks, k).len() == ids_upto(chunks, k).len() * dim,
        ids_upto(chunks, k).len() == codes_upto(chunks, k).len(),
        forall|g: int|
            0 <= g < ids_upto(chunks, k).len() ==> flat_codes_upto(chunks, k).subrange(
                g * dim,
                (g + 1) * dim,
            ) == #[trigger] codes_upto(chunks, k)[g],
    decreases k,
{
    lemma_upto_len(chunks, k);
    if k > 0 {
        lemma_flat_codes(chunks, dim, k - 1);
        let a = flat_codes_upto(chunks, k - 1);
        let c = chunks[k - 1];
        assert(c.wf() && c.dim == dim);
        let m = ids_upto(chunks, k - 1).len() as int;
        assert((m + c.row_ids@.len()) * dim == m * dim + c.row_ids@.len() * dim) by (nonlinear_arith);
        assert forall|g: int| 0 <= g < ids_upto(chunks, k).len() implies flat_codes_upto(
            chunks,
            k,
        ).subrange(g * dim, (g + 1) * dim) == #[trigger] codes_upto(chunks, k)[g] by {
            if g < m {
                assert((g + 1) * dim <= m * dim) by (nonlinear_arith)
                    requires
                        g < m,
                        dim >= 0,
                ;
                assert(g * dim >= 0) by (nonlinear_arith)
                    requires
                        g >= 0,
                        dim >= 0,
                ;
                assert((g + 1) * dim == g * dim + dim) by (nonlinear_arith);
                assert((a + c.sq_codes@).subrange(g * dim, (g + 1) * dim) =~= a.subrange(
                    g * dim,
                    (g + 1) * dim,
                ));
            } else {
                let t = g - m;
                assert(g * dim == m * dim + t * dim && (g + 1) * dim == m * dim + (t + 1) * dim)
                    by (nonlinear_arith)
                    requires
                        t == g - m,
                ;
                assert((t + 1) * dim <= c.row_ids@.len() * dim && t * dim >= 0) by (nonlinear_arith)
                    requires
                        0 <= t < c.row_ids@.len(),
                        dim >= 0,
                ;
                assert((t + 1) * dim == t * dim + dim) by (nonlinear_arith);
                assert((a + c.sq_codes@).subrange(g * dim, (g + 1) * dim) =~= c.sq_codes@.subrange(
                    t * dim,
                    (t + 1) * dim,
                ));
            }
        }
    }
}

impl SQStorageChunk {
    /// A copy with the same dimension, row ids and codes.
    pub fn copy(&self) -> (r: Self)
        ensures
            same_chunk(r, *self),
    {
        SQStorageChunk {
            dim: self.dim,
            row_ids: copy_vec(&self.row_ids),
            sq_codes: copy_vec(&self.sq_codes),
        }
    }
}

impl ScalarQuantizationStorage {
    /// Merges all chunks into one when the store holds more than `SQ_CHUNK_CAPACITY` rows,
    /// which keeps the search for a row's chunk short; the rows stay as they were.
    pub fn optimize(self) -> (r: Self)
        requires
            self.wf(),
        ensures
            r.wf(),
            r.num_bits == self.num_bits,
            r.dim == self.dim,
            r.distance_type == self.distance_type,
            r.row_ids_view() == self.row_ids_view(),
            r.codes_view() == self.codes_view(),
            self.row_ids_view().len() > SQ_CHUNK_CAPACITY ==> r.chunks@.len() == 1,
            self.row_ids_view().len() <= SQ_CHUNK_CAPACITY ==> r == self,
    {
        if self.len() <= SQ_CHUNK_CAPACITY {
            return self;
        }
        let n = self.chunks.len();
        let ghost c = self.chunks@;
        let mut ids: Vec<u64> = Vec::new();
        let mut codes: Vec<u8> = Vec::new();
        let mut k: usize = 0;
        while k < n
            invariant
                n == c.len(),
                c == self.chunks@,
                k <= n,
                ids@ == ids_upto(c, k as int),
                codes@ == flat_codes_upto(c, k as int),
            decreases n - k,
        {
            let chunk = &self.chunks[k];
            let mut t: usize = 0;
            while t < chunk.row_ids.len()
                invariant
                    k < n,
                    *chunk == c[k as int],
                    t <= chunk.row_ids@.len(),
                    ids@ == ids_upto(c, k as int) + chunk.row_ids@.take(t as int),
                decreases chunk.row_ids@.len() - t,
            {
                ids.push(chunk.row_ids[t]);
                t += 1;
                assert(ids@ =~= ids_upto(c, k as int) + chunk.row_ids@.take(t as int));
            }
            assert(chunk.row_ids@.take(chunk.row_ids@.len() as int) =~= chunk.row_ids@);
            let mut j: usize = 0;
            while j < chunk.sq_codes.len()
                invariant
                    k < n,
                    *chunk == c[k as int],
                    j <= chunk.sq_codes@.len(),
                    codes@ == flat_codes_upto(c, k as int) + chunk.sq_codes@.take(j as int),
                decreases chunk.sq_codes@.len() - j,
            {
                codes.push(chunk.sq_codes[j]);
                j += 1;
                assert(codes@ =~= flat_codes_upto(c, k as int) + chunk.sq_codes@.take(j as int));
            }
            assert(chunk.sq_codes@.take(chunk.sq_codes@.len() as int) =~= chunk.sq_codes@);
            k += 1;
        }
        proof {
            assert forall|i: int| 0 <= i < c.len() implies (#[trigger] c[i]).wf() && c[i].dim
                == self.dim by {
                assert(self.chunks@[i].wf());
            }
            lemma_flat_codes(c, self.dim as int, n as int);
            assert(self.chunks@[0].wf());
        }
        let total = ids.len();
        let merged = SQStorageChunk { dim: self.dim, row_ids: ids, sq_codes: codes };
        let mut chunks: Vec<SQStorageChunk> = Vec::new();
        chunks.push(merged);
        let mut offsets: Vec<u32> = Vec::new();
        offsets.push(0);
        let nrows = self.offsets[n];
        offsets.push(nrows);
        let r = ScalarQuantizationStorage {
            num_bits: self.num_bits,
            dim: self.dim,
            distance_type: self.distance_type,
            offsets,
            chunks,
        };
        proof {
            assert(ids_upto(r.chunks@, 0) == Seq::<u64>::empty());
            assert(ids_upto(r.chunks@, 1) =~= r.chunks@[0].row_ids@);
            assert(codes_upto(r.chunks@, 0) == Seq::<Seq<u8>>::empty());
            assert(r.chunks@[0].wf());
            assert(codes_upto(r.chunks@, 1) =~= self.codes_view());
        }
        r
    }
}

/// The codes of the rows of a batch whose codes have `dim` items per row.
pub open spec fn batch_codes(vals: Seq<u8>, rows: int, dim: int) -> Seq<Seq<u8>> {
    Seq::new(rows as nat, |t: int| vals.subrange(t * dim, (t + 1) * dim))
}

/// The error, if any, of appending batch `b` to store `s`.
pub open spec fn append_error(s: ScalarQuantizationStorage, b: CodeBatch) -> Option<Error> {
    match chunk_error(b) {
        Some(e) => Some(e),
        None => if batch_dim(b) != s.dim {
            Some(Error::DimensionMismatch)
        } else if s.row_ids_view().len() + b.row_ids->Some_0@.len() > u32::MAX {
            Some(Error::TooManyRows)
        } else {
            None
        },
    }
}

impl ScalarQuantizationStorage {
    /// A new store with the rows of `batch`, already quantized, after the rows of this one;
    /// merged into one chunk when it grows past `SQ_CHUNK_CAPACITY` rows.
    pub fn append_batch(&self, batch: CodeBatch) -> (r: Result<Self, Error>)
        requires
            self.wf(),
        ensures
            match append_error(*self, batch) {
                Some(e) => r == Err::<Self, Error>(e),
                None => {
                    &&& r matches Ok(s)
                    &&& s.wf()
                    &&& s.num_bits == self.num_bits
                    &&& s.dim == self.dim
                    &&& s.distance_type == self.distance_type
                    &&& s.row_ids_view() == self.row_ids_view() + batch.row_ids->Some_0@
                    &&& s.codes_view() == self.codes_view() + batch_codes(
                        batch.sq_codes->Some_0.values->Some_0@,
                        batch.row_ids->Some_0@.len() as int,
                        self.dim as int,
                    )
                    &&& s.row_ids_view().len() > SQ_CHUNK_CAPACITY ==> s.chunks@.len() == 1
                },
            },
    {
        let ghost b = batch;
        let chunk = match SQStorageChunk::new(batch) {
            Ok(c) => c,
            Err(e) => {
                return Err(e);
            },
        };
        if chunk.dim() != self.dim {
            return Err(Error::DimensionMismatch);
        }
        let total = self.len() as u64;
        let rows = chunk.len() as u64;
        if rows > 0xFFFF_FFFF - total {
            return Err(Error::TooManyRows);
        }
        let n = self.chunks.len();
        let mut chunks: Vec<SQStorageChunk> = Vec::new();
        let mut offsets: Vec<u32> = Vec::new();
        let mut k: usize = 0;
        while k < n
            invariant
                self.wf(),
                n == self.chunks@.len(),
                k <= n,
                chunks@.len() == k,
                offsets@.len() == k,
                forall|i: int| 0 <= i < k ==> same_chunk(#[trigger] chunks@[i], self.chunks@[i]),
                forall|i: int| 0 <= i < k ==> #[trigger] offsets@[i] == self.offsets@[i],
            decreases n - k,
        {
            chunks.push(self.chunks[k].copy());
            offsets.push(self.offsets[k]);
            k += 1;
        }
        let ghost before = chunks@;
        offsets.push(self.offsets[n]);
        chunks.push(chunk);
        offsets.push((total + rows) as u32);
        let s = ScalarQuantizationStorage {
            num_bits: self.num_bits,
            dim: self.dim,
            distance_type: self.distance_type,
            offsets,
            chunks,
        };
        proof {
            let c = s.chunks@;
            assert forall|i: int| 0 <= i <= n implies ids_upto(c, i) == ids_upto(self.chunks@, i)
                && codes_upto(c, i) == codes_upto(self.chunks@, i) by {
                assert forall|j: int| 0 <= j < i implies same_chunk(#[trigger] c[j], self.chunks@[j]) by {
                    assert(c[j] == before[j]);
                }
                lemma_ids_upto_same(c, self.chunks@, i);
            }
            assert(ids_upto(c, n as int + 1) == ids_upto(c, n as int) + c[n as int].row_ids@);
            assert forall|i: int| 0 <= i <= c.len() implies #[trigger] s.offsets@[i] == ids_upto(
                c,
                i,
            ).len() by {
                if i <= n {
                    assert(self.offsets@[i] == ids_upto(self.chunks@, i).len());
                }
            }
            assert forall|i: int| 0 <= i < c.len() implies #[trigger] c[i].wf() && c[i].dim
                == s.dim by {
                if i < n {
                    assert(self.chunks@[i].wf());
                    assert(same_chunk(c[i], self.chunks@[i]));
                }
            }
            assert(s.wf());
            assert(Seq::new(c[n as int].row_ids@.len(), |t: int| c[n as int].code(t)) =~= batch_codes(
                b.sq_codes->Some_0.values->Some_0@,
                b.row_ids->Some_0@.len() as int,
                self.dim as int,
            ));
        }
        Ok(s.optimize())
    }
}

/// Distances from one query's codes to the rows of a store.
pub struct SQDistCalculator<'a> {
    pub query_sq_code: Vec<u8>,
    pub storage: &'a ScalarQuantizationStorage,
}

impl<'a> SQDistCalculator<'a> {
    /// A calculator for a query already quantized to `query_sq_code`.
    pub fn new(query_sq_code: Vec<u8>, storage: &'a ScalarQuantizationStorage) -> (r: Self)
        ensures
            r.query_sq_code@ == query_sq_code@,
            r.storage == storage,
    {
        SQDistCalculator { query_sq_code, storage }
    }

    /// Whether the calculator can measure: a well-formed store of a metric on codes, and a
    /// query of the store's dimension.
    pub open spec fn ready(&self) -> bool {
        &&& self.storage.wf()
        &&& self.storage.distance_type != DistanceType::Hamming
        &&& self.query_sq_code@.len() == self.storage.dim
    }

    /// The distance on codes between row `id` and the query.
    pub fn distance(&self, id: u32) -> (r: u64)
        requires
            self.ready(),
            id < self.storage.row_ids_view().len(),
        ensures
            r == code_distance(
                self.storage.distance_type,
                self.storage.codes_view()[id as int],
                self.query_sq_code@,
            ),
    {
        let (offset, chunk) = self.storage.chunk(id);
        let code = chunk.sq_code_slice(id - offset);
        match self.storage.distance_type {
            DistanceType::Dot => dot_distance(code, self.query_sq_code.as_slice()),
            _ => l2_distance_uint_scalar(code, self.query_sq_code.as_slice()),
        }
    }

    /// The distances on codes between every row, in order, and the query.
    pub fn distance_all(&self) -> (r: Vec<u64>)
        requires
            self.ready(),
        ensures
            r@.len() == self.storage.row_ids_view().len(),
            forall|i: int|
                0 <= i < r@.len() ==> #[trigger] r@[i] == code_distance(
                    self.storage.distance_type,
                    self.storage.codes_view()[i],
                    self.query_sq_code@,
                ),
    {
        let n = self.storage.len();
        let mut r: Vec<u64> = Vec::new();
        let mut i: usize = 0;
        while i < n
            invariant
                self.ready(),
                n == self.storage.row_ids_view().len(),
                n <= u32::MAX,
                i <= n,
                r@.len() == i,
                forall|j: int|
                    0 <= j < i ==> #[trigger] r@[j] == code_distance(
                        self.storage.distance_type,
                        self.storage.codes_view()[j],
                        self.query_sq_code@,
                    ),
            decreases n - i,
        {
            r.push(self.distance(i as u32));
            i += 1;
        }
        r
    }
}

impl ScalarQuantizationStorage {
    /// A calculator whose query is the codes of row `id`.
    pub fn dist_calculator_from_id(&self, id: u32) -> (r: SQDistCalculator<'_>)
        requires
            self.wf(),
            id < self.row_ids_view().len(),
        ensures
            r.query_sq_code@ == self.codes_view()[id as int],
            r.storage == self,
    {
        let (offset, chunk) = self.chunk(id);
        let code = chunk.sq_code_slice(id - offset);
        let mut query: Vec<u8> = Vec::new();
        let mut j: usize = 0;
        while j < code.len()
            invariant
                j <= code@.len(),
                query@ == code@.take(j as int),
            decreases code@.len() - j,
        {
            query.push(code[j]);
            j += 1;
            assert(query@ =~= code@.take(j as int));
        }
        assert(code@.take(code@.len() as int) =~= code@);
        SQDistCalculator { query_sq_code: query, storage: self }
    }
}

/// Once a store has an error, later batches leave it as it is.
proof fn lemma_store_error_stays(bs: Seq<CodeBatch>, k: int, n: int)
    requires
        0 <= k <= n,
    ensures
        store_error(bs, k) is Some ==> store_error(bs, n) == store_error(bs, k),
    decreases n - k,
{
    if k < n {
        lemma_store_error_stays(bs, k, n - 1);
    }
}

/// `ids_upto` over the first `i` chunks depends on those chunks alone.
proof fn lemma_ids_upto_same(a: Seq<SQStorageChunk>, b: Seq<SQStorageChunk>, i: int)
    requires
        0 <= i <= a.len(),
        i <= b.len(),
        forall|j: int| 0 <= j < i ==> same_chunk(#[trigger] a[j], b[j]),
    ensures
        ids_upto(a, i) == ids_upto(b, i),
        codes_upto(a, i) == codes_upto(b, i),
    decreases i,
{
    if i > 0 {
        lemma_ids_upto_same(a, b, i - 1);
        assert(same_chunk(a[i - 1], b[i - 1]));
        assert(Seq::new(a[i - 1].row_ids@.len(), |t: int| a[i - 1].code(t)) =~= Seq::new(
            b[i - 1].row_ids@.len(),
            |t: int| b[i - 1].code(t),
        ));
    }
}

/// Two chunks with the same dimension, row ids and codes.
pub open spec fn same_chunk(a: SQStorageChunk, b: SQStorageChunk) -> bool {
    &&& a.dim == b.dim
    &&& a.row_ids@ == b.row_ids@
    &&& a.sq_codes@ == b.sq_codes@
}

} // verus!
