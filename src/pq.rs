//! The product-quantization index's codes and row ids, and narrowing them by a pre-filter.
use vstd::prelude::*;

use std::collections::HashMap;

use crate::error::Error;
use crate::sq::{copy_vec, DistanceType};

verus! {

broadcast use vstd::std_specs::hash::group_hash_axioms;

/// The row id that `id` becomes under `mapping`: its entry when it has one (`None` drops
/// the row), itself otherwise.
pub open spec fn remapped(mapping: Map<u64, Option<u64>>, id: u64) -> Option<u64> {
    if mapping.contains_key(id) {
        mapping[id]
    } else {
        Some(id)
    }
}

/// The positions of the rows of `ids` that `mapping` keeps, in order.
pub open spec fn kept_rows(ids: Seq<u64>, mapping: Map<u64, Option<u64>>) -> Seq<u64>
    decreases ids.len(),
{
    if ids.len() == 0 {
        Seq::empty()
    } else {
        let prev = kept_rows(ids.drop_last(), mapping);
        if remapped(mapping, ids.last()) is Some {
            prev.push((ids.len() - 1) as u64)
        } else {
            prev
        }
    }
}

/// A product-quantization index over one partition. The codes are stored transposed: the
/// codes of sub-vector `s` for every row, then those of sub-vector `s + 1`.
pub struct PQIndex {
    pub code: Option<Vec<u8>>,
    pub row_ids: Option<Vec<u64>>,
    pub num_sub_vectors: usize,
    pub metric_type: DistanceType,
}

/// The codes that remain when the rows at `indices` are kept from transposed codes of
/// `n` rows: for each whole run of `n` codes, the codes at `indices`, in order.
pub open spec fn filtered_codes(code: Seq<u8>, n: int, indices: Seq<u64>) -> Seq<u8> {
    let k = indices.len() as int;
    Seq::new(((code.len() as int / n) * k) as nat, |p: int| code[(p / k) * n + indices[p % k]])
}

impl PQIndex {
    /// An index whose codes and row ids are not loaded yet.
    pub fn new(num_sub_vectors: usize, metric_type: DistanceType) -> (r: Self)
        ensures
            r.code is None,
            r.row_ids is None,
            r.num_sub_vectors == num_sub_vectors,
            r.metric_type == metric_type,
    {
        PQIndex { code: None, row_ids: None, num_sub_vectors, metric_type }
    }

    /// Number of rows loaded; 0 before loading.
    pub fn num_rows(&self) -> (r: u64)
        ensures
            r == match self.row_ids {
                Some(ids) => ids@.len() as int,
                None => 0,
            },
    {
        match &self.row_ids {
            Some(ids) => ids.len() as u64,
            None => 0,
        }
    }

    /// The loaded codes and row ids, or `UninitializedIndex` before loading.
    pub fn loaded(&self) -> (r: Result<(&Vec<u8>, &Vec<u64>), Error>)
        ensures
            match (self.code, self.row_ids) {
                (Some(c), Some(ids)) => r matches Ok(p) && *p.0 == c && *p.1 == ids,
                _ => r == Err::<(&Vec<u8>, &Vec<u64>), Error>(Error::UninitializedIndex),
            },
    {
        match (&self.code, &self.row_ids) {
            (Some(c), Some(ids)) => Ok((c, ids)),
            _ => Err(Error::UninitializedIndex),
        }
    }

    /// Keeps the rows at `indices_to_keep`, in that order: their row ids, and their codes
    /// from each run of codes of one sub-vector. Empty arrays are returned as they are.
    pub fn filter_arrays(code: Vec<u8>, row_ids: Vec<u64>, indices_to_keep: &Vec<u64>) -> (r: (
        Vec<u8>,
        Vec<u64>,
    ))
        requires
            forall|j: int|
                0 <= j < indices_to_keep@.len() ==> #[trigger] indices_to_keep@[j] < row_ids@.len(),
        ensures
            row_ids@.len() == 0 ==> r.0@ == code@ && r.1@ == row_ids@,
            row_ids@.len() > 0 ==> {
                &&& r.1@ == Seq::new(
                    indices_to_keep@.len(),
                    |j: int| row_ids@[indices_to_keep@[j] as int],
                )
                &&& r.0@ == filtered_codes(code@, row_ids@.len() as int, indices_to_keep@)
            },
    {
        let n = row_ids.len();
        if n == 0 {
            return (code, row_ids);
        }
        let k = indices_to_keep.len();
        let mut ids: Vec<u64> = Vec::new();
        let mut j: usize = 0;
        while j < k
            invariant
                k == indices_to_keep@.len(),
                n == row_ids@.len(),
                forall|j: int|
                    0 <= j < indices_to_keep@.len() ==> #[trigger] indices_to_keep@[j]
                        < row_ids@.len(),
                j <= k,
                ids@ == Seq::new(j as nat, |i: int| row_ids@[indices_to_keep@[i] as int]),
            decreases k - j,
        {
            assert(indices_to_keep@[j as int] < row_ids@.len());
            ids.push(row_ids[indices_to_keep[j] as usize]);
            j += 1;
            assert(ids@ =~= Seq::new(j as nat, |i: int| row_ids@[indices_to_keep@[i] as int]));
        }
        let runs = code.len() / n;
        let ghost want = filtered_codes(code@, n as int, indices_to_keep@);
        let mut out: Vec<u8> = Vec::new();
        let mut s: usize = 0;
        while s < runs
            invariant
                k == indices_to_keep@.len(),
                n == row_ids@.len(),
                n > 0,
                runs == code@.len() as int / (n as int),
                forall|j: int|
                    0 <= j < indices_to_keep@.len() ==> #[trigger] indices_to_keep@[j]
                        < row_ids@.len(),
                want == filtered_codes(code@, n as int, indices_to_keep@),
                s <= runs,
                out@.len() == s * k,
                forall|p: int| 0 <= p < out@.len() ==> #[trigger] out@[p] == want[p],
            decreases runs - s,
        {
            proof {
                vstd::arithmetic::div_mod::lemma_fundamental_div_mod(code@.len() as int, n as int);
                assert((s + 1) * n <= code@.len()) by (nonlinear_arith)
                    requires
                        s < runs,
                        code@.len() == n * runs + code@.len() as int % (n as int),
                        code@.len() as int % (n as int) >= 0,
                ;
                assert(s * n + n == (s + 1) * n) by (nonlinear_arith);
                assert((s + 1) * k <= runs * k) by (nonlinear_arith)
                    requires
                        s < runs,
                ;
            }
            let _code_len = code.len();
            let base = s * n;
            let mut j: usize = 0;
            while j < k
                invariant
                    k == indices_to_keep@.len(),
                    n == row_ids@.len(),
                    n > 0,
                    runs == code@.len() as int / (n as int),
                    forall|j: int|
                        0 <= j < indices_to_keep@.len() ==> #[trigger] indices_to_keep@[j]
                            < row_ids@.len(),
                    want == filtered_codes(code@, n as int, indices_to_keep@),
                    s < runs,
                    base == s * n,
                    base + n <= code@.len(),
                    _code_len == code@.len(),
                    (s + 1) * k <= runs * k,
                    j <= k,
                    out@.len() == s * k + j,
                    forall|p: int| 0 <= p < out@.len() ==> #[trigger] out@[p] == want[p],
                decreases k - j,
            {
                let idx = indices_to_keep[j] as usize;
                assert(indices_to_keep@[j as int] < row_ids@.len());
                out.push(code[base + idx]);
                proof {
                    let p = s * k + j;
                    vstd::arithmetic::div_mod::lemma_fundamental_div_mod_converse(
                        p,
                        k as int,
                        s as int,
                        j as int,
                    );
                    assert(s * k + k == (s + 1) * k) by (nonlinear_arith);
                    assert(p < runs * k);
                }
                j += 1;
            }
            assert(s * k + k == (s + 1) * k) by (nonlinear_arith);
            s += 1;
        }
        assert(out@ =~= want);
        (out, ids)
    }

    /// Renames the loaded rows by `mapping` and drops those it maps to `None`; rows it does
    /// not name stay as they are. The codes of the rows kept stay with them.
    pub fn remap(&mut self, mapping: &HashMap<u64, Option<u64>>)
        requires
            old(self).code is Some,
            old(self).row_ids is Some,
            old(self).row_ids->Some_0@.len() <= u64::MAX,
        ensures
            final(self).num_sub_vectors == old(self).num_sub_vectors,
            final(self).metric_type == old(self).metric_type,
            ({
                let ids = old(self).row_ids->Some_0@;
                let kept = kept_rows(ids, mapping@);
                &&& final(self).row_ids matches Some(new_ids)
                &&& new_ids@ == Seq::new(
                    kept.len(),
                    |k: int| remapped(mapping@, ids[kept[k] as int])->Some_0,
                )
                &&& final(self).code matches Some(new_code)
                &&& ids.len() > 0 ==> new_code@ == filtered_codes(
                    old(self).code->Some_0@,
                    ids.len() as int,
                    kept,
                )
                &&& ids.len() == 0 ==> new_code@ == old(self).code->Some_0@
            }),
    {
        let ids = match &self.row_ids {
            Some(ids) => copy_vec(ids),
            None => Vec::new(),
        };
        let code = match &self.code {
            Some(c) => copy_vec(c),
            None => Vec::new(),
        };
        let ghost m = mapping@;
        let mut kept: Vec<u64> = Vec::new();
        let mut new_ids: Vec<u64> = Vec::new();
        let mut i: usize = 0;
        while i < ids.len()
            invariant
                i <= ids@.len(),
                ids@.len() <= u64::MAX,
                m == mapping@,
                kept@ == kept_rows(ids@.take(i as int), m),
                forall|k: int| 0 <= k < kept@.len() ==> #[trigger] kept@[k] < i,
                new_ids@ == Seq::new(
                    kept@.len(),
                    |k: int| remapped(m, ids@[kept@[k] as int])->Some_0,
                ),
            decreases ids@.len() - i,
        {
            let old_id = ids[i];
            let ghost pre = ids@.take(i as int);
            assert(ids@.take(i as int + 1).drop_last() =~= pre);
            assert(ids@.take(i as int + 1).last() == old_id);
            let new_id = match mapping.get(&old_id) {
                Some(v) => *v,
                None => Some(old_id),
            };
            assert(new_id == remapped(m, old_id));
            match new_id {
                Some(n) => {
                    kept.push(i as u64);
                    new_ids.push(n);
                    assert(new_ids@ =~= Seq::new(
                        kept@.len(),
                        |k: int| remapped(m, ids@[kept@[k] as int])->Some_0,
                    ));
                },
                None => {},
            }
            i += 1;
        }
        assert(ids@.take(ids@.len() as int) =~= ids@);
        let (new_code, _) = Self::filter_arrays(code, ids, &kept);
        self.row_ids = Some(new_ids);
        self.code = Some(new_code);
    }

    /// The codes of row `vec_idx` from transposed codes of `num_vectors` rows: every
    /// `num_vectors`-th code, starting at `vec_idx`.
    pub fn get_pq_codes(transposed_codes: &Vec<u8>, vec_idx: usize, num_vectors: usize) -> (r:
        Vec<u8>)
        requires
            num_vectors > 0,
        ensures
            forall|m: int| 0 <= m < r@.len() ==> #[trigger] r@[m] == transposed_codes@[vec_idx + m
                * num_vectors],
            r@.len() == if vec_idx < transposed_codes@.len() {
                (transposed_codes@.len() as int - vec_idx - 1) / (num_vectors as int) + 1
            } else {
                0
            },
    {
        let len = transposed_codes.len();
        let mut r: Vec<u8> = Vec::new();
        let mut p: usize = vec_idx;
        let ghost mut m: int = 0;
        while p < len
            invariant
                num_vectors > 0,
                len == transposed_codes@.len(),
                vec_idx <= p,
                p < len ==> p == vec_idx + m * num_vectors,
                r@.len() == m,
                m >= 0,
                forall|i: int| 0 <= i < r@.len() ==> #[trigger] r@[i] == transposed_codes@[vec_idx + i
                    * num_vectors],
                vec_idx < len ==> m == if p < len {
                    (p - vec_idx) / (num_vectors as int)
                } else {
                    (len - vec_idx - 1) / (num_vectors as int) + 1
                },
                vec_idx >= len ==> m == 0,
            decreases len - p,
        {
            r.push(transposed_codes[p]);
            proof {
                assert(vec_idx + m * num_vectors + num_vectors == vec_idx + (m + 1) * num_vectors)
                    by (nonlinear_arith);
                let d = num_vectors as int;
                vstd::arithmetic::div_mod::lemma_fundamental_div_mod_converse(p - vec_idx, d, m, 0);
                if p + num_vectors < len {
                    vstd::arithmetic::div_mod::lemma_fundamental_div_mod_converse(
                        p + d - vec_idx,
                        d,
                        m + 1,
                        0,
                    );
                } else {
                    let x = len - vec_idx - 1;
                    vstd::arithmetic::div_mod::lemma_fundamental_div_mod_converse(
                        x,
                        d,
                        m,
                        x - m * d,
                    );
                }
                m = m + 1;
            }
            if len - p <= num_vectors {
                p = len;
            } else {
                p = p + num_vectors;
            }
        }
        r
    }
}

} // verus!
