//! Row hashing for the boolean template type, backed by the outside
//! hasher. Within one call equal cells receive equal hashes, which is
//! all the grouping and join machinery may rely on; across calls and
//! machines nothing is promised.
use vstd::prelude::*;

use core::hash::BuildHasher;

use crate::boolean::BooleanChunked;
use crate::chunked::{chunk_cell_at, lemma_cells_one};
use crate::error::CoreError;
use crate::series::Series;

verus! {

/// ahash's hasher state, fixed by four seeds.
#[verifier::external_type_specification]
#[verifier::external_body]
pub struct ExRandomState(ahash::RandomState);

/// Relies on `ahash::RandomState::with_seeds`: builds a hasher state
/// determined by the four seeds. Nothing is promised of the hashes it
/// will produce.
#[verifier::external_body]
pub fn random_state_with_seeds(k0: u64, k1: u64, k2: u64, k3: u64) -> ahash::RandomState {
    ahash::RandomState::with_seeds(k0, k1, k2, k3)
}

/// Relies on ahash's `BuildHasher::hash_one`: one deterministic hasher
/// state hashes equal values equally, so within this one result equal
/// cells carry equal hashes.
#[verifier::external_body]
fn hash_cells_bool(rs: &ahash::RandomState, cells: &Vec<Option<bool>>) -> (r: Vec<u64>)
    ensures
        r@.len() == cells@.len(),
        forall|i: int, j: int|
            0 <= i < cells@.len() && 0 <= j < cells@.len() && cells@[i] == cells@[j] ==> r@[i]
                == r@[j],
{
    cells.iter().map(|c| rs.hash_one(c)).collect()
}

/// Relies on ahash's `BuildHasher::hash_one` over the pair of running
/// hash and cell: within this one call, equal pairs fold to equal
/// hashes.
#[verifier::external_body]
fn combine_cells_bool(rs: &ahash::RandomState, cells: &Vec<Option<bool>>, hashes: &mut Vec<u64>)
    requires
        old(hashes)@.len() == cells@.len(),
    ensures
        final(hashes)@.len() == cells@.len(),
        forall|i: int, j: int|
            0 <= i < cells@.len() && 0 <= j < cells@.len() && cells@[i] == cells@[j] && old(
                hashes,
            )@[i] == old(hashes)@[j] ==> final(hashes)@[i] == final(hashes)@[j],
{
    for (h, c) in hashes.iter_mut().zip(cells.iter()) {
        *h = rs.hash_one((*h, c));
    }
}

impl BooleanChunked {
    /// The cells as one flat vector of optional values.
    fn cells_vec(&self) -> (r: Vec<Option<bool>>)
        requires
            self.wf(),
        ensures
            r@ == self.cells(),
    {
        let flat = self.rechunk();
        proof {
            lemma_cells_one(flat.chunks@);
        }
        let ch = &flat.chunks[0];
        let mut r: Vec<Option<bool>> = Vec::new();
        let mut i: usize = 0;
        while i < ch.values.len()
            invariant
                i <= self.spec_len(),
                ch.wf(),
                ch == flat.chunks@[0],
                ch.cells() =~= self.cells(),
                r@ =~= self.cells().take(i as int),
            decreases self.spec_len() - i,
        {
            let c = chunk_cell_at(ch, i);
            r.push(c);
            proof {
                assert(self.cells().take(i + 1) =~= self.cells().take(i as int).push(
                    self.cells()[i as int],
                ));
            }
            i = i + 1;
        }
        proof {
            assert(self.cells().take(self.spec_len() as int) =~= self.cells());
        }
        r
    }

    /// One hash per row; equal cells receive equal hashes.
    pub fn vec_hash(&self, random_state: &ahash::RandomState) -> (r: Vec<u64>)
        requires
            self.wf(),
        ensures
            r@.len() == self.spec_len(),
            forall|i: int, j: int|
                0 <= i < self.spec_len() && 0 <= j < self.spec_len() && self.cells()[i]
                    == self.cells()[j] ==> r@[i] == r@[j],
    {
        let cells = self.cells_vec();
        hash_cells_bool(random_state, &cells)
    }

    /// Fold this column into a running per-row composite hash; rows with
    /// equal cells and equal running hashes stay equal.
    pub fn vec_hash_combine(&self, build_hasher: &ahash::RandomState, hashes: &mut Vec<u64>)
        requires
            self.wf(),
            old(hashes)@.len() == self.spec_len(),
        ensures
            final(hashes)@.len() == self.spec_len(),
            forall|i: int, j: int|
                0 <= i < self.spec_len() && 0 <= j < self.spec_len() && self.cells()[i]
                    == self.cells()[j] && old(hashes)@[i] == old(hashes)@[j] ==> final(hashes)@[i] == final(hashes)@[j],
    {
        let cells = self.cells_vec();
        combine_cells_bool(build_hasher, &cells, hashes)
    }
}

impl Series {
    /// One hash per row, consistent with the equality that `unique` and
    /// grouping use; hashing is implemented for the boolean template
    /// type.
    pub fn vec_hash(&self, random_state: &ahash::RandomState) -> (r: Result<Vec<u64>, CoreError>)
        requires
            self.wf(),
        ensures
            r is Ok <==> self.dtype_spec() == crate::series::DType::Boolean,
            self matches Series::Bool(ca) ==> (r matches Ok(h) && h@.len() == ca.spec_len() && (
            forall|i: int, j: int|
                0 <= i < ca.spec_len() && 0 <= j < ca.spec_len() && ca.cells()[i]
                    == ca.cells()[j] ==> h@[i] == h@[j])),
            r matches Err(e) ==> e == CoreError::InvalidOperation,
    {
        match self {
            Series::Bool(ca) => Ok(ca.vec_hash(random_state)),
            _ => Err(CoreError::InvalidOperation),
        }
    }

    /// Fold this column into a running per-row composite hash, applied
    /// in a fixed column order across a multi-column key; boolean
    /// template type only.
    pub fn vec_hash_combine(&self, build_hasher: &ahash::RandomState, hashes: &mut Vec<u64>) -> (r:
        Result<(), CoreError>)
        requires
            self.wf(),
            old(hashes)@.len() == self.spec_len(),
        ensures
            r is Ok <==> self.dtype_spec() == crate::series::DType::Boolean,
            self matches Series::Bool(ca) ==> (r is Ok && final(hashes)@.len() == ca.spec_len()
                && (forall|i: int, j: int|
                0 <= i < ca.spec_len() && 0 <= j < ca.spec_len() && ca.cells()[i]
                    == ca.cells()[j] && old(hashes)@[i] == old(hashes)@[j] ==> final(hashes)@[i] == final(hashes)@[j])),
            r is Err ==> final(hashes)@ == old(hashes)@,
            r matches Err(e) ==> e == CoreError::InvalidOperation,
    {
        match self {
            Series::Bool(ca) => {
                ca.vec_hash_combine(build_hasher, hashes);
                Ok(())
            },
            _ => Err(CoreError::InvalidOperation),
        }
    }
}

} // verus!
