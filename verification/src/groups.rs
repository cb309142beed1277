use vstd::prelude::*;

verus! {

/// The result of partitioning row positions by equal key: one entry per
/// distinct key, each holding the positions of the rows sharing it.
pub struct GroupsProxy {
    pub groups: Vec<Vec<usize>>,
}

impl GroupsProxy {
    /// Every recorded position addresses a row of a column of length
    /// `len`, and no group outgrows the engine's signed integer range.
    pub open spec fn wf(self, len: nat) -> bool {
        forall|g: int|
            0 <= g < self.groups@.len() ==> {
                &&& (#[trigger] self.groups@[g])@.len() <= 0x7fff_ffff_ffff_ffff
                &&& (forall|k: int|
                    0 <= k < self.groups@[g]@.len() ==> (#[trigger] self.groups@[g]@[k]) < len)
            }
    }

    /// The row positions of one group.
    pub open spec fn group(self, g: int) -> Seq<usize> {
        self.groups@[g]@
    }

    /// The number of groups.
    pub fn len(&self) -> (r: usize)
        ensures
            r == self.groups@.len(),
    {
        self.groups.len()
    }
}

/// The cells of a column at the given row positions, in that order.
pub open spec fn gather<T>(cells: Seq<Option<T>>, idxs: Seq<usize>) -> Seq<Option<T>> {
    Seq::new(idxs.len(), |k: int| cells[idxs[k] as int])
}

/// Grouped aggregation consistency: for any grouping, the summed value of
/// a group (the count of its true cells, which is what `agg_sum` puts in
/// that group's slot) equals the sum of the same cells taken
/// independently out of the column with `take`.
pub proof fn lemma_agg_sum_matches_take(cells: Seq<Option<bool>>, idxs: Seq<usize>)
    requires
        forall|k: int| 0 <= k < idxs.len() ==> (#[trigger] idxs[k]) < cells.len(),
    ensures
        crate::boolean::count_eq(gather(cells, idxs), Some(true)) == crate::boolean::count_eq(
            crate::chunked::taken_cells(cells, idxs.map_values(|p: usize| Some(p))),
            Some(true),
        ),
{
    assert(gather(cells, idxs) =~= crate::chunked::taken_cells(
        cells,
        idxs.map_values(|p: usize| Some(p)),
    ));
}

} // verus!
