//! The type-erased column handle: one variant per logical type, each
//! forwarding to the concrete chunked array it owns. Consumers depend only
//! on this shared contract; adding a logical type means adding one variant
//! and its forwarding arms.
use vstd::prelude::*;

use crate::boolean::{
    argsorted_bool, bit_zipped, bool_group_keys, count_eq, distinct_cells, first_positions,
    max_bool_cell, min_bool_cell, positions_of, sorted_bool_cells, BitOp, BooleanChunked,
    Int64Chunked, Utf8Chunked,
};
use crate::chunked::{
    all_indices_valid, filled_backward, filled_const, filled_forward, filtered_cells,
    shifted_cells, slice_start, slice_take, taken_cells, ChunkedArray, Element, IdxCa, IsSorted,
    SortOptions, FillNullStrategy,
};
use crate::error::CoreError;
use crate::groups::{gather, GroupsProxy};

verus! {

/// The closed set of logical column types.
#[derive(Clone, Copy, Debug, PartialEq, Eq, Structural)]
pub enum DType {
    Boolean,
    Int64,
    Utf8,
}

/// One dynamically-typed cell, as handed out by `get`.
#[derive(Clone, Debug)]
pub enum AnyValue {
    Null,
    Boolean(bool),
    Int64(i64),
    Utf8(String),
}

/// The logical content of a column, abstracted over the physical cell
/// representation (strings appear as character sequences).
pub enum ColCells {
    Bools(Seq<Option<bool>>),
    Ints(Seq<Option<i64>>),
    Strs(Seq<Option<Seq<char>>>),
}

impl ColCells {
    pub open spec fn len(self) -> nat {
        match self {
            ColCells::Bools(s) => s.len(),
            ColCells::Ints(s) => s.len(),
            ColCells::Strs(s) => s.len(),
        }
    }
}

/// The view of string cells: each string as its character sequence.
pub open spec fn str_cells_view(cells: Seq<Option<String>>) -> Seq<Option<Seq<char>>> {
    cells.map_values(
        |c: Option<String>|
            match c {
                Some(s) => Some(s@),
                None => None,
            },
    )
}

/// The concatenation of two column views of the same type.
pub open spec fn col_concat(a: ColCells, b: ColCells) -> ColCells {
    match (a, b) {
        (ColCells::Bools(x), ColCells::Bools(y)) => ColCells::Bools(x + y),
        (ColCells::Ints(x), ColCells::Ints(y)) => ColCells::Ints(x + y),
        (ColCells::Strs(x), ColCells::Strs(y)) => ColCells::Strs(x + y),
        (x, _) => x,
    }
}

/// The type-erased column handle: exactly one chunked array of one logical
/// type behind a uniform contract.
#[derive(Debug)]
pub enum Series {
    Bool(BooleanChunked),
    Int64(Int64Chunked),
    Utf8(Utf8Chunked),
}

impl Series {
    pub open spec fn wf(self) -> bool {
        match self {
            Series::Bool(ca) => ca.wf(),
            Series::Int64(ca) => ca.wf(),
            Series::Utf8(ca) => ca.wf(),
        }
    }

    pub open spec fn dtype_spec(self) -> DType {
        match self {
            Series::Bool(_) => DType::Boolean,
            Series::Int64(_) => DType::Int64,
            Series::Utf8(_) => DType::Utf8,
        }
    }

    pub open spec fn name_spec(self) -> Seq<char> {
        match self {
            Series::Bool(ca) => ca.name@,
            Series::Int64(ca) => ca.name@,
            Series::Utf8(ca) => ca.name@,
        }
    }

    pub open spec fn spec_len(self) -> nat {
        match self {
            Series::Bool(ca) => ca.spec_len(),
            Series::Int64(ca) => ca.spec_len(),
            Series::Utf8(ca) => ca.spec_len(),
        }
    }

    pub open spec fn sorted_flag(self) -> IsSorted {
        match self {
            Series::Bool(ca) => ca.sorted,
            Series::Int64(ca) => ca.sorted,
            Series::Utf8(ca) => ca.sorted,
        }
    }

    /// The logical content: values and null positions, chunking forgotten.
    pub open spec fn view(self) -> ColCells {
        match self {
            Series::Bool(ca) => ColCells::Bools(ca.cells()),
            Series::Int64(ca) => ColCells::Ints(ca.cells()),
            Series::Utf8(ca) => ColCells::Strs(str_cells_view(ca.cells())),
        }
    }

    pub open spec fn chunk_lens(self) -> Seq<int> {
        match self {
            Series::Bool(ca) => ca.chunk_lens(),
            Series::Int64(ca) => ca.chunk_lens(),
            Series::Utf8(ca) => ca.chunk_lens(),
        }
    }

    /// A fresh boolean column without nulls.
    pub fn new_bool(name: &str, values: Vec<bool>) -> (r: Series)
        ensures
            r.wf(),
            r.dtype_spec() == DType::Boolean,
            r.name_spec() == name@,
            r.view() == ColCells::Bools(
                Seq::new(values@.len(), |i: int| Some(values@[i])),
            ),
    {
        let ca = ChunkedArray::<bool>::new(name, values);
        proof {
            assert(ca.cells() =~= Seq::new(ca.cells().len(), |i: int| Some(ca.cells()[i].unwrap())));
        }
        Series::Bool(ca)
    }

    /// A fresh boolean column from optional values.
    pub fn new_opt_bool(name: &str, cells: Vec<Option<bool>>) -> (r: Series)
        ensures
            r.wf(),
            r.dtype_spec() == DType::Boolean,
            r.name_spec() == name@,
            r.view() == ColCells::Bools(cells@),
    {
        Series::Bool(ChunkedArray::<bool>::new_opt(name, cells))
    }

    /// A fresh 64-bit integer column without nulls.
    pub fn new_int64(name: &str, values: Vec<i64>) -> (r: Series)
        ensures
            r.wf(),
            r.dtype_spec() == DType::Int64,
            r.name_spec() == name@,
            r.view() == ColCells::Ints(Seq::new(values@.len(), |i: int| Some(values@[i]))),
    {
        Series::Int64(ChunkedArray::<i64>::new(name, values))
    }

    /// A fresh 64-bit integer column from optional values.
    pub fn new_opt_int64(name: &str, cells: Vec<Option<i64>>) -> (r: Series)
        ensures
            r.wf(),
            r.dtype_spec() == DType::Int64,
            r.name_spec() == name@,
            r.view() == ColCells::Ints(cells@),
    {
        Series::Int64(ChunkedArray::<i64>::new_opt(name, cells))
    }

    /// A fresh string column without nulls.
    pub fn new_utf8(name: &str, values: Vec<String>) -> (r: Series)
        ensures
            r.wf(),
            r.dtype_spec() == DType::Utf8,
            r.name_spec() == name@,
            r.view() == ColCells::Strs(
                Seq::new(values@.len(), |i: int| Some(values@[i]@)),
            ),
    {
        let ca = ChunkedArray::<String>::new(name, values);
        proof {
            assert(str_cells_view(ca.cells()) =~= Seq::new(
                values@.len(),
                |i: int| Some(values@[i]@),
            ));
        }
        Series::Utf8(ca)
    }

    /// A fresh string column from optional values.
    pub fn new_opt_utf8(name: &str, cells: Vec<Option<String>>) -> (r: Series)
        ensures
            r.wf(),
            r.dtype_spec() == DType::Utf8,
            r.name_spec() == name@,
            r.view() == ColCells::Strs(str_cells_view(cells@)),
    {
        Series::Utf8(ChunkedArray::<String>::new_opt(name, cells))
    }

    /// The column's name.
    pub fn name(&self) -> (r: &str)
        ensures
            r@ == self.name_spec(),
    {
        match self {
            Series::Bool(ca) => ca.name(),
            Series::Int64(ca) => ca.name(),
            Series::Utf8(ca) => ca.name(),
        }
    }

    /// Give the column a new name; contents and sortedness are untouched.
    pub fn rename(&mut self, name: &str)
        requires
            old(self).wf(),
        ensures
            final(self).wf(),
            final(self).name_spec() == name@,
            final(self).view() == old(self).view(),
            final(self).dtype_spec() == old(self).dtype_spec(),
            final(self).sorted_flag() == old(self).sorted_flag(),
    {
        match self {
            Series::Bool(ca) => ca.rename(name),
            Series::Int64(ca) => ca.rename(name),
            Series::Utf8(ca) => ca.rename(name),
        }
    }

    /// The logical type of the column.
    pub fn dtype(&self) -> (r: DType)
        ensures
            r == self.dtype_spec(),
    {
        match self {
            Series::Bool(_) => DType::Boolean,
            Series::Int64(_) => DType::Int64,
            Series::Utf8(_) => DType::Utf8,
        }
    }

    /// The number of cells.
    pub fn len(&self) -> (r: usize)
        requires
            self.wf(),
        ensures
            r == self.spec_len(),
    {
        match self {
            Series::Bool(ca) => ca.len(),
            Series::Int64(ca) => ca.len(),
            Series::Utf8(ca) => ca.len(),
        }
    }

    pub fn is_empty(&self) -> (r: bool)
        requires
            self.wf(),
        ensures
            r == (self.spec_len() == 0),
    {
        self.len() == 0
    }

    /// How many chunks back the column.
    pub fn n_chunks(&self) -> (r: usize)
        ensures
            r == self.chunk_lens().len(),
    {
        match self {
            Series::Bool(ca) => ca.n_chunks(),
            Series::Int64(ca) => ca.n_chunks(),
            Series::Utf8(ca) => ca.n_chunks(),
        }
    }

    /// The length of each chunk, in order.
    pub fn chunk_lengths(&self) -> (r: Vec<usize>)
        requires
            self.wf(),
        ensures
            r@.len() == self.chunk_lens().len(),
            forall|i: int| 0 <= i < r@.len() ==> r@[i] == self.chunk_lens()[i],
    {
        match self {
            Series::Bool(ca) => ca.chunk_lengths(),
            Series::Int64(ca) => ca.chunk_lengths(),
            Series::Utf8(ca) => ca.chunk_lengths(),
        }
    }

    /// The number of null cells.
    pub fn null_count(&self) -> (r: usize)
        requires
            self.wf(),
        ensures
            match self {
                Series::Bool(ca) => r == crate::chunked::count_nulls(ca.cells()),
                Series::Int64(ca) => r == crate::chunked::count_nulls(ca.cells()),
                Series::Utf8(ca) => r == crate::chunked::count_nulls(ca.cells()),
            },
    {
        match self {
            Series::Bool(ca) => ca.null_count(),
            Series::Int64(ca) => ca.null_count(),
            Series::Utf8(ca) => ca.null_count(),
        }
    }

    /// Whether any chunk carries a validity bitmap.
    pub fn has_validity(&self) -> (r: bool)
    {
        match self {
            Series::Bool(ca) => ca.has_validity(),
            Series::Int64(ca) => ca.has_validity(),
            Series::Utf8(ca) => ca.has_validity(),
        }
    }

    /// The cached sortedness flag; it is never recomputed from the data.
    pub fn is_sorted(&self) -> (r: IsSorted)
        ensures
            r == self.sorted_flag(),
    {
        match self {
            Series::Bool(ca) => ca.sorted,
            Series::Int64(ca) => ca.sorted,
            Series::Utf8(ca) => ca.sorted,
        }
    }

    /// Record a sortedness established by the caller.
    pub fn set_sorted(&mut self, reverse: bool)
        requires
            old(self).wf(),
        ensures
            final(self).wf(),
            final(self).sorted_flag() == (if reverse {
                IsSorted::Descending
            } else {
                IsSorted::Ascending
            }),
            final(self).view() == old(self).view(),
            final(self).name_spec() == old(self).name_spec(),
            final(self).dtype_spec() == old(self).dtype_spec(),
    {
        let flag = if reverse {
            IsSorted::Descending
        } else {
            IsSorted::Ascending
        };
        match self {
            Series::Bool(ca) => {
                ca.sorted = flag;
            },
            Series::Int64(ca) => {
                ca.sorted = flag;
            },
            Series::Utf8(ca) => {
                ca.sorted = flag;
            },
        }
    }

    /// Structural copy sharing no state with the original.
    pub fn clone_inner(&self) -> (r: Series)
        requires
            self.wf(),
        ensures
            r.wf(),
            r.view() == self.view(),
            r.name_spec() == self.name_spec(),
            r.dtype_spec() == self.dtype_spec(),
            r.sorted_flag() == self.sorted_flag(),
            r.chunk_lens() == self.chunk_lens(),
    {
        match self {
            Series::Bool(ca) => Series::Bool(ca.dup()),
            Series::Int64(ca) => Series::Int64(ca.dup()),
            Series::Utf8(ca) => {
                let d = ca.dup();
                proof {
                    assert(str_cells_view(d.cells()) =~= str_cells_view(ca.cells()));
                }
                Series::Utf8(d)
            },
        }
    }

    /// Coalesce every chunk into one; the contents are unchanged.
    pub fn rechunk(&self) -> (r: Series)
        requires
            self.wf(),
        ensures
            r.wf(),
            r.view() == self.view(),
            r.name_spec() == self.name_spec(),
            r.dtype_spec() == self.dtype_spec(),
            r.sorted_flag() == self.sorted_flag(),
            r.chunk_lens().len() == 1,
    {
        match self {
            Series::Bool(ca) => Series::Bool(ca.rechunk()),
            Series::Int64(ca) => Series::Int64(ca.rechunk()),
            Series::Utf8(ca) => {
                let d = ca.rechunk();
                proof {
                    assert(str_cells_view(d.cells()) =~= str_cells_view(ca.cells()));
                }
                Series::Utf8(d)
            },
        }
    }
}

impl Series {
    /// Concatenate the other column's chunks after this one's. Both must
    /// have the same logical type: on a mismatch the error is
    /// `SchemaMismatch` and both inputs are left untouched.
    pub fn append(&mut self, other: &Series) -> (r: Result<(), CoreError>)
        requires
            old(self).wf(),
            other.wf(),
            old(self).spec_len() + other.spec_len() <= usize::MAX,
        ensures
            r is Ok <==> other.dtype_spec() == old(self).dtype_spec(),
            r is Ok ==> {
                &&& final(self).wf()
                &&& final(self).view() == col_concat(old(self).view(), other.view())
                &&& final(self).name_spec() == old(self).name_spec()
                &&& final(self).dtype_spec() == old(self).dtype_spec()
                &&& final(self).sorted_flag() == IsSorted::Not
                &&& final(self).chunk_lens().len() == old(self).chunk_lens().len()
                    + other.chunk_lens().len()
            },
            r is Err ==> *final(self) == *old(self) && r == Err::<(), CoreError>(
                CoreError::SchemaMismatch,
            ),
    {
        match (self, other) {
            (Series::Bool(ca), Series::Bool(cb)) => {
                ca.append(cb);
                Ok(())
            },
            (Series::Int64(ca), Series::Int64(cb)) => {
                ca.append(cb);
                Ok(())
            },
            (Series::Utf8(ca), Series::Utf8(cb)) => {
                ca.append(cb);
                proof {
                    assert(str_cells_view(ca.cells()) =~= str_cells_view(old(self)->Utf8_0.cells())
                        + str_cells_view(cb.cells()));
                }
                Ok(())
            },
            _ => Err(CoreError::SchemaMismatch),
        }
    }

    /// Concatenate the other column's cells into a single contiguous chunk.
    /// Both must have the same logical type: on a mismatch the error is
    /// `SchemaMismatch` and both inputs are left untouched.
    pub fn extend(&mut self, other: &Series) -> (r: Result<(), CoreError>)
        requires
            old(self).wf(),
            other.wf(),
            old(self).spec_len() + other.spec_len() <= usize::MAX,
        ensures
            r is Ok <==> other.dtype_spec() == old(self).dtype_spec(),
            r is Ok ==> {
                &&& final(self).wf()
                &&& final(self).view() == col_concat(old(self).view(), other.view())
                &&& final(self).name_spec() == old(self).name_spec()
                &&& final(self).dtype_spec() == old(self).dtype_spec()
                &&& final(self).sorted_flag() == IsSorted::Not
                &&& final(self).chunk_lens().len() == 1
            },
            r is Err ==> *final(self) == *old(self) && r == Err::<(), CoreError>(
                CoreError::SchemaMismatch,
            ),
    {
        match (self, other) {
            (Series::Bool(ca), Series::Bool(cb)) => {
                ca.extend(cb);
                Ok(())
            },
            (Series::Int64(ca), Series::Int64(cb)) => {
                ca.extend(cb);
                Ok(())
            },
            (Series::Utf8(ca), Series::Utf8(cb)) => {
                ca.extend(cb);
                proof {
                    assert(str_cells_view(ca.cells()) =~= str_cells_view(old(self)->Utf8_0.cells())
                        + str_cells_view(cb.cells()));
                }
                Ok(())
            },
            _ => Err(CoreError::SchemaMismatch),
        }
    }

    /// Gather the cells at the given row positions, checking every index.
    pub fn take(&self, indices: &IdxCa) -> (r: Result<Series, CoreError>)
        requires
            self.wf(),
            indices.wf(),
        ensures
            r is Ok <==> (forall|k: int|
                0 <= k < indices.cells().len() ==> (#[trigger] indices.cells()[k]) is Some
                    && indices.cells()[k].unwrap() < self.spec_len()),
            r matches Ok(out) ==> {
                &&& out.wf()
                &&& (match (self, out) {
                    (Series::Bool(a), Series::Bool(b)) => b.cells() == taken_cells(
                        a.cells(),
                        indices.cells(),
                    ),
                    (Series::Int64(a), Series::Int64(b)) => b.cells() == taken_cells(
                        a.cells(),
                        indices.cells(),
                    ),
                    (Series::Utf8(a), Series::Utf8(b)) => b.cells() == taken_cells(
                        a.cells(),
                        indices.cells(),
                    ),
                    _ => false,
                })
                &&& out.name_spec() == self.name_spec()
                &&& out.sorted_flag() == IsSorted::Not
            },
            r matches Err(e) ==> e == CoreError::OutOfBounds,
    {
        match self {
            Series::Bool(ca) => match ca.take(indices) {
                Ok(out) => Ok(Series::Bool(out)),
                Err(e) => Err(e),
            },
            Series::Int64(ca) => match ca.take(indices) {
                Ok(out) => Ok(Series::Int64(out)),
                Err(e) => Err(e),
            },
            Series::Utf8(ca) => match ca.take(indices) {
                Ok(out) => Ok(Series::Utf8(out)),
                Err(e) => Err(e),
            },
        }
    }

    /// Gather without checking: the caller must have established that
    /// every index is non-null and in bounds.
    pub fn take_unchecked(&self, indices: &IdxCa) -> (r: Result<Series, CoreError>)
        requires
            self.wf(),
            indices.wf(),
            forall|k: int|
                0 <= k < indices.cells().len() ==> (#[trigger] indices.cells()[k]) is Some
                    && indices.cells()[k].unwrap() < self.spec_len(),
        ensures
            r is Ok,
            r matches Ok(out) ==> {
                &&& out.wf()
                &&& (match (self, out) {
                    (Series::Bool(a), Series::Bool(b)) => b.cells() == taken_cells(
                        a.cells(),
                        indices.cells(),
                    ),
                    (Series::Int64(a), Series::Int64(b)) => b.cells() == taken_cells(
                        a.cells(),
                        indices.cells(),
                    ),
                    (Series::Utf8(a), Series::Utf8(b)) => b.cells() == taken_cells(
                        a.cells(),
                        indices.cells(),
                    ),
                    _ => false,
                })
                &&& out.name_spec() == self.name_spec()
                &&& out.sorted_flag() == IsSorted::Not
            },
    {
        match self {
            Series::Bool(ca) => Ok(Series::Bool(ca.take_unchecked(indices))),
            Series::Int64(ca) => Ok(Series::Int64(ca.take_unchecked(indices))),
            Series::Utf8(ca) => Ok(Series::Utf8(ca.take_unchecked(indices))),
        }
    }

    /// Every `n`-th cell, starting at the first.
    pub fn take_every(&self, n: usize) -> (r: Series)
        requires
            self.wf(),
            n >= 1,
        ensures
            r.wf(),
            r.name_spec() == self.name_spec(),
            r.dtype_spec() == self.dtype_spec(),
            match (self, r) {
                (Series::Bool(a), Series::Bool(b)) => every_nth_of(a.cells(), b.cells(), n as int),
                (Series::Int64(a), Series::Int64(b)) => every_nth_of(
                    a.cells(),
                    b.cells(),
                    n as int,
                ),
                (Series::Utf8(a), Series::Utf8(b)) => every_nth_of(a.cells(), b.cells(), n as int),
                _ => false,
            },
    {
        match self {
            Series::Bool(ca) => Series::Bool(ca.take_every(n)),
            Series::Int64(ca) => Series::Int64(ca.take_every(n)),
            Series::Utf8(ca) => Series::Utf8(ca.take_every(n)),
        }
    }

    /// Keep the cells whose mask entry is true; the mask must cover the
    /// column exactly.
    pub fn filter(&self, mask: &BooleanChunked) -> (r: Result<Series, CoreError>)
        requires
            self.wf(),
            mask.wf(),
        ensures
            r is Ok <==> mask.spec_len() == self.spec_len(),
            r matches Ok(out) ==> {
                &&& out.wf()
                &&& (match (self, out) {
                    (Series::Bool(a), Series::Bool(b)) => b.cells() == filtered_cells(
                        a.cells(),
                        mask.cells(),
                    ),
                    (Series::Int64(a), Series::Int64(b)) => b.cells() == filtered_cells(
                        a.cells(),
                        mask.cells(),
                    ),
                    (Series::Utf8(a), Series::Utf8(b)) => b.cells() == filtered_cells(
                        a.cells(),
                        mask.cells(),
                    ),
                    _ => false,
                })
                &&& out.name_spec() == self.name_spec()
            },
            r matches Err(e) ==> e == CoreError::InvalidOperation,
    {
        match self {
            Series::Bool(ca) => match ca.filter(mask) {
                Ok(out) => Ok(Series::Bool(out)),
                Err(e) => Err(e),
            },
            Series::Int64(ca) => match ca.filter(mask) {
                Ok(out) => Ok(Series::Int64(out)),
                Err(e) => Err(e),
            },
            Series::Utf8(ca) => match ca.filter(mask) {
                Ok(out) => Ok(Series::Utf8(out)),
                Err(e) => Err(e),
            },
        }
    }

    /// A copy of the cells from `offset` (negative: from the back), at
    /// most `length` of them; order-preserving, the sortedness cache is
    /// kept.
    pub fn slice(&self, offset: i64, length: usize) -> (r: Series)
        requires
            self.wf(),
        ensures
            r.wf(),
            r.name_spec() == self.name_spec(),
            r.dtype_spec() == self.dtype_spec(),
            r.sorted_flag() == self.sorted_flag(),
            match (self, r) {
                (Series::Bool(a), Series::Bool(b)) => b.cells() == slice_of(
                    a.cells(),
                    offset as int,
                    length as int,
                ),
                (Series::Int64(a), Series::Int64(b)) => b.cells() == slice_of(
                    a.cells(),
                    offset as int,
                    length as int,
                ),
                (Series::Utf8(a), Series::Utf8(b)) => b.cells() == slice_of(
                    a.cells(),
                    offset as int,
                    length as int,
                ),
                _ => false,
            },
    {
        match self {
            Series::Bool(ca) => Series::Bool(ca.slice(offset, length)),
            Series::Int64(ca) => Series::Int64(ca.slice(offset, length)),
            Series::Utf8(ca) => Series::Utf8(ca.slice(offset, length)),
        }
    }

    /// Move the cells by `periods` positions, null-filling the vacated
    /// slots; the length is unchanged.
    pub fn shift(&self, periods: i64) -> (r: Series)
        requires
            self.wf(),
        ensures
            r.wf(),
            r.name_spec() == self.name_spec(),
            r.dtype_spec() == self.dtype_spec(),
            r.spec_len() == self.spec_len(),
            match (self, r) {
                (Series::Bool(a), Series::Bool(b)) => b.cells() == shifted_cells(
                    a.cells(),
                    periods as int,
                ),
                (Series::Int64(a), Series::Int64(b)) => b.cells() == shifted_cells(
                    a.cells(),
                    periods as int,
                ),
                (Series::Utf8(a), Series::Utf8(b)) => b.cells() == shifted_cells(
                    a.cells(),
                    periods as int,
                ),
                _ => false,
            },
    {
        match self {
            Series::Bool(ca) => Series::Bool(ca.shift(periods)),
            Series::Int64(ca) => Series::Int64(ca.shift(periods)),
            Series::Utf8(ca) => Series::Utf8(ca.shift(periods)),
        }
    }

    /// The cells in reverse order.
    pub fn reverse(&self) -> (r: Series)
        requires
            self.wf(),
        ensures
            r.wf(),
            r.name_spec() == self.name_spec(),
            r.dtype_spec() == self.dtype_spec(),
            match (self, r) {
                (Series::Bool(a), Series::Bool(b)) => b.cells() == reversed_of(a.cells()),
                (Series::Int64(a), Series::Int64(b)) => b.cells() == reversed_of(a.cells()),
                (Series::Utf8(a), Series::Utf8(b)) => b.cells() == reversed_of(a.cells()),
                _ => false,
            },
    {
        match self {
            Series::Bool(ca) => Series::Bool(ca.reverse()),
            Series::Int64(ca) => Series::Int64(ca.reverse()),
            Series::Utf8(ca) => Series::Utf8(ca.reverse()),
        }
    }

    /// Repeat the cell at `index` to form a column of `length` cells.
    pub fn expand_at_index(&self, index: usize, length: usize) -> (r: Series)
        requires
            self.wf(),
            index < self.spec_len(),
        ensures
            r.wf(),
            r.name_spec() == self.name_spec(),
            r.dtype_spec() == self.dtype_spec(),
            match (self, r) {
                (Series::Bool(a), Series::Bool(b)) => b.cells() == Seq::new(
                    length as nat,
                    |i: int| a.cells()[index as int],
                ),
                (Series::Int64(a), Series::Int64(b)) => b.cells() == Seq::new(
                    length as nat,
                    |i: int| a.cells()[index as int],
                ),
                (Series::Utf8(a), Series::Utf8(b)) => b.cells() == Seq::new(
                    length as nat,
                    |i: int| a.cells()[index as int],
                ),
                _ => false,
            },
    {
        match self {
            Series::Bool(ca) => Series::Bool(ca.expand_at_index(index, length)),
            Series::Int64(ca) => Series::Int64(ca.expand_at_index(index, length)),
            Series::Utf8(ca) => Series::Utf8(ca.expand_at_index(index, length)),
        }
    }

    /// Element-wise select between two columns of the same type.
    pub fn zip_with_same_type(&self, mask: &BooleanChunked, other: &Series) -> (r: Result<
        Series,
        CoreError,
    >)
        requires
            self.wf(),
            mask.wf(),
            other.wf(),
        ensures
            r is Ok <==> (other.dtype_spec() == self.dtype_spec() && mask.spec_len()
                == self.spec_len() && other.spec_len() == self.spec_len()),
            r matches Ok(out) ==> {
                &&& out.wf()
                &&& (match (self, other, out) {
                    (Series::Bool(a), Series::Bool(b), Series::Bool(c)) => c.cells() == zipped_of(
                        a.cells(),
                        b.cells(),
                        mask.cells(),
                    ),
                    (Series::Int64(a), Series::Int64(b), Series::Int64(c)) => c.cells()
                        == zipped_of(a.cells(), b.cells(), mask.cells()),
                    (Series::Utf8(a), Series::Utf8(b), Series::Utf8(c)) => c.cells() == zipped_of(
                        a.cells(),
                        b.cells(),
                        mask.cells(),
                    ),
                    _ => false,
                })
                &&& out.name_spec() == self.name_spec()
            },
            r matches Err(e) ==> e == CoreError::SchemaMismatch || e
                == CoreError::InvalidOperation,
    {
        match (self, other) {
            (Series::Bool(ca), Series::Bool(cb)) => match ca.zip_with(mask, cb) {
                Ok(out) => Ok(Series::Bool(out)),
                Err(e) => Err(e),
            },
            (Series::Int64(ca), Series::Int64(cb)) => match ca.zip_with(mask, cb) {
                Ok(out) => Ok(Series::Int64(out)),
                Err(e) => Err(e),
            },
            (Series::Utf8(ca), Series::Utf8(cb)) => match ca.zip_with(mask, cb) {
                Ok(out) => Ok(Series::Utf8(out)),
                Err(e) => Err(e),
            },
            _ => Err(CoreError::SchemaMismatch),
        }
    }

    /// Merge this (left) column with a same-typed right column along
    /// outer-join index pairs: the left cell where the left index is
    /// present, else the right cell, else null. A type mismatch fails
    /// with `SchemaMismatch`, a present out-of-bounds index with
    /// `OutOfBounds`.
    pub fn zip_outer_join_column(
        &self,
        right_column: &Series,
        opt_join_tuples: &Vec<(Option<usize>, Option<usize>)>,
    ) -> (r: Result<Series, CoreError>)
        requires
            self.wf(),
            right_column.wf(),
        ensures
            (match (self, right_column) {
                (Series::Bool(a), Series::Bool(b)) => {
                    &&& (r is Ok <==> crate::chunked::outer_tuples_ok(
                        a.spec_len(),
                        b.spec_len(),
                        opt_join_tuples@,
                    ))
                    &&& (r matches Ok(out) ==> out matches Series::Bool(u) && u.wf() && u.cells()
                        == crate::chunked::outer_zipped(a.cells(), b.cells(), opt_join_tuples@)
                        && u.name@ == a.name@)
                    &&& (r matches Err(e) ==> e == CoreError::OutOfBounds)
                },
                (Series::Int64(a), Series::Int64(b)) => {
                    &&& (r is Ok <==> crate::chunked::outer_tuples_ok(
                        a.spec_len(),
                        b.spec_len(),
                        opt_join_tuples@,
                    ))
                    &&& (r matches Ok(out) ==> out matches Series::Int64(u) && u.wf()
                        && u.cells() == crate::chunked::outer_zipped(
                        a.cells(),
                        b.cells(),
                        opt_join_tuples@,
                    ) && u.name@ == a.name@)
                    &&& (r matches Err(e) ==> e == CoreError::OutOfBounds)
                },
                (Series::Utf8(a), Series::Utf8(b)) => {
                    &&& (r is Ok <==> crate::chunked::outer_tuples_ok(
                        a.spec_len(),
                        b.spec_len(),
                        opt_join_tuples@,
                    ))
                    &&& (r matches Ok(out) ==> out matches Series::Utf8(u) && u.wf() && u.cells()
                        == crate::chunked::outer_zipped(a.cells(), b.cells(), opt_join_tuples@)
                        && u.name@ == a.name@)
                    &&& (r matches Err(e) ==> e == CoreError::OutOfBounds)
                },
                _ => r == Err::<Series, CoreError>(CoreError::SchemaMismatch),
            }),
    {
        match (self, right_column) {
            (Series::Bool(ca), Series::Bool(cb)) => match ca.zip_outer_join_column(
                cb,
                opt_join_tuples,
            ) {
                Ok(out) => Ok(Series::Bool(out)),
                Err(e) => Err(e),
            },
            (Series::Int64(ca), Series::Int64(cb)) => match ca.zip_outer_join_column(
                cb,
                opt_join_tuples,
            ) {
                Ok(out) => Ok(Series::Int64(out)),
                Err(e) => Err(e),
            },
            (Series::Utf8(ca), Series::Utf8(cb)) => match ca.zip_outer_join_column(
                cb,
                opt_join_tuples,
            ) {
                Ok(out) => Ok(Series::Utf8(out)),
                Err(e) => Err(e),
            },
            _ => Err(CoreError::SchemaMismatch),
        }
    }

    /// Audit the column's representation invariant at run time.
    pub fn is_wf(&self) -> (r: bool)
        ensures
            r == self.wf(),
    {
        match self {
            Series::Bool(ca) => ca.check_wf(),
            Series::Int64(ca) => ca.check_wf(),
            Series::Utf8(ca) => ca.check_wf(),
        }
    }

    /// Copy one cell out as a dynamically-typed value.
    pub fn get(&self, index: usize) -> (r: AnyValue)
        requires
            self.wf(),
            index < self.spec_len(),
        ensures
            match self {
                Series::Bool(ca) => r == (match ca.cells()[index as int] {
                    Some(b) => AnyValue::Boolean(b),
                    None => AnyValue::Null,
                }),
                Series::Int64(ca) => r == (match ca.cells()[index as int] {
                    Some(v) => AnyValue::Int64(v),
                    None => AnyValue::Null,
                }),
                Series::Utf8(ca) => r == (match ca.cells()[index as int] {
                    Some(s) => AnyValue::Utf8(s),
                    None => AnyValue::Null,
                }),
            },
    {
        match self {
            Series::Bool(ca) => match ca.get(index) {
                Some(b) => AnyValue::Boolean(b),
                None => AnyValue::Null,
            },
            Series::Int64(ca) => match ca.get(index) {
                Some(v) => AnyValue::Int64(v),
                None => AnyValue::Null,
            },
            Series::Utf8(ca) => match ca.get(index) {
                Some(s) => AnyValue::Utf8(s),
                None => AnyValue::Null,
            },
        }
    }

    /// Whether the cells at two positions of two same-typed columns hold
    /// equal values (null equals only null).
    pub fn equal_element(&self, idx_self: usize, idx_other: usize, other: &Series) -> (r: bool)
        requires
            self.wf(),
            other.wf(),
            idx_self < self.spec_len(),
            idx_other < other.spec_len(),
            other.dtype_spec() == self.dtype_spec(),
        ensures
            match (self, other) {
                (Series::Bool(a), Series::Bool(b)) => r == (a.cells()[idx_self as int]
                    == b.cells()[idx_other as int]),
                (Series::Int64(a), Series::Int64(b)) => r == (a.cells()[idx_self as int]
                    == b.cells()[idx_other as int]),
                (Series::Utf8(a), Series::Utf8(b)) => r == (str_cells_view(a.cells())[
                    idx_self as int] == str_cells_view(b.cells())[idx_other as int]),
                _ => true,
            },
    {
        match (self, other) {
            (Series::Bool(ca), Series::Bool(cb)) => {
                let a = ca.get(idx_self);
                let b = cb.get(idx_other);
                match (a, b) {
                    (Some(x), Some(y)) => x == y,
                    (None, None) => true,
                    _ => false,
                }
            },
            (Series::Int64(ca), Series::Int64(cb)) => {
                let a = ca.get(idx_self);
                let b = cb.get(idx_other);
                match (a, b) {
                    (Some(x), Some(y)) => x == y,
                    (None, None) => true,
                    _ => false,
                }
            },
            (Series::Utf8(ca), Series::Utf8(cb)) => {
                let a = ca.get(idx_self);
                let b = cb.get(idx_other);
                match (a, b) {
                    (Some(x), Some(y)) => x == y,
                    (None, None) => true,
                    _ => false,
                }
            },
            _ => true,
        }
    }

    /// A mask marking the null cells.
    pub fn is_null(&self) -> (r: BooleanChunked)
        requires
            self.wf(),
        ensures
            r.wf(),
            r.name_spec_of() == self.name_spec(),
            match self {
                Series::Bool(ca) => r.cells() == Seq::new(
                    ca.spec_len(),
                    |i: int| Some(ca.cells()[i] is None),
                ),
                Series::Int64(ca) => r.cells() == Seq::new(
                    ca.spec_len(),
                    |i: int| Some(ca.cells()[i] is None),
                ),
                Series::Utf8(ca) => r.cells() == Seq::new(
                    ca.spec_len(),
                    |i: int| Some(ca.cells()[i] is None),
                ),
            },
    {
        match self {
            Series::Bool(ca) => ca.is_null_mask(),
            Series::Int64(ca) => ca.is_null_mask(),
            Series::Utf8(ca) => ca.is_null_mask(),
        }
    }

    /// A mask marking the non-null cells.
    pub fn is_not_null(&self) -> (r: BooleanChunked)
        requires
            self.wf(),
        ensures
            r.wf(),
            r.name_spec_of() == self.name_spec(),
            match self {
                Series::Bool(ca) => r.cells() == Seq::new(
                    ca.spec_len(),
                    |i: int| Some(ca.cells()[i] is Some),
                ),
                Series::Int64(ca) => r.cells() == Seq::new(
                    ca.spec_len(),
                    |i: int| Some(ca.cells()[i] is Some),
                ),
                Series::Utf8(ca) => r.cells() == Seq::new(
                    ca.spec_len(),
                    |i: int| Some(ca.cells()[i] is Some),
                ),
            },
    {
        match self {
            Series::Bool(ca) => ca.is_not_null_mask(),
            Series::Int64(ca) => ca.is_not_null_mask(),
            Series::Utf8(ca) => ca.is_not_null_mask(),
        }
    }
}

impl<T> ChunkedArray<T> {
    /// The column name as a character sequence (for uniform contracts).
    pub open spec fn name_spec_of(self) -> Seq<char> {
        self.name@
    }
}

/// Whether two columns agree in name, content, type and cached
/// sortedness (chunk layout may differ).
pub open spec fn series_same(a: Series, b: Series) -> bool {
    &&& a.name_spec() == b.name_spec()
    &&& a.view() == b.view()
    &&& a.dtype_spec() == b.dtype_spec()
    &&& a.sorted_flag() == b.sorted_flag()
    &&& a.chunk_lens() == b.chunk_lens()
}

/// The relation `take_every` establishes between input and output cells.
pub open spec fn every_nth_of<T>(src: Seq<Option<T>>, out: Seq<Option<T>>, n: int) -> bool {
    &&& (forall|j: int| 0 <= j < out.len() ==> out[j] == src[j * n])
    &&& out.len() * n >= src.len()
    &&& (out.len() == 0 ==> src.len() == 0)
    &&& (out.len() >= 1 ==> (out.len() - 1) * n < src.len())
}

/// The cells a slice keeps.
pub open spec fn slice_of<T>(src: Seq<Option<T>>, offset: int, length: int) -> Seq<Option<T>> {
    src.subrange(
        slice_start(offset, src.len() as int),
        slice_start(offset, src.len() as int) + slice_take(offset, length, src.len() as int),
    )
}

/// The cells in reverse order.
pub open spec fn reversed_of<T>(src: Seq<Option<T>>) -> Seq<Option<T>> {
    Seq::new(src.len(), |i: int| src[src.len() - 1 - i])
}

/// The element-wise select: where the mask is true the first column's
/// cell, elsewhere the second's.
pub open spec fn zipped_of<T>(
    a: Seq<Option<T>>,
    b: Seq<Option<T>>,
    mask: Seq<Option<bool>>,
) -> Seq<Option<T>> {
    Seq::new(
        a.len(),
        |i: int| if mask[i] == Some(true) {
            a[i]
        } else {
            b[i]
        },
    )
}

impl Series {
    /// Sort the cells; defined for the boolean template type, stable and
    /// total, recording the direction in the sortedness cache. Other types
    /// refuse with `InvalidOperation`.
    pub fn sort_with(&self, options: SortOptions) -> (r: Result<Series, CoreError>)
        requires
            self.wf(),
        ensures
            r is Ok <==> self.dtype_spec() == DType::Boolean,
            self matches Series::Bool(ca) ==> (r matches Ok(out) && out matches Series::Bool(u)
                && u.wf() && u.cells() == sorted_bool_cells(
                ca.cells(),
                options.descending,
                options.nulls_last,
            ) && u.name@ == ca.name@ && u.sorted == (if options.descending {
                IsSorted::Descending
            } else {
                IsSorted::Ascending
            })),
            r matches Err(e) ==> e == CoreError::InvalidOperation,
    {
        match self {
            Series::Bool(ca) => Ok(Series::Bool(ca.sort_with(options))),
            _ => Err(CoreError::InvalidOperation),
        }
    }

    /// The row order a sort would use; boolean template type only.
    pub fn argsort(&self, options: SortOptions) -> (r: Result<IdxCa, CoreError>)
        requires
            self.wf(),
        ensures
            r is Ok <==> self.dtype_spec() == DType::Boolean,
            self matches Series::Bool(ca) ==> (r matches Ok(out) && out.wf() && out.cells()
                == argsorted_bool(ca.cells(), options.descending, options.nulls_last)
                && out.name@ == ca.name@),
            r matches Err(e) ==> e == CoreError::InvalidOperation,
    {
        match self {
            Series::Bool(ca) => Ok(ca.argsort(options)),
            _ => Err(CoreError::InvalidOperation),
        }
    }

    /// The distinct cells in order of first occurrence; boolean template
    /// type only.
    pub fn unique(&self) -> (r: Result<Series, CoreError>)
        requires
            self.wf(),
        ensures
            r is Ok <==> self.dtype_spec() == DType::Boolean,
            self matches Series::Bool(ca) ==> (r matches Ok(out) && out matches Series::Bool(u)
                && u.wf() && u.cells() == distinct_cells(ca.cells()) && u.name@ == ca.name@),
            r matches Err(e) ==> e == CoreError::InvalidOperation,
    {
        match self {
            Series::Bool(ca) => match ca.unique() {
                Ok(u) => Ok(Series::Bool(u)),
                Err(e) => Err(e),
            },
            _ => Err(CoreError::InvalidOperation),
        }
    }

    /// How many distinct cells the column holds; boolean template type
    /// only.
    pub fn n_unique(&self) -> (r: Result<usize, CoreError>)
        requires
            self.wf(),
        ensures
            r is Ok <==> self.dtype_spec() == DType::Boolean,
            self matches Series::Bool(ca) ==> (r matches Ok(n) && n == distinct_cells(
                ca.cells(),
            ).len()),
            r matches Err(e) ==> e == CoreError::InvalidOperation,
    {
        match self {
            Series::Bool(ca) => ca.n_unique(),
            _ => Err(CoreError::InvalidOperation),
        }
    }

    /// The first occurrence position of each distinct cell; boolean
    /// template type only.
    pub fn arg_unique(&self) -> (r: Result<IdxCa, CoreError>)
        requires
            self.wf(),
        ensures
            r is Ok <==> self.dtype_spec() == DType::Boolean,
            self matches Series::Bool(ca) ==> (r matches Ok(out) && out.wf() && out.cells()
                == first_positions(ca.cells()).map_values(|p: usize| Some(p)) && out.name@
                == ca.name@),
            r matches Err(e) ==> e == CoreError::InvalidOperation,
    {
        match self {
            Series::Bool(ca) => ca.arg_unique(),
            _ => Err(CoreError::InvalidOperation),
        }
    }

    /// A mask marking the cells whose value occurs exactly once; boolean
    /// template type only.
    pub fn is_unique(&self) -> (r: Result<BooleanChunked, CoreError>)
        requires
            self.wf(),
        ensures
            r is Ok <==> self.dtype_spec() == DType::Boolean,
            self matches Series::Bool(ca) ==> (r matches Ok(out) && out.wf() && out.cells()
                == Seq::new(
                ca.spec_len(),
                |i: int| Some(count_eq(ca.cells(), ca.cells()[i]) == 1),
            )),
            r matches Err(e) ==> e == CoreError::InvalidOperation,
    {
        match self {
            Series::Bool(ca) => ca.is_unique(),
            _ => Err(CoreError::InvalidOperation),
        }
    }

    /// A mask marking the cells whose value occurs more than once;
    /// boolean template type only.
    pub fn is_duplicated(&self) -> (r: Result<BooleanChunked, CoreError>)
        requires
            self.wf(),
        ensures
            r is Ok <==> self.dtype_spec() == DType::Boolean,
            self matches Series::Bool(ca) ==> (r matches Ok(out) && out.wf() && out.cells()
                == Seq::new(
                ca.spec_len(),
                |i: int| Some(count_eq(ca.cells(), ca.cells()[i]) > 1),
            )),
            r matches Err(e) ==> e == CoreError::InvalidOperation,
    {
        match self {
            Series::Bool(ca) => ca.is_duplicated(),
            _ => Err(CoreError::InvalidOperation),
        }
    }

    /// The first position of the smallest non-null cell, if any; boolean
    /// template type only (other types answer nothing).
    pub fn arg_min(&self) -> (r: Option<usize>)
        requires
            self.wf(),
        ensures
            self matches Series::Bool(ca) ==> {
                &&& (r is Some <==> min_bool_cell(ca.cells()) is Some)
                &&& (r matches Some(i) ==> i < ca.spec_len() && ca.cells()[i as int]
                    == min_bool_cell(ca.cells()) && (forall|j: int|
                    0 <= j < i ==> ca.cells()[j] != min_bool_cell(ca.cells())))
            },
            !(self is Bool) ==> r is None,
    {
        match self {
            Series::Bool(ca) => ca.arg_min(),
            _ => None,
        }
    }

    /// The first position of the largest non-null cell, if any; boolean
    /// template type only (other types answer nothing).
    pub fn arg_max(&self) -> (r: Option<usize>)
        requires
            self.wf(),
        ensures
            self matches Series::Bool(ca) ==> {
                &&& (r is Some <==> max_bool_cell(ca.cells()) is Some)
                &&& (r matches Some(i) ==> i < ca.spec_len() && ca.cells()[i as int]
                    == max_bool_cell(ca.cells()) && (forall|j: int|
                    0 <= j < i ==> ca.cells()[j] != max_bool_cell(ca.cells())))
            },
            !(self is Bool) ==> r is None,
    {
        match self {
            Series::Bool(ca) => ca.arg_max(),
            _ => None,
        }
    }

    /// The row positions of the true cells; boolean columns only.
    pub fn arg_true(&self) -> (r: Result<IdxCa, CoreError>)
        requires
            self.wf(),
        ensures
            r is Ok <==> self.dtype_spec() == DType::Boolean,
            self matches Series::Bool(ca) ==> (r matches Ok(out) && out.wf() && out.cells()
                == positions_of(ca.cells(), Some(true)).map_values(|p: usize| Some(p))),
            r matches Err(e) ==> e == CoreError::InvalidOperation,
    {
        match self {
            Series::Bool(ca) => ca.arg_true(),
            _ => Err(CoreError::InvalidOperation),
        }
    }

    /// Element-wise conjunction of two boolean columns.
    pub fn bitand(&self, other: &Series) -> (r: Result<Series, CoreError>)
        requires
            self.wf(),
            other.wf(),
        ensures
            (match (self, other) {
                (Series::Bool(a), Series::Bool(b)) => {
                    &&& (r is Ok <==> b.spec_len() == a.spec_len())
                    &&& (r matches Ok(out) ==> out matches Series::Bool(u) && u.wf()
                        && u.cells() == bit_zipped(a.cells(), b.cells(), BitOp::And))
                },
                _ => r == Err::<Series, CoreError>(CoreError::SchemaMismatch),
            }),
    {
        match (self, other) {
            (Series::Bool(ca), Series::Bool(cb)) => match ca.bitand_with(cb) {
                Ok(out) => Ok(Series::Bool(out)),
                Err(e) => Err(e),
            },
            _ => Err(CoreError::SchemaMismatch),
        }
    }

    /// Element-wise disjunction of two boolean columns.
    pub fn bitor(&self, other: &Series) -> (r: Result<Series, CoreError>)
        requires
            self.wf(),
            other.wf(),
        ensures
            (match (self, other) {
                (Series::Bool(a), Series::Bool(b)) => {
                    &&& (r is Ok <==> b.spec_len() == a.spec_len())
                    &&& (r matches Ok(out) ==> out matches Series::Bool(u) && u.wf()
                        && u.cells() == bit_zipped(a.cells(), b.cells(), BitOp::Or))
                },
                _ => r == Err::<Series, CoreError>(CoreError::SchemaMismatch),
            }),
    {
        match (self, other) {
            (Series::Bool(ca), Series::Bool(cb)) => match ca.bitor_with(cb) {
                Ok(out) => Ok(Series::Bool(out)),
                Err(e) => Err(e),
            },
            _ => Err(CoreError::SchemaMismatch),
        }
    }

    /// Element-wise exclusive or of two boolean columns.
    pub fn bitxor(&self, other: &Series) -> (r: Result<Series, CoreError>)
        requires
            self.wf(),
            other.wf(),
        ensures
            (match (self, other) {
                (Series::Bool(a), Series::Bool(b)) => {
                    &&& (r is Ok <==> b.spec_len() == a.spec_len())
                    &&& (r matches Ok(out) ==> out matches Series::Bool(u) && u.wf()
                        && u.cells() == bit_zipped(a.cells(), b.cells(), BitOp::Xor))
                },
                _ => r == Err::<Series, CoreError>(CoreError::SchemaMismatch),
            }),
    {
        match (self, other) {
            (Series::Bool(ca), Series::Bool(cb)) => match ca.bitxor_with(cb) {
                Ok(out) => Ok(Series::Bool(out)),
                Err(e) => Err(e),
            },
            _ => Err(CoreError::SchemaMismatch),
        }
    }

    /// Partition the rows by equal cell value; boolean template type
    /// only. The `multithreaded` hint never changes the result, and the
    /// group order is pinned (null, false, true).
    pub fn group_tuples(&self, multithreaded: bool, sorted: bool) -> (r: Result<
        GroupsProxy,
        CoreError,
    >)
        requires
            self.wf(),
            self.spec_len() <= 0x7fff_ffff_ffff_ffff,
        ensures
            r is Ok <==> self.dtype_spec() == DType::Boolean,
            self matches Series::Bool(ca) ==> (r matches Ok(g) && g.wf(ca.spec_len())
                && g.groups@.len() == bool_group_keys(ca.cells()).len() && (forall|h: int|
                0 <= h < g.groups@.len() ==> g.group(h) == positions_of(
                    ca.cells(),
                    bool_group_keys(ca.cells())[h],
                ))),
            r matches Err(e) ==> e == CoreError::InvalidOperation,
    {
        match self {
            Series::Bool(ca) => Ok(ca.group_tuples(multithreaded, sorted)),
            _ => Err(CoreError::InvalidOperation),
        }
    }

    /// One cell per group: the count of true cells among the group's
    /// rows; boolean template type only.
    pub fn agg_sum(&self, groups: &GroupsProxy) -> (r: Result<Series, CoreError>)
        requires
            self.wf(),
            match self {
                Series::Bool(ca) => groups.wf(ca.spec_len()),
                _ => true,
            },
        ensures
            r is Ok <==> self.dtype_spec() == DType::Boolean,
            self matches Series::Bool(ca) ==> (r matches Ok(out) && out matches Series::Int64(u)
                && u.wf() && u.cells() == Seq::new(
                groups.groups@.len() as nat,
                |g: int| Some(count_eq(gather(ca.cells(), groups.group(g)), Some(true)) as i64),
            ) && u.name@ == ca.name@),
            r matches Err(e) ==> e == CoreError::InvalidOperation,
    {
        match self {
            Series::Bool(ca) => Ok(Series::Int64(ca.agg_sum(groups))),
            _ => Err(CoreError::InvalidOperation),
        }
    }

    /// One cell per group: the smallest non-null cell of the group;
    /// boolean template type only.
    pub fn agg_min(&self, groups: &GroupsProxy) -> (r: Result<Series, CoreError>)
        requires
            self.wf(),
            match self {
                Series::Bool(ca) => groups.wf(ca.spec_len()),
                _ => true,
            },
        ensures
            r is Ok <==> self.dtype_spec() == DType::Boolean,
            self matches Series::Bool(ca) ==> (r matches Ok(out) && out matches Series::Bool(u)
                && u.wf() && u.cells() == Seq::new(
                groups.groups@.len() as nat,
                |g: int| min_bool_cell(gather(ca.cells(), groups.group(g))),
            ) && u.name@ == ca.name@),
            r matches Err(e) ==> e == CoreError::InvalidOperation,
    {
        match self {
            Series::Bool(ca) => Ok(Series::Bool(ca.agg_min(groups))),
            _ => Err(CoreError::InvalidOperation),
        }
    }

    /// One cell per group: the largest non-null cell of the group;
    /// boolean template type only.
    pub fn agg_max(&self, groups: &GroupsProxy) -> (r: Result<Series, CoreError>)
        requires
            self.wf(),
            match self {
                Series::Bool(ca) => groups.wf(ca.spec_len()),
                _ => true,
            },
        ensures
            r is Ok <==> self.dtype_spec() == DType::Boolean,
            self matches Series::Bool(ca) ==> (r matches Ok(out) && out matches Series::Bool(u)
                && u.wf() && u.cells() == Seq::new(
                groups.groups@.len() as nat,
                |g: int| max_bool_cell(gather(ca.cells(), groups.group(g))),
            ) && u.name@ == ca.name@),
            r matches Err(e) ==> e == CoreError::InvalidOperation,
    {
        match self {
            Series::Bool(ca) => Ok(Series::Bool(ca.agg_max(groups))),
            _ => Err(CoreError::InvalidOperation),
        }
    }

    /// Replace nulls by the chosen strategy. Forward and backward fills
    /// work for every type; zero and one for boolean and integer columns;
    /// min and max for the boolean template type; the mean strategy needs
    /// floating point and is refused.
    pub fn fill_null(&self, strategy: FillNullStrategy) -> (r: Result<Series, CoreError>)
        requires
            self.wf(),
        ensures
            r matches Ok(out) ==> {
                &&& out.wf()
                &&& out.name_spec() == self.name_spec()
                &&& out.dtype_spec() == self.dtype_spec()
                &&& (match (self, out) {
                    (Series::Bool(a), Series::Bool(b)) => fill_result_ok(
                        a.cells(),
                        b.cells(),
                        strategy,
                        min_bool_cell(a.cells()),
                        max_bool_cell(a.cells()),
                        Some(false),
                        Some(true),
                    ),
                    (Series::Int64(a), Series::Int64(b)) => fill_result_ok(
                        a.cells(),
                        b.cells(),
                        strategy,
                        None,
                        None,
                        Some(0i64),
                        Some(1i64),
                    ),
                    (Series::Utf8(a), Series::Utf8(b)) => fill_result_ok(
                        a.cells(),
                        b.cells(),
                        strategy,
                        None,
                        None,
                        None,
                        None,
                    ),
                    _ => false,
                })
            },
            r matches Err(e) ==> e == CoreError::InvalidOperation,
            r is Err <==> !fill_supported(self.dtype_spec(), strategy),
    {
        match self {
            Series::Bool(ca) => match strategy {
                FillNullStrategy::Forward => Ok(Series::Bool(ca.fill_null_forward())),
                FillNullStrategy::Backward => Ok(Series::Bool(ca.fill_null_backward())),
                FillNullStrategy::Zero => Ok(Series::Bool(ca.fill_null_const(Some(false)))),
                FillNullStrategy::One => Ok(Series::Bool(ca.fill_null_const(Some(true)))),
                FillNullStrategy::Min => {
                    let m = ca.min_value();
                    Ok(Series::Bool(ca.fill_null_const(m)))
                },
                FillNullStrategy::Max => {
                    let m = ca.max_value();
                    Ok(Series::Bool(ca.fill_null_const(m)))
                },
                FillNullStrategy::Mean => Err(CoreError::InvalidOperation),
            },
            Series::Int64(ca) => match strategy {
                FillNullStrategy::Forward => Ok(Series::Int64(ca.fill_null_forward())),
                FillNullStrategy::Backward => Ok(Series::Int64(ca.fill_null_backward())),
                FillNullStrategy::Zero => Ok(Series::Int64(ca.fill_null_const(Some(0)))),
                FillNullStrategy::One => Ok(Series::Int64(ca.fill_null_const(Some(1)))),
                _ => Err(CoreError::InvalidOperation),
            },
            Series::Utf8(ca) => match strategy {
                FillNullStrategy::Forward => Ok(Series::Utf8(ca.fill_null_forward())),
                FillNullStrategy::Backward => Ok(Series::Utf8(ca.fill_null_backward())),
                _ => Err(CoreError::InvalidOperation),
            },
        }
    }

    /// Convert the column to another logical type along a registered
    /// conversion path; an unregistered path fails with
    /// `InvalidOperation`.
    pub fn cast(&self, dtype: DType) -> (r: Result<Series, CoreError>)
        requires
            self.wf(),
        ensures
            r is Ok <==> cast_supported(self.dtype_spec(), dtype),
            r matches Ok(out) ==> {
                &&& out.wf()
                &&& out.dtype_spec() == dtype
                &&& out.name_spec() == self.name_spec()
                &&& out.spec_len() == self.spec_len()
                &&& (match (self, out) {
                    (Series::Bool(a), Series::Int64(b)) => b.cells() == Seq::new(
                        a.spec_len(),
                        |i: int| match a.cells()[i] {
                            Some(x) => Some(if x {
                                1i64
                            } else {
                                0i64
                            }),
                            None => None,
                        },
                    ),
                    (Series::Int64(a), Series::Bool(b)) => b.cells() == Seq::new(
                        a.spec_len(),
                        |i: int| match a.cells()[i] {
                            Some(v) => Some(v != 0),
                            None => None,
                        },
                    ),
                    (Series::Bool(a), Series::Bool(b)) => b.cells() == a.cells(),
                    (Series::Int64(a), Series::Int64(b)) => b.cells() == a.cells(),
                    (Series::Utf8(a), Series::Utf8(b)) => b.cells() == a.cells(),
                    _ => false,
                })
            },
            r matches Err(e) ==> e == CoreError::InvalidOperation,
    {
        match (self, dtype) {
            (Series::Bool(ca), DType::Boolean) => Ok(Series::Bool(ca.dup())),
            (Series::Bool(ca), DType::Int64) => Ok(Series::Int64(ca.cast_to_int64())),
            (Series::Int64(ca), DType::Int64) => Ok(Series::Int64(ca.dup())),
            (Series::Int64(ca), DType::Boolean) => Ok(Series::Bool(ca.cast_to_bool())),
            (Series::Utf8(ca), DType::Utf8) => Ok(Series::Utf8(ca.dup())),
            _ => Err(CoreError::InvalidOperation),
        }
    }

    /// The whole column summed into a one-cell column (the count of true
    /// cells); boolean template type only.
    pub fn sum_as_series(&self) -> (r: Result<Series, CoreError>)
        requires
            self.wf(),
            self.spec_len() <= 0x7fff_ffff_ffff_ffff,
        ensures
            r is Ok <==> self.dtype_spec() == DType::Boolean,
            self matches Series::Bool(ca) ==> (r matches Ok(out) && out matches Series::Int64(u)
                && u.wf() && u.cells() == seq![
                Some(count_eq(ca.cells(), Some(true)) as i64),
            ] && u.name@ == ca.name@),
            r matches Err(e) ==> e == CoreError::InvalidOperation,
    {
        match self {
            Series::Bool(ca) => {
                let cnt = ca.sum_count();
                proof {
                    crate::boolean::lemma_count_eq_le(ca.cells(), Some(true));
                }
                let mut v: Vec<i64> = Vec::new();
                v.push(cnt as i64);
                let mut out = crate::chunked::ChunkedArray::<i64>::new(ca.name(), v);
                proof {
                    assert(out.cells() =~= seq![Some(count_eq(ca.cells(), Some(true)) as i64)]);
                }
                Ok(Series::Int64(out))
            },
            _ => Err(CoreError::InvalidOperation),
        }
    }

    /// The smallest non-null cell as a one-cell column; boolean template
    /// type only.
    pub fn min_as_series(&self) -> (r: Result<Series, CoreError>)
        requires
            self.wf(),
        ensures
            r is Ok <==> self.dtype_spec() == DType::Boolean,
            self matches Series::Bool(ca) ==> (r matches Ok(out) && out matches Series::Bool(u)
                && u.wf() && u.cells() == seq![min_bool_cell(ca.cells())] && u.name@
                == ca.name@),
            r matches Err(e) ==> e == CoreError::InvalidOperation,
    {
        match self {
            Series::Bool(ca) => {
                let m = ca.min_value();
                let mut v: Vec<Option<bool>> = Vec::new();
                v.push(m);
                let out = crate::chunked::ChunkedArray::<bool>::new_opt(ca.name(), v);
                proof {
                    assert(out.cells() =~= seq![min_bool_cell(ca.cells())]);
                }
                Ok(Series::Bool(out))
            },
            _ => Err(CoreError::InvalidOperation),
        }
    }

    /// The largest non-null cell as a one-cell column; boolean template
    /// type only.
    pub fn max_as_series(&self) -> (r: Result<Series, CoreError>)
        requires
            self.wf(),
        ensures
            r is Ok <==> self.dtype_spec() == DType::Boolean,
            self matches Series::Bool(ca) ==> (r matches Ok(out) && out matches Series::Bool(u)
                && u.wf() && u.cells() == seq![max_bool_cell(ca.cells())] && u.name@
                == ca.name@),
            r matches Err(e) ==> e == CoreError::InvalidOperation,
    {
        match self {
            Series::Bool(ca) => {
                let m = ca.max_value();
                let mut v: Vec<Option<bool>> = Vec::new();
                v.push(m);
                let out = crate::chunked::ChunkedArray::<bool>::new_opt(ca.name(), v);
                proof {
                    assert(out.cells() =~= seq![max_bool_cell(ca.cells())]);
                }
                Ok(Series::Bool(out))
            },
            _ => Err(CoreError::InvalidOperation),
        }
    }
}

/// Which fill strategies are registered for which logical type.
pub open spec fn fill_supported(dtype: DType, strategy: FillNullStrategy) -> bool {
    match strategy {
        FillNullStrategy::Forward => true,
        FillNullStrategy::Backward => true,
        FillNullStrategy::Mean => false,
        FillNullStrategy::Min => dtype == DType::Boolean,
        FillNullStrategy::Max => dtype == DType::Boolean,
        FillNullStrategy::Zero => dtype != DType::Utf8,
        FillNullStrategy::One => dtype != DType::Utf8,
    }
}

/// What a successful fill produced, given the per-type min, max, zero and
/// one fill cells (a `None` entry marks a strategy not registered for the
/// type, so it cannot have produced the output).
pub open spec fn fill_result_ok<T>(
    src: Seq<Option<T>>,
    out: Seq<Option<T>>,
    strategy: FillNullStrategy,
    min_cell: Option<T>,
    max_cell: Option<T>,
    zero_cell: Option<T>,
    one_cell: Option<T>,
) -> bool {
    match strategy {
        FillNullStrategy::Forward => out == filled_forward(src),
        FillNullStrategy::Backward => out == filled_backward(src),
        FillNullStrategy::Mean => false,
        FillNullStrategy::Min => out == filled_const(src, min_cell),
        FillNullStrategy::Max => out == filled_const(src, max_cell),
        FillNullStrategy::Zero => zero_cell is Some && out == filled_const(src, zero_cell),
        FillNullStrategy::One => one_cell is Some && out == filled_const(src, one_cell),
    }
}

/// Which conversion paths are registered.
pub open spec fn cast_supported(from: DType, to: DType) -> bool {
    ||| from == to
    ||| (from == DType::Boolean && to == DType::Int64)
    ||| (from == DType::Int64 && to == DType::Boolean)
}

impl Series {
    /// Whether this column carries the given name.
    pub fn name_matches(&self, name: &str) -> (r: bool)
        ensures
            r == (self.name_spec() == name@),
    {
        let own: String = name.to_owned();
        match self {
            Series::Bool(ca) => ca.name == own,
            Series::Int64(ca) => ca.name == own,
            Series::Utf8(ca) => ca.name == own,
        }
    }

    /// Whether two columns carry the same name.
    pub fn name_eq(&self, other: &Series) -> (r: bool)
        ensures
            r == (self.name_spec() == other.name_spec()),
    {
        let a: String = self.name().to_owned();
        let b: String = other.name().to_owned();
        a == b
    }

    /// Whether two columns are logically equal: same name and same
    /// content (values and null positions; chunking is ignored).
    pub fn series_equal(&self, other: &Series) -> (r: bool)
        requires
            self.wf(),
            other.wf(),
        ensures
            r == (self.name_spec() == other.name_spec() && self.view() == other.view()),
    {
        if !self.name_eq(other) {
            return false;
        }
        match (self, other) {
            (Series::Bool(ca), Series::Bool(cb)) => {
                let e = cells_equal_bool(ca, cb);
                proof {
                    if e {
                        assert(self.view() == other.view());
                    }
                }
                e
            },
            (Series::Int64(ca), Series::Int64(cb)) => {
                let e = cells_equal_int(ca, cb);
                proof {
                    if e {
                        assert(self.view() == other.view());
                    }
                }
                e
            },
            (Series::Utf8(ca), Series::Utf8(cb)) => {
                let e = cells_equal_str(ca, cb);
                proof {
                    if e {
                        assert(self.view() == other.view());
                    }
                }
                e
            },
            _ => false,
        }
    }
}

/// Whether two boolean columns hold pointwise equal cells.
fn cells_equal_bool(a: &BooleanChunked, b: &BooleanChunked) -> (r: bool)
    requires
        a.wf(),
        b.wf(),
    ensures
        r == (a.cells() == b.cells()),
{
    if a.length != b.length {
        return false;
    }
    let fa = a.rechunk();
    let fb = b.rechunk();
    proof {
        crate::chunked::lemma_cells_one(fa.chunks@);
        crate::chunked::lemma_cells_one(fb.chunks@);
    }
    let cha = &fa.chunks[0];
    let chb = &fb.chunks[0];
    let mut i: usize = 0;
    while i < cha.values.len()
        invariant
            i <= a.spec_len(),
            a.spec_len() == b.spec_len(),
            cha.wf(),
            cha == fa.chunks@[0],
            cha.cells() =~= a.cells(),
            chb.wf(),
            chb == fb.chunks@[0],
            chb.cells() =~= b.cells(),
            forall|j: int| 0 <= j < i ==> a.cells()[j] == b.cells()[j],
        decreases a.spec_len() - i,
    {
        let x = crate::chunked::chunk_cell_at(cha, i);
        let y = crate::chunked::chunk_cell_at(chb, i);
        let same = match (x, y) {
            (Some(p), Some(q)) => p == q,
            (None, None) => true,
            _ => false,
        };
        if !same {
            proof {
                assert(a.cells()[i as int] != b.cells()[i as int]);
            }
            return false;
        }
        i = i + 1;
    }
    proof {
        assert(a.cells() =~= b.cells());
    }
    true
}

/// Whether two integer columns hold pointwise equal cells.
fn cells_equal_int(a: &Int64Chunked, b: &Int64Chunked) -> (r: bool)
    requires
        a.wf(),
        b.wf(),
    ensures
        r == (a.cells() == b.cells()),
{
    if a.length != b.length {
        return false;
    }
    let fa = a.rechunk();
    let fb = b.rechunk();
    proof {
        crate::chunked::lemma_cells_one(fa.chunks@);
        crate::chunked::lemma_cells_one(fb.chunks@);
    }
    let cha = &fa.chunks[0];
    let chb = &fb.chunks[0];
    let mut i: usize = 0;
    while i < cha.values.len()
        invariant
            i <= a.spec_len(),
            a.spec_len() == b.spec_len(),
            cha.wf(),
            cha == fa.chunks@[0],
            cha.cells() =~= a.cells(),
            chb.wf(),
            chb == fb.chunks@[0],
            chb.cells() =~= b.cells(),
            forall|j: int| 0 <= j < i ==> a.cells()[j] == b.cells()[j],
        decreases a.spec_len() - i,
    {
        let x = crate::chunked::chunk_cell_at(cha, i);
        let y = crate::chunked::chunk_cell_at(chb, i);
        let same = match (x, y) {
            (Some(p), Some(q)) => p == q,
            (None, None) => true,
            _ => false,
        };
        if !same {
            proof {
                assert(a.cells()[i as int] != b.cells()[i as int]);
            }
            return false;
        }
        i = i + 1;
    }
    proof {
        assert(a.cells() =~= b.cells());
    }
    true
}

/// Whether two string columns hold pointwise equal cells (by character
/// content).
fn cells_equal_str(a: &Utf8Chunked, b: &Utf8Chunked) -> (r: bool)
    requires
        a.wf(),
        b.wf(),
    ensures
        r == (str_cells_view(a.cells()) == str_cells_view(b.cells())),
{
    if a.length != b.length {
        proof {
            assert(str_cells_view(a.cells()).len() != str_cells_view(b.cells()).len());
        }
        return false;
    }
    let fa = a.rechunk();
    let fb = b.rechunk();
    proof {
        crate::chunked::lemma_cells_one(fa.chunks@);
        crate::chunked::lemma_cells_one(fb.chunks@);
    }
    let cha = &fa.chunks[0];
    let chb = &fb.chunks[0];
    let mut i: usize = 0;
    while i < cha.values.len()
        invariant
            i <= a.spec_len(),
            a.spec_len() == b.spec_len(),
            cha.wf(),
            cha == fa.chunks@[0],
            cha.cells() =~= a.cells(),
            chb.wf(),
            chb == fb.chunks@[0],
            chb.cells() =~= b.cells(),
            forall|j: int|
                0 <= j < i ==> str_cells_view(a.cells())[j] == str_cells_view(b.cells())[j],
        decreases a.spec_len() - i,
    {
        proof {
            assert(str_cells_view(a.cells())[i as int] == (match a.cells()[i as int] {
                Some(s) => Some(s@),
                None => None::<Seq<char>>,
            }));
            assert(str_cells_view(b.cells())[i as int] == (match b.cells()[i as int] {
                Some(s) => Some(s@),
                None => None::<Seq<char>>,
            }));
        }
        let x = crate::chunked::chunk_cell_at(cha, i);
        let y = crate::chunked::chunk_cell_at(chb, i);
        let same = match (&x, &y) {
            (Some(p), Some(q)) => *p == *q,
            (None, None) => true,
            _ => false,
        };
        if !same {
            proof {
                assert(str_cells_view(a.cells())[i as int] != str_cells_view(b.cells())[
                    i as int]);
            }
            return false;
        }
        i = i + 1;
    }
    proof {
        assert(str_cells_view(a.cells()) =~= str_cells_view(b.cells()));
    }
    true
}

impl BooleanChunked {
    /// Wrap the concrete boolean column in the type-erased handle.
    pub fn into_series(self) -> (r: Series)
        ensures
            r == Series::Bool(self),
    {
        Series::Bool(self)
    }
}

impl Int64Chunked {
    /// Wrap the concrete integer column in the type-erased handle.
    pub fn into_series(self) -> (r: Series)
        ensures
            r == Series::Int64(self),
    {
        Series::Int64(self)
    }
}

impl Utf8Chunked {
    /// Wrap the concrete string column in the type-erased handle.
    pub fn into_series(self) -> (r: Series)
        ensures
            r == Series::Utf8(self),
    {
        Series::Utf8(self)
    }
}

} // verus!
