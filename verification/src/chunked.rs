use vstd::prelude::*;

verus! {

/// Cached sortedness of a column. Set by a sort, kept by operations that
/// provably preserve order, and cleared (conservatively) by any other
/// mutation.
#[derive(Clone, Copy, Debug, PartialEq, Eq, Structural)]
pub enum IsSorted {
    Ascending,
    Descending,
    Not,
}

/// Direction and null placement of a sort.
#[derive(Clone, Copy, Debug, PartialEq, Eq, Structural)]
pub struct SortOptions {
    pub descending: bool,
    pub nulls_last: bool,
}

/// The fixed enumeration of strategies for `fill_null`.
#[derive(Clone, Copy, Debug, PartialEq, Eq, Structural)]
pub enum FillNullStrategy {
    /// Replace a null with the previous non-null value.
    Forward,
    /// Replace a null with the next non-null value.
    Backward,
    /// Replace a null with the mean of the column.
    Mean,
    /// Replace a null with the minimum of the column.
    Min,
    /// Replace a null with the maximum of the column.
    Max,
    /// Replace a null with the zero value of the type.
    Zero,
    /// Replace a null with the one value of the type.
    One,
}

/// An element type that a column can store: it can copy one cell and
/// supply a placeholder stored in the value buffer under a null slot.
pub trait Element: Sized {
    /// Structural copy of one cell value.
    fn dup(&self) -> (r: Self)
        ensures
            r == *self,
    ;

    /// The value stored in the buffer where the validity bitmap marks a
    /// null; it is never observable.
    fn null_slot() -> Self;
}

impl Element for bool {
    fn dup(&self) -> (r: Self)
        ensures
            r == *self,
    {
        *self
    }

    fn null_slot() -> Self {
        false
    }
}

impl Element for i64 {
    fn dup(&self) -> (r: Self)
        ensures
            r == *self,
    {
        *self
    }

    fn null_slot() -> Self {
        0
    }
}

impl Element for usize {
    fn dup(&self) -> (r: Self)
        ensures
            r == *self,
    {
        *self
    }

    fn null_slot() -> Self {
        0
    }
}

impl Element for String {
    fn dup(&self) -> (r: Self)
        ensures
            r == *self,
    {
        self.clone()
    }

    fn null_slot() -> Self {
        String::new()
    }
}

/// One contiguous block of a column: a typed value buffer plus an optional
/// validity bitmap. A missing bitmap means every slot is valid.
#[derive(Debug)]
pub struct Chunk<T> {
    pub values: Vec<T>,
    pub validity: Option<Vec<bool>>,
}

impl<T> Chunk<T> {
    /// The bitmap, when present, covers exactly the value buffer.
    pub open spec fn wf(self) -> bool {
        match self.validity {
            Some(v) => v@.len() == self.values@.len(),
            None => true,
        }
    }

    /// The logical content of the chunk: one optional value per slot.
    pub open spec fn cells(self) -> Seq<Option<T>> {
        Seq::new(
            self.values@.len(),
            |i: int|
                match self.validity {
                    Some(v) => if v@[i] {
                        Some(self.values@[i])
                    } else {
                        None
                    },
                    None => Some(self.values@[i]),
                },
        )
    }
}

/// The logical content of a sequence of chunks, in chunk order.
pub open spec fn cells_of_chunks<T>(chunks: Seq<Chunk<T>>) -> Seq<Option<T>>
    decreases chunks.len(),
{
    if chunks.len() == 0 {
        Seq::empty()
    } else {
        cells_of_chunks(chunks.drop_last()) + chunks.last().cells()
    }
}

pub proof fn lemma_cells_of_chunks_take<T>(chunks: Seq<Chunk<T>>, i: int)
    requires
        0 <= i < chunks.len(),
    ensures
        cells_of_chunks(chunks.take(i + 1)) == cells_of_chunks(chunks.take(i)) + chunks[i].cells(),
{
    let t = chunks.take(i + 1);
    assert(t.drop_last() =~= chunks.take(i));
    assert(t.last() == chunks[i]);
}

/// The number of nulls among a sequence of cells.
pub open spec fn count_nulls<T>(cells: Seq<Option<T>>) -> nat
    decreases cells.len(),
{
    if cells.len() == 0 {
        0
    } else {
        count_nulls(cells.drop_last()) + (if cells.last() is None {
            1nat
        } else {
            0nat
        })
    }
}

/// A builder that accumulates cells into a single chunk, tracking whether
/// a validity bitmap is needed at all.
pub struct CellBuf<T> {
    pub values: Vec<T>,
    pub validity: Vec<bool>,
    pub saw_null: bool,
}

impl<T: Element> CellBuf<T> {
    pub open spec fn wf(self) -> bool {
        &&& self.validity@.len() == self.values@.len()
        &&& (!self.saw_null ==> forall|i: int|
            0 <= i < self.validity@.len() ==> self.validity@[i])
    }

    pub open spec fn cells(self) -> Seq<Option<T>> {
        Seq::new(
            self.values@.len(),
            |i: int| if self.validity@[i] {
                Some(self.values@[i])
            } else {
                None
            },
        )
    }

    pub fn new() -> (r: Self)
        ensures
            r.wf(),
            r.cells() =~= Seq::<Option<T>>::empty(),
    {
        CellBuf { values: Vec::new(), validity: Vec::new(), saw_null: false }
    }

    pub fn push(&mut self, cell: Option<T>)
        requires
            old(self).wf(),
        ensures
            final(self).wf(),
            final(self).cells() =~= old(self).cells().push(cell),
    {
        match cell {
            Some(v) => {
                self.values.push(v);
                self.validity.push(true);
            },
            None => {
                self.values.push(T::null_slot());
                self.validity.push(false);
                self.saw_null = true;
            },
        }
    }

    /// Seal the accumulated cells into one chunk; the bitmap is dropped
    /// when no null was pushed.
    pub fn into_chunk(self) -> (r: Chunk<T>)
        requires
            self.wf(),
        ensures
            r.wf(),
            r.cells() =~= self.cells(),
            self.saw_null ==> r.validity is Some,
            !self.saw_null ==> r.validity is None,
    {
        if self.saw_null {
            Chunk { values: self.values, validity: Some(self.validity) }
        } else {
            Chunk { values: self.values, validity: None }
        }
    }
}

/// Copy one cell out of a chunk.
pub fn chunk_cell_at<T: Element>(ch: &Chunk<T>, i: usize) -> (r: Option<T>)
    requires
        ch.wf(),
        i < ch.cells().len(),
    ensures
        r == ch.cells()[i as int],
{
    match &ch.validity {
        Some(v) => {
            if v[i] {
                Some(ch.values[i].dup())
            } else {
                None
            }
        },
        None => Some(ch.values[i].dup()),
    }
}

/// Copy a whole chunk.
pub fn dup_chunk<T: Element>(ch: &Chunk<T>) -> (r: Chunk<T>)
    requires
        ch.wf(),
    ensures
        r.wf(),
        r.cells() =~= ch.cells(),
        r.validity is Some <==> ch.validity is Some,
{
    let mut values: Vec<T> = Vec::new();
    let mut i: usize = 0;
    while i < ch.values.len()
        invariant
            i <= ch.values@.len(),
            values@.len() == i,
            forall|j: int| 0 <= j < i ==> values@[j] == ch.values@[j],
        decreases ch.values@.len() - i,
    {
        values.push(ch.values[i].dup());
        i = i + 1;
    }
    let validity = match &ch.validity {
        Some(v) => {
            let mut w: Vec<bool> = Vec::new();
            let mut k: usize = 0;
            while k < v.len()
                invariant
                    k <= v@.len(),
                    w@.len() == k,
                    forall|j: int| 0 <= j < k ==> w@[j] == v@[j],
                decreases v@.len() - k,
            {
                w.push(v[k]);
                k = k + 1;
            }
            assert(w@ =~= v@);
            Some(w)
        },
        None => None,
    };
    assert(values@ =~= ch.values@);
    let r = Chunk { values, validity };
    assert(r.cells() =~= ch.cells());
    r
}

/// Per-type, nullable, multi-chunk columnar storage: an ordered sequence of
/// same-type chunks carrying a name and a cached sortedness flag.
#[derive(Debug)]
pub struct ChunkedArray<T> {
    pub name: String,
    pub chunks: Vec<Chunk<T>>,
    pub length: usize,
    pub sorted: IsSorted,
}

impl<T> ChunkedArray<T> {
    /// Every chunk is well-formed and the cached length is the total
    /// number of cells.
    pub open spec fn wf(self) -> bool {
        &&& forall|i: int| 0 <= i < self.chunks@.len() ==> (#[trigger] self.chunks@[i]).wf()
        &&& self.length == self.cells().len()
    }

    /// The logical content of the column: the concatenation of its chunks.
    pub open spec fn cells(self) -> Seq<Option<T>> {
        cells_of_chunks(self.chunks@)
    }

    pub open spec fn spec_len(self) -> nat {
        self.cells().len()
    }

    /// The lengths of the chunks, in order.
    pub open spec fn chunk_lens(self) -> Seq<int> {
        Seq::new(self.chunks@.len(), |i: int| self.chunks@[i].cells().len() as int)
    }
}

/// A one-chunk sequence holds exactly that chunk's cells.
pub proof fn lemma_cells_one<T>(chunks: Seq<Chunk<T>>)
    requires
        chunks.len() == 1,
    ensures
        cells_of_chunks(chunks) == chunks[0].cells(),
{
    assert(chunks.drop_last() =~= Seq::<Chunk<T>>::empty());
    assert(cells_of_chunks(Seq::<Chunk<T>>::empty()) == Seq::<Option<T>>::empty());
    assert(Seq::<Option<T>>::empty() + chunks[0].cells() =~= chunks[0].cells());
}

pub proof fn lemma_count_nulls_le<T>(cells: Seq<Option<T>>)
    ensures
        count_nulls(cells) <= cells.len(),
    decreases cells.len(),
{
    if cells.len() > 0 {
        lemma_count_nulls_le(cells.drop_last());
    }
}

/// Push every cell of `chunks` onto `buf`, in order.
fn push_all<T: Element>(buf: &mut CellBuf<T>, chunks: &Vec<Chunk<T>>)
    requires
        old(buf).wf(),
        forall|i: int| 0 <= i < chunks@.len() ==> (#[trigger] chunks@[i]).wf(),
    ensures
        final(buf).wf(),
        final(buf).cells() =~= old(buf).cells() + cells_of_chunks(chunks@),
{
    let ghost start = buf.cells();
    let mut ci: usize = 0;
    while ci < chunks.len()
        invariant
            ci <= chunks@.len(),
            buf.wf(),
            forall|i: int| 0 <= i < chunks@.len() ==> (#[trigger] chunks@[i]).wf(),
            buf.cells() =~= start + cells_of_chunks(chunks@.take(ci as int)),
        decreases chunks@.len() - ci,
    {
        let ch = &chunks[ci];
        let mut ri: usize = 0;
        while ri < ch.values.len()
            invariant
                ri <= ch.cells().len(),
                ch.wf(),
                ch == chunks@[ci as int],
                ci < chunks@.len(),
                forall|i: int| 0 <= i < chunks@.len() ==> (#[trigger] chunks@[i]).wf(),
                buf.wf(),
                buf.cells() =~= start + cells_of_chunks(chunks@.take(ci as int))
                    + ch.cells().take(ri as int),
            decreases ch.cells().len() - ri,
        {
            let c = chunk_cell_at(ch, ri);
            buf.push(c);
            proof {
                assert(ch.cells().take(ri + 1) =~= ch.cells().take(ri as int).push(
                    ch.cells()[ri as int],
                ));
            }
            ri = ri + 1;
        }
        proof {
            assert(ch.cells().take(ch.cells().len() as int) =~= ch.cells());
            lemma_cells_of_chunks_take(chunks@, ci as int);
        }
        ci = ci + 1;
    }
    proof {
        assert(chunks@.take(chunks@.len() as int) =~= chunks@);
    }
}

impl<T: Element> ChunkedArray<T> {
    /// A fresh single-chunk column with no nulls.
    pub fn new(name: &str, values: Vec<T>) -> (r: Self)
        ensures
            r.wf(),
            r.name@ == name@,
            r.cells() =~= Seq::new(values@.len(), |i: int| Some(values@[i])),
            r.sorted == IsSorted::Not,
            r.chunks@.len() == 1,
    {
        let length = values.len();
        let ch = Chunk { values, validity: None };
        let r = ChunkedArray {
            name: name.to_owned(),
            chunks: vec![ch],
            length,
            sorted: IsSorted::Not,
        };
        proof {
            lemma_cells_one(r.chunks@);
            assert(r.cells() =~= ch.cells());
        }
        r
    }

    /// A fresh single-chunk column from optional values; `None` becomes a
    /// null cell.
    pub fn new_opt(name: &str, cells: Vec<Option<T>>) -> (r: Self)
        ensures
            r.wf(),
            r.name@ == name@,
            r.cells() =~= cells@,
            r.sorted == IsSorted::Not,
            r.chunks@.len() == 1,
    {
        let mut buf = CellBuf::<T>::new();
        let mut i: usize = 0;
        while i < cells.len()
            invariant
                i <= cells@.len(),
                buf.wf(),
                buf.cells() =~= cells@.take(i as int),
            decreases cells@.len() - i,
        {
            let c = match &cells[i] {
                Some(v) => Some(v.dup()),
                None => None,
            };
            buf.push(c);
            proof {
                assert(cells@.take(i + 1) =~= cells@.take(i as int).push(cells@[i as int]));
            }
            i = i + 1;
        }
        proof {
            assert(cells@.take(cells@.len() as int) =~= cells@);
        }
        let length = buf.values.len();
        let ch = buf.into_chunk();
        let r = ChunkedArray {
            name: name.to_owned(),
            chunks: vec![ch],
            length,
            sorted: IsSorted::Not,
        };
        proof {
            lemma_cells_one(r.chunks@);
            assert(r.cells() =~= ch.cells());
        }
        r
    }

    /// The column's name.
    pub fn name(&self) -> (r: &str)
        ensures
            r@ == self.name@,
    {
        self.name.as_str()
    }

    /// Give the column a new name; contents and sortedness are untouched.
    pub fn rename(&mut self, name: &str)
        requires
            old(self).wf(),
        ensures
            final(self).wf(),
            final(self).name@ == name@,
            final(self).cells() == old(self).cells(),
            final(self).chunks == old(self).chunks,
            final(self).sorted == old(self).sorted,
    {
        self.name = name.to_owned();
    }

    /// The total number of cells.
    pub fn len(&self) -> (r: usize)
        requires
            self.wf(),
        ensures
            r == self.spec_len(),
    {
        self.length
    }

    pub fn is_empty(&self) -> (r: bool)
        requires
            self.wf(),
        ensures
            r == (self.spec_len() == 0),
    {
        self.length == 0
    }

    /// How many chunks the column currently holds.
    pub fn n_chunks(&self) -> (r: usize)
        ensures
            r == self.chunks@.len(),
    {
        self.chunks.len()
    }

    /// The length of each chunk, in order.
    pub fn chunk_lengths(&self) -> (r: Vec<usize>)
        requires
            self.wf(),
        ensures
            r@.len() == self.chunk_lens().len(),
            forall|i: int| 0 <= i < r@.len() ==> r@[i] == self.chunk_lens()[i],
    {
        let mut r: Vec<usize> = Vec::new();
        let mut i: usize = 0;
        while i < self.chunks.len()
            invariant
                i <= self.chunks@.len(),
                self.wf(),
                r@.len() == i,
                forall|j: int| 0 <= j < i ==> r@[j] == self.chunk_lens()[j],
            decreases self.chunks@.len() - i,
        {
            r.push(self.chunks[i].values.len());
            i = i + 1;
        }
        r
    }

    /// The number of null cells.
    pub fn null_count(&self) -> (r: usize)
        requires
            self.wf(),
        ensures
            r == count_nulls(self.cells()),
    {
        let flat = self.rechunk();
        let ch = &flat.chunks[0];
        let ghost cs = flat.cells();
        proof {
            lemma_cells_one(flat.chunks@);
            assert(flat.cells() =~= ch.cells());
            lemma_count_nulls_le(self.cells());
        }
        let mut acc: usize = 0;
        let mut i: usize = 0;
        while i < ch.values.len()
            invariant
                i <= ch.cells().len(),
                ch == flat.chunks@[0],
                flat.chunks@.len() == 1,
                ch.wf(),
                ch.cells() =~= self.cells(),
                acc == count_nulls(self.cells().take(i as int)),
                acc <= i,
            decreases ch.cells().len() - i,
        {
            proof {
                assert(self.cells().take(i + 1).drop_last() =~= self.cells().take(i as int));
                assert(self.cells().take(i + 1).last() == self.cells()[i as int]);
            }
            let c = chunk_cell_at(ch, i);
            if c.is_none() {
                acc = acc + 1;
            }
            i = i + 1;
        }
        proof {
            assert(self.cells().take(self.cells().len() as int) =~= self.cells());
        }
        acc
    }

    /// Whether any chunk carries a validity bitmap.
    pub fn has_validity(&self) -> (r: bool)
        ensures
            r == exists|i: int|
                0 <= i < self.chunks@.len() && (#[trigger] self.chunks@[i]).validity is Some,
    {
        let mut i: usize = 0;
        while i < self.chunks.len()
            invariant
                i <= self.chunks@.len(),
                forall|j: int| 0 <= j < i ==> !((#[trigger] self.chunks@[j]).validity is Some),
            decreases self.chunks@.len() - i,
        {
            if self.chunks[i].validity.is_some() {
                return true;
            }
            i = i + 1;
        }
        false
    }

    /// Structural copy of the whole column.
    pub fn dup(&self) -> (r: Self)
        requires
            self.wf(),
        ensures
            r.wf(),
            r.cells() =~= self.cells(),
            r.name@ == self.name@,
            r.sorted == self.sorted,
            r.chunk_lens() =~= self.chunk_lens(),
    {
        let mut chunks: Vec<Chunk<T>> = Vec::new();
        let mut i: usize = 0;
        while i < self.chunks.len()
            invariant
                i <= self.chunks@.len(),
                self.wf(),
                chunks@.len() == i,
                forall|j: int| 0 <= j < i ==> (#[trigger] chunks@[j]).wf(),
                forall|j: int| 0 <= j < i ==> (#[trigger] chunks@[j]).cells()
                    == self.chunks@[j].cells(),
            decreases self.chunks@.len() - i,
        {
            let c = dup_chunk(&self.chunks[i]);
            proof {
                assert(c.cells() =~= self.chunks@[i as int].cells());
            }
            chunks.push(c);
            i = i + 1;
        }
        proof {
            lemma_cells_pointwise(chunks@, self.chunks@);
        }
        ChunkedArray {
            name: self.name.clone(),
            chunks,
            length: self.length,
            sorted: self.sorted,
        }
    }

    /// Coalesce all chunks into one; the contents, name and sortedness are
    /// unchanged.
    pub fn rechunk(&self) -> (r: Self)
        requires
            self.wf(),
        ensures
            r.wf(),
            r.cells() =~= self.cells(),
            r.name@ == self.name@,
            r.sorted == self.sorted,
            r.chunks@.len() == 1,
    {
        let mut buf = CellBuf::<T>::new();
        push_all(&mut buf, &self.chunks);
        let length = buf.values.len();
        let ch = buf.into_chunk();
        let r = ChunkedArray {
            name: self.name.clone(),
            chunks: vec![ch],
            length,
            sorted: self.sorted,
        };
        proof {
            lemma_cells_one(r.chunks@);
            assert(r.cells() =~= ch.cells());
        }
        r
    }

    /// Add the other column's chunks after this one's: the contents are
    /// concatenated, no cell is copied into an existing chunk, and the
    /// sortedness cache is conservatively cleared.
    pub fn append(&mut self, other: &Self)
        requires
            old(self).wf(),
            other.wf(),
            old(self).spec_len() + other.spec_len() <= usize::MAX,
        ensures
            final(self).wf(),
            final(self).cells() =~= old(self).cells() + other.cells(),
            final(self).name@ == old(self).name@,
            final(self).sorted == IsSorted::Not,
            final(self).chunks@.len() == old(self).chunks@.len() + other.chunks@.len(),
    {
        let mut ci: usize = 0;
        while ci < other.chunks.len()
            invariant
                ci <= other.chunks@.len(),
                other.wf(),
                self.name == old(self).name,
                self.length == old(self).length,
                self.sorted == old(self).sorted,
                forall|j: int| 0 <= j < self.chunks@.len() ==> (#[trigger] self.chunks@[j]).wf(),
                self.chunks@.len() == old(self).chunks@.len() + ci,
                self.cells() =~= old(self).cells() + cells_of_chunks(other.chunks@.take(ci as int)),
            decreases other.chunks@.len() - ci,
        {
            let ghost pre = self.chunks@;
            let c = dup_chunk(&other.chunks[ci]);
            proof {
                assert(c.cells() =~= other.chunks@[ci as int].cells());
            }
            self.chunks.push(c);
            proof {
                assert(self.chunks@.drop_last() =~= pre);
                assert(self.chunks@.last() == c);
                assert(cells_of_chunks(self.chunks@) == cells_of_chunks(pre) + c.cells());
                lemma_cells_of_chunks_take(other.chunks@, ci as int);
            }
            ci = ci + 1;
        }
        proof {
            assert(other.chunks@.take(other.chunks@.len() as int) =~= other.chunks@);
        }
        self.length = self.length + other.length;
        self.sorted = IsSorted::Not;
        proof {
            assert(final(self).wf());
        }
    }
}

/// An index column: the engine's row-position type.
pub type IdxCa = ChunkedArray<usize>;

/// Where a slice starts: non-negative offsets count from the front and are
/// clamped to the length, negative ones count from the back and are clamped
/// to zero.
pub open spec fn slice_start(offset: int, len: int) -> int {
    if offset >= 0 {
        if offset <= len {
            offset
        } else {
            len
        }
    } else if len + offset >= 0 {
        len + offset
    } else {
        0
    }
}

/// How many cells a slice keeps: the requested length clamped to what
/// remains after the start.
pub open spec fn slice_take(offset: int, length: int, len: int) -> int {
    let s = slice_start(offset, len);
    if length <= len - s {
        length
    } else {
        len - s
    }
}

/// Every index is non-null and within the source.
pub open spec fn all_indices_valid<T>(src: Seq<Option<T>>, idx: Seq<Option<usize>>) -> bool {
    forall|k: int|
        0 <= k < idx.len() ==> (#[trigger] idx[k]) is Some && idx[k].unwrap() < src.len()
}

/// The gathered cells, one per index.
pub open spec fn taken_cells<T>(src: Seq<Option<T>>, idx: Seq<Option<usize>>) -> Seq<Option<T>> {
    Seq::new(idx.len(), |k: int| src[idx[k].unwrap() as int])
}

/// The cells whose mask entry is true; a null mask entry drops the cell.
pub open spec fn filtered_cells<T>(cells: Seq<Option<T>>, mask: Seq<Option<bool>>) -> Seq<
    Option<T>,
>
    decreases cells.len(),
{
    if cells.len() == 0 {
        Seq::empty()
    } else {
        let rest = filtered_cells(cells.drop_last(), mask.drop_last());
        if mask.last() == Some(true) {
            rest.push(cells.last())
        } else {
            rest
        }
    }
}

/// The cells moved by `periods` positions (positive: toward the back),
/// vacated slots becoming null; the length is unchanged.
pub open spec fn shifted_cells<T>(cells: Seq<Option<T>>, periods: int) -> Seq<Option<T>> {
    Seq::new(
        cells.len(),
        |i: int| if 0 <= i - periods < cells.len() {
            cells[i - periods]
        } else {
            None
        },
    )
}

/// The latest non-null cell at or before position `i`.
pub open spec fn prev_fill<T>(cells: Seq<Option<T>>, i: int) -> Option<T>
    decreases i,
{
    if i < 0 {
        None
    } else if cells[i] is Some {
        cells[i]
    } else if i == 0 {
        None
    } else {
        prev_fill(cells, i - 1)
    }
}

/// The earliest non-null cell at or after position `i`.
pub open spec fn next_fill<T>(cells: Seq<Option<T>>, i: int) -> Option<T>
    decreases cells.len() - i,
{
    if i >= cells.len() || i < 0 {
        None
    } else if cells[i] is Some {
        cells[i]
    } else {
        next_fill(cells, i + 1)
    }
}

impl<T: Element> ChunkedArray<T> {
    /// Concatenate the other column's cells onto this one, coalescing into
    /// a single contiguous chunk (which restores O(1) random access); the
    /// sortedness cache is conservatively cleared.
    pub fn extend(&mut self, other: &Self)
        requires
            old(self).wf(),
            other.wf(),
            old(self).spec_len() + other.spec_len() <= usize::MAX,
        ensures
            final(self).wf(),
            final(self).cells() =~= old(self).cells() + other.cells(),
            final(self).name@ == old(self).name@,
            final(self).sorted == IsSorted::Not,
            final(self).chunks@.len() == 1,
    {
        let mut buf = CellBuf::<T>::new();
        push_all(&mut buf, &self.chunks);
        push_all(&mut buf, &other.chunks);
        let length = buf.values.len();
        let ch = buf.into_chunk();
        self.chunks = vec![ch];
        self.length = length;
        self.sorted = IsSorted::Not;
        proof {
            lemma_cells_one(self.chunks@);
        }
    }

    /// Copy one cell out of the column.
    pub fn get(&self, i: usize) -> (r: Option<T>)
        requires
            self.wf(),
            i < self.spec_len(),
        ensures
            r == self.cells()[i as int],
    {
        let flat = self.rechunk();
        proof {
            lemma_cells_one(flat.chunks@);
        }
        chunk_cell_at(&flat.chunks[0], i)
    }

    /// A copy of the cells from `offset` (negative: from the back), at most
    /// `length` of them; order-preserving, so the sortedness cache is kept.
    pub fn slice(&self, offset: i64, length: usize) -> (r: Self)
        requires
            self.wf(),
        ensures
            r.wf(),
            r.cells() =~= self.cells().subrange(
                slice_start(offset as int, self.spec_len() as int),
                slice_start(offset as int, self.spec_len() as int) + slice_take(
                    offset as int,
                    length as int,
                    self.spec_len() as int,
                ),
            ),
            r.name@ == self.name@,
            r.sorted == self.sorted,
    {
        let n = self.length;
        let n128: i128 = n as i128;
        let off128: i128 = offset as i128;
        let s128: i128 = if off128 >= 0 {
            if off128 <= n128 {
                off128
            } else {
                n128
            }
        } else if n128 + off128 >= 0 {
            n128 + off128
        } else {
            0
        };
        proof {
            assert(0 <= s128 <= n128);
            assert(s128 == slice_start(offset as int, self.spec_len() as int));
        }
        let start: usize = s128 as usize;
        proof {
            assert(start == s128);
        }
        let remain: usize = n - start;
        let take_n: usize = if length <= remain {
            length
        } else {
            remain
        };
        proof {
            assert(take_n == slice_take(offset as int, length as int, self.spec_len() as int));
            assert(start + take_n <= self.spec_len());
        }
        let flat = self.rechunk();
        proof {
            lemma_cells_one(flat.chunks@);
        }
        let ch = &flat.chunks[0];
        let mut buf = CellBuf::<T>::new();
        let end: usize = start + take_n;
        let mut i: usize = start;
        while i < end
            invariant
                start <= i <= end,
                end == start + take_n,
                end <= self.spec_len(),
                ch.wf(),
                ch == flat.chunks@[0],
                ch.cells() =~= self.cells(),
                buf.wf(),
                buf.cells() =~= self.cells().subrange(start as int, i as int),
            decreases start + take_n - i,
        {
            let c = chunk_cell_at(ch, i);
            buf.push(c);
            proof {
                assert(self.cells().subrange(start as int, i + 1) =~= self.cells().subrange(
                    start as int,
                    i as int,
                ).push(self.cells()[i as int]));
            }
            i = i + 1;
        }
        let length_out = buf.values.len();
        let chk = buf.into_chunk();
        let r = ChunkedArray {
            name: self.name.clone(),
            chunks: vec![chk],
            length: length_out,
            sorted: self.sorted,
        };
        proof {
            lemma_cells_one(r.chunks@);
        }
        r
    }

    /// Gather the cells at the given row positions, checking every index:
    /// a null or out-of-bounds index fails with `OutOfBounds` and nothing
    /// is returned.
    pub fn take(&self, indices: &IdxCa) -> (r: Result<Self, crate::error::CoreError>)
        requires
            self.wf(),
            indices.wf(),
        ensures
            r is Ok <==> all_indices_valid(self.cells(), indices.cells()),
            r matches Ok(out) ==> {
                &&& out.wf()
                &&& out.cells() =~= taken_cells(self.cells(), indices.cells())
                &&& out.name@ == self.name@
                &&& out.sorted == IsSorted::Not
            },
            r matches Err(e) ==> e == crate::error::CoreError::OutOfBounds,
    {
        let flat_idx = indices.rechunk();
        proof {
            lemma_cells_one(flat_idx.chunks@);
        }
        let ich = &flat_idx.chunks[0];
        let mut k: usize = 0;
        while k < ich.values.len()
            invariant
                k <= indices.spec_len(),
                ich.wf(),
                ich == flat_idx.chunks@[0],
                ich.cells() =~= indices.cells(),
                self.wf(),
                forall|j: int|
                    0 <= j < k ==> (#[trigger] indices.cells()[j]) is Some
                        && indices.cells()[j].unwrap() < self.spec_len(),
            decreases indices.spec_len() - k,
        {
            match chunk_cell_at(ich, k) {
                Some(ix) => {
                    if ix >= self.length {
                        return Err(crate::error::CoreError::OutOfBounds);
                    }
                },
                None => {
                    return Err(crate::error::CoreError::OutOfBounds);
                },
            }
            k = k + 1;
        }
        let out = self.take_unchecked(&flat_idx);
        proof {
            assert(taken_cells(self.cells(), flat_idx.cells()) =~= taken_cells(
                self.cells(),
                indices.cells(),
            ));
        }
        Ok(out)
    }

    /// Gather the cells at the given row positions without checking: the
    /// caller must have established that every index is in bounds.
    pub fn take_unchecked(&self, indices: &IdxCa) -> (out: Self)
        requires
            self.wf(),
            indices.wf(),
            all_indices_valid(self.cells(), indices.cells()),
        ensures
            out.wf(),
            out.cells() =~= taken_cells(self.cells(), indices.cells()),
            out.name@ == self.name@,
            out.sorted == IsSorted::Not,
    {
        let flat = self.rechunk();
        let flat_idx = indices.rechunk();
        proof {
            lemma_cells_one(flat.chunks@);
            lemma_cells_one(flat_idx.chunks@);
        }
        let ch = &flat.chunks[0];
        let ich = &flat_idx.chunks[0];
        let mut buf = CellBuf::<T>::new();
        let mut k: usize = 0;
        while k < ich.values.len()
            invariant
                k <= indices.spec_len(),
                ch.wf(),
                ch == flat.chunks@[0],
                ch.cells() =~= self.cells(),
                ich.wf(),
                ich == flat_idx.chunks@[0],
                ich.cells() =~= indices.cells(),
                self.wf(),
                all_indices_valid(self.cells(), indices.cells()),
                buf.wf(),
                buf.cells() =~= taken_cells(self.cells(), indices.cells()).take(k as int),
            decreases indices.spec_len() - k,
        {
            let ix = match chunk_cell_at(ich, k) {
                Some(ix) => ix,
                None => {
                    proof {
                        assert(indices.cells()[k as int] is Some);
                        assert(false);
                    }
                    0
                },
            };
            let c = chunk_cell_at(ch, ix);
            buf.push(c);
            proof {
                let t = taken_cells(self.cells(), indices.cells());
                assert(t.take(k + 1) =~= t.take(k as int).push(t[k as int]));
            }
            k = k + 1;
        }
        proof {
            let t = taken_cells(self.cells(), indices.cells());
            assert(t.take(t.len() as int) =~= t);
        }
        let length_out = buf.values.len();
        let chk = buf.into_chunk();
        let out = ChunkedArray {
            name: self.name.clone(),
            chunks: vec![chk],
            length: length_out,
            sorted: IsSorted::Not,
        };
        proof {
            lemma_cells_one(out.chunks@);
        }
        out
    }

    /// Keep the cells whose mask entry is true (a null mask entry drops the
    /// cell); the mask must cover the column exactly.
    pub fn filter(&self, mask: &ChunkedArray<bool>) -> (r: Result<Self, crate::error::CoreError>)
        requires
            self.wf(),
            mask.wf(),
        ensures
            r is Ok <==> mask.spec_len() == self.spec_len(),
            r matches Ok(out) ==> {
                &&& out.wf()
                &&& out.cells() =~= filtered_cells(self.cells(), mask.cells())
                &&& out.name@ == self.name@
                &&& out.sorted == IsSorted::Not
            },
            r matches Err(e) ==> e == crate::error::CoreError::InvalidOperation,
    {
        if mask.length != self.length {
            return Err(crate::error::CoreError::InvalidOperation);
        }
        let flat = self.rechunk();
        let flat_mask = mask.rechunk();
        proof {
            lemma_cells_one(flat.chunks@);
            lemma_cells_one(flat_mask.chunks@);
        }
        let ch = &flat.chunks[0];
        let mch = &flat_mask.chunks[0];
        let mut buf = CellBuf::<T>::new();
        let mut i: usize = 0;
        while i < ch.values.len()
            invariant
                i <= self.spec_len(),
                mask.spec_len() == self.spec_len(),
                ch.wf(),
                ch == flat.chunks@[0],
                ch.cells() =~= self.cells(),
                mch.wf(),
                mch == flat_mask.chunks@[0],
                mch.cells() =~= mask.cells(),
                buf.wf(),
                buf.cells() =~= filtered_cells(
                    self.cells().take(i as int),
                    mask.cells().take(i as int),
                ),
            decreases self.spec_len() - i,
        {
            let keep = match chunk_cell_at(mch, i) {
                Some(b) => b,
                None => false,
            };
            if keep {
                let c = chunk_cell_at(ch, i);
                buf.push(c);
            }
            proof {
                assert(self.cells().take(i + 1).drop_last() =~= self.cells().take(i as int));
                assert(mask.cells().take(i + 1).drop_last() =~= mask.cells().take(i as int));
                assert(self.cells().take(i + 1).last() == self.cells()[i as int]);
                assert(mask.cells().take(i + 1).last() == mask.cells()[i as int]);
            }
            i = i + 1;
        }
        proof {
            assert(self.cells().take(self.spec_len() as int) =~= self.cells());
            assert(mask.cells().take(mask.spec_len() as int) =~= mask.cells());
        }
        let length_out = buf.values.len();
        let chk = buf.into_chunk();
        let out = ChunkedArray {
            name: self.name.clone(),
            chunks: vec![chk],
            length: length_out,
            sorted: IsSorted::Not,
        };
        proof {
            lemma_cells_one(out.chunks@);
        }
        Ok(out)
    }

    /// Move the cells by `periods` positions (positive: toward the back),
    /// null-filling the vacated slots; the length is unchanged.
    pub fn shift(&self, periods: i64) -> (r: Self)
        requires
            self.wf(),
        ensures
            r.wf(),
            r.cells() =~= shifted_cells(self.cells(), periods as int),
            r.name@ == self.name@,
            r.sorted == IsSorted::Not,
    {
        let flat = self.rechunk();
        proof {
            lemma_cells_one(flat.chunks@);
        }
        let ch = &flat.chunks[0];
        let n = self.length;
        let mut buf = CellBuf::<T>::new();
        let mut i: usize = 0;
        while i < n
            invariant
                i <= n,
                n == self.spec_len(),
                ch.wf(),
                ch == flat.chunks@[0],
                ch.cells() =~= self.cells(),
                buf.wf(),
                buf.cells() =~= shifted_cells(self.cells(), periods as int).take(i as int),
            decreases n - i,
        {
            let i128v: i128 = i as i128;
            let p128: i128 = periods as i128;
            let src128: i128 = i128v - p128;
            let c = if 0 <= src128 && src128 < n as i128 {
                chunk_cell_at(ch, src128 as usize)
            } else {
                None
            };
            buf.push(c);
            proof {
                let s = shifted_cells(self.cells(), periods as int);
                assert(s.take(i + 1) =~= s.take(i as int).push(s[i as int]));
            }
            i = i + 1;
        }
        proof {
            let s = shifted_cells(self.cells(), periods as int);
            assert(s.take(s.len() as int) =~= s);
        }
        let length_out = buf.values.len();
        let chk = buf.into_chunk();
        let r = ChunkedArray {
            name: self.name.clone(),
            chunks: vec![chk],
            length: length_out,
            sorted: IsSorted::Not,
        };
        proof {
            lemma_cells_one(r.chunks@);
        }
        r
    }

    /// The cells in reverse order.
    pub fn reverse(&self) -> (r: Self)
        requires
            self.wf(),
        ensures
            r.wf(),
            r.cells() =~= Seq::new(
                self.spec_len(),
                |i: int| self.cells()[self.spec_len() - 1 - i],
            ),
            r.name@ == self.name@,
            r.sorted == IsSorted::Not,
    {
        let flat = self.rechunk();
        proof {
            lemma_cells_one(flat.chunks@);
        }
        let ch = &flat.chunks[0];
        let n = self.length;
        let ghost rev = Seq::new(self.spec_len(), |i: int| self.cells()[self.spec_len() - 1 - i]);
        let mut buf = CellBuf::<T>::new();
        let mut i: usize = 0;
        while i < n
            invariant
                i <= n,
                n == self.spec_len(),
                ch.wf(),
                ch == flat.chunks@[0],
                ch.cells() =~= self.cells(),
                buf.wf(),
                rev == Seq::new(
                    self.spec_len(),
                    |j: int| self.cells()[self.spec_len() - 1 - j],
                ),
                buf.cells() =~= rev.take(i as int),
            decreases n - i,
        {
            let c = chunk_cell_at(ch, n - 1 - i);
            buf.push(c);
            proof {
                assert(rev.take(i + 1) =~= rev.take(i as int).push(rev[i as int]));
            }
            i = i + 1;
        }
        proof {
            assert(rev.take(rev.len() as int) =~= rev);
        }
        let length_out = buf.values.len();
        let chk = buf.into_chunk();
        let r = ChunkedArray {
            name: self.name.clone(),
            chunks: vec![chk],
            length: length_out,
            sorted: IsSorted::Not,
        };
        proof {
            lemma_cells_one(r.chunks@);
        }
        r
    }

    /// Every `n`-th cell, starting at the first.
    pub fn take_every(&self, n: usize) -> (r: Self)
        requires
            self.wf(),
            n >= 1,
        ensures
            r.wf(),
            r.name@ == self.name@,
            r.sorted == IsSorted::Not,
            forall|j: int| 0 <= j < r.spec_len() ==> r.cells()[j] == self.cells()[j * n],
            r.spec_len() * n >= self.spec_len(),
            r.spec_len() == 0 ==> self.spec_len() == 0,
            r.spec_len() >= 1 ==> (r.spec_len() - 1) * n < self.spec_len(),
    {
        let flat = self.rechunk();
        proof {
            lemma_cells_one(flat.chunks@);
        }
        let ch = &flat.chunks[0];
        let len = self.length;
        let mut buf = CellBuf::<T>::new();
        let mut i: usize = 0;
        let ghost k: int = 0;
        while i < len
            invariant
                n >= 1,
                len == self.spec_len(),
                ch.wf(),
                ch == flat.chunks@[0],
                ch.cells() =~= self.cells(),
                buf.wf(),
                buf.cells().len() == k,
                i <= len,
                (i == k * n && (k == 0 || (k - 1) * n < len)) || (i == len && k >= 1 && (k - 1)
                    * n < len && k * n >= len),
                forall|j: int| 0 <= j < k ==> buf.cells()[j] == self.cells()[j * n],
            decreases len - i,
        {
            let c = chunk_cell_at(ch, i);
            buf.push(c);
            proof {
                assert((k + 1) * n == k * n + n) by (nonlinear_arith);
            }
            if len - i > n {
                i = i + n;
            } else {
                i = len;
            }
            proof {
                k = k + 1;
            }
        }
        let length_out = buf.values.len();
        let chk = buf.into_chunk();
        let r = ChunkedArray {
            name: self.name.clone(),
            chunks: vec![chk],
            length: length_out,
            sorted: IsSorted::Not,
        };
        proof {
            lemma_cells_one(r.chunks@);
        }
        r
    }

    /// Repeat the cell at `index` to form a column of `length` cells.
    pub fn expand_at_index(&self, index: usize, length: usize) -> (r: Self)
        requires
            self.wf(),
            index < self.spec_len(),
        ensures
            r.wf(),
            r.cells() =~= Seq::new(length as nat, |i: int| self.cells()[index as int]),
            r.name@ == self.name@,
            r.sorted == IsSorted::Not,
    {
        let cell = self.get(index);
        let mut buf = CellBuf::<T>::new();
        let ghost target = Seq::new(length as nat, |i: int| self.cells()[index as int]);
        let mut i: usize = 0;
        while i < length
            invariant
                i <= length,
                cell == self.cells()[index as int],
                index < self.spec_len(),
                buf.wf(),
                target == Seq::new(length as nat, |j: int| self.cells()[index as int]),
                buf.cells() =~= target.take(i as int),
            decreases length - i,
        {
            let c = match &cell {
                Some(v) => Some(v.dup()),
                None => None,
            };
            buf.push(c);
            proof {
                assert(target.take(i + 1) =~= target.take(i as int).push(target[i as int]));
            }
            i = i + 1;
        }
        proof {
            assert(target.take(target.len() as int) =~= target);
        }
        let length_out = buf.values.len();
        let chk = buf.into_chunk();
        let r = ChunkedArray {
            name: self.name.clone(),
            chunks: vec![chk],
            length: length_out,
            sorted: IsSorted::Not,
        };
        proof {
            lemma_cells_one(r.chunks@);
        }
        r
    }

    /// Element-wise select: where the mask is true take this column's cell,
    /// elsewhere (false or null) the other's; all operands must have equal
    /// length.
    pub fn zip_with(&self, mask: &ChunkedArray<bool>, other: &Self) -> (r: Result<
        Self,
        crate::error::CoreError,
    >)
        requires
            self.wf(),
            mask.wf(),
            other.wf(),
        ensures
            r is Ok <==> (mask.spec_len() == self.spec_len() && other.spec_len()
                == self.spec_len()),
            r matches Ok(out) ==> {
                &&& out.wf()
                &&& out.cells() =~= Seq::new(
                    self.spec_len(),
                    |i: int| if mask.cells()[i] == Some(true) {
                        self.cells()[i]
                    } else {
                        other.cells()[i]
                    },
                )
                &&& out.name@ == self.name@
                &&& out.sorted == IsSorted::Not
            },
            r matches Err(e) ==> e == crate::error::CoreError::InvalidOperation,
    {
        if mask.length != self.length || other.length != self.length {
            return Err(crate::error::CoreError::InvalidOperation);
        }
        let flat = self.rechunk();
        let flat_mask = mask.rechunk();
        let flat_other = other.rechunk();
        proof {
            lemma_cells_one(flat.chunks@);
            lemma_cells_one(flat_mask.chunks@);
            lemma_cells_one(flat_other.chunks@);
        }
        let ch = &flat.chunks[0];
        let mch = &flat_mask.chunks[0];
        let och = &flat_other.chunks[0];
        let ghost target = Seq::new(
            self.spec_len(),
            |i: int| if mask.cells()[i] == Some(true) {
                self.cells()[i]
            } else {
                other.cells()[i]
            },
        );
        let mut buf = CellBuf::<T>::new();
        let mut i: usize = 0;
        while i < ch.values.len()
            invariant
                i <= self.spec_len(),
                mask.spec_len() == self.spec_len(),
                other.spec_len() == self.spec_len(),
                ch.wf(),
                ch == flat.chunks@[0],
                ch.cells() =~= self.cells(),
                mch.wf(),
                mch == flat_mask.chunks@[0],
                mch.cells() =~= mask.cells(),
                och.wf(),
                och == flat_other.chunks@[0],
                och.cells() =~= other.cells(),
                buf.wf(),
                target == Seq::new(
                    self.spec_len(),
                    |j: int| if mask.cells()[j] == Some(true) {
                        self.cells()[j]
                    } else {
                        other.cells()[j]
                    },
                ),
                buf.cells() =~= target.take(i as int),
            decreases self.spec_len() - i,
        {
            let pick_self = match chunk_cell_at(mch, i) {
                Some(b) => b,
                None => false,
            };
            let c = if pick_self {
                chunk_cell_at(ch, i)
            } else {
                chunk_cell_at(och, i)
            };
            buf.push(c);
            proof {
                assert(target.take(i + 1) =~= target.take(i as int).push(target[i as int]));
            }
            i = i + 1;
        }
        proof {
            assert(target.take(target.len() as int) =~= target);
        }
        let length_out = buf.values.len();
        let chk = buf.into_chunk();
        let out = ChunkedArray {
            name: self.name.clone(),
            chunks: vec![chk],
            length: length_out,
            sorted: IsSorted::Not,
        };
        proof {
            lemma_cells_one(out.chunks@);
        }
        Ok(out)
    }
}

/// The merged column of an outer join: for each index pair take the left
/// column's cell when the left index is present, else the right column's
/// cell when the right index is present, else null.
pub open spec fn outer_zipped<T>(
    a: Seq<Option<T>>,
    b: Seq<Option<T>>,
    tups: Seq<(Option<usize>, Option<usize>)>,
) -> Seq<Option<T>> {
    Seq::new(
        tups.len(),
        |i: int|
            match tups[i].0 {
                Some(l) => a[l as int],
                None => match tups[i].1 {
                    Some(rr) => b[rr as int],
                    None => None,
                },
            },
    )
}

/// Every present index of every pair is in bounds for its side.
pub open spec fn outer_tuples_ok(
    a_len: nat,
    b_len: nat,
    tups: Seq<(Option<usize>, Option<usize>)>,
) -> bool {
    forall|i: int|
        0 <= i < tups.len() ==> (match (#[trigger] tups[i]).0 {
            Some(l) => l < a_len,
            None => match tups[i].1 {
                Some(rr) => rr < b_len,
                None => true,
            },
        })
}

impl<T: Element> ChunkedArray<T> {
    /// Merge this (left) column with the right one along outer-join index
    /// pairs, nulling where the corresponding side's index is absent; a
    /// present index out of bounds fails with `OutOfBounds`.
    pub fn zip_outer_join_column(
        &self,
        right: &Self,
        opt_join_tuples: &Vec<(Option<usize>, Option<usize>)>,
    ) -> (r: Result<Self, crate::error::CoreError>)
        requires
            self.wf(),
            right.wf(),
        ensures
            r is Ok <==> outer_tuples_ok(self.spec_len(), right.spec_len(), opt_join_tuples@),
            r matches Ok(out) ==> {
                &&& out.wf()
                &&& out.cells() =~= outer_zipped(
                    self.cells(),
                    right.cells(),
                    opt_join_tuples@,
                )
                &&& out.name@ == self.name@
                &&& out.sorted == IsSorted::Not
            },
            r matches Err(e) ==> e == crate::error::CoreError::OutOfBounds,
    {
        let flat = self.rechunk();
        let flat_r = right.rechunk();
        proof {
            lemma_cells_one(flat.chunks@);
            lemma_cells_one(flat_r.chunks@);
        }
        let ch = &flat.chunks[0];
        let rch = &flat_r.chunks[0];
        let ghost target = outer_zipped(self.cells(), right.cells(), opt_join_tuples@);
        let mut buf = CellBuf::<T>::new();
        let mut i: usize = 0;
        while i < opt_join_tuples.len()
            invariant
                i <= opt_join_tuples@.len(),
                ch.wf(),
                ch == flat.chunks@[0],
                ch.cells() =~= self.cells(),
                rch.wf(),
                rch == flat_r.chunks@[0],
                rch.cells() =~= right.cells(),
                self.wf(),
                right.wf(),
                buf.wf(),
                target == outer_zipped(self.cells(), right.cells(), opt_join_tuples@),
                buf.cells() =~= target.take(i as int),
                forall|j: int|
                    0 <= j < i ==> (match (#[trigger] opt_join_tuples@[j]).0 {
                        Some(l) => l < self.spec_len(),
                        None => match opt_join_tuples@[j].1 {
                            Some(rr) => rr < right.spec_len(),
                            None => true,
                        },
                    }),
            decreases opt_join_tuples@.len() - i,
        {
            let tp = opt_join_tuples[i];
            let c: Option<T> = match tp.0 {
                Some(l) => {
                    if l >= ch.values.len() {
                        return Err(crate::error::CoreError::OutOfBounds);
                    }
                    chunk_cell_at(ch, l)
                },
                None => match tp.1 {
                    Some(rr) => {
                        if rr >= rch.values.len() {
                            return Err(crate::error::CoreError::OutOfBounds);
                        }
                        chunk_cell_at(rch, rr)
                    },
                    None => None,
                },
            };
            buf.push(c);
            proof {
                assert(target.take(i + 1) =~= target.take(i as int).push(target[i as int]));
            }
            i = i + 1;
        }
        proof {
            assert(target.take(target.len() as int) =~= target);
        }
        let length_out = buf.values.len();
        let chk = buf.into_chunk();
        let out = ChunkedArray {
            name: self.name.clone(),
            chunks: vec![chk],
            length: length_out,
            sorted: IsSorted::Not,
        };
        proof {
            lemma_cells_one(out.chunks@);
        }
        Ok(out)
    }
}

pub proof fn lemma_cells_of_chunks_concat<T>(a: Seq<Chunk<T>>, b: Seq<Chunk<T>>)
    ensures
        cells_of_chunks(a + b) == cells_of_chunks(a) + cells_of_chunks(b),
    decreases b.len(),
{
    if b.len() == 0 {
        assert(a + b =~= a);
        assert(cells_of_chunks(a) + cells_of_chunks(b) =~= cells_of_chunks(a));
    } else {
        lemma_cells_of_chunks_concat(a, b.drop_last());
        assert((a + b).drop_last() =~= a + b.drop_last());
        assert((a + b).last() == b.last());
        assert(cells_of_chunks(a) + cells_of_chunks(b.drop_last()) + b.last().cells()
            =~= cells_of_chunks(a) + cells_of_chunks(b));
    }
}

pub proof fn lemma_cells_prefix_len<T>(chunks: Seq<Chunk<T>>, i: int)
    requires
        0 <= i <= chunks.len(),
    ensures
        cells_of_chunks(chunks.take(i)).len() <= cells_of_chunks(chunks).len(),
{
    assert(chunks =~= chunks.take(i) + chunks.skip(i));
    lemma_cells_of_chunks_concat(chunks.take(i), chunks.skip(i));
}

impl<T> ChunkedArray<T> {
    /// Audit the representation invariant at run time: every bitmap
    /// covers its buffer and the cached length is the true cell count.
    pub fn check_wf(&self) -> (r: bool)
        ensures
            r == self.wf(),
    {
        let mut i: usize = 0;
        while i < self.chunks.len()
            invariant
                i <= self.chunks@.len(),
                forall|j: int| 0 <= j < i ==> (#[trigger] self.chunks@[j]).wf(),
            decreases self.chunks@.len() - i,
        {
            match &self.chunks[i].validity {
                Some(v) => {
                    if v.len() != self.chunks[i].values.len() {
                        return false;
                    }
                },
                None => {},
            }
            i = i + 1;
        }
        let mut acc: usize = 0;
        let mut k: usize = 0;
        while k < self.chunks.len()
            invariant
                k <= self.chunks@.len(),
                forall|j: int| 0 <= j < self.chunks@.len() ==> (#[trigger] self.chunks@[j]).wf(),
                acc == cells_of_chunks(self.chunks@.take(k as int)).len(),
            decreases self.chunks@.len() - k,
        {
            let n = self.chunks[k].values.len();
            proof {
                lemma_cells_of_chunks_take(self.chunks@, k as int);
            }
            if n > usize::MAX - acc {
                proof {
                    lemma_cells_prefix_len(self.chunks@, k + 1);
                    assert(self.cells().len() > usize::MAX);
                }
                return false;
            }
            acc = acc + n;
            k = k + 1;
        }
        proof {
            assert(self.chunks@.take(self.chunks@.len() as int) =~= self.chunks@);
        }
        acc == self.length
    }
}

/// Copy one optional cell.
pub fn dup_cell<T: Element>(c: &Option<T>) -> (r: Option<T>)
    ensures
        r == *c,
{
    match c {
        Some(v) => Some(v.dup()),
        None => None,
    }
}

/// The column with every null replaced by the latest earlier non-null cell.
pub open spec fn filled_forward<T>(cells: Seq<Option<T>>) -> Seq<Option<T>> {
    Seq::new(cells.len(), |i: int| prev_fill(cells, i))
}

/// The column with every null replaced by the earliest later non-null cell.
pub open spec fn filled_backward<T>(cells: Seq<Option<T>>) -> Seq<Option<T>> {
    Seq::new(cells.len(), |i: int| next_fill(cells, i))
}

/// The column with every null replaced by `v` (which may itself be null).
pub open spec fn filled_const<T>(cells: Seq<Option<T>>, v: Option<T>) -> Seq<Option<T>> {
    Seq::new(
        cells.len(),
        |i: int| if cells[i] is Some {
            cells[i]
        } else {
            v
        },
    )
}

impl<T: Element> ChunkedArray<T> {
    /// Replace each null with the previous non-null cell, if any.
    pub fn fill_null_forward(&self) -> (r: Self)
        requires
            self.wf(),
        ensures
            r.wf(),
            r.cells() =~= filled_forward(self.cells()),
            r.name@ == self.name@,
            r.sorted == IsSorted::Not,
    {
        let flat = self.rechunk();
        proof {
            lemma_cells_one(flat.chunks@);
        }
        let ch = &flat.chunks[0];
        let mut buf = CellBuf::<T>::new();
        let mut cur: Option<T> = None;
        let mut i: usize = 0;
        while i < ch.values.len()
            invariant
                i <= self.spec_len(),
                ch.wf(),
                ch == flat.chunks@[0],
                ch.cells() =~= self.cells(),
                buf.wf(),
                cur == prev_fill(self.cells(), i - 1),
                buf.cells() =~= filled_forward(self.cells()).take(i as int),
            decreases self.spec_len() - i,
        {
            let c = chunk_cell_at(ch, i);
            if c.is_some() {
                cur = c;
            }
            proof {
                assert(cur == prev_fill(self.cells(), i as int));
                let t = filled_forward(self.cells());
                assert(t.take(i + 1) =~= t.take(i as int).push(t[i as int]));
            }
            let p = dup_cell(&cur);
            buf.push(p);
            i = i + 1;
        }
        proof {
            let t = filled_forward(self.cells());
            assert(t.take(t.len() as int) =~= t);
        }
        let length_out = buf.values.len();
        let chk = buf.into_chunk();
        let r = ChunkedArray {
            name: self.name.clone(),
            chunks: vec![chk],
            length: length_out,
            sorted: IsSorted::Not,
        };
        proof {
            lemma_cells_one(r.chunks@);
        }
        r
    }

    /// Replace each null with the next non-null cell, if any.
    pub fn fill_null_backward(&self) -> (r: Self)
        requires
            self.wf(),
        ensures
            r.wf(),
            r.cells() =~= filled_backward(self.cells()),
            r.name@ == self.name@,
            r.sorted == IsSorted::Not,
    {
        let flat = self.rechunk();
        proof {
            lemma_cells_one(flat.chunks@);
        }
        let ch = &flat.chunks[0];
        let n = self.length;
        // first pass, back to front: the fill value for each position,
        // stored in reverse order
        let mut rev: Vec<Option<T>> = Vec::new();
        let mut cur: Option<T> = None;
        let mut i: usize = n;
        while i > 0
            invariant
                i <= n,
                n == self.spec_len(),
                ch.wf(),
                ch == flat.chunks@[0],
                ch.cells() =~= self.cells(),
                cur == next_fill(self.cells(), i as int),
                rev@.len() == n - i,
                forall|j: int|
                    0 <= j < rev@.len() ==> rev@[j] == next_fill(self.cells(), n - 1 - j),
            decreases i,
        {
            i = i - 1;
            let c = chunk_cell_at(ch, i);
            if c.is_some() {
                cur = c;
            }
            proof {
                assert(cur == next_fill(self.cells(), i as int));
            }
            let p = dup_cell(&cur);
            rev.push(p);
        }
        // second pass: emit in the original order
        let mut buf = CellBuf::<T>::new();
        let mut k: usize = 0;
        while k < n
            invariant
                k <= n,
                n == self.spec_len(),
                rev@.len() == n,
                forall|j: int|
                    0 <= j < rev@.len() ==> rev@[j] == next_fill(self.cells(), n - 1 - j),
                buf.wf(),
                buf.cells() =~= filled_backward(self.cells()).take(k as int),
            decreases n - k,
        {
            let p = dup_cell(&rev[n - 1 - k]);
            buf.push(p);
            proof {
                let t = filled_backward(self.cells());
                assert(t.take(k + 1) =~= t.take(k as int).push(t[k as int]));
            }
            k = k + 1;
        }
        proof {
            let t = filled_backward(self.cells());
            assert(t.take(t.len() as int) =~= t);
        }
        let length_out = buf.values.len();
        let chk = buf.into_chunk();
        let r = ChunkedArray {
            name: self.name.clone(),
            chunks: vec![chk],
            length: length_out,
            sorted: IsSorted::Not,
        };
        proof {
            lemma_cells_one(r.chunks@);
        }
        r
    }

    /// Replace each null with `v` (a null `v` leaves the column unchanged).
    pub fn fill_null_const(&self, v: Option<T>) -> (r: Self)
        requires
            self.wf(),
        ensures
            r.wf(),
            r.cells() =~= filled_const(self.cells(), v),
            r.name@ == self.name@,
            r.sorted == IsSorted::Not,
    {
        let flat = self.rechunk();
        proof {
            lemma_cells_one(flat.chunks@);
        }
        let ch = &flat.chunks[0];
        let mut buf = CellBuf::<T>::new();
        let mut i: usize = 0;
        while i < ch.values.len()
            invariant
                i <= self.spec_len(),
                ch.wf(),
                ch == flat.chunks@[0],
                ch.cells() =~= self.cells(),
                buf.wf(),
                buf.cells() =~= filled_const(self.cells(), v).take(i as int),
            decreases self.spec_len() - i,
        {
            let c = chunk_cell_at(ch, i);
            let p = match c {
                Some(x) => Some(x),
                None => dup_cell(&v),
            };
            buf.push(p);
            proof {
                let t = filled_const(self.cells(), v);
                assert(t.take(i + 1) =~= t.take(i as int).push(t[i as int]));
            }
            i = i + 1;
        }
        proof {
            let t = filled_const(self.cells(), v);
            assert(t.take(t.len() as int) =~= t);
        }
        let length_out = buf.values.len();
        let chk = buf.into_chunk();
        let r = ChunkedArray {
            name: self.name.clone(),
            chunks: vec![chk],
            length: length_out,
            sorted: IsSorted::Not,
        };
        proof {
            lemma_cells_one(r.chunks@);
        }
        r
    }

    /// A boolean column marking the null cells.
    pub fn is_null_mask(&self) -> (r: ChunkedArray<bool>)
        requires
            self.wf(),
        ensures
            r.wf(),
            r.cells() =~= Seq::new(self.spec_len(), |i: int| Some(self.cells()[i] is None)),
            r.name@ == self.name@,
    {
        let flat = self.rechunk();
        proof {
            lemma_cells_one(flat.chunks@);
        }
        let ch = &flat.chunks[0];
        let ghost target = Seq::new(self.spec_len(), |i: int| Some(self.cells()[i] is None));
        let mut buf = CellBuf::<bool>::new();
        let mut i: usize = 0;
        while i < ch.values.len()
            invariant
                i <= self.spec_len(),
                ch.wf(),
                ch == flat.chunks@[0],
                ch.cells() =~= self.cells(),
                buf.wf(),
                target == Seq::new(self.spec_len(), |j: int| Some(self.cells()[j] is None)),
                buf.cells() =~= target.take(i as int),
            decreases self.spec_len() - i,
        {
            let c = chunk_cell_at(ch, i);
            buf.push(Some(c.is_none()));
            proof {
                assert(target.take(i + 1) =~= target.take(i as int).push(target[i as int]));
            }
            i = i + 1;
        }
        proof {
            assert(target.take(target.len() as int) =~= target);
        }
        let length_out = buf.values.len();
        let chk = buf.into_chunk();
        let r = ChunkedArray {
            name: self.name.clone(),
            chunks: vec![chk],
            length: length_out,
            sorted: IsSorted::Not,
        };
        proof {
            lemma_cells_one(r.chunks@);
        }
        r
    }

    /// A boolean column marking the non-null cells.
    pub fn is_not_null_mask(&self) -> (r: ChunkedArray<bool>)
        requires
            self.wf(),
        ensures
            r.wf(),
            r.cells() =~= Seq::new(self.spec_len(), |i: int| Some(self.cells()[i] is Some)),
            r.name@ == self.name@,
    {
        let flat = self.rechunk();
        proof {
            lemma_cells_one(flat.chunks@);
        }
        let ch = &flat.chunks[0];
        let ghost target = Seq::new(self.spec_len(), |i: int| Some(self.cells()[i] is Some));
        let mut buf = CellBuf::<bool>::new();
        let mut i: usize = 0;
        while i < ch.values.len()
            invariant
                i <= self.spec_len(),
                ch.wf(),
                ch == flat.chunks@[0],
                ch.cells() =~= self.cells(),
                buf.wf(),
                target == Seq::new(self.spec_len(), |j: int| Some(self.cells()[j] is Some)),
                buf.cells() =~= target.take(i as int),
            decreases self.spec_len() - i,
        {
            let c = chunk_cell_at(ch, i);
            buf.push(Some(c.is_some()));
            proof {
                assert(target.take(i + 1) =~= target.take(i as int).push(target[i as int]));
            }
            i = i + 1;
        }
        proof {
            assert(target.take(target.len() as int) =~= target);
        }
        let length_out = buf.values.len();
        let chk = buf.into_chunk();
        let r = ChunkedArray {
            name: self.name.clone(),
            chunks: vec![chk],
            length: length_out,
            sorted: IsSorted::Not,
        };
        proof {
            lemma_cells_one(r.chunks@);
        }
        r
    }
}

impl<T: Element> ChunkedArray<T> {
    /// The cells as one flat vector of optional values.
    pub fn to_cells_vec(&self) -> (r: Vec<Option<T>>)
        requires
            self.wf(),
        ensures
            r@ == self.cells(),
    {
        let flat = self.rechunk();
        proof {
            lemma_cells_one(flat.chunks@);
        }
        let ch = &flat.chunks[0];
        let mut r: Vec<Option<T>> = Vec::new();
        let mut i: usize = 0;
        while i < ch.values.len()
            invariant
                i <= self.spec_len(),
                ch.wf(),
                ch == flat.chunks@[0],
                ch.cells() =~= self.cells(),
                r@ =~= self.cells().take(i as int),
            decreases self.spec_len() - i,
        {
            let c = chunk_cell_at(ch, i);
            r.push(c);
            proof {
                assert(self.cells().take(i + 1) =~= self.cells().take(i as int).push(
                    self.cells()[i as int],
                ));
            }
            i = i + 1;
        }
        proof {
            assert(self.cells().take(self.spec_len() as int) =~= self.cells());
        }
        r
    }
}

/// Two chunk sequences with pointwise equal cells have equal concatenations.
pub proof fn lemma_cells_pointwise<T>(a: Seq<Chunk<T>>, b: Seq<Chunk<T>>)
    requires
        a.len() == b.len(),
        forall|i: int| 0 <= i < a.len() ==> (#[trigger] a[i]).cells() == b[i].cells(),
    ensures
        cells_of_chunks(a) == cells_of_chunks(b),
    decreases a.len(),
{
    if a.len() > 0 {
        lemma_cells_pointwise(a.drop_last(), b.drop_last());
        assert(cells_of_chunks(a.drop_last()) + a.last().cells() =~= cells_of_chunks(
            b.drop_last(),
        ) + b.last().cells());
    } else {
        assert(cells_of_chunks(a) =~= cells_of_chunks(b));
    }
}

} // verus!

