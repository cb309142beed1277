//! The boolean column: the one concrete per-type implementation written out
//! in full, serving as the template that every other logical type's adapter
//! follows.
use vstd::prelude::*;

use crate::chunked::{
    cells_of_chunks, chunk_cell_at, CellBuf, Chunk, ChunkedArray, IdxCa, IsSorted, SortOptions,
};
use crate::error::CoreError;
use crate::groups::{gather, GroupsProxy};

verus! {

/// A nullable boolean column.
pub type BooleanChunked = ChunkedArray<bool>;

/// A nullable 64-bit integer column.
pub type Int64Chunked = ChunkedArray<i64>;

/// A nullable string column.
pub type Utf8Chunked = ChunkedArray<String>;

/// How many cells equal `v` (null compares equal only to null).
pub open spec fn count_eq<T>(cells: Seq<Option<T>>, v: Option<T>) -> nat
    decreases cells.len(),
{
    if cells.len() == 0 {
        0
    } else {
        count_eq(cells.drop_last(), v) + (if cells.last() == v {
            1nat
        } else {
            0nat
        })
    }
}

pub proof fn lemma_count_eq_le<T>(cells: Seq<Option<T>>, v: Option<T>)
    ensures
        count_eq(cells, v) <= cells.len(),
    decreases cells.len(),
{
    if cells.len() > 0 {
        lemma_count_eq_le(cells.drop_last(), v);
    }
}

/// The three value counts of a boolean column cover it exactly.
pub proof fn lemma_bool_counts_total(cells: Seq<Option<bool>>)
    ensures
        count_eq(cells, None) + count_eq(cells, Some(false)) + count_eq(cells, Some(true))
            == cells.len(),
    decreases cells.len(),
{
    if cells.len() > 0 {
        lemma_bool_counts_total(cells.drop_last());
        let l = cells.last();
        if l is Some {
            if l.unwrap() {
                assert(l == Some(true));
            } else {
                assert(l == Some(false));
            }
        } else {
            assert(l == None::<bool>);
        }
    }
}

/// `n` copies of one cell.
pub open spec fn rep<T>(c: Option<T>, n: nat) -> Seq<Option<T>> {
    Seq::new(n, |i: int| c)
}

/// The cells of a boolean column after a stable total sort: three blocks,
/// one per distinct cell value, nulls placed first or last as requested.
pub open spec fn sorted_bool_cells(
    cells: Seq<Option<bool>>,
    descending: bool,
    nulls_last: bool,
) -> Seq<Option<bool>> {
    let nn = count_eq(cells, None);
    let nf = count_eq(cells, Some(false));
    let nt = count_eq(cells, Some(true));
    let vals = if descending {
        rep(Some(true), nt) + rep(Some(false), nf)
    } else {
        rep(Some(false), nf) + rep(Some(true), nt)
    };
    if nulls_last {
        vals + rep(None, nn)
    } else {
        rep(None, nn) + vals
    }
}

/// The row positions holding cell `v`, in ascending order.
pub open spec fn positions_of(cells: Seq<Option<bool>>, v: Option<bool>) -> Seq<usize>
    decreases cells.len(),
{
    if cells.len() == 0 {
        Seq::empty()
    } else {
        let rest = positions_of(cells.drop_last(), v);
        if cells.last() == v {
            rest.push((cells.len() - 1) as usize)
        } else {
            rest
        }
    }
}

impl ChunkedArray<bool> {
    /// Count the cells equal to each of the three possible values in one
    /// pass.
    fn value_counts(&self) -> (r: (usize, usize, usize))
        requires
            self.wf(),
        ensures
            r.0 == count_eq(self.cells(), None),
            r.1 == count_eq(self.cells(), Some(false)),
            r.2 == count_eq(self.cells(), Some(true)),
    {
        let flat = self.rechunk();
        proof {
            crate::chunked::lemma_cells_one(flat.chunks@);
        }
        let ch = &flat.chunks[0];
        let mut nn: usize = 0;
        let mut nf: usize = 0;
        let mut nt: usize = 0;
        let mut i: usize = 0;
        while i < ch.values.len()
            invariant
                i <= self.spec_len(),
                ch.wf(),
                ch == flat.chunks@[0],
                ch.cells() =~= self.cells(),
                nn == count_eq(self.cells().take(i as int), None),
                nf == count_eq(self.cells().take(i as int), Some(false)),
                nt == count_eq(self.cells().take(i as int), Some(true)),
                nn + nf + nt == i,
            decreases self.spec_len() - i,
        {
            proof {
                assert(self.cells().take(i + 1).drop_last() =~= self.cells().take(i as int));
                assert(self.cells().take(i + 1).last() == self.cells()[i as int]);
            }
            match chunk_cell_at(ch, i) {
                None => {
                    nn = nn + 1;
                },
                Some(false) => {
                    nf = nf + 1;
                },
                Some(true) => {
                    nt = nt + 1;
                },
            }
            i = i + 1;
        }
        proof {
            assert(self.cells().take(self.spec_len() as int) =~= self.cells());
        }
        (nn, nf, nt)
    }

    /// Sort the cells: stable and total (equal boolean cells are
    /// indistinguishable), direction and null placement from `options`;
    /// the sortedness cache records the direction.
    pub fn sort_with(&self, options: SortOptions) -> (r: Self)
        requires
            self.wf(),
        ensures
            r.wf(),
            r.cells() =~= sorted_bool_cells(self.cells(), options.descending, options.nulls_last),
            r.name@ == self.name@,
            r.sorted == (if options.descending {
                IsSorted::Descending
            } else {
                IsSorted::Ascending
            }),
    {
        let (nn, nf, nt) = self.value_counts();
        proof {
            lemma_bool_counts_total(self.cells());
        }
        let mut buf = CellBuf::<bool>::new();
        let ghost target = sorted_bool_cells(
            self.cells(),
            options.descending,
            options.nulls_last,
        );
        proof {
            assert(target.len() == nn + nf + nt);
        }
        if !options.nulls_last {
            push_rep(&mut buf, None, nn);
        }
        if options.descending {
            push_rep(&mut buf, Some(true), nt);
            push_rep(&mut buf, Some(false), nf);
        } else {
            push_rep(&mut buf, Some(false), nf);
            push_rep(&mut buf, Some(true), nt);
        }
        if options.nulls_last {
            push_rep(&mut buf, None, nn);
        }
        proof {
            assert(buf.cells() =~= target);
        }
        let length_out = buf.values.len();
        let chk = buf.into_chunk();
        let r = ChunkedArray {
            name: self.name.clone(),
            chunks: vec![chk],
            length: length_out,
            sorted: if options.descending {
                IsSorted::Descending
            } else {
                IsSorted::Ascending
            },
        };
        proof {
            crate::chunked::lemma_cells_one(r.chunks@);
        }
        r
    }

    /// The row positions that `sort_with` would place the cells in: the
    /// positions of each value block in ascending (stable) order.
    pub fn argsort(&self, options: SortOptions) -> (r: IdxCa)
        requires
            self.wf(),
        ensures
            r.wf(),
            r.name@ == self.name@,
            r.cells() =~= argsorted_bool(self.cells(), options.descending, options.nulls_last),
    {
        let pn = self.collect_positions_null();
        let pf = self.collect_positions(false);
        let pt = self.collect_positions(true);
        let mut buf = CellBuf::<usize>::new();
        let ghost target = argsorted_bool(
            self.cells(),
            options.descending,
            options.nulls_last,
        );
        if !options.nulls_last {
            push_indices(&mut buf, &pn);
        }
        if options.descending {
            push_indices(&mut buf, &pt);
            push_indices(&mut buf, &pf);
        } else {
            push_indices(&mut buf, &pf);
            push_indices(&mut buf, &pt);
        }
        if options.nulls_last {
            push_indices(&mut buf, &pn);
        }
        proof {
            assert(buf.cells() =~= target);
        }
        let length_out = buf.values.len();
        let chk = buf.into_chunk();
        let r = ChunkedArray {
            name: self.name.clone(),
            chunks: vec![chk],
            length: length_out,
            sorted: IsSorted::Not,
        };
        proof {
            crate::chunked::lemma_cells_one(r.chunks@);
        }
        r
    }

    /// The positions of cells equal to `v`.
    fn collect_positions(&self, v: bool) -> (r: Vec<usize>)
        requires
            self.wf(),
        ensures
            r@ == positions_of(self.cells(), Some(v)),
    {
        let flat = self.rechunk();
        proof {
            crate::chunked::lemma_cells_one(flat.chunks@);
        }
        let ch = &flat.chunks[0];
        let mut r: Vec<usize> = Vec::new();
        let mut i: usize = 0;
        while i < ch.values.len()
            invariant
                i <= self.spec_len(),
                ch.wf(),
                ch == flat.chunks@[0],
                ch.cells() =~= self.cells(),
                r@ == positions_of(self.cells().take(i as int), Some(v)),
            decreases self.spec_len() - i,
        {
            proof {
                assert(self.cells().take(i + 1).drop_last() =~= self.cells().take(i as int));
                assert(self.cells().take(i + 1).last() == self.cells()[i as int]);
            }
            match chunk_cell_at(ch, i) {
                Some(b) => {
                    if b == v {
                        r.push(i);
                    }
                },
                None => {},
            }
            i = i + 1;
        }
        proof {
            assert(self.cells().take(self.spec_len() as int) =~= self.cells());
        }
        r
    }

    /// The positions of null cells.
    #[verifier::rlimit(50)]
    fn collect_positions_null(&self) -> (r: Vec<usize>)
        requires
            self.wf(),
        ensures
            r@ == positions_of(self.cells(), None),
    {
        let flat = self.rechunk();
        proof {
            crate::chunked::lemma_cells_one(flat.chunks@);
        }
        let ch = &flat.chunks[0];
        let mut r: Vec<usize> = Vec::new();
        let mut i: usize = 0;
        while i < ch.values.len()
            invariant
                i <= self.spec_len(),
                ch.wf(),
                ch == flat.chunks@[0],
                ch.cells() =~= self.cells(),
                r@ == positions_of(self.cells().take(i as int), None),
            decreases self.spec_len() - i,
        {
            proof {
                assert(self.cells().take(i + 1).drop_last() =~= self.cells().take(i as int));
                assert(self.cells().take(i + 1).last() == self.cells()[i as int]);
            }
            match chunk_cell_at(ch, i) {
                Some(_) => {},
                None => {
                    r.push(i);
                },
            }
            i = i + 1;
        }
        proof {
            assert(self.cells().take(self.spec_len() as int) =~= self.cells());
        }
        r
    }
}

/// The index cells of a boolean argsort: the three position blocks in the
/// order the sort would emit their values.
pub open spec fn argsorted_bool(
    cells: Seq<Option<bool>>,
    descending: bool,
    nulls_last: bool,
) -> Seq<Option<usize>> {
    let pn = positions_of(cells, None).map_values(|p: usize| Some(p));
    let pf = positions_of(cells, Some(false)).map_values(|p: usize| Some(p));
    let pt = positions_of(cells, Some(true)).map_values(|p: usize| Some(p));
    let vals = if descending {
        pt + pf
    } else {
        pf + pt
    };
    if nulls_last {
        vals + pn
    } else {
        pn + vals
    }
}

/// Push `n` copies of one cell.
fn push_rep(buf: &mut CellBuf<bool>, c: Option<bool>, n: usize)
    requires
        old(buf).wf(),
    ensures
        final(buf).wf(),
        final(buf).cells() =~= old(buf).cells() + rep(c, n as nat),
{
    let mut i: usize = 0;
    while i < n
        invariant
            i <= n,
            buf.wf(),
            buf.cells() =~= old(buf).cells() + rep(c, i as nat),
        decreases n - i,
    {
        buf.push(c);
        proof {
            assert(old(buf).cells() + rep(c, (i + 1) as nat) =~= (old(buf).cells() + rep(
                c,
                i as nat,
            )).push(c));
        }
        i = i + 1;
    }
}

/// The distinct cells of a column, in order of first occurrence.
pub open spec fn distinct_cells<T>(cells: Seq<Option<T>>) -> Seq<Option<T>>
    decreases cells.len(),
{
    if cells.len() == 0 {
        Seq::empty()
    } else {
        let rest = distinct_cells(cells.drop_last());
        if cells.drop_last().contains(cells.last()) {
            rest
        } else {
            rest.push(cells.last())
        }
    }
}

/// The position of the first occurrence of each distinct cell, in order.
pub open spec fn first_positions<T>(cells: Seq<Option<T>>) -> Seq<usize>
    decreases cells.len(),
{
    if cells.len() == 0 {
        Seq::empty()
    } else {
        let rest = first_positions(cells.drop_last());
        if cells.drop_last().contains(cells.last()) {
            rest
        } else {
            rest.push((cells.len() - 1) as usize)
        }
    }
}

/// Membership in a non-empty sequence splits over its last element.
pub proof fn lemma_contains_split<T>(s: Seq<T>, v: T)
    requires
        s.len() > 0,
    ensures
        s.contains(v) <==> (s.drop_last().contains(v) || s.last() == v),
{
    if s.contains(v) {
        let i = choose|i: int| 0 <= i < s.len() && s[i] == v;
        if i < s.len() - 1 {
            assert(s.drop_last()[i] == v);
            assert(s.drop_last().contains(v));
        }
    }
    if s.drop_last().contains(v) {
        let i = choose|i: int| 0 <= i < s.drop_last().len() && s.drop_last()[i] == v;
        assert(s[i] == v);
    }
}

/// A value occurs exactly as often as its count says.
pub proof fn lemma_count_contains<T>(cells: Seq<Option<T>>, v: Option<T>)
    ensures
        count_eq(cells, v) > 0 <==> cells.contains(v),
    decreases cells.len(),
{
    if cells.len() > 0 {
        lemma_count_contains(cells.drop_last(), v);
        lemma_contains_split(cells, v);
    } else {
        if cells.contains(v) {
            let i = choose|i: int| 0 <= i < cells.len() && cells[i] == v;
            assert(false);
        }
    }
}

/// There are as many recorded positions of a value as occurrences of it.
pub proof fn lemma_positions_len(cells: Seq<Option<bool>>, v: Option<bool>)
    ensures
        positions_of(cells, v).len() == count_eq(cells, v),
    decreases cells.len(),
{
    if cells.len() > 0 {
        lemma_positions_len(cells.drop_last(), v);
    }
}

/// Every recorded position addresses a cell of the column.
pub proof fn lemma_positions_bound(cells: Seq<Option<bool>>, v: Option<bool>)
    ensures
        forall|k: int|
            0 <= k < positions_of(cells, v).len() ==> (#[trigger] positions_of(cells, v)[k])
                < cells.len(),
    decreases cells.len(),
{
    if cells.len() > 0 {
        lemma_positions_bound(cells.drop_last(), v);
        assert forall|k: int|
            0 <= k < positions_of(cells, v).len() implies (#[trigger] positions_of(cells, v)[k])
            < cells.len() by {
            let rest = positions_of(cells.drop_last(), v);
            if k < rest.len() {
                assert(positions_of(cells, v)[k] == rest[k]);
            }
        }
    }
}

/// The smaller of the non-null cells, if any (false orders below true).
pub open spec fn min_bool_cell(c: Seq<Option<bool>>) -> Option<bool> {
    if c.contains(Some(false)) {
        Some(false)
    } else if c.contains(Some(true)) {
        Some(true)
    } else {
        None
    }
}

/// The larger of the non-null cells, if any.
pub open spec fn max_bool_cell(c: Seq<Option<bool>>) -> Option<bool> {
    if c.contains(Some(true)) {
        Some(true)
    } else if c.contains(Some(false)) {
        Some(false)
    } else {
        None
    }
}

/// The grouping keys of a boolean column, in the engine's pinned group
/// order: null, then false, then true, restricted to the keys present.
pub open spec fn bool_group_keys(cells: Seq<Option<bool>>) -> Seq<Option<bool>> {
    (if cells.contains(None) {
        seq![None::<bool>]
    } else {
        Seq::empty()
    }) + (if cells.contains(Some(false)) {
        seq![Some(false)]
    } else {
        Seq::empty()
    }) + (if cells.contains(Some(true)) {
        seq![Some(true)]
    } else {
        Seq::empty()
    })
}

/// Push every position as a non-null index cell.
fn push_indices(buf: &mut CellBuf<usize>, ps: &Vec<usize>)
    requires
        old(buf).wf(),
    ensures
        final(buf).wf(),
        final(buf).cells() =~= old(buf).cells() + ps@.map_values(|p: usize| Some(p)),
{
    let mut i: usize = 0;
    while i < ps.len()
        invariant
            i <= ps@.len(),
            buf.wf(),
            buf.cells() =~= old(buf).cells() + ps@.take(i as int).map_values(
                |p: usize| Some(p),
            ),
        decreases ps@.len() - i,
    {
        buf.push(Some(ps[i]));
        proof {
            assert(old(buf).cells() + ps@.take(i + 1).map_values(|p: usize| Some(p)) =~= (old(
                buf,
            ).cells() + ps@.take(i as int).map_values(|p: usize| Some(p))).push(
                Some(ps@[i as int]),
            ));
        }
        i = i + 1;
    }
    proof {
        assert(ps@.take(ps@.len() as int) =~= ps@);
    }
}

impl ChunkedArray<bool> {
    /// The position of the first cell equal to `Some(v)`, if any.
    pub fn first_position(&self, v: bool) -> (r: Option<usize>)
        requires
            self.wf(),
        ensures
            r matches Some(i) ==> i < self.spec_len() && self.cells()[i as int] == Some(v)
                && (forall|j: int| 0 <= j < i ==> self.cells()[j] != Some(v)),
            r is None ==> forall|j: int| 0 <= j < self.spec_len() ==> self.cells()[j] != Some(v),
    {
        let flat = self.rechunk();
        proof {
            crate::chunked::lemma_cells_one(flat.chunks@);
        }
        let ch = &flat.chunks[0];
        let mut i: usize = 0;
        while i < ch.values.len()
            invariant
                i <= self.spec_len(),
                ch.wf(),
                ch == flat.chunks@[0],
                ch.cells() =~= self.cells(),
                forall|j: int| 0 <= j < i ==> self.cells()[j] != Some(v),
            decreases self.spec_len() - i,
        {
            match chunk_cell_at(ch, i) {
                Some(b) => {
                    if b == v {
                        return Some(i);
                    }
                },
                None => {},
            }
            i = i + 1;
        }
        None
    }

    /// The position of the smallest non-null cell (first occurrence), or
    /// nothing when every cell is null.
    pub fn arg_min(&self) -> (r: Option<usize>)
        requires
            self.wf(),
        ensures
            r is Some <==> min_bool_cell(self.cells()) is Some,
            r matches Some(i) ==> i < self.spec_len() && self.cells()[i as int] == min_bool_cell(
                self.cells(),
            ) && (forall|j: int| 0 <= j < i ==> self.cells()[j] != min_bool_cell(self.cells())),
    {
        let f = self.first_position(false);
        match f {
            Some(i) => {
                proof {
                    assert(self.cells().contains(Some(false)));
                }
                Some(i)
            },
            None => {
                proof {
                    if self.cells().contains(Some(false)) {
                        let j = choose|j: int|
                            0 <= j < self.cells().len() && self.cells()[j] == Some(false);
                        assert(false);
                    }
                }
                let t = self.first_position(true);
                proof {
                    match t {
                        Some(i) => {
                            assert(self.cells().contains(Some(true)));
                        },
                        None => {
                            if self.cells().contains(Some(true)) {
                                let j = choose|j: int|
                                    0 <= j < self.cells().len() && self.cells()[j] == Some(true);
                                assert(false);
                            }
                        },
                    }
                }
                t
            },
        }
    }

    /// The position of the largest non-null cell (first occurrence), or
    /// nothing when every cell is null.
    pub fn arg_max(&self) -> (r: Option<usize>)
        requires
            self.wf(),
        ensures
            r is Some <==> max_bool_cell(self.cells()) is Some,
            r matches Some(i) ==> i < self.spec_len() && self.cells()[i as int] == max_bool_cell(
                self.cells(),
            ) && (forall|j: int| 0 <= j < i ==> self.cells()[j] != max_bool_cell(self.cells())),
    {
        let t = self.first_position(true);
        match t {
            Some(i) => {
                proof {
                    assert(self.cells().contains(Some(true)));
                }
                Some(i)
            },
            None => {
                proof {
                    if self.cells().contains(Some(true)) {
                        let j = choose|j: int|
                            0 <= j < self.cells().len() && self.cells()[j] == Some(true);
                        assert(false);
                    }
                }
                let f = self.first_position(false);
                proof {
                    match f {
                        Some(i) => {
                            assert(self.cells().contains(Some(false)));
                        },
                        None => {
                            if self.cells().contains(Some(false)) {
                                let j = choose|j: int|
                                    0 <= j < self.cells().len() && self.cells()[j] == Some(false);
                                assert(false);
                            }
                        },
                    }
                }
                f
            },
        }
    }

    /// The row positions of the true cells.
    pub fn arg_true(&self) -> (r: Result<IdxCa, CoreError>)
        requires
            self.wf(),
        ensures
            r matches Ok(out) ==> {
                &&& out.wf()
                &&& out.cells() =~= positions_of(self.cells(), Some(true)).map_values(
                    |p: usize| Some(p),
                )
                &&& out.name@ == self.name@
            },
            r is Ok,
    {
        let pt = self.collect_positions(true);
        let mut buf = CellBuf::<usize>::new();
        push_indices(&mut buf, &pt);
        let length_out = buf.values.len();
        let chk = buf.into_chunk();
        let out = ChunkedArray {
            name: self.name.clone(),
            chunks: vec![chk],
            length: length_out,
            sorted: IsSorted::Not,
        };
        proof {
            crate::chunked::lemma_cells_one(out.chunks@);
        }
        Ok(out)
    }

    /// The smallest non-null cell, if any.
    pub fn min_value(&self) -> (r: Option<bool>)
        requires
            self.wf(),
        ensures
            r == min_bool_cell(self.cells()),
    {
        let (_, nf, nt) = self.value_counts();
        proof {
            lemma_count_contains(self.cells(), Some(false));
            lemma_count_contains(self.cells(), Some(true));
        }
        if nf > 0 {
            Some(false)
        } else if nt > 0 {
            Some(true)
        } else {
            None
        }
    }

    /// The largest non-null cell, if any.
    pub fn max_value(&self) -> (r: Option<bool>)
        requires
            self.wf(),
        ensures
            r == max_bool_cell(self.cells()),
    {
        let (_, nf, nt) = self.value_counts();
        proof {
            lemma_count_contains(self.cells(), Some(false));
            lemma_count_contains(self.cells(), Some(true));
        }
        if nt > 0 {
            Some(true)
        } else if nf > 0 {
            Some(false)
        } else {
            None
        }
    }

    /// How many cells are true (nulls count as zero).
    pub fn sum_count(&self) -> (r: usize)
        requires
            self.wf(),
        ensures
            r == count_eq(self.cells(), Some(true)),
    {
        let (_, _, nt) = self.value_counts();
        nt
    }

    /// The distinct cells, in order of first occurrence.
    pub fn unique(&self) -> (r: Result<Self, CoreError>)
        requires
            self.wf(),
        ensures
            r matches Ok(out) ==> {
                &&& out.wf()
                &&& out.cells() =~= distinct_cells(self.cells())
                &&& out.name@ == self.name@
            },
            r is Ok,
    {
        let flat = self.rechunk();
        proof {
            crate::chunked::lemma_cells_one(flat.chunks@);
        }
        let ch = &flat.chunks[0];
        let mut buf = CellBuf::<bool>::new();
        let mut seen_n: bool = false;
        let mut seen_f: bool = false;
        let mut seen_t: bool = false;
        let mut i: usize = 0;
        while i < ch.values.len()
            invariant
                i <= self.spec_len(),
                ch.wf(),
                ch == flat.chunks@[0],
                ch.cells() =~= self.cells(),
                buf.wf(),
                seen_n == self.cells().take(i as int).contains(None::<bool>),
                seen_f == self.cells().take(i as int).contains(Some(false)),
                seen_t == self.cells().take(i as int).contains(Some(true)),
                buf.cells() =~= distinct_cells(self.cells().take(i as int)),
            decreases self.spec_len() - i,
        {
            proof {
                assert(self.cells().take(i + 1).drop_last() =~= self.cells().take(i as int));
                assert(self.cells().take(i + 1).last() == self.cells()[i as int]);
                lemma_contains_split(self.cells().take(i + 1), None::<bool>);
                lemma_contains_split(self.cells().take(i + 1), Some(false));
                lemma_contains_split(self.cells().take(i + 1), Some(true));
            }
            match chunk_cell_at(ch, i) {
                None => {
                    if !seen_n {
                        buf.push(None);
                        seen_n = true;
                    }
                },
                Some(false) => {
                    if !seen_f {
                        buf.push(Some(false));
                        seen_f = true;
                    }
                },
                Some(true) => {
                    if !seen_t {
                        buf.push(Some(true));
                        seen_t = true;
                    }
                },
            }
            i = i + 1;
        }
        proof {
            assert(self.cells().take(self.spec_len() as int) =~= self.cells());
        }
        let length_out = buf.values.len();
        let chk = buf.into_chunk();
        let out = ChunkedArray {
            name: self.name.clone(),
            chunks: vec![chk],
            length: length_out,
            sorted: IsSorted::Not,
        };
        proof {
            crate::chunked::lemma_cells_one(out.chunks@);
        }
        Ok(out)
    }

    /// How many distinct cells the column holds.
    pub fn n_unique(&self) -> (r: Result<usize, CoreError>)
        requires
            self.wf(),
        ensures
            r matches Ok(n) ==> n == distinct_cells(self.cells()).len(),
            r is Ok,
    {
        match self.unique() {
            Ok(u) => Ok(u.len()),
            Err(e) => Err(e),
        }
    }

    /// The position of the first occurrence of each distinct cell.
    pub fn arg_unique(&self) -> (r: Result<IdxCa, CoreError>)
        requires
            self.wf(),
        ensures
            r matches Ok(out) ==> {
                &&& out.wf()
                &&& out.cells() =~= first_positions(self.cells()).map_values(
                    |p: usize| Some(p),
                )
                &&& out.name@ == self.name@
            },
            r is Ok,
    {
        let flat = self.rechunk();
        proof {
            crate::chunked::lemma_cells_one(flat.chunks@);
        }
        let ch = &flat.chunks[0];
        let mut buf = CellBuf::<usize>::new();
        let mut seen_n: bool = false;
        let mut seen_f: bool = false;
        let mut seen_t: bool = false;
        let mut i: usize = 0;
        while i < ch.values.len()
            invariant
                i <= self.spec_len(),
                ch.wf(),
                ch == flat.chunks@[0],
                ch.cells() =~= self.cells(),
                buf.wf(),
                seen_n == self.cells().take(i as int).contains(None::<bool>),
                seen_f == self.cells().take(i as int).contains(Some(false)),
                seen_t == self.cells().take(i as int).contains(Some(true)),
                buf.cells() =~= first_positions(self.cells().take(i as int)).map_values(
                    |p: usize| Some(p),
                ),
            decreases self.spec_len() - i,
        {
            proof {
                assert(self.cells().take(i + 1).drop_last() =~= self.cells().take(i as int));
                assert(self.cells().take(i + 1).last() == self.cells()[i as int]);
                lemma_contains_split(self.cells().take(i + 1), None::<bool>);
                lemma_contains_split(self.cells().take(i + 1), Some(false));
                lemma_contains_split(self.cells().take(i + 1), Some(true));
            }
            let seen = match chunk_cell_at(ch, i) {
                None => {
                    let s = seen_n;
                    seen_n = true;
                    s
                },
                Some(false) => {
                    let s = seen_f;
                    seen_f = true;
                    s
                },
                Some(true) => {
                    let s = seen_t;
                    seen_t = true;
                    s
                },
            };
            if !seen {
                buf.push(Some(i));
            }
            proof {
                let pre = first_positions(self.cells().take(i as int)).map_values(
                    |p: usize| Some(p),
                );
                let post = first_positions(self.cells().take(i + 1)).map_values(
                    |p: usize| Some(p),
                );
                if !self.cells().take(i as int).contains(self.cells()[i as int]) {
                    assert(post =~= pre.push(Some(i)));
                } else {
                    assert(post =~= pre);
                }
            }
            i = i + 1;
        }
        proof {
            assert(self.cells().take(self.spec_len() as int) =~= self.cells());
        }
        let length_out = buf.values.len();
        let chk = buf.into_chunk();
        let out = ChunkedArray {
            name: self.name.clone(),
            chunks: vec![chk],
            length: length_out,
            sorted: IsSorted::Not,
        };
        proof {
            crate::chunked::lemma_cells_one(out.chunks@);
        }
        Ok(out)
    }

    /// A mask marking the cells whose value occurs exactly once.
    pub fn is_unique(&self) -> (r: Result<ChunkedArray<bool>, CoreError>)
        requires
            self.wf(),
        ensures
            r matches Ok(out) ==> {
                &&& out.wf()
                &&& out.cells() =~= Seq::new(
                    self.spec_len(),
                    |i: int| Some(count_eq(self.cells(), self.cells()[i]) == 1),
                )
                &&& out.name@ == self.name@
            },
            r is Ok,
    {
        self.occurrence_mask(true)
    }

    /// A mask marking the cells whose value occurs more than once.
    pub fn is_duplicated(&self) -> (r: Result<ChunkedArray<bool>, CoreError>)
        requires
            self.wf(),
        ensures
            r matches Ok(out) ==> {
                &&& out.wf()
                &&& out.cells() =~= Seq::new(
                    self.spec_len(),
                    |i: int| Some(count_eq(self.cells(), self.cells()[i]) > 1),
                )
                &&& out.name@ == self.name@
            },
            r is Ok,
    {
        self.occurrence_mask(false)
    }

    /// The shared scan behind `is_unique` and `is_duplicated`.
    fn occurrence_mask(&self, unique: bool) -> (r: Result<ChunkedArray<bool>, CoreError>)
        requires
            self.wf(),
        ensures
            r matches Ok(out) ==> {
                &&& out.wf()
                &&& (unique ==> out.cells() =~= Seq::new(
                    self.spec_len(),
                    |i: int| Some(count_eq(self.cells(), self.cells()[i]) == 1),
                ))
                &&& (!unique ==> out.cells() =~= Seq::new(
                    self.spec_len(),
                    |i: int| Some(count_eq(self.cells(), self.cells()[i]) > 1),
                ))
                &&& out.name@ == self.name@
            },
            r is Ok,
    {
        let (nn, nf, nt) = self.value_counts();
        let flat = self.rechunk();
        proof {
            crate::chunked::lemma_cells_one(flat.chunks@);
        }
        let ch = &flat.chunks[0];
        let ghost target = if unique {
            Seq::new(self.spec_len(), |i: int| Some(count_eq(self.cells(), self.cells()[i]) == 1))
        } else {
            Seq::new(self.spec_len(), |i: int| Some(count_eq(self.cells(), self.cells()[i]) > 1))
        };
        let mut buf = CellBuf::<bool>::new();
        let mut i: usize = 0;
        while i < ch.values.len()
            invariant
                i <= self.spec_len(),
                ch.wf(),
                ch == flat.chunks@[0],
                ch.cells() =~= self.cells(),
                nn == count_eq(self.cells(), None),
                nf == count_eq(self.cells(), Some(false)),
                nt == count_eq(self.cells(), Some(true)),
                buf.wf(),
                target == (if unique {
                    Seq::new(
                        self.spec_len(),
                        |j: int| Some(count_eq(self.cells(), self.cells()[j]) == 1),
                    )
                } else {
                    Seq::new(
                        self.spec_len(),
                        |j: int| Some(count_eq(self.cells(), self.cells()[j]) > 1),
                    )
                }),
                buf.cells() =~= target.take(i as int),
            decreases self.spec_len() - i,
        {
            let cnt: usize = match chunk_cell_at(ch, i) {
                None => nn,
                Some(false) => nf,
                Some(true) => nt,
            };
            if unique {
                buf.push(Some(cnt == 1));
            } else {
                buf.push(Some(cnt > 1));
            }
            proof {
                assert(target.take(i + 1) =~= target.take(i as int).push(target[i as int]));
            }
            i = i + 1;
        }
        proof {
            assert(target.take(target.len() as int) =~= target);
        }
        let length_out = buf.values.len();
        let chk = buf.into_chunk();
        let out = ChunkedArray {
            name: self.name.clone(),
            chunks: vec![chk],
            length: length_out,
            sorted: IsSorted::Not,
        };
        proof {
            crate::chunked::lemma_cells_one(out.chunks@);
        }
        Ok(out)
    }
}

/// The three boolean binary operations.
#[derive(Clone, Copy, Debug, PartialEq, Eq, Structural)]
pub enum BitOp {
    And,
    Or,
    Xor,
}

pub open spec fn bit_op_val(op: BitOp, x: bool, y: bool) -> bool {
    match op {
        BitOp::And => x && y,
        BitOp::Or => x || y,
        BitOp::Xor => x != y,
    }
}

/// The element-wise combination of two boolean columns: null wherever
/// either operand is null.
pub open spec fn bit_zipped(a: Seq<Option<bool>>, b: Seq<Option<bool>>, op: BitOp) -> Seq<
    Option<bool>,
> {
    Seq::new(
        a.len(),
        |i: int| if a[i] is Some && b[i] is Some {
            Some(bit_op_val(op, a[i].unwrap(), b[i].unwrap()))
        } else {
            None
        },
    )
}

impl ChunkedArray<bool> {
    /// Partition the rows by equal cell value. The groups come in the
    /// engine's pinned key order (null, false, true, keys absent from the
    /// column omitted), each holding its row positions in ascending order;
    /// `multithreaded` is a performance hint and `sorted` requests the
    /// ordering that this engine always produces, so neither changes the
    /// result.
    pub fn group_tuples(&self, multithreaded: bool, sorted: bool) -> (r: GroupsProxy)
        requires
            self.wf(),
            self.spec_len() <= 0x7fff_ffff_ffff_ffff,
        ensures
            r.wf(self.spec_len()),
            r.groups@.len() == bool_group_keys(self.cells()).len(),
            forall|g: int|
                0 <= g < r.groups@.len() ==> r.group(g) == positions_of(
                    self.cells(),
                    bool_group_keys(self.cells())[g],
                ),
    {
        let _ = multithreaded;
        let _ = sorted;
        let pn = self.collect_positions_null();
        let pf = self.collect_positions(false);
        let pt = self.collect_positions(true);
        proof {
            lemma_count_contains(self.cells(), None::<bool>);
            lemma_count_contains(self.cells(), Some(false));
            lemma_count_contains(self.cells(), Some(true));
            lemma_positions_len(self.cells(), None::<bool>);
            lemma_positions_len(self.cells(), Some(false));
            lemma_positions_len(self.cells(), Some(true));
            lemma_positions_bound(self.cells(), None::<bool>);
            lemma_positions_bound(self.cells(), Some(false));
            lemma_positions_bound(self.cells(), Some(true));
            lemma_count_eq_le(self.cells(), None::<bool>);
            lemma_count_eq_le(self.cells(), Some(false));
            lemma_count_eq_le(self.cells(), Some(true));
        }
        let mut groups: Vec<Vec<usize>> = Vec::new();
        if pn.len() > 0 {
            groups.push(pn);
        }
        if pf.len() > 0 {
            groups.push(pf);
        }
        if pt.len() > 0 {
            groups.push(pt);
        }
        let r = GroupsProxy { groups };
        proof {
            assert(r.wf(self.spec_len()));
            let keys = bool_group_keys(self.cells());
            assert forall|g: int| 0 <= g < r.groups@.len() implies r.group(g) == positions_of(
                self.cells(),
                keys[g],
            ) by {
            }
        }
        r
    }

    /// One cell per group: the count of true cells among the group's rows
    /// (nulls add nothing).
    pub fn agg_sum(&self, groups: &GroupsProxy) -> (r: Int64Chunked)
        requires
            self.wf(),
            groups.wf(self.spec_len()),
        ensures
            r.wf(),
            r.cells() =~= Seq::new(
                groups.groups@.len() as nat,
                |g: int| Some(
                    count_eq(gather(self.cells(), groups.group(g)), Some(true)) as i64,
                ),
            ),
            r.name@ == self.name@,
    {
        let flat = self.rechunk();
        proof {
            crate::chunked::lemma_cells_one(flat.chunks@);
        }
        let ch = &flat.chunks[0];
        let ghost target = Seq::new(
            groups.groups@.len() as nat,
            |g: int| Some(count_eq(gather(self.cells(), groups.group(g)), Some(true)) as i64),
        );
        let mut buf = CellBuf::<i64>::new();
        let mut g: usize = 0;
        while g < groups.groups.len()
            invariant
                g <= groups.groups@.len(),
                ch.wf(),
                ch == flat.chunks@[0],
                ch.cells() =~= self.cells(),
                self.wf(),
                groups.wf(self.spec_len()),
                buf.wf(),
                target == Seq::new(
                    groups.groups@.len() as nat,
                    |h: int| Some(
                        count_eq(gather(self.cells(), groups.group(h)), Some(true)) as i64,
                    ),
                ),
                buf.cells() =~= target.take(g as int),
            decreases groups.groups@.len() - g,
        {
            let grp = &groups.groups[g];
            let ghost gat = gather(self.cells(), grp@);
            let mut cnt: usize = 0;
            let mut k: usize = 0;
            while k < grp.len()
                invariant
                    k <= grp@.len(),
                    ch.wf(),
                    ch == flat.chunks@[0],
                    ch.cells() =~= self.cells(),
                    self.wf(),
                    groups.wf(self.spec_len()),
                    g < groups.groups@.len(),
                    grp == groups.groups@[g as int],
                    gat == gather(self.cells(), grp@),
                    cnt == count_eq(gat.take(k as int), Some(true)),
                    cnt <= k,
                decreases grp@.len() - k,
            {
                proof {
                    assert(groups.groups@[g as int]@[k as int] < self.spec_len());
                    assert(gat.take(k + 1).drop_last() =~= gat.take(k as int));
                    assert(gat.take(k + 1).last() == gat[k as int]);
                }
                let ix = grp[k];
                match chunk_cell_at(ch, ix) {
                    Some(true) => {
                        cnt = cnt + 1;
                    },
                    _ => {},
                }
                k = k + 1;
            }
            proof {
                assert(gat.take(gat.len() as int) =~= gat);
                assert(grp@.len() <= 0x7fff_ffff_ffff_ffff);
                crate::boolean::lemma_count_eq_le(gat, Some(true));
            }
            buf.push(Some(cnt as i64));
            proof {
                assert(target.take(g + 1) =~= target.take(g as int).push(target[g as int]));
            }
            g = g + 1;
        }
        proof {
            assert(target.take(target.len() as int) =~= target);
        }
        let length_out = buf.values.len();
        let chk = buf.into_chunk();
        let r = ChunkedArray {
            name: self.name.clone(),
            chunks: vec![chk],
            length: length_out,
            sorted: IsSorted::Not,
        };
        proof {
            crate::chunked::lemma_cells_one(r.chunks@);
        }
        r
    }

    /// One cell per group: the smallest non-null cell among the group's
    /// rows, or null when the group holds only nulls.
    pub fn agg_min(&self, groups: &GroupsProxy) -> (r: Self)
        requires
            self.wf(),
            groups.wf(self.spec_len()),
        ensures
            r.wf(),
            r.cells() =~= Seq::new(
                groups.groups@.len() as nat,
                |g: int| min_bool_cell(gather(self.cells(), groups.group(g))),
            ),
            r.name@ == self.name@,
    {
        self.agg_extremum(groups, true)
    }

    /// One cell per group: the largest non-null cell among the group's
    /// rows, or null when the group holds only nulls.
    pub fn agg_max(&self, groups: &GroupsProxy) -> (r: Self)
        requires
            self.wf(),
            groups.wf(self.spec_len()),
        ensures
            r.wf(),
            r.cells() =~= Seq::new(
                groups.groups@.len() as nat,
                |g: int| max_bool_cell(gather(self.cells(), groups.group(g))),
            ),
            r.name@ == self.name@,
    {
        self.agg_extremum(groups, false)
    }

    /// The shared scan behind `agg_min` and `agg_max`.
    fn agg_extremum(&self, groups: &GroupsProxy, take_min: bool) -> (r: Self)
        requires
            self.wf(),
            groups.wf(self.spec_len()),
        ensures
            r.wf(),
            take_min ==> r.cells() =~= Seq::new(
                groups.groups@.len() as nat,
                |g: int| min_bool_cell(gather(self.cells(), groups.group(g))),
            ),
            !take_min ==> r.cells() =~= Seq::new(
                groups.groups@.len() as nat,
                |g: int| max_bool_cell(gather(self.cells(), groups.group(g))),
            ),
            r.name@ == self.name@,
    {
        let flat = self.rechunk();
        proof {
            crate::chunked::lemma_cells_one(flat.chunks@);
        }
        let ch = &flat.chunks[0];
        let ghost target = if take_min {
            Seq::new(
                groups.groups@.len() as nat,
                |g: int| min_bool_cell(gather(self.cells(), groups.group(g))),
            )
        } else {
            Seq::new(
                groups.groups@.len() as nat,
                |g: int| max_bool_cell(gather(self.cells(), groups.group(g))),
            )
        };
        let mut buf = CellBuf::<bool>::new();
        let mut g: usize = 0;
        while g < groups.groups.len()
            invariant
                g <= groups.groups@.len(),
                ch.wf(),
                ch == flat.chunks@[0],
                ch.cells() =~= self.cells(),
                self.wf(),
                groups.wf(self.spec_len()),
                buf.wf(),
                target == (if take_min {
                    Seq::new(
                        groups.groups@.len() as nat,
                        |h: int| min_bool_cell(gather(self.cells(), groups.group(h))),
                    )
                } else {
                    Seq::new(
                        groups.groups@.len() as nat,
                        |h: int| max_bool_cell(gather(self.cells(), groups.group(h))),
                    )
                }),
                buf.cells() =~= target.take(g as int),
            decreases groups.groups@.len() - g,
        {
            let grp = &groups.groups[g];
            let ghost gat = gather(self.cells(), grp@);
            let mut any_f: bool = false;
            let mut any_t: bool = false;
            let mut k: usize = 0;
            while k < grp.len()
                invariant
                    k <= grp@.len(),
                    ch.wf(),
                    ch == flat.chunks@[0],
                    ch.cells() =~= self.cells(),
                    self.wf(),
                    groups.wf(self.spec_len()),
                    g < groups.groups@.len(),
                    grp == groups.groups@[g as int],
                    gat == gather(self.cells(), grp@),
                    any_f == gat.take(k as int).contains(Some(false)),
                    any_t == gat.take(k as int).contains(Some(true)),
                decreases grp@.len() - k,
            {
                proof {
                    assert(groups.groups@[g as int]@[k as int] < self.spec_len());
                    assert(gat.take(k + 1).drop_last() =~= gat.take(k as int));
                    assert(gat.take(k + 1).last() == gat[k as int]);
                    lemma_contains_split(gat.take(k + 1), Some(false));
                    lemma_contains_split(gat.take(k + 1), Some(true));
                }
                let ix = grp[k];
                match chunk_cell_at(ch, ix) {
                    Some(false) => {
                        any_f = true;
                    },
                    Some(true) => {
                        any_t = true;
                    },
                    None => {},
                }
                k = k + 1;
            }
            proof {
                assert(gat.take(gat.len() as int) =~= gat);
            }
            let cell: Option<bool> = if take_min {
                if any_f {
                    Some(false)
                } else if any_t {
                    Some(true)
                } else {
                    None
                }
            } else {
                if any_t {
                    Some(true)
                } else if any_f {
                    Some(false)
                } else {
                    None
                }
            };
            buf.push(cell);
            proof {
                assert(target.take(g + 1) =~= target.take(g as int).push(target[g as int]));
            }
            g = g + 1;
        }
        proof {
            assert(target.take(target.len() as int) =~= target);
        }
        let length_out = buf.values.len();
        let chk = buf.into_chunk();
        let r = ChunkedArray {
            name: self.name.clone(),
            chunks: vec![chk],
            length: length_out,
            sorted: IsSorted::Not,
        };
        proof {
            crate::chunked::lemma_cells_one(r.chunks@);
        }
        r
    }

    /// The shared element-wise combination behind the bit operations.
    fn bit_zip(&self, other: &Self, op: BitOp) -> (r: Result<Self, CoreError>)
        requires
            self.wf(),
            other.wf(),
        ensures
            r is Ok <==> other.spec_len() == self.spec_len(),
            r matches Ok(out) ==> {
                &&& out.wf()
                &&& out.cells() =~= bit_zipped(self.cells(), other.cells(), op)
                &&& out.name@ == self.name@
            },
            r matches Err(e) ==> e == CoreError::InvalidOperation,
    {
        if other.length != self.length {
            return Err(CoreError::InvalidOperation);
        }
        let flat = self.rechunk();
        let flat_o = other.rechunk();
        proof {
            crate::chunked::lemma_cells_one(flat.chunks@);
            crate::chunked::lemma_cells_one(flat_o.chunks@);
        }
        let ch = &flat.chunks[0];
        let och = &flat_o.chunks[0];
        let ghost target = bit_zipped(self.cells(), other.cells(), op);
        let mut buf = CellBuf::<bool>::new();
        let mut i: usize = 0;
        while i < ch.values.len()
            invariant
                i <= self.spec_len(),
                other.spec_len() == self.spec_len(),
                ch.wf(),
                ch == flat.chunks@[0],
                ch.cells() =~= self.cells(),
                och.wf(),
                och == flat_o.chunks@[0],
                och.cells() =~= other.cells(),
                buf.wf(),
                target == bit_zipped(self.cells(), other.cells(), op),
                buf.cells() =~= target.take(i as int),
            decreases self.spec_len() - i,
        {
            let a = chunk_cell_at(ch, i);
            let b = chunk_cell_at(och, i);
            let c = match (a, b) {
                (Some(x), Some(y)) => {
                    match op {
                        BitOp::And => Some(x && y),
                        BitOp::Or => Some(x || y),
                        BitOp::Xor => Some(x != y),
                    }
                },
                _ => None,
            };
            buf.push(c);
            proof {
                assert(target.take(i + 1) =~= target.take(i as int).push(target[i as int]));
            }
            i = i + 1;
        }
        proof {
            assert(target.take(target.len() as int) =~= target);
        }
        let length_out = buf.values.len();
        let chk = buf.into_chunk();
        let out = ChunkedArray {
            name: self.name.clone(),
            chunks: vec![chk],
            length: length_out,
            sorted: IsSorted::Not,
        };
        proof {
            crate::chunked::lemma_cells_one(out.chunks@);
        }
        Ok(out)
    }

    /// Element-wise conjunction; null wherever either operand is null.
    pub fn bitand_with(&self, other: &Self) -> (r: Result<Self, CoreError>)
        requires
            self.wf(),
            other.wf(),
        ensures
            r is Ok <==> other.spec_len() == self.spec_len(),
            r matches Ok(out) ==> out.wf() && out.cells() =~= bit_zipped(
                self.cells(),
                other.cells(),
                BitOp::And,
            ) && out.name@ == self.name@,
            r matches Err(e) ==> e == CoreError::InvalidOperation,
    {
        self.bit_zip(other, BitOp::And)
    }

    /// Element-wise disjunction; null wherever either operand is null.
    pub fn bitor_with(&self, other: &Self) -> (r: Result<Self, CoreError>)
        requires
            self.wf(),
            other.wf(),
        ensures
            r is Ok <==> other.spec_len() == self.spec_len(),
            r matches Ok(out) ==> out.wf() && out.cells() =~= bit_zipped(
                self.cells(),
                other.cells(),
                BitOp::Or,
            ) && out.name@ == self.name@,
            r matches Err(e) ==> e == CoreError::InvalidOperation,
    {
        self.bit_zip(other, BitOp::Or)
    }

    /// Element-wise exclusive or; null wherever either operand is null.
    pub fn bitxor_with(&self, other: &Self) -> (r: Result<Self, CoreError>)
        requires
            self.wf(),
            other.wf(),
        ensures
            r is Ok <==> other.spec_len() == self.spec_len(),
            r matches Ok(out) ==> out.wf() && out.cells() =~= bit_zipped(
                self.cells(),
                other.cells(),
                BitOp::Xor,
            ) && out.name@ == self.name@,
            r matches Err(e) ==> e == CoreError::InvalidOperation,
    {
        self.bit_zip(other, BitOp::Xor)
    }

    /// The column as 64-bit integers: true becomes one, false zero.
    pub fn cast_to_int64(&self) -> (r: Int64Chunked)
        requires
            self.wf(),
        ensures
            r.wf(),
            r.cells() =~= Seq::new(
                self.spec_len(),
                |i: int| match self.cells()[i] {
                    Some(b) => Some(if b {
                        1i64
                    } else {
                        0i64
                    }),
                    None => None,
                },
            ),
            r.name@ == self.name@,
    {
        let flat = self.rechunk();
        proof {
            crate::chunked::lemma_cells_one(flat.chunks@);
        }
        let ch = &flat.chunks[0];
        let ghost target = Seq::new(
            self.spec_len(),
            |i: int| match self.cells()[i] {
                Some(b) => Some(if b {
                    1i64
                } else {
                    0i64
                }),
                None => None,
            },
        );
        let mut buf = CellBuf::<i64>::new();
        let mut i: usize = 0;
        while i < ch.values.len()
            invariant
                i <= self.spec_len(),
                ch.wf(),
                ch == flat.chunks@[0],
                ch.cells() =~= self.cells(),
                buf.wf(),
                target == Seq::new(
                    self.spec_len(),
                    |j: int| match self.cells()[j] {
                        Some(b) => Some(if b {
                            1i64
                        } else {
                            0i64
                        }),
                        None => None,
                    },
                ),
                buf.cells() =~= target.take(i as int),
            decreases self.spec_len() - i,
        {
            let c = match chunk_cell_at(ch, i) {
                Some(b) => Some(if b {
                    1i64
                } else {
                    0i64
                }),
                None => None,
            };
            buf.push(c);
            proof {
                assert(target.take(i + 1) =~= target.take(i as int).push(target[i as int]));
            }
            i = i + 1;
        }
        proof {
            assert(target.take(target.len() as int) =~= target);
        }
        let length_out = buf.values.len();
        let chk = buf.into_chunk();
        let r = ChunkedArray {
            name: self.name.clone(),
            chunks: vec![chk],
            length: length_out,
            sorted: IsSorted::Not,
        };
        proof {
            crate::chunked::lemma_cells_one(r.chunks@);
        }
        r
    }
}

impl ChunkedArray<i64> {
    /// The column as booleans: zero becomes false, any other value true.
    pub fn cast_to_bool(&self) -> (r: BooleanChunked)
        requires
            self.wf(),
        ensures
            r.wf(),
            r.cells() =~= Seq::new(
                self.spec_len(),
                |i: int| match self.cells()[i] {
                    Some(v) => Some(v != 0),
                    None => None,
                },
            ),
            r.name@ == self.name@,
    {
        let flat = self.rechunk();
        proof {
            crate::chunked::lemma_cells_one(flat.chunks@);
        }
        let ch = &flat.chunks[0];
        let ghost target = Seq::new(
            self.spec_len(),
            |i: int| match self.cells()[i] {
                Some(v) => Some(v != 0),
                None => None,
            },
        );
        let mut buf = CellBuf::<bool>::new();
        let mut i: usize = 0;
        while i < ch.values.len()
            invariant
                i <= self.spec_len(),
                ch.wf(),
                ch == flat.chunks@[0],
                ch.cells() =~= self.cells(),
                buf.wf(),
                target == Seq::new(
                    self.spec_len(),
                    |j: int| match self.cells()[j] {
                        Some(v) => Some(v != 0),
                        None => None,
                    },
                ),
                buf.cells() =~= target.take(i as int),
            decreases self.spec_len() - i,
        {
            let c = match chunk_cell_at(ch, i) {
                Some(v) => Some(v != 0),
                None => None,
            };
            buf.push(c);
            proof {
                assert(target.take(i + 1) =~= target.take(i as int).push(target[i as int]));
            }
            i = i + 1;
        }
        proof {
            assert(target.take(target.len() as int) =~= target);
        }
        let length_out = buf.values.len();
        let chk = buf.into_chunk();
        let r = ChunkedArray {
            name: self.name.clone(),
            chunks: vec![chk],
            length: length_out,
            sorted: IsSorted::Not,
        };
        proof {
            crate::chunked::lemma_cells_one(r.chunks@);
        }
        r
    }
}

} // verus!
