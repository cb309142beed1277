//! Reading and writing the interchange container: schema inspection,
//! projection by position or by name, row limiting, row-count synthesis,
//! and the restoration of the caller's requested column order after the
//! batch reader's ascending-order reads.
use vstd::prelude::*;

use crate::codec::{
    coldata_views, dec_file, dtype_tag, emit_cols, emit_footer, emit_u64, enc_batch_stored,
    enc_cols, enc_file_stored, enc_fields, enc_footer, fields_view, lemma_round_trip_stored,
    parse_footer, wf_col, wf_file, ColData, Field, FieldVal, FileVal, MAGIC0, MAGIC1, MAGIC2,
    MAGIC3,
};
use crate::error::CoreError;
use crate::frame::DataFrame;
use crate::series::{series_same, ColCells, DType, Series};

verus! {

/// A directive to synthesize a leading sequential-integer column that is
/// not present on the wire: its name and the first row's value.
pub struct RowCount {
    pub name: String,
    pub offset: usize,
}

/// The closed set of batch compression codecs.
#[derive(Clone, Copy, Debug, PartialEq, Eq, Structural)]
pub enum IpcCompression {
    LZ4,
    ZSTD,
}

/// The schema of a file: one field per column, in file order.
pub struct Schema {
    pub fields: Vec<Field>,
}

impl Schema {
    pub open spec fn view_fields(self) -> Seq<FieldVal> {
        fields_view(self.fields@)
    }
}

/// The wire-level schema; identical to `Schema`, offered under the name
/// readers of the underlying format expect.
pub type ArrowSchema = Schema;

/// How many entries of `proj` are strictly below `v`.
pub open spec fn count_less(proj: Seq<usize>, v: usize) -> nat
    decreases proj.len(),
{
    if proj.len() == 0 {
        0
    } else {
        count_less(proj.drop_last(), v) + (if proj.last() < v {
            1nat
        } else {
            0nat
        })
    }
}

/// The position a requested column lands in after the projection is
/// sorted for the batch reader: the number of requested positions below
/// it.
pub open spec fn rank(proj: Seq<usize>, k: int) -> int {
    count_less(proj, proj[k]) as int
}

pub open spec fn distinct_seq(proj: Seq<usize>) -> bool {
    forall|i: int, j: int| 0 <= i < j < proj.len() ==> proj[i] != proj[j]
}

pub proof fn lemma_count_less_le(proj: Seq<usize>, v: usize)
    ensures
        count_less(proj, v) <= proj.len(),
    decreases proj.len(),
{
    if proj.len() > 0 {
        lemma_count_less_le(proj.drop_last(), v);
    }
}

/// An entry's own position is never counted below it.
pub proof fn lemma_rank_lt(proj: Seq<usize>, k: int)
    requires
        0 <= k < proj.len(),
    ensures
        0 <= rank(proj, k) < proj.len(),
    decreases proj.len(),
{
    if k == proj.len() - 1 {
        lemma_count_less_le(proj.drop_last(), proj[k]);
        assert(!(proj.last() < proj[k]));
    } else {
        assert(proj.drop_last()[k] == proj[k]);
        lemma_rank_lt(proj.drop_last(), k);
    }
}

/// Strictly larger members of the sequence have strictly larger counts
/// of entries below them, provided the smaller value occurs.
pub proof fn lemma_count_less_strict(proj: Seq<usize>, a: usize, b: usize, wi: int)
    requires
        a < b,
        0 <= wi < proj.len(),
        proj[wi] == a,
    ensures
        count_less(proj, a) < count_less(proj, b),
    decreases proj.len(),
{
    if wi == proj.len() - 1 {
        lemma_count_less_mono(proj.drop_last(), a, b);
        assert(proj.last() < b && !(proj.last() < a));
    } else {
        assert(proj.drop_last()[wi] == proj[wi]);
        lemma_count_less_strict(proj.drop_last(), a, b, wi);
        if proj.last() < a {
            assert(proj.last() < b);
        }
    }
}

/// Counting below a smaller bound never yields more.
pub proof fn lemma_count_less_mono(proj: Seq<usize>, a: usize, b: usize)
    requires
        a <= b,
    ensures
        count_less(proj, a) <= count_less(proj, b),
    decreases proj.len(),
{
    if proj.len() > 0 {
        lemma_count_less_mono(proj.drop_last(), a, b);
    }
}

/// Distinct requested positions land on distinct ranks.
pub proof fn lemma_rank_injective(proj: Seq<usize>, k1: int, k2: int)
    requires
        distinct_seq(proj),
        0 <= k1 < proj.len(),
        0 <= k2 < proj.len(),
        k1 != k2,
    ensures
        rank(proj, k1) != rank(proj, k2),
{
    if proj[k1] < proj[k2] {
        lemma_count_less_strict(proj, proj[k1], proj[k2], k1);
    } else if proj[k2] < proj[k1] {
        lemma_count_less_strict(proj, proj[k2], proj[k1], k2);
    } else {
        if k1 < k2 {
            assert(proj[k1] != proj[k2]);
        } else {
            assert(proj[k2] != proj[k1]);
        }
    }
}

/// The names of the columns the read assembles (ascending file order,
/// after an optional leading row-count column) are pairwise distinct
/// exactly when the requested output names are: the two listings hold
/// the same names, related by the rank permutation.
#[verifier::rlimit(100)]
pub proof fn lemma_out_names_iff(
    rd: IpcReader,
    f: FileVal,
    srcs: Seq<usize>,
    anames: Seq<Seq<char>>,
    off: int,
)
    requires
        off == (if rd.row_count is Some {
            1int
        } else {
            0int
        }),
        anames.len() == off + srcs.len(),
        rd.row_count matches Some(rc) ==> anames[0] == rc.name@,
        forall|r: int| 0 <= r < srcs.len() ==> (#[trigger] srcs[r]) < f.fields.len(),
        forall|r: int|
            0 <= r < srcs.len() ==> anames[off + r] == f.fields[(#[trigger] srcs[r]) as int].name,
        match rd.spec_effective_proj(f.fields) {
            Some(q) => {
                &&& distinct_seq(q)
                &&& srcs.len() == q.len()
                &&& (forall|k: int| 0 <= k < q.len() ==> #[trigger] srcs[rank(q, k)] == q[k])
                &&& (forall|r: int|
                    0 <= r < srcs.len() ==> q.contains(#[trigger] srcs[r]) && r == count_less(
                        q,
                        srcs[r],
                    ))
            },
            None => {
                &&& srcs.len() == f.fields.len()
                &&& (forall|r: int| 0 <= r < srcs.len() ==> (#[trigger] srcs[r]) == r)
            },
        },
    ensures
        (forall|i1: int, i2: int|
            0 <= i1 < i2 < anames.len() ==> anames[i1] != anames[i2]) <==> rd.spec_out_names_ok(
            f,
        ),
{
    let projopt = rd.spec_effective_proj(f.fields);
    let w = rd.spec_out_width(f);
    assert(w == srcs.len());
    if forall|i1: int, i2: int| 0 <= i1 < i2 < anames.len() ==> anames[i1] != anames[i2] {
        assert forall|k1: int, k2: int|
            #![trigger rd.spec_src(f, k1), rd.spec_src(f, k2)]
            0 <= k1 < k2 < w implies f.fields[rd.spec_src(f, k1)].name != f.fields[rd.spec_src(
            f,
            k2,
        )].name by {
            if f.fields[rd.spec_src(f, k1)].name == f.fields[rd.spec_src(f, k2)].name {
                match projopt {
                    Some(q) => {
                        let r1 = rank(q, k1);
                        let r2 = rank(q, k2);
                        lemma_rank_lt(q, k1);
                        lemma_rank_lt(q, k2);
                        lemma_rank_injective(q, k1, k2);
                        assert(srcs[r1] == q[k1] && srcs[r2] == q[k2]);
                        assert(anames[off + r1] == anames[off + r2]);
                        assert(false);
                    },
                    None => {
                        assert(srcs[k1] == k1 && srcs[k2] == k2);
                        assert(anames[off + k1] == anames[off + k2]);
                        assert(false);
                    },
                }
            }
        }
        if rd.row_count is Some {
            let rcx = rd.row_count.unwrap();
            assert forall|k: int|
                0 <= k < w implies rcx.name@ != f.fields[#[trigger] rd.spec_src(f, k)].name by {
                if rcx.name@ == f.fields[rd.spec_src(f, k)].name {
                    match projopt {
                        Some(q) => {
                            let r = rank(q, k);
                            lemma_rank_lt(q, k);
                            assert(srcs[r] == q[k]);
                            assert(anames[0] == anames[off + r]);
                            assert(false);
                        },
                        None => {
                            assert(srcs[k] == k);
                            assert(anames[0] == anames[off + k]);
                            assert(false);
                        },
                    }
                }
            }
        }
        assert(rd.spec_out_names_ok(f));
    }
    if rd.spec_out_names_ok(f) {
        assert forall|i1: int, i2: int|
            0 <= i1 < i2 < anames.len() implies anames[i1] != anames[i2] by {
            if anames[i1] == anames[i2] {
                let r2 = i2 - off;
                assert(anames[i2] == f.fields[srcs[r2] as int].name);
                match projopt {
                    Some(q) => {
                        let k2 = choose|k2: int| 0 <= k2 < q.len() && q[k2] == srcs[r2];
                        assert(rd.spec_src(f, k2) == srcs[r2] as int);
                        if i1 < off {
                            assert(anames[0] == f.fields[rd.spec_src(f, k2)].name);
                            assert(false);
                        } else {
                            let r1 = i1 - off;
                            let k1 = choose|k1: int| 0 <= k1 < q.len() && q[k1] == srcs[r1];
                            assert(r1 == count_less(q, srcs[r1]));
                            assert(r2 == count_less(q, srcs[r2]));
                            assert(srcs[r1] != srcs[r2]);
                            assert(k1 != k2);
                            assert(rd.spec_src(f, k1) == srcs[r1] as int);
                            assert(f.fields[rd.spec_src(f, k1)].name == f.fields[rd.spec_src(
                                f,
                                k2,
                            )].name);
                            if k1 < k2 {
                                assert(false);
                            } else {
                                assert(false);
                            }
                        }
                    },
                    None => {
                        assert(srcs[r2] == r2);
                        if i1 < off {
                            assert(rd.spec_src(f, r2) == r2);
                            assert(false);
                        } else {
                            let r1 = i1 - off;
                            assert(srcs[r1] == r1);
                            assert(rd.spec_src(f, r1) == r1 && rd.spec_src(f, r2) == r2);
                            assert(false);
                        }
                    },
                }
            }
        }
    }
}

/// The shape of the frame the read hands back: after the requested-order
/// restoration, output data column `k` carries the requested field's name
/// and its cells cut to the read height, the synthesized leading column
/// is intact, and (when rechunking) every column is one chunk.
#[verifier::rlimit(100)]
proof fn lemma_finish_shape(
    rd: IpcReader,
    f: FileVal,
    out: DataFrame,
    dfs: DataFrame,
    sorted_cols: Seq<Series>,
    rcpart: Seq<Series>,
    dseq: Seq<Series>,
    srcs: Seq<usize>,
    projopt: Option<Seq<usize>>,
    off: int,
    height: int,
)
    requires
        projopt == rd.spec_effective_proj(f.fields),
        off == (if rd.row_count is Some {
            1int
        } else {
            0int
        }),
        height == rd.spec_height(f),
        sorted_cols == rcpart + dseq,
        rcpart.len() == off,
        dfs.columns@.len() == sorted_cols.len(),
        forall|j: int|
            0 <= j < sorted_cols.len() ==> (#[trigger] dfs.columns@[j]).name_spec()
                == sorted_cols[j].name_spec() && dfs.columns@[j].view() == sorted_cols[j].view(),
        srcs.len() == dseq.len(),
        forall|r: int|
            0 <= r < dseq.len() ==> (#[trigger] dseq[r]).name_spec() == f.fields[
                srcs[r] as int].name && dseq[r].view() == col_take(
                f.cols[srcs[r] as int],
                height,
            ),
        match projopt {
            Some(q) => {
                &&& srcs.len() == q.len()
                &&& out.spec_width() == dfs.spec_width()
                &&& dfs.spec_width() == off + q.len()
                &&& distinct_seq(q)
                &&& (forall|k: int| 0 <= k < q.len() ==> #[trigger] srcs[rank(q, k)] == q[k])
                &&& (rd.row_count is Some ==> series_same(out.columns@[0], dfs.columns@[0]))
                &&& (forall|k: int|
                    0 <= k < q.len() ==> series_same(
                        #[trigger] out.columns@[off + k],
                        dfs.columns@[off + rank(q, k)],
                    ))
            },
            None => {
                &&& out == dfs
                &&& srcs.len() == f.fields.len()
                &&& (forall|r: int| 0 <= r < srcs.len() ==> (#[trigger] srcs[r]) == r)
                &&& dfs.spec_width() == off + f.fields.len()
            },
        },
        rd.row_count matches Some(rc) ==> rcpart[0].name_spec() == rc.name@ && rcpart[0].view()
            == ColCells::Ints(Seq::new(height as nat, |i: int| Some((rc.offset + i) as i64))),
        rd.rechunk ==> forall|j: int|
            0 <= j < dfs.columns@.len() ==> (#[trigger] dfs.columns@[j]).chunk_lens().len() == 1,
    ensures
        out.spec_width() == off + rd.spec_out_width(f),
        rd.row_count matches Some(rc) ==> out.columns@[0].name_spec() == rc.name@
            && out.columns@[0].view() == ColCells::Ints(
            Seq::new(rd.spec_height(f) as nat, |i: int| Some((rc.offset + i) as i64)),
        ),
        forall|t: int|
            off <= t < off + rd.spec_out_width(f) ==> (#[trigger] out.columns@[t]).name_spec()
                == f.fields[rd.spec_src(f, t - off)].name && out.columns@[t].view() == col_take(
                f.cols[rd.spec_src(f, t - off)],
                rd.spec_height(f),
            ),
        rd.rechunk ==> (forall|t: int|
            0 <= t < out.columns@.len() ==> (#[trigger] out.columns@[t]).chunk_lens().len()
                == 1),
{
    let w = rd.spec_out_width(f);
    match projopt {
        Some(q) => {
            assert(w == q.len());
            if rd.row_count is Some {
                assert(series_same(out.columns@[0], dfs.columns@[0]));
                assert(sorted_cols[0] == rcpart[0]);
            }
            assert forall|t: int|
                off <= t < off + w implies (#[trigger] out.columns@[t]).name_spec() == f.fields[
                rd.spec_src(f, t - off)].name && out.columns@[t].view() == col_take(
                f.cols[rd.spec_src(f, t - off)],
                rd.spec_height(f),
            ) by {
                let k = t - off;
                let r = rank(q, k);
                lemma_rank_lt(q, k);
                assert(out.columns@[t] == out.columns@[off + k]);
                assert(series_same(out.columns@[off + k], dfs.columns@[off + r]));
                assert(sorted_cols[off + r] == dseq[r]);
                assert(srcs[r] == q[k]);
                assert(rd.spec_src(f, k) == q[k] as int);
            }
            if rd.rechunk {
                assert forall|t: int|
                    0 <= t < out.columns@.len() implies (#[trigger] out.columns@[
                t]).chunk_lens().len() == 1 by {
                    if rd.row_count is Some && t == 0 {
                        assert(series_same(out.columns@[0], dfs.columns@[0]));
                    } else {
                        let kk = t - off;
                        lemma_rank_lt(q, kk);
                        assert(series_same(out.columns@[off + kk], dfs.columns@[off + rank(
                            q,
                            kk,
                        )]));
                    }
                }
            }
        },
        None => {
            assert(w == f.fields.len());
            assert(out == dfs);
            if rd.row_count is Some {
                assert(sorted_cols[0] == rcpart[0]);
            }
            assert forall|t: int|
                off <= t < off + w implies (#[trigger] out.columns@[t]).name_spec() == f.fields[
                rd.spec_src(f, t - off)].name && out.columns@[t].view() == col_take(
                f.cols[rd.spec_src(f, t - off)],
                rd.spec_height(f),
            ) by {
                let k = t - off;
                assert(sorted_cols[off + k] == dseq[k]);
                assert(srcs[k] == k);
                assert(rd.spec_src(f, k) == k);
            }
        },
    }
}

/// Restore the caller's requested column order. The frame arrives with
/// its data columns in ascending file order (after an optional leading
/// row-count column); output data column `k` is the one the caller asked
/// for at position `k` of the projection, found at the rank of
/// `projection[k]` among the sorted requested positions. Without a
/// projection the frame is returned unchanged.
pub fn fix_column_order(df: DataFrame, projection: Option<Vec<usize>>, row_count: bool) -> (r:
    DataFrame)
    requires
        df.wf(),
        projection matches Some(p) ==> {
            &&& distinct_seq(p@)
            &&& df.spec_width() == p@.len() + (if row_count {
                1int
            } else {
                0int
            })
        },
    ensures
        projection is None ==> r == df,
        projection matches Some(p) ==> {
            let off: int = if row_count {
                1
            } else {
                0
            };
            &&& r.wf()
            &&& r.spec_width() == df.spec_width()
            &&& (row_count ==> series_same(r.columns@[0], df.columns@[0]))
            &&& forall|k: int|
                0 <= k < p@.len() ==> series_same(
                    r.columns@[off + k],
                    df.columns@[off + rank(p@, k)],
                )
        },
{
    match projection {
        None => df,
        Some(proj) => {
            let off: usize = if row_count {
                1
            } else {
                0
            };
            let mut cols: Vec<Series> = Vec::new();
            if row_count {
                cols.push(df.columns[0].clone_inner_exact());
            }
            let mut k: usize = 0;
            while k < proj.len()
                invariant
                    k <= proj@.len(),
                    df.wf(),
                    distinct_seq(proj@),
                    df.spec_width() == proj@.len() + (if row_count {
                        1int
                    } else {
                        0int
                    }),
                    off == (if row_count {
                        1int
                    } else {
                        0int
                    }),
                    cols@.len() == off + k,
                    forall|j: int| 0 <= j < cols@.len() ==> (#[trigger] cols@[j]).wf(),
                    forall|j: int|
                        0 <= j < cols@.len() ==> (#[trigger] cols@[j]).spec_len()
                            == df.spec_height(),
                    row_count ==> series_same(cols@[0], df.columns@[0]),
                    forall|j: int|
                        0 <= j < k ==> series_same(
                            #[trigger] cols@[off + j],
                            df.columns@[off + rank(proj@, j)],
                        ),
                decreases proj@.len() - k,
            {
                // the rank: how many requested positions sort below this one
                let mut cnt: usize = 0;
                let mut j: usize = 0;
                while j < proj.len()
                    invariant
                        j <= proj@.len(),
                        k < proj@.len(),
                        cnt == count_less(proj@.take(j as int), proj@[k as int]),
                        cnt <= j,
                    decreases proj@.len() - j,
                {
                    proof {
                        assert(proj@.take(j + 1).drop_last() =~= proj@.take(j as int));
                        assert(proj@.take(j + 1).last() == proj@[j as int]);
                    }
                    if proj[j] < proj[k] {
                        cnt = cnt + 1;
                    }
                    j = j + 1;
                }
                proof {
                    assert(proj@.take(proj@.len() as int) =~= proj@);
                    lemma_rank_lt(proj@, k as int);
                }
                cols.push(df.columns[off + cnt].clone_inner_exact());
                k = k + 1;
            }
            proof {
                assert forall|i1: int, i2: int|
                    0 <= i1 < i2 < cols@.len() implies cols@[i1].name_spec()
                    != cols@[i2].name_spec() by {
                    lemma_rank_lt(proj@, i2 - off);
                    assert(series_same(cols@[off + (i2 - off)], df.columns@[off + rank(
                        proj@,
                        i2 - off,
                    )]));
                    let d2 = off + rank(proj@, i2 - off);
                    if i1 >= off {
                        lemma_rank_injective(proj@, i1 - off, i2 - off);
                        lemma_rank_lt(proj@, i1 - off);
                        assert(series_same(cols@[off + (i1 - off)], df.columns@[off + rank(
                            proj@,
                            i1 - off,
                        )]));
                        let d1 = off + rank(proj@, i1 - off);
                        if d1 < d2 {
                            assert(df.columns@[d1].name_spec() != df.columns@[d2].name_spec());
                        } else {
                            assert(df.columns@[d2].name_spec() != df.columns@[d1].name_spec());
                        }
                    } else {
                        assert(series_same(cols@[0], df.columns@[0]));
                        assert(d2 >= 1);
                        assert(df.columns@[0].name_spec() != df.columns@[d2].name_spec());
                    }
                }
            }
            let r = DataFrame::new_no_checks(cols);
            r
        },
    }
}

/// How many entries of `proj` equal `v`.
pub open spec fn count_at(proj: Seq<usize>, v: usize) -> nat
    decreases proj.len(),
{
    if proj.len() == 0 {
        0
    } else {
        count_at(proj.drop_last(), v) + (if proj.last() == v {
            1nat
        } else {
            0nat
        })
    }
}

pub proof fn lemma_count_at_contains(proj: Seq<usize>, v: usize)
    ensures
        count_at(proj, v) > 0 <==> proj.contains(v),
    decreases proj.len(),
{
    if proj.len() > 0 {
        lemma_count_at_contains(proj.drop_last(), v);
        crate::boolean::lemma_contains_split(proj, v);
    } else {
        if proj.contains(v) {
            let i = choose|i: int| 0 <= i < proj.len() && proj[i] == v;
            assert(false);
        }
    }
}

/// Counting below the next bound adds exactly the occurrences at the
/// current one.
pub proof fn lemma_count_less_succ(proj: Seq<usize>, v: usize)
    requires
        v < usize::MAX,
    ensures
        count_less(proj, (v + 1) as usize) == count_less(proj, v) + count_at(proj, v),
    decreases proj.len(),
{
    if proj.len() > 0 {
        lemma_count_less_succ(proj.drop_last(), v);
    }
}

/// The logical content of a column cut to its first `n` cells.
pub open spec fn col_take(c: ColCells, n: int) -> ColCells {
    match c {
        ColCells::Bools(s) => ColCells::Bools(s.take(n)),
        ColCells::Ints(s) => ColCells::Ints(s.take(n)),
        ColCells::Strs(s) => ColCells::Strs(s.take(n)),
    }
}

impl Series {
    /// A structural copy preserving the column exactly (name, contents,
    /// chunk layout aside, sortedness).
    pub fn clone_inner_exact(&self) -> (r: Series)
        requires
            self.wf(),
        ensures
            r.wf(),
            r.view() == self.view(),
            r.name_spec() == self.name_spec(),
            r.dtype_spec() == self.dtype_spec(),
            r.sorted_flag() == self.sorted_flag(),
            r.spec_len() == self.spec_len(),
            r.chunk_lens() == self.chunk_lens(),
    {
        let c = self.clone_inner();
        proof {
            crate::frame::lemma_view_len(*self);
            crate::frame::lemma_view_len(c);
        }
        c
    }
}

/// The character sequences of a run of strings.
pub open spec fn strings_views(v: Seq<String>) -> Seq<Seq<char>> {
    Seq::new(v.len(), |i: int| v[i]@)
}

/// Every requested name has a matching field.
pub open spec fn names_ok_seq(fields: Seq<FieldVal>, names: Seq<Seq<char>>) -> bool {
    forall|k: int|
        0 <= k < names.len() ==> (#[trigger] first_field_idx(fields, names[k])) >= 0
}

/// The first field carrying the given name, or a negative value when
/// none does.
pub open spec fn first_field_idx(fields: Seq<FieldVal>, name: Seq<char>) -> int
    decreases fields.len(),
{
    if fields.len() == 0 {
        -1
    } else if fields.first().name == name {
        0
    } else {
        let r = first_field_idx(fields.drop_first(), name);
        if r < 0 {
            -1
        } else {
            1 + r
        }
    }
}

/// Read the interchange container from an in-memory byte buffer, with
/// projection pushdown, row limiting and row-count synthesis.
#[must_use]
pub struct IpcReader {
    /// The whole file's bytes.
    pub bytes: Vec<u8>,
    /// Coalesce each column to a single chunk after reading.
    pub rechunk: bool,
    pub n_rows: Option<usize>,
    pub projection: Option<Vec<usize>>,
    pub columns: Option<Vec<String>>,
    pub row_count: Option<RowCount>,
}

impl IpcReader {
    /// A reader over the given bytes, rechunking by default, without
    /// projection, row limit or row-count directive.
    pub fn new(bytes: Vec<u8>) -> (r: Self)
        ensures
            r.bytes@ == bytes@,
            r.rechunk == true,
            r.n_rows is None,
            r.projection is None,
            r.columns is None,
            r.row_count is None,
    {
        IpcReader {
            bytes,
            rechunk: true,
            n_rows: None,
            projection: None,
            columns: None,
            row_count: None,
        }
    }

    /// Choose whether the columns are coalesced after reading.
    pub fn set_rechunk(self, rechunk: bool) -> (r: Self)
        ensures
            r == (Self { rechunk, ..self }),
    {
        IpcReader { rechunk, ..self }
    }

    /// Stop reading when this many rows are read.
    pub fn with_n_rows(self, num_rows: Option<usize>) -> (r: Self)
        ensures
            r == (Self { n_rows: num_rows, ..self }),
    {
        IpcReader { n_rows: num_rows, ..self }
    }

    /// Columns to select, by name; resolved against the file schema when
    /// finishing, failing fast if any is absent.
    pub fn with_columns(self, columns: Option<Vec<String>>) -> (r: Self)
        ensures
            r == (Self { columns, ..self }),
    {
        IpcReader { columns, ..self }
    }

    /// Synthesize a leading row-count column.
    pub fn with_row_count(self, row_count: Option<RowCount>) -> (r: Self)
        ensures
            r == (Self { row_count, ..self }),
    {
        IpcReader { row_count, ..self }
    }

    /// Columns to select, by 0-based position; duplicates and
    /// out-of-range positions fail fast when finishing.
    pub fn with_projection(self, projection: Option<Vec<usize>>) -> (r: Self)
        ensures
            r == (Self { projection, ..self }),
    {
        IpcReader { projection, ..self }
    }

    /// The schema of the file, read from the metadata alone; no row data
    /// is touched.
    pub fn schema(&self) -> (r: Result<Schema, CoreError>)
        ensures
            r matches Ok(s) ==> dec_file(self.bytes@) matches Some(f) && s.view_fields()
                == f.fields,
            r matches Err(e) ==> e == CoreError::FormatCorruption,
            dec_file(self.bytes@) is Some ==> r is Ok,
    {
        match read_schema_fields(&self.bytes) {
            Some(fields) => Ok(Schema { fields }),
            None => Err(CoreError::FormatCorruption),
        }
    }

    /// The wire-level schema of the file; the same metadata as
    /// `schema`, under the name the underlying format uses.
    pub fn arrow_schema(&self) -> (r: Result<ArrowSchema, CoreError>)
        ensures
            r matches Ok(s) ==> dec_file(self.bytes@) matches Some(f) && s.view_fields()
                == f.fields,
            r matches Err(e) ==> e == CoreError::FormatCorruption,
            dec_file(self.bytes@) is Some ==> r is Ok,
    {
        self.schema()
    }
}

/// With distinct entries a value occurs at most once.
pub proof fn lemma_count_at_le1(proj: Seq<usize>, v: usize)
    requires
        distinct_seq(proj),
    ensures
        count_at(proj, v) <= 1,
    decreases proj.len(),
{
    if proj.len() > 0 {
        assert(distinct_seq(proj.drop_last())) by {
            assert(forall|i: int, j: int|
                0 <= i < j < proj.drop_last().len() ==> proj.drop_last()[i] == proj[i]
                    && proj.drop_last()[j] == proj[j]);
        }
        lemma_count_at_le1(proj.drop_last(), v);
        if proj.last() == v {
            lemma_count_at_contains(proj.drop_last(), v);
            if proj.drop_last().contains(v) {
                let i = choose|i: int|
                    0 <= i < proj.drop_last().len() && proj.drop_last()[i] == v;
                assert(proj[i] == v && proj[proj.len() - 1] == v);
                assert(false);
            }
        }
    }
}

/// Nothing counts below zero.
pub proof fn lemma_count_less_zero(proj: Seq<usize>)
    ensures
        count_less(proj, 0) == 0,
    decreases proj.len(),
{
    if proj.len() > 0 {
        lemma_count_less_zero(proj.drop_last());
    }
}

/// When every entry lies below the bound, all are counted.
pub proof fn lemma_count_less_all(proj: Seq<usize>, m: usize)
    requires
        forall|j: int| 0 <= j < proj.len() ==> (#[trigger] proj[j]) < m,
    ensures
        count_less(proj, m) == proj.len(),
    decreases proj.len(),
{
    if proj.len() > 0 {
        assert(proj[proj.len() - 1] < m);
        lemma_count_less_all(proj.drop_last(), m);
    }
}

/// Characterize the first matching field from a no-match prefix.
pub proof fn lemma_ffi_char(fields: Seq<FieldVal>, name: Seq<char>, i: int)
    requires
        0 <= i <= fields.len(),
        forall|j: int| 0 <= j < i ==> (#[trigger] fields[j]).name != name,
    ensures
        (i < fields.len() && fields[i].name == name) ==> first_field_idx(fields, name) == i,
        (i == fields.len()) ==> first_field_idx(fields, name) < 0,
    decreases fields.len(),
{
    if fields.len() > 0 {
        if i == 0 {
            if fields[0].name == name {
            } else {
                // nothing to conclude for this i
            }
        } else {
            assert(fields[0].name != name);
            assert(forall|j: int|
                0 <= j < i - 1 ==> (#[trigger] fields.drop_first()[j]).name != name) by {
                assert(forall|j: int|
                    0 <= j < i - 1 ==> fields.drop_first()[j] == fields[j + 1]);
            }
            lemma_ffi_char(fields.drop_first(), name, i - 1);
            if i < fields.len() {
                assert(fields.drop_first()[i - 1] == fields[i]);
            }
        }
    }
}

/// The position of the first field with the given name.
fn find_field(fields: &Vec<Field>, name: &str) -> (r: Option<usize>)
    ensures
        r matches Some(i) ==> i < fields@.len() && first_field_idx(fields_view(fields@), name@)
            == i,
        r is None ==> first_field_idx(fields_view(fields@), name@) < 0,
{
    let ghost fv = fields_view(fields@);
    let owned: String = name.to_owned();
    let mut i: usize = 0;
    while i < fields.len()
        invariant
            i <= fields@.len(),
            owned@ == name@,
            fv == fields_view(fields@),
            forall|j: int| 0 <= j < i ==> (#[trigger] fv[j]).name != name@,
        decreases fields@.len() - i,
    {
        if fields[i].name == owned {
            proof {
                lemma_ffi_char(fv, name@, i as int);
            }
            return Some(i);
        }
        i = i + 1;
    }
    proof {
        lemma_ffi_char(fv, name@, fields@.len() as int);
    }
    None
}

/// Whether the vector holds the value.
fn contains_usize(p: &Vec<usize>, v: usize) -> (r: bool)
    ensures
        r == p@.contains(v),
{
    let mut i: usize = 0;
    while i < p.len()
        invariant
            i <= p@.len(),
            forall|j: int| 0 <= j < i ==> p@[j] != v,
        decreases p@.len() - i,
    {
        if p[i] == v {
            return true;
        }
        i = i + 1;
    }
    proof {
        if p@.contains(v) {
            let j = choose|j: int| 0 <= j < p@.len() && p@[j] == v;
            assert(false);
        }
    }
    false
}

/// Turn one decoded column into a named series.
fn coldata_into_series(cd: ColData, name: &str) -> (s: Series)
    ensures
        s.wf(),
        s.view() == cd.view_cells(),
        s.name_spec() == name@,
        s.spec_len() == cd.view_cells().len(),
    {
    let s = match cd {
        ColData::Bools(v) => Series::Bool(crate::chunked::ChunkedArray::<bool>::new_opt(name, v)),
        ColData::Ints(v) => Series::Int64(crate::chunked::ChunkedArray::<i64>::new_opt(name, v)),
        ColData::Strs(v) => Series::Utf8(
            crate::chunked::ChunkedArray::<String>::new_opt(name, v),
        ),
    };
    proof {
        crate::frame::lemma_view_len(s);
    }
    s
}

/// Decode only the footer of a file whose body also decodes; used for
/// metadata-only reads.
fn read_schema_fields(bytes: &Vec<u8>) -> (r: Option<Vec<Field>>)
    ensures
        r matches Some(fs) ==> dec_file(bytes@) matches Some(f) && fields_view(fs@) == f.fields,
        dec_file(bytes@) is Some ==> r is Some,
{
    match crate::codec::decode_file(bytes) {
        Some((fields, _)) => Some(fields),
        None => None,
    }
}

impl IpcReader {
    /// The projection the reader will use: names resolved to their first
    /// matching schema position, else the positional projection, else
    /// none.
    pub open spec fn spec_effective_proj(self, fields: Seq<FieldVal>) -> Option<Seq<usize>> {
        match self.columns {
            Some(names) => Some(
                Seq::new(
                    names@.len(),
                    |k: int| first_field_idx(fields, names@[k]@) as usize,
                ),
            ),
            None => match self.projection {
                Some(p) => Some(p@),
                None => None,
            },
        }
    }

    /// Every requested name resolves against the schema.
    pub open spec fn spec_names_ok(self, fields: Seq<FieldVal>) -> bool {
        match self.columns {
            Some(names) => names_ok_seq(fields, strings_views(names@)),
            None => true,
        }
    }

    /// All decoded columns share one height.
    pub open spec fn spec_heights_ok(self, f: FileVal) -> bool {
        forall|i: int| 0 <= i < f.cols.len() ==> (#[trigger] f.cols[i]).len() == f.cols[0].len()
    }

    /// The height of the file's columns.
    pub open spec fn spec_h_full(self, f: FileVal) -> int {
        if f.cols.len() == 0 {
            0
        } else {
            f.cols[0].len() as int
        }
    }

    /// The number of rows a successful read returns: the file height,
    /// cut to the row limit.
    pub open spec fn spec_height(self, f: FileVal) -> int {
        match self.n_rows {
            Some(n) => if n <= self.spec_h_full(f) {
                n as int
            } else {
                self.spec_h_full(f)
            },
            None => self.spec_h_full(f),
        }
    }

    /// Every effective projection entry addresses a schema field.
    pub open spec fn spec_proj_in_range(self, f: FileVal) -> bool {
        match self.spec_effective_proj(f.fields) {
            Some(p) => forall|k: int| 0 <= k < p.len() ==> (#[trigger] p[k]) < f.fields.len(),
            None => true,
        }
    }

    /// The effective projection holds no position twice.
    pub open spec fn spec_proj_distinct(self, f: FileVal) -> bool {
        match self.spec_effective_proj(f.fields) {
            Some(p) => distinct_seq(p),
            None => true,
        }
    }

    /// The synthesized row-count values stay inside the engine's signed
    /// integer range.
    pub open spec fn spec_rc_ok(self, f: FileVal) -> bool {
        match self.row_count {
            Some(rc) => rc.offset + self.spec_height(f) <= 0x7fff_ffff_ffff_ffff,
            None => true,
        }
    }

    /// The file position that output data column `k` is read from.
    pub open spec fn spec_src(self, f: FileVal, k: int) -> int {
        match self.spec_effective_proj(f.fields) {
            Some(p) => p[k] as int,
            None => k,
        }
    }

    /// How many data columns the read returns.
    pub open spec fn spec_out_width(self, f: FileVal) -> int {
        match self.spec_effective_proj(f.fields) {
            Some(p) => p.len() as int,
            None => f.fields.len() as int,
        }
    }

    /// The output column names (the row-count name, then the requested
    /// fields' names) are pairwise distinct, so a frame can be formed.
    pub open spec fn spec_out_names_ok(self, f: FileVal) -> bool {
        &&& (forall|k1: int, k2: int|
            #![trigger self.spec_src(f, k1), self.spec_src(f, k2)]
            0 <= k1 < k2 < self.spec_out_width(f) ==> f.fields[self.spec_src(f, k1)].name
                != f.fields[self.spec_src(f, k2)].name)
        &&& (self.row_count matches Some(rc) ==> forall|k: int|
            0 <= k < self.spec_out_width(f) ==> rc.name@ != f.fields[
                #[trigger] self.spec_src(f, k)].name)
    }

    /// Everything a successful read needs of decodable bytes: resolvable
    /// names, one common column height, an in-range duplicate-free
    /// projection, in-range row-count values, and formable output names.
    pub open spec fn spec_read_ok(self, f: FileVal) -> bool {
        &&& self.spec_names_ok(f.fields)
        &&& self.spec_heights_ok(f)
        &&& self.spec_proj_in_range(f)
        &&& self.spec_proj_distinct(f)
        &&& self.spec_rc_ok(f)
        &&& self.spec_out_names_ok(f)
    }

    /// Stream the whole file into a frame: decode, resolve the requested
    /// columns, read the batch columns in ascending file order, limit the
    /// rows, synthesize the row-count column, and restore the caller's
    /// requested column order. A failed read never returns a partial
    /// frame.
    #[verifier::rlimit(100)]
    #[verifier::loop_isolation(false)]
    pub fn finish(self) -> (r: Result<DataFrame, CoreError>)
        ensures
            r == Err::<DataFrame, CoreError>(CoreError::NameResolution) <==> (dec_file(
                self.bytes@,
            ) matches Some(f) && !self.spec_names_ok(f.fields)),
            r == Err::<DataFrame, CoreError>(CoreError::FormatCorruption) <==> (dec_file(
                self.bytes@,
            ) is None || (dec_file(self.bytes@) matches Some(f) && self.spec_names_ok(f.fields)
                && exists|i: int|
                0 <= i < f.cols.len() && (#[trigger] f.cols[i]).len() != f.cols[0].len())),
            r matches Ok(out) ==> (dec_file(self.bytes@) matches Some(f) && {
                let off: int = if self.row_count is Some {
                    1
                } else {
                    0
                };
                &&& out.wf()
                &&& out.spec_width() == off + self.spec_out_width(f)
                &&& (self.row_count matches Some(rc) ==> out.columns@[0].name_spec() == rc.name@
                    && out.columns@[0].view() == ColCells::Ints(
                    Seq::new(
                        self.spec_height(f) as nat,
                        |i: int| Some((rc.offset + i) as i64),
                    ),
                ))
                &&& (forall|t: int|
                    off <= t < off + self.spec_out_width(f) ==> (#[trigger] out.columns@[
                    t]).name_spec() == f.fields[self.spec_src(f, t - off)].name && out.columns@[
                        t].view() == col_take(f.cols[self.spec_src(f, t - off)], self.spec_height(f)))
            }),
            self.rechunk ==> (r matches Ok(out) ==> (forall|t: int|
                0 <= t < out.columns@.len() ==> (#[trigger] out.columns@[t]).chunk_lens().len()
                    == 1)),
            r is Ok <==> (dec_file(self.bytes@) matches Some(f) && self.spec_read_ok(f)),
            r == Err::<DataFrame, CoreError>(CoreError::OutOfBounds) <==> (dec_file(
                self.bytes@,
            ) matches Some(f) && self.spec_names_ok(f.fields) && self.spec_heights_ok(f)
                && !self.spec_proj_in_range(f)),
            r == Err::<DataFrame, CoreError>(CoreError::InvalidOperation) <==> (dec_file(
                self.bytes@,
            ) matches Some(f) && self.spec_names_ok(f.fields) && self.spec_heights_ok(f)
                && self.spec_proj_in_range(f) && !(self.spec_proj_distinct(f)
                && self.spec_rc_ok(f) && self.spec_out_names_ok(f))),
    {
        let decoded = crate::codec::decode_file(&self.bytes);
        let (fields, cols_all) = match decoded {
            Some(x) => x,
            None => {
                return Err(CoreError::FormatCorruption);
            },
        };
        let ghost f = dec_file(self.bytes@).unwrap();
        proof {
            assert(dec_file(self.bytes@) matches Some(ff) && ff == f);
        }
        // resolve the requested names first: an absent name fails before
        // any row data is considered
        let proj_eff: Option<Vec<usize>> = match &self.columns {
            Some(names) => {
                let mut p: Vec<usize> = Vec::new();
                let mut k: usize = 0;
                while k < names.len()
                    invariant
                        k <= names@.len(),
                        fields_view(fields@) == f.fields,
                        p@.len() == k,
                        forall|j: int|
                            0 <= j < k ==> first_field_idx(f.fields, (#[trigger] names@[j])@)
                                == p@[j],
                        forall|j: int| 0 <= j < k ==> (#[trigger] p@[j]) < f.fields.len(),
                    decreases names@.len() - k,
                {
                    let nm: &str = names[k].as_str();
                    proof {
                        assert(nm@ == names@[k as int]@);
                    }
                    match find_field(&fields, nm) {
                        Some(i) => {
                            proof {
                                assert(first_field_idx(f.fields, nm@) == i);
                                assert(first_field_idx(f.fields, names@[k as int]@) == i as int);
                            }
                            p.push(i);
                            proof {
                                assert(p@[k as int] == i);
                            }
                        },
                        None => {
                            proof {
                                assert(first_field_idx(f.fields, nm@) < 0);
                                assert(first_field_idx(f.fields, names@[k as int]@) < 0);
                                let nviews = strings_views(names@);
                                assert(nviews[k as int] == names@[k as int]@);
                                assert(!names_ok_seq(f.fields, nviews));
                                assert(self.columns is Some);
                                let ns = self.columns.unwrap();
                                assert(ns == *names);
                                assert(strings_views(ns@) == nviews);
                                assert(!self.spec_names_ok(f.fields)) by {
                                    if self.spec_names_ok(f.fields) {
                                        assert(names_ok_seq(f.fields, strings_views(ns@)));
                                    }
                                }
                            }
                            return Err(CoreError::NameResolution);
                        },
                    }
                    k = k + 1;
                }
                proof {
                    assert(p@ =~= Seq::new(
                        names@.len(),
                        |k: int| first_field_idx(f.fields, names@[k]@) as usize,
                    ));
                    let nviews = strings_views(names@);
                    assert(names_ok_seq(f.fields, nviews)) by {
                        assert forall|k: int| 0 <= k < nviews.len() implies (
                        #[trigger] first_field_idx(f.fields, nviews[k])) >= 0 by {
                            assert(nviews[k] == names@[k]@);
                            assert(first_field_idx(f.fields, names@[k]@) == p@[k]);
                        }
                    }
                    assert(self.spec_names_ok(f.fields));
                }
                Some(p)
            },
            None => match &self.projection {
                Some(p0) => {
                    let mut cp: Vec<usize> = Vec::new();
                    let mut j: usize = 0;
                    while j < p0.len()
                        invariant
                            j <= p0@.len(),
                            cp@ =~= p0@.take(j as int),
                        decreases p0@.len() - j,
                    {
                        cp.push(p0[j]);
                        proof {
                            assert(p0@.take(j + 1) =~= p0@.take(j as int).push(p0@[j as int]));
                        }
                        j = j + 1;
                    }
                    proof {
                        assert(p0@.take(p0@.len() as int) =~= p0@);
                        assert(cp@ == p0@);
                    }
                    Some(cp)
                },
                None => None,
            },
        };
        let ghost projopt = self.spec_effective_proj(f.fields);
        proof {
            match &proj_eff {
                Some(p) => {
                    match &self.columns {
                        Some(names) => {
                            let ns = self.columns.unwrap();
                            assert(ns == *names);
                            assert(projopt matches Some(q) && q =~= p@);
                        },
                        None => {
                            assert(projopt matches Some(q) && q == p@);
                        },
                    }
                    assert(projopt == Some(p@));
                },
                None => {
                    assert(projopt is None);
                },
            }
        }
        // the column heights must agree, or the file is corrupt
        let h_full: usize = if cols_all.len() > 0 {
            cols_all[0].cell_count()
        } else {
            0
        };
        let mut ci: usize = 0;
        while ci < cols_all.len()
            invariant
                ci <= cols_all@.len(),
                coldata_views(cols_all@) == f.cols,
                h_full == (if f.cols.len() == 0 {
                    0int
                } else {
                    f.cols[0].len() as int
                }),
                forall|j: int| 0 <= j < ci ==> (#[trigger] f.cols[j]).len() == h_full,
            decreases cols_all@.len() - ci,
        {
            if cols_all[ci].cell_count() != h_full {
                proof {
                    assert(f.cols[ci as int].len() != f.cols[0].len());
                }
                return Err(CoreError::FormatCorruption);
            }
            ci = ci + 1;
        }
        proof {
            assert(forall|j: int|
                0 <= j < f.cols.len() ==> (#[trigger] f.cols[j]).len() == f.cols[0].len());
        }
        // a positional projection must be in range and duplicate-free
        if let Some(p) = &proj_eff {
            let mut k: usize = 0;
            while k < p.len()
                invariant
                    k <= p@.len(),
                    fields_view(fields@) == f.fields,
                    forall|j: int| 0 <= j < k ==> (#[trigger] p@[j]) < f.fields.len(),
                decreases p@.len() - k,
            {
                if p[k] >= fields.len() {
                    proof {
                        assert(!self.spec_proj_in_range(f));
                    }
                    return Err(CoreError::OutOfBounds);
                }
                k = k + 1;
            }
            let mut a: usize = 0;
            while a < p.len()
                invariant
                    a <= p@.len(),
                    forall|i1: int, i2: int|
                        0 <= i1 < a && i1 < i2 < p@.len() ==> p@[i1] != p@[i2],
                decreases p@.len() - a,
            {
                let mut b2: usize = a + 1;
                while b2 < p.len()
                    invariant
                        a < p@.len(),
                        a + 1 <= b2 <= p@.len(),
                        forall|i2: int| a < i2 < b2 ==> p@[a as int] != p@[i2],
                    decreases p@.len() - b2,
                {
                    if p[a] == p[b2] {
                        proof {
                            assert(!self.spec_proj_distinct(f));
                            assert(self.spec_proj_in_range(f));
                        }
                        return Err(CoreError::InvalidOperation);
                    }
                    b2 = b2 + 1;
                }
                a = a + 1;
            }
            proof {
                assert(distinct_seq(p@));
            }
        }
        proof {
            assert(self.spec_proj_in_range(f));
            assert(self.spec_proj_distinct(f));
        }
        let height: usize = match self.n_rows {
            Some(n) => if n <= h_full {
                n
            } else {
                h_full
            },
            None => h_full,
        };
        // materialize the selected columns, in ascending file order
        proof {
            crate::codec::lemma_dec_file_cols_len(self.bytes@);
            assert(f.cols.skip(0) =~= f.cols);
            assert(self.spec_names_ok(f.fields));
            match &proj_eff {
                Some(p) => {
                    lemma_count_less_zero(p@);
                    assert(distinct_seq(p@));
                    assert(forall|j: int| 0 <= j < p@.len() ==> (#[trigger] p@[j]) < f.fields.len());
                },
                None => {},
            }
        }
        let mut data_cols: Vec<Series> = Vec::new();
        let ghost mut srcs: Seq<usize> = Seq::empty();
        let mut remaining = cols_all;
        let mut i: usize = 0;
        while i < fields.len()
            invariant
                i <= fields@.len(),
                fields_view(fields@) == f.fields,
                f.cols.len() == f.fields.len(),
                coldata_views(remaining@) == f.cols.skip(i as int),
                forall|j: int| 0 <= j < f.cols.len() ==> (#[trigger] f.cols[j]).len() == h_full,
                height <= h_full,
                proj_eff matches Some(p) ==> {
                    &&& distinct_seq(p@)
                    &&& (forall|j: int| 0 <= j < p@.len() ==> (#[trigger] p@[j]) < f.fields.len())
                    &&& data_cols@.len() == count_less(p@, i as usize)
                },
                proj_eff is None ==> data_cols@.len() == i,
                srcs.len() == data_cols@.len(),
                forall|r: int|
                    0 <= r < srcs.len() ==> {
                        &&& (#[trigger] srcs[r]) < i
                        &&& (proj_eff matches Some(p) ==> p@.contains(srcs[r]) && r
                            == count_less(p@, srcs[r]))
                        &&& (proj_eff is None ==> srcs[r] == r)
                    },
                forall|r: int|
                    0 <= r < data_cols@.len() ==> {
                        &&& (#[trigger] data_cols@[r]).wf()
                        &&& data_cols@[r].name_spec() == f.fields[srcs[r] as int].name
                        &&& data_cols@[r].view() == col_take(
                            f.cols[srcs[r] as int],
                            height as int,
                        )
                        &&& data_cols@[r].spec_len() == height
                    },
            decreases fields@.len() - i,
        {
            let ghost pre_remaining = remaining@;
            proof {
                assert(coldata_views(remaining@).len() == remaining@.len());
                assert(f.cols.skip(i as int).len() == f.cols.len() - i);
                assert(remaining@.len() > 0);
            }
            let cd = remaining.remove(0);
            proof {
                assert(cd.view_cells() == coldata_views(pre_remaining)[0]);
                assert(coldata_views(pre_remaining)[0] == f.cols[i as int]);
                assert(coldata_views(remaining@) =~= f.cols.skip(i + 1)) by {
                    assert(remaining@ =~= pre_remaining.drop_first());
                    assert(coldata_views(remaining@) =~= coldata_views(pre_remaining).skip(1));
                    assert(coldata_views(pre_remaining) =~= f.cols.skip(i as int));
                    assert(f.cols.skip(i as int).skip(1) =~= f.cols.skip(i + 1));
                }
            }
            let selected = match &proj_eff {
                Some(p) => contains_usize(p, i),
                None => true,
            };
            if selected {
                let s = coldata_into_series(cd, fields[i].name.as_str());
                let s2 = s.slice(0i64, height);
                proof {
                    crate::frame::lemma_view_len(s2);
                    assert(s2.view() == col_take(f.cols[i as int], height as int)) by {
                        lemma_slice_is_take(s, s2, height as int);
                    }
                }
                data_cols.push(s2);
                proof {
                    match &proj_eff {
                        Some(p) => {
                            lemma_count_at_contains(p@, i as usize);
                            lemma_count_at_le1(p@, i as usize);
                        },
                        None => {},
                    }
                    srcs = srcs.push(i as usize);
                }
            }
            proof {
                match &proj_eff {
                    Some(p) => {
                        lemma_count_less_succ(p@, i as usize);
                        if !p@.contains(i as usize) {
                            lemma_count_at_contains(p@, i as usize);
                        }
                    },
                    None => {},
                }
            }
            i = i + 1;
        }
        proof {
            match &proj_eff {
                Some(p) => {
                    lemma_count_less_all(p@, fields@.len() as usize);
                    assert(data_cols@.len() == p@.len());
                    assert forall|k: int| 0 <= k < p@.len() implies #[trigger] srcs[rank(
                        p@,
                        k,
                    )] == p@[k] by {
                        lemma_rank_lt(p@, k);
                        let m = srcs[rank(p@, k)];
                        assert(p@.contains(m) && rank(p@, k) == count_less(p@, m));
                        let wi = choose|wi: int| 0 <= wi < p@.len() && p@[wi] == m;
                        if m < p@[k] {
                            lemma_count_less_strict(p@, m, p@[k], wi);
                        } else if p@[k] < m {
                            lemma_count_less_strict(p@, p@[k], m, k);
                        }
                    }
                },
                None => {},
            }
        }
        // the synthesized leading row-count column
        let mut all_cols: Vec<Series> = Vec::new();
        proof {
            assert(height == self.spec_height(f));
        }
        if let Some(rc) = &self.row_count {
            if rc.offset as u64 > 0x7fff_ffff_ffff_ffffu64 || height as u64
                > 0x7fff_ffff_ffff_ffffu64 - rc.offset as u64 {
                proof {
                    assert(self.row_count matches Some(x) && x == *rc);
                    assert(!self.spec_rc_ok(f));
                }
                return Err(CoreError::InvalidOperation);
            }
            let mut vals: Vec<i64> = Vec::new();
            let mut t: usize = 0;
            while t < height
                invariant
                    t <= height,
                    height + rc.offset <= 0x7fff_ffff_ffff_ffff,
                    vals@.len() == t,
                    forall|j: int| 0 <= j < t ==> vals@[j] == (rc.offset + j) as i64,
                decreases height - t,
            {
                let v64: u64 = rc.offset as u64 + t as u64;
                vals.push(v64 as i64);
                t = t + 1;
            }
            let rc_series = Series::new_int64(rc.name.as_str(), vals);
            proof {
                assert(rc_series.view() == ColCells::Ints(
                    Seq::new(height as nat, |j: int| Some((rc.offset + j) as i64)),
                )) by {
                    assert(Seq::new(vals@.len(), |j: int| Some(vals@[j])) =~= Seq::new(
                        height as nat,
                        |j: int| Some((rc.offset + j) as i64),
                    ));
                }
                crate::frame::lemma_view_len(rc_series);
            }
            all_cols.push(rc_series);
            proof {
                assert(self.row_count matches Some(x) && x == *rc);
                assert(all_cols@[0].name_spec() == rc.name@);
                assert(all_cols@[0].spec_len() == height);
            }
        }
        proof {
            assert(self.spec_rc_ok(f));
        }
        let rc_present: bool = self.row_count.is_some();
        let ghost rc_is_some = self.row_count is Some;
        let ghost off: int = if rc_is_some {
            1
        } else {
            0
        };
        let ghost p_ghost0 = proj_eff;
        let ghost rcpart = all_cols@;
        let ghost dseq = data_cols@;
        all_cols.append(&mut data_cols);
        proof {
            assert(all_cols@ == rcpart + dseq);
            assert(rcpart.len() == off);
        }
        // assemble; a name clash (within the file, or with the row-count
        // name) cannot form a frame
        let ghost assembled = rcpart + dseq;
        let ghost anames = Seq::new(assembled.len(), |t: int| assembled[t].name_spec());
        proof {
            assert(anames.len() == off + srcs.len());
            if rc_is_some {
                assert(assembled[0] == rcpart[0]);
                assert(anames[0] == self.row_count.unwrap().name@);
            }
            assert forall|r: int|
                0 <= r < srcs.len() implies anames[off + r] == f.fields[(#[trigger] srcs[
                r]) as int].name by {
                assert(assembled[off + r] == dseq[r]);
            }
            lemma_out_names_iff(self, f, srcs, anames, off);
        }
        let df_sorted = match DataFrame::new(all_cols) {
            Ok(d) => d,
            Err(_) => {
                proof {
                    // every assembled column has the read's height, so
                    // the only way assembly fails is a name clash
                    assert forall|t: int|
                        0 <= t < assembled.len() implies (#[trigger] assembled[t]).spec_len()
                        == height as nat by {
                        if t >= off {
                            assert(assembled[t] == dseq[t - off]);
                        }
                    }
                    assert(!(forall|i1: int, i2: int|
                        0 <= i1 < i2 < assembled.len() ==> assembled[i1].name_spec()
                            != assembled[i2].name_spec()));
                    assert(!(forall|i1: int, i2: int|
                        0 <= i1 < i2 < anames.len() ==> anames[i1] != anames[i2])) by {
                        if forall|i1: int, i2: int|
                            0 <= i1 < i2 < anames.len() ==> anames[i1] != anames[i2] {
                            assert forall|i1: int, i2: int|
                                0 <= i1 < i2 < assembled.len() implies (#[trigger] assembled[
                                i1]).name_spec() != (#[trigger] assembled[i2]).name_spec() by {
                                assert(anames[i1] == assembled[i1].name_spec());
                                assert(anames[i2] == assembled[i2].name_spec());
                            }
                        }
                    }
                    assert(!self.spec_out_names_ok(f));
                }
                return Err(CoreError::InvalidOperation);
            },
        };
        proof {
            // the frame formed, so the assembled names are distinct and
            // the requested output names are too
            assert forall|i1: int, i2: int|
                0 <= i1 < i2 < anames.len() implies anames[i1] != anames[i2] by {
                assert(df_sorted.columns@[i1].name_spec() != df_sorted.columns@[i2].name_spec());
                assert(df_sorted.columns@[i1] == assembled[i1]);
                assert(df_sorted.columns@[i2] == assembled[i2]);
            }
            assert(self.spec_out_names_ok(f));
        }
        let ghost sorted_cols = df_sorted.columns@;
        let mut dfs = df_sorted;
        if self.rechunk {
            dfs.rechunk();
        }
        proof {
            assert(dfs.columns@.len() == sorted_cols.len());
            assert(forall|j: int|
                0 <= j < sorted_cols.len() ==> (#[trigger] dfs.columns@[j]).name_spec()
                    == sorted_cols[j].name_spec() && dfs.columns@[j].view()
                    == sorted_cols[j].view());
        }
        let ghost p_ghost = proj_eff;
        let out = fix_column_order(dfs, proj_eff, rc_present);
        proof {
            assert(height == self.spec_height(f));
            match p_ghost {
                Some(p) => {
                    assert(projopt == Some(p@));
                },
                None => {
                    assert(projopt is None);
                },
            }
            lemma_finish_shape(
                self,
                f,
                out,
                dfs,
                sorted_cols,
                rcpart,
                dseq,
                srcs,
                projopt,
                off,
                height as int,
            );
            assert(self.spec_read_ok(f));
        }
        Ok(out)
    }

    /// Stream the file with an explicit projection, as the scan machinery
    /// hands one down; the reader's own name selection is not consulted.
    /// The result is exactly what `finish` returns for a reader over the
    /// same bytes configured with this projection and no name selection.
    pub fn finish_with_scan_ops(self, projection: Option<Vec<usize>>) -> (r: Result<
        DataFrame,
        CoreError,
    >)
        ensures
            ({
                let rd = (IpcReader { projection, columns: None, ..self });
                r is Ok <==> (dec_file(self.bytes@) matches Some(f) && rd.spec_read_ok(f))
            }),
            r == Err::<DataFrame, CoreError>(CoreError::FormatCorruption) <==> (dec_file(
                self.bytes@,
            ) is None || (dec_file(self.bytes@) matches Some(f) && exists|i: int|
                0 <= i < f.cols.len() && (#[trigger] f.cols[i]).len() != f.cols[0].len())),
            ({
                let rd = (IpcReader { projection, columns: None, ..self });
                r == Err::<DataFrame, CoreError>(CoreError::OutOfBounds) <==> (dec_file(
                    self.bytes@,
                ) matches Some(f) && rd.spec_heights_ok(f) && !rd.spec_proj_in_range(f))
            }),
            ({
                let rd = (IpcReader { projection, columns: None, ..self });
                r == Err::<DataFrame, CoreError>(CoreError::InvalidOperation) <==> (dec_file(
                    self.bytes@,
                ) matches Some(f) && rd.spec_heights_ok(f) && rd.spec_proj_in_range(f) && !(
                rd.spec_proj_distinct(f) && rd.spec_rc_ok(f) && rd.spec_out_names_ok(f)))
            }),
            r matches Ok(out) ==> (dec_file(self.bytes@) matches Some(f) && {
                let rd = (IpcReader { projection, columns: None, ..self });
                let height: int = rd.spec_height(f);
                let off: int = if self.row_count is Some {
                    1
                } else {
                    0
                };
                let width: int = rd.spec_out_width(f);
                &&& out.wf()
                &&& out.spec_width() == off + width
                &&& (self.row_count matches Some(rc) ==> out.columns@[0].name_spec() == rc.name@
                    && out.columns@[0].view() == ColCells::Ints(
                    Seq::new(height as nat, |i: int| Some((rc.offset + i) as i64)),
                ))
                &&& (forall|k: int|
                    0 <= k < width ==> (#[trigger] out.columns@[off + k]).name_spec() == f.fields[
                        rd.spec_src(f, k)].name && out.columns@[off + k].view() == col_take(
                        f.cols[rd.spec_src(f, k)],
                        height,
                    ))
            }),
            self.rechunk ==> (r matches Ok(out) ==> (forall|t: int|
                0 <= t < out.columns@.len() ==> (#[trigger] out.columns@[t]).chunk_lens().len()
                    == 1)),
    {
        let rd = IpcReader { projection, columns: None, ..self };
        let ghost rds = rd;
        let r = rd.finish();
        proof {
            assert(rds.bytes@ == self.bytes@ && rds.row_count == self.row_count
                && rds.n_rows == self.n_rows && rds.rechunk == self.rechunk);
            match &r {
                Ok(out) => {
                    let f = dec_file(self.bytes@).unwrap();
                    let projopt = rds.spec_effective_proj(f.fields);
                    let width = rds.spec_out_width(f);
                    let off: int = if self.row_count is Some {
                        1
                    } else {
                        0
                    };
                    let height = rds.spec_height(f);
                    let h_full: int = if f.cols.len() == 0 {
                        0
                    } else {
                        f.cols[0].len() as int
                    };
                    assert(height == (match rds.n_rows {
                        Some(n) => if n <= h_full {
                            n as int
                        } else {
                            h_full
                        },
                        None => h_full,
                    }));
                    assert(out.wf());
                    assert(out.spec_width() == off + width);
                    assert forall|k: int|
                        0 <= k < width implies (#[trigger] out.columns@[off + k]).name_spec()
                        == f.fields[rds.spec_src(f, k)].name && out.columns@[off + k].view()
                        == col_take(f.cols[rds.spec_src(f, k)], height) by {
                        assert(rds.spec_src(f, k) == (match projopt {
                            Some(p) => p[k] as int,
                            None => k,
                        }));
                        let offr: int = if rds.row_count is Some {
                            1
                        } else {
                            0
                        };
                        assert(offr == off);
                        assert(out.columns@[offr + k] == out.columns@[off + k]);
                        assert(out.columns@[offr + k].name_spec() == f.fields[rds.spec_src(
                            f,
                            k,
                        )].name);
                    }
                },
                Err(_) => {},
            }
        }
        r
    }
}

/// A slice from the front is a take of the view.
pub proof fn lemma_slice_is_take(s: Series, s2: Series, height: int)
    requires
        s.wf(),
        0 <= height <= s.spec_len(),
        match (s, s2) {
            (Series::Bool(a), Series::Bool(b)) => b.cells()
                == crate::series::slice_of(a.cells(), 0, height),
            (Series::Int64(a), Series::Int64(b)) => b.cells()
                == crate::series::slice_of(a.cells(), 0, height),
            (Series::Utf8(a), Series::Utf8(b)) => b.cells()
                == crate::series::slice_of(a.cells(), 0, height),
            _ => false,
        },
    ensures
        s2.view() == col_take(s.view(), height),
{
    match (s, s2) {
        (Series::Bool(a), Series::Bool(b)) => {
            assert(b.cells() =~= a.cells().take(height));
        },
        (Series::Int64(a), Series::Int64(b)) => {
            assert(b.cells() =~= a.cells().take(height));
        },
        (Series::Utf8(a), Series::Utf8(b)) => {
            assert(b.cells() =~= a.cells().take(height));
            assert(crate::series::str_cells_view(a.cells().take(height))
                =~= crate::series::str_cells_view(a.cells()).take(height));
        },
        _ => {},
    }
}

/// The on-wire descriptor and content of a frame: one field and one
/// column of cells per frame column, in frame order.
pub open spec fn frame_file(df: DataFrame) -> FileVal {
    FileVal {
        fields: Seq::new(
            df.columns@.len(),
            |i: int| FieldVal {
                name: df.columns@[i].name_spec(),
                dtype: df.columns@[i].dtype_spec(),
            },
        ),
        cols: Seq::new(df.columns@.len(), |i: int| df.columns@[i].view()),
    }
}

/// Write a frame into the interchange container held in an in-memory
/// buffer.
#[must_use]
pub struct IpcWriter {
    /// The encoded file, after `finish`.
    pub buf: Vec<u8>,
    /// The one writer-wide compression choice, applied to every batch.
    pub compression: Option<IpcCompression>,
}

impl IpcWriter {
    /// A writer with an empty buffer and no compression.
    pub fn new() -> (r: Self)
        ensures
            r.buf@ == Seq::<u8>::empty(),
            r.compression is None,
    {
        IpcWriter { buf: Vec::new(), compression: None }
    }

    /// Set the compression used; the default is none.
    pub fn with_compression(self, compression: Option<IpcCompression>) -> (r: Self)
        ensures
            r == (Self { compression, ..self }),
    {
        IpcWriter { compression, ..self }
    }

    /// Hand out the encoded bytes.
    pub fn into_inner(self) -> (r: Vec<u8>)
        ensures
            r@ == self.buf@,
    {
        self.buf
    }

    /// Serialize the frame: force a single chunk per column, write one
    /// record batch, the end-of-stream marker and the footer. On success
    /// the buffer decodes back to exactly the frame's schema and content;
    /// without compression writing always succeeds and the buffer is the
    /// canonical encoding.
    #[verifier::rlimit(100)]
    #[verifier::loop_isolation(false)]
    pub fn finish(&mut self, df: &mut DataFrame) -> (r: Result<(), CoreError>)
        requires
            old(df).wf(),
        ensures
            final(df).wf(),
            final(df).spec_width() == old(df).spec_width(),
            final(df).spec_height() == old(df).spec_height(),
            forall|i: int|
                0 <= i < final(df).columns@.len() ==> {
                    &&& (#[trigger] final(df).columns@[i]).view() == old(df).columns@[i].view()
                    &&& final(df).columns@[i].name_spec() == old(df).columns@[i].name_spec()
                    &&& final(df).columns@[i].chunk_lens().len() == 1
                },
            r is Ok ==> dec_file(final(self).buf@) == Some(frame_file(*old(df))),
            old(self).compression is None ==> r is Ok && final(self).buf@ == crate::codec::enc_file(
                frame_file(*old(df)),
                old(df).spec_height(),
            ),
            r == Err::<(), CoreError>(CoreError::InvalidOperation) <==> (old(self).compression
                == Some(IpcCompression::LZ4) && enc_cols(frame_file(*old(df)).cols).len()
                >= 0x1_0000_0000),
            (old(self).compression == Some(IpcCompression::LZ4) && enc_cols(
                frame_file(*old(df)).cols,
            ).len() < 0x1_0000_0000) ==> r is Ok,
            r == Err::<(), CoreError>(CoreError::IoFailure) ==> old(self).compression == Some(
                IpcCompression::ZSTD,
            ),
            r matches Err(e) ==> e == CoreError::InvalidOperation || e == CoreError::IoFailure,
            r is Err ==> *final(self) == *old(self),
    {
        let ghost ff = frame_file(*old(df));
        df.rechunk();
        let mut fields: Vec<Field> = Vec::new();
        let mut cols: Vec<ColData> = Vec::new();
        let mut i: usize = 0;
        while i < df.columns.len()
            invariant
                i <= df.columns@.len(),
                fields@.len() == i,
                cols@.len() == i,
                forall|j: int|
                    0 <= j < i ==> (#[trigger] fields@[j]).view_field() == ff.fields[j],
                forall|j: int| 0 <= j < i ==> (#[trigger] cols@[j]).view_cells() == ff.cols[j],
            decreases df.columns@.len() - i,
        {
            match &df.columns[i] {
                Series::Bool(ca) => {
                    fields.push(Field { name: ca.name.clone(), dtype: DType::Boolean });
                    cols.push(ColData::Bools(ca.to_cells_vec()));
                },
                Series::Int64(ca) => {
                    fields.push(Field { name: ca.name.clone(), dtype: DType::Int64 });
                    cols.push(ColData::Ints(ca.to_cells_vec()));
                },
                Series::Utf8(ca) => {
                    fields.push(Field { name: ca.name.clone(), dtype: DType::Utf8 });
                    cols.push(ColData::Strs(ca.to_cells_vec()));
                },
            }
            i = i + 1;
        }
        proof {
            assert(fields_view(fields@) =~= ff.fields);
            assert(coldata_views(cols@) =~= ff.cols);
        }
        let mut payload: Vec<u8> = Vec::new();
        emit_cols(&mut payload, &cols);
        proof {
            assert(Seq::new(cols@.len(), |j: int| cols@[j].view_cells()) =~= ff.cols);
            assert(payload@ == enc_cols(ff.cols));
        }
        let rows = df.height();
        let plen_exec: usize = payload.len();
        let ghost payload_view = payload@;
        proof {
            assert(payload_view.len() == plen_exec);
        }
        let (tag, mut stored): (u8, Vec<u8>) = match self.compression {
            None => (0u8, payload),
            Some(IpcCompression::LZ4) => {
                if payload.len() as u64 >= 0x1_0000_0000u64 {
                    proof {
                        assert(enc_cols(ff.cols).len() >= 0x1_0000_0000);
                    }
                    return Err(CoreError::InvalidOperation);
                }
                proof {
                    assert(enc_cols(ff.cols).len() < 0x1_0000_0000);
                }
                (1u8, crate::compress::lz4_compress(&payload))
            },
            Some(IpcCompression::ZSTD) => {
                match crate::compress::zstd_compress(&payload) {
                    Some(v) => (2u8, v),
                    None => {
                        return Err(CoreError::IoFailure);
                    },
                }
            },
        };
        let ghost stored_view = stored@;
        let mut out: Vec<u8> = Vec::new();
        out.push(MAGIC0);
        out.push(MAGIC1);
        out.push(MAGIC2);
        out.push(MAGIC3);
        out.push(1u8);
        out.push(tag);
        emit_u64(&mut out, rows as u64);
        emit_u64(&mut out, stored.len() as u64);
        out.append(&mut stored);
        out.push(0u8);
        let mut footer: Vec<u8> = Vec::new();
        emit_footer(&mut footer, &fields);
        let flen = footer.len();
        let ghost footer_view = footer@;
        out.append(&mut footer);
        emit_u64(&mut out, flen as u64);
        proof {
            assert(footer_view == enc_footer(ff.fields, 1));
            assert(out@ =~= crate::codec::enc_file_stored(ff, rows as nat, tag, stored_view));
            assert(wf_file(ff, rows as nat)) by {
                assert(ff.cols.len() == ff.fields.len());
                assert forall|j: int|
                    0 <= j < ff.cols.len() implies col_dtype_of(#[trigger] ff.cols[j])
                    == ff.fields[j].dtype by {
                    match old(df).columns@[j] {
                        Series::Bool(_) => {},
                        Series::Int64(_) => {},
                        Series::Utf8(_) => {},
                    }
                }
                assert forall|j: int|
                    0 <= j < ff.cols.len() implies (#[trigger] ff.cols[j]).len() == rows by {
                    crate::frame::lemma_view_len(old(df).columns@[j]);
                }
                crate::codec::lemma_footer_len_bound(ff.fields, 1);
                assert(footer_view.len() == 16 + enc_fields(ff.fields).len());
                assert(enc_cols(ff.cols).len() == payload_view.len());
            }
            assert(crate::codec::payload_raw(tag, stored_view) == Some(enc_cols(ff.cols)));
            lemma_round_trip_stored(ff, rows as nat, tag, stored_view);
        }
        self.buf = out;
        Ok(())
    }
}

/// The column-view type tag, for the writer's schema/type agreement
/// argument.
pub open spec fn col_dtype_of(c: ColCells) -> DType {
    crate::codec::col_dtype(c)
}

/// Options that later produce writers: one compression choice and the
/// destination extension used by higher-level format dispatch.
pub struct IpcWriterOption {
    pub compression: Option<IpcCompression>,
    pub extension: String,
}

impl IpcWriterOption {
    /// No compression and the customary extension.
    pub fn new() -> (r: Self)
        ensures
            r.compression is None,
            r.extension@ == ".ipc"@,
    {
        IpcWriterOption { compression: None, extension: ".ipc".to_owned() }
    }

    /// Set the compression used; the default is none.
    pub fn with_compression(self, compression: Option<IpcCompression>) -> (r: Self)
        ensures
            r == (Self { compression, ..self }),
    {
        IpcWriterOption { compression, ..self }
    }

    /// Set the extension; the default is ".ipc".
    pub fn with_extension(self, extension: String) -> (r: Self)
        ensures
            r == (Self { extension, ..self }),
    {
        IpcWriterOption { extension, ..self }
    }

    /// A writer configured with this option's compression.
    pub fn create_writer(&self) -> (r: IpcWriter)
        ensures
            r.buf@ == Seq::<u8>::empty(),
            r.compression == self.compression,
    {
        IpcWriter { buf: Vec::new(), compression: self.compression }
    }

    /// The configured destination extension.
    pub fn extension(&self) -> (r: &str)
        ensures
            r@ == self.extension@,
    {
        self.extension.as_str()
    }
}

impl Default for IpcWriterOption {
    /// The same configuration as `new`.
    fn default() -> (r: Self)
        ensures
            r.compression is None,
            r.extension@ == ".ipc"@,
    {
        IpcWriterOption::new()
    }
}

} // verus!
