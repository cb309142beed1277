//! The ordered collection of uniquely-named, equal-length columns.
use vstd::prelude::*;

use crate::error::CoreError;
use crate::series::Series;

verus! {

/// An ordered sequence of uniquely-named, equal-length columns.
#[derive(Debug)]
pub struct DataFrame {
    pub columns: Vec<Series>,
}

impl DataFrame {
    /// Every column is well-formed, the names are pairwise distinct, and
    /// all columns have the same height.
    pub open spec fn wf(self) -> bool {
        &&& forall|i: int| 0 <= i < self.columns@.len() ==> (#[trigger] self.columns@[i]).wf()
        &&& forall|i: int, j: int|
            0 <= i < j < self.columns@.len() ==> self.columns@[i].name_spec()
                != self.columns@[j].name_spec()
        &&& forall|i: int|
            0 <= i < self.columns@.len() ==> (#[trigger] self.columns@[i]).spec_len()
                == self.spec_height()
    }

    pub open spec fn spec_width(self) -> nat {
        self.columns@.len()
    }

    pub open spec fn spec_height(self) -> nat {
        if self.columns@.len() == 0 {
            0
        } else {
            self.columns@[0].spec_len()
        }
    }

    pub open spec fn names(self) -> Seq<Seq<char>> {
        Seq::new(self.columns@.len(), |i: int| self.columns@[i].name_spec())
    }

    /// Assemble a frame, checking the invariant: duplicate names fail
    /// with `InvalidOperation`, unequal column heights with
    /// `SchemaMismatch`; the columns are kept in the given order.
    pub fn new(columns: Vec<Series>) -> (r: Result<DataFrame, CoreError>)
        requires
            forall|i: int| 0 <= i < columns@.len() ==> (#[trigger] columns@[i]).wf(),
        ensures
            r matches Ok(df) ==> df.columns@ == columns@ && df.wf(),
            r is Ok <==> {
                &&& (forall|i: int, j: int|
                    0 <= i < j < columns@.len() ==> columns@[i].name_spec()
                        != columns@[j].name_spec())
                &&& (forall|i: int|
                    0 <= i < columns@.len() ==> (#[trigger] columns@[i]).spec_len()
                        == (if columns@.len() == 0 {
                        0nat
                    } else {
                        columns@[0].spec_len()
                    }))
            },
            r matches Err(e) ==> (e == CoreError::InvalidOperation || e
                == CoreError::SchemaMismatch),
    {
        let mut i: usize = 0;
        while i < columns.len()
            invariant
                i <= columns@.len(),
                forall|k: int| 0 <= k < columns@.len() ==> (#[trigger] columns@[k]).wf(),
                forall|a: int, b: int|
                    0 <= a < b < i ==> columns@[a].name_spec() != columns@[b].name_spec(),
            decreases columns@.len() - i,
        {
            let mut j: usize = 0;
            while j < i
                invariant
                    j <= i,
                    i < columns@.len(),
                    forall|k: int| 0 <= k < columns@.len() ==> (#[trigger] columns@[k]).wf(),
                    forall|b: int|
                        0 <= b < j ==> columns@[b].name_spec() != columns@[i as int].name_spec(),
                decreases i - j,
            {
                if columns[j].name_eq(&columns[i]) {
                    return Err(CoreError::InvalidOperation);
                }
                j = j + 1;
            }
            i = i + 1;
        }
        if columns.len() > 0 {
            let h = columns[0].len();
            let mut k: usize = 1;
            while k < columns.len()
                invariant
                    1 <= k <= columns@.len(),
                    columns@.len() > 0,
                    forall|t: int| 0 <= t < columns@.len() ==> (#[trigger] columns@[t]).wf(),
                    h == columns@[0].spec_len(),
                    forall|t: int|
                        0 <= t < k ==> (#[trigger] columns@[t]).spec_len()
                            == columns@[0].spec_len(),
                decreases columns@.len() - k,
            {
                if columns[k].len() != h {
                    return Err(CoreError::SchemaMismatch);
                }
                k = k + 1;
            }
        }
        Ok(DataFrame { columns })
    }

    /// Assemble a frame whose invariant the caller has already
    /// established.
    pub fn new_no_checks(columns: Vec<Series>) -> (r: DataFrame)
        requires
            forall|i: int| 0 <= i < columns@.len() ==> (#[trigger] columns@[i]).wf(),
            forall|i: int, j: int|
                0 <= i < j < columns@.len() ==> columns@[i].name_spec()
                    != columns@[j].name_spec(),
            forall|i: int|
                0 <= i < columns@.len() ==> (#[trigger] columns@[i]).spec_len() == (if columns@.len()
                    == 0 {
                    0nat
                } else {
                    columns@[0].spec_len()
                }),
        ensures
            r.columns@ == columns@,
            r.wf(),
    {
        DataFrame { columns }
    }

    /// Audit the frame's invariant at run time: well-formed columns,
    /// pairwise-distinct names, one common height. Callers that build a
    /// frame from raw parts can test this before using checked
    /// operations.
    pub fn is_wf(&self) -> (r: bool)
        ensures
            r == self.wf(),
    {
        let mut i: usize = 0;
        while i < self.columns.len()
            invariant
                i <= self.columns@.len(),
                forall|j: int| 0 <= j < i ==> (#[trigger] self.columns@[j]).wf(),
                forall|a: int, b: int|
                    0 <= a < b < i ==> self.columns@[a].name_spec()
                        != self.columns@[b].name_spec(),
            decreases self.columns@.len() - i,
        {
            if !self.columns[i].is_wf() {
                return false;
            }
            let mut j: usize = 0;
            while j < i
                invariant
                    j <= i,
                    i < self.columns@.len(),
                    forall|t: int| 0 <= t < i ==> (#[trigger] self.columns@[t]).wf(),
                    forall|a: int, b: int|
                        0 <= a < b < i ==> self.columns@[a].name_spec()
                            != self.columns@[b].name_spec(),
                    forall|b: int|
                        0 <= b < j ==> self.columns@[b].name_spec() != self.columns@[
                            i as int].name_spec(),
                decreases i - j,
            {
                if self.columns[j].name_eq(&self.columns[i]) {
                    return false;
                }
                j = j + 1;
            }
            i = i + 1;
        }
        if self.columns.len() > 0 {
            let h = self.columns[0].len();
            let mut k: usize = 1;
            while k < self.columns.len()
                invariant
                    1 <= k <= self.columns@.len(),
                    self.columns@.len() > 0,
                    forall|t: int| 0 <= t < self.columns@.len() ==> (#[trigger] self.columns@[t]).wf(),
                    h == self.columns@[0].spec_len(),
                    forall|t: int|
                        0 <= t < k ==> (#[trigger] self.columns@[t]).spec_len()
                            == self.columns@[0].spec_len(),
                decreases self.columns@.len() - k,
            {
                if self.columns[k].len() != h {
                    return false;
                }
                k = k + 1;
            }
        }
        true
    }

    /// The columns, in order.
    pub fn get_columns(&self) -> (r: &Vec<Series>)
        ensures
            r == &self.columns,
    {
        &self.columns
    }

    /// The number of columns.
    pub fn width(&self) -> (r: usize)
        ensures
            r == self.spec_width(),
    {
        self.columns.len()
    }

    /// The number of rows.
    pub fn height(&self) -> (r: usize)
        requires
            self.wf(),
        ensures
            r == self.spec_height(),
    {
        if self.columns.len() == 0 {
            0
        } else {
            self.columns[0].len()
        }
    }

    /// Rows and columns.
    pub fn shape(&self) -> (r: (usize, usize))
        requires
            self.wf(),
        ensures
            r.0 == self.spec_height(),
            r.1 == self.spec_width(),
    {
        (self.height(), self.width())
    }

    /// The position of the column with the given name, if any.
    pub fn find_idx_by_name(&self, name: &str) -> (r: Option<usize>)
        ensures
            r matches Some(i) ==> i < self.spec_width() && self.columns@[i as int].name_spec()
                == name@ && (forall|j: int|
                0 <= j < i ==> self.columns@[j].name_spec() != name@),
            r is None ==> forall|j: int|
                0 <= j < self.spec_width() ==> (#[trigger] self.columns@[j]).name_spec() != name@,
    {
        let mut i: usize = 0;
        while i < self.columns.len()
            invariant
                i <= self.spec_width(),
                forall|j: int| 0 <= j < i ==> (#[trigger] self.columns@[j]).name_spec() != name@,
            decreases self.spec_width() - i,
        {
            if self.columns[i].name_matches(name) {
                return Some(i);
            }
            i = i + 1;
        }
        None
    }

    /// The column with the given name; an absent name fails with
    /// `NameResolution`.
    pub fn column(&self, name: &str) -> (r: Result<&Series, CoreError>)
        ensures
            r is Ok <==> (exists|j: int|
                0 <= j < self.spec_width() && (#[trigger] self.columns@[j]).name_spec() == name@),
            r matches Ok(s) ==> exists|j: int|
                0 <= j < self.spec_width() && s == &self.columns@[j] && (#[trigger] self.columns@[j]).name_spec() == name@,
            r matches Err(e) ==> e == CoreError::NameResolution,
    {
        match self.find_idx_by_name(name) {
            Some(i) => {
                let s = &self.columns[i];
                proof {
                    assert(0 <= i < self.spec_width() && self.columns@[i as int].name_spec()
                        == name@);
                }
                Ok(s)
            },
            None => Err(CoreError::NameResolution),
        }
    }

    /// Coalesce every column to a single chunk; contents are unchanged.
    pub fn rechunk(&mut self)
        requires
            old(self).wf(),
        ensures
            final(self).wf(),
            final(self).spec_width() == old(self).spec_width(),
            final(self).spec_height() == old(self).spec_height(),
            forall|i: int|
                0 <= i < final(self).columns@.len() ==> {
                    &&& (#[trigger] final(self).columns@[i]).view() == old(self).columns@[i].view()
                    &&& final(self).columns@[i].name_spec() == old(self).columns@[i].name_spec()
                    &&& final(self).columns@[i].dtype_spec() == old(self).columns@[i].dtype_spec()
                    &&& final(self).columns@[i].chunk_lens().len() == 1
                },
    {
        let mut fresh: Vec<Series> = Vec::new();
        let mut i: usize = 0;
        while i < self.columns.len()
            invariant
                i <= self.columns@.len(),
                self == old(self),
                old(self).wf(),
                fresh@.len() == i,
                forall|j: int|
                    0 <= j < i ==> {
                        &&& (#[trigger] fresh@[j]).wf()
                        &&& fresh@[j].view() == old(self).columns@[j].view()
                        &&& fresh@[j].name_spec() == old(self).columns@[j].name_spec()
                        &&& fresh@[j].dtype_spec() == old(self).columns@[j].dtype_spec()
                        &&& fresh@[j].spec_len() == old(self).columns@[j].spec_len()
                        &&& fresh@[j].chunk_lens().len() == 1
                    },
            decreases self.columns@.len() - i,
        {
            let rc = self.columns[i].rechunk();
            proof {
                assert(rc.spec_len() == rc.view().len() && self.columns@[i as int].spec_len()
                    == self.columns@[i as int].view().len()) by {
                    lemma_view_len(rc);
                    lemma_view_len(self.columns@[i as int]);
                }
            }
            fresh.push(rc);
            i = i + 1;
        }
        self.columns = fresh;
    }

    /// Whether two frames are logically equal: same column names, in the
    /// same order, with the same values and null positions (chunking is
    /// ignored).
    pub fn frame_equal(&self, other: &DataFrame) -> (r: bool)
        requires
            self.wf(),
            other.wf(),
        ensures
            r == (self.spec_width() == other.spec_width() && (forall|i: int|
                0 <= i < self.spec_width() ==> (#[trigger] self.columns@[i]).name_spec()
                    == other.columns@[i].name_spec() && (#[trigger] self.columns@[i]).view()
                    == other.columns@[i].view())),
    {
        if self.columns.len() != other.columns.len() {
            return false;
        }
        let mut i: usize = 0;
        while i < self.columns.len()
            invariant
                i <= self.spec_width(),
                self.wf(),
                other.wf(),
                self.spec_width() == other.spec_width(),
                forall|j: int|
                    0 <= j < i ==> (#[trigger] self.columns@[j]).name_spec()
                        == other.columns@[j].name_spec() && (#[trigger] self.columns@[j]).view()
                        == other.columns@[j].view(),
            decreases self.spec_width() - i,
        {
            if !self.columns[i].series_equal(&other.columns[i]) {
                return false;
            }
            i = i + 1;
        }
        true
    }
}

/// A column's view has exactly one entry per cell.
pub proof fn lemma_view_len(s: Series)
    ensures
        s.view().len() == s.spec_len(),
{
    match s {
        Series::Bool(_) => {},
        Series::Int64(_) => {},
        Series::Utf8(_) => {},
    }
}

} // verus!
