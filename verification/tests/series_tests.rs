use columnar_ipc::chunked::{FillNullStrategy, IsSorted, SortOptions};
use columnar_ipc::error::CoreError;
use columnar_ipc::frame::DataFrame;
use columnar_ipc::hashing::random_state_with_seeds;
use columnar_ipc::series::{AnyValue, DType, Series};

fn asc() -> SortOptions {
    SortOptions { descending: false, nulls_last: false }
}

fn bools(name: &str, cells: Vec<Option<bool>>) -> Series {
    Series::new_opt_bool(name, cells)
}

fn cells_of(s: &Series) -> Vec<Option<bool>> {
    let mut out = Vec::new();
    let mut i = 0usize;
    while i < s.len() {
        match s.get(i) {
            AnyValue::Boolean(b) => out.push(Some(b)),
            AnyValue::Null => out.push(None),
            _ => panic!("boolean column expected"),
        }
        i += 1;
    }
    out
}

#[test]
fn sortedness_cache_after_sort_and_append() {
    let s = bools("f", vec![Some(true), None, Some(false), Some(true)]);
    let mut sorted = s.sort_with(asc()).unwrap();
    assert_eq!(sorted.is_sorted(), IsSorted::Ascending);
    assert_eq!(
        cells_of(&sorted),
        vec![None, Some(false), Some(true), Some(true)]
    );
    let desc = s
        .sort_with(SortOptions { descending: true, nulls_last: true })
        .unwrap();
    assert_eq!(desc.is_sorted(), IsSorted::Descending);
    assert_eq!(cells_of(&desc), vec![Some(true), Some(true), Some(false), None]);

    // any append conservatively clears the cache, even an in-order one
    let tail = bools("f", vec![Some(true)]);
    sorted.append(&tail).unwrap();
    assert_eq!(sorted.is_sorted(), IsSorted::Not);
}

#[test]
fn type_mismatch_append_leaves_both_unchanged() {
    let mut num = Series::new_int64("n", vec![1, 2, 3]);
    let txt = Series::new_utf8(
        "t",
        vec!["a".to_string(), "b".to_string(), "c".to_string()],
    );
    let before_num = num.clone_inner();
    let err = num.append(&txt).unwrap_err();
    assert_eq!(err, CoreError::SchemaMismatch);
    assert!(num.series_equal(&before_num));
    assert_eq!(txt.len(), 3);
    let err = num.extend(&txt).unwrap_err();
    assert_eq!(err, CoreError::SchemaMismatch);
    assert!(num.series_equal(&before_num));
}

#[test]
fn append_adds_chunks_extend_coalesces() {
    let mut a = bools("f", vec![Some(true), None]);
    let b = bools("f", vec![Some(false)]);
    a.append(&b).unwrap();
    assert_eq!(a.n_chunks(), 2);
    assert_eq!(a.len(), 3);
    let mut c = bools("f", vec![Some(true), None]);
    c.extend(&b).unwrap();
    assert_eq!(c.n_chunks(), 1);
    assert_eq!(cells_of(&c), vec![Some(true), None, Some(false)]);
}

#[test]
fn grouped_aggregation_consistency() {
    let s = bools(
        "f",
        vec![Some(true), Some(false), None, Some(true), Some(true), None, Some(false)],
    );
    let groups = s.group_tuples(false, true).unwrap();
    // pinned group order: null, false, true
    assert_eq!(groups.groups.len(), 3);
    assert_eq!(groups.groups[0], vec![2usize, 5]);
    assert_eq!(groups.groups[1], vec![1usize, 6]);
    assert_eq!(groups.groups[2], vec![0usize, 3, 4]);
    let sums = s.agg_sum(&groups).unwrap();
    // per group, the sum equals the sum over the independently-taken rows
    for (g, idxs) in groups.groups.iter().enumerate() {
        let taken = s
            .take(&columnar_ipc::chunked::ChunkedArray::<usize>::new(
                "idx",
                idxs.clone(),
            ))
            .unwrap();
        let taken_sum = match taken.sum_as_series().unwrap().get(0) {
            AnyValue::Int64(v) => v,
            _ => panic!("integer sum expected"),
        };
        match sums.get(g) {
            AnyValue::Int64(v) => assert_eq!(v, taken_sum),
            _ => panic!("integer sum expected"),
        }
    }
    let mins = s.agg_min(&groups).unwrap();
    assert_eq!(cells_of(&mins), vec![None, Some(false), Some(true)]);
    let maxs = s.agg_max(&groups).unwrap();
    assert_eq!(cells_of(&maxs), vec![None, Some(false), Some(true)]);
}

#[test]
fn multithreaded_hint_does_not_change_grouping() {
    let s = bools("f", vec![Some(true), None, Some(true), Some(false)]);
    let a = s.group_tuples(false, false).unwrap();
    let b = s.group_tuples(true, true).unwrap();
    assert_eq!(a.groups, b.groups);
}

#[test]
fn vec_hash_is_consistent_with_equality() {
    let rs = random_state_with_seeds(1, 2, 3, 4);
    let s = bools("f", vec![Some(true), None, Some(false), Some(true), None]);
    let hashes = s.vec_hash(&rs).unwrap();
    assert_eq!(hashes.len(), 5);
    assert_eq!(hashes[0], hashes[3]);
    assert_eq!(hashes[1], hashes[4]);
    let mut combined = hashes.clone();
    s.vec_hash_combine(&rs, &mut combined).unwrap();
    assert_eq!(combined.len(), 5);
    assert_eq!(combined[0], combined[3]);
    assert_eq!(combined[1], combined[4]);
}

#[test]
fn unique_family() {
    let s = bools("f", vec![Some(true), None, Some(true), Some(false), None]);
    let u = s.unique().unwrap();
    assert_eq!(cells_of(&u), vec![Some(true), None, Some(false)]);
    assert_eq!(s.n_unique().unwrap(), 3);
    let arg = s.arg_unique().unwrap();
    let mut firsts = Vec::new();
    let mut i = 0usize;
    while i < arg.len() {
        firsts.push(arg.get(i).unwrap());
        i += 1;
    }
    assert_eq!(firsts, vec![0usize, 1, 3]);
    let isu = s.is_unique().unwrap();
    assert_eq!(
        columnar_ipc::series::Series::Bool(isu).len(),
        5
    );
    let dup = s.is_duplicated().unwrap();
    let dup_series = Series::Bool(dup);
    assert_eq!(
        cells_of(&dup_series),
        vec![Some(true), Some(true), Some(true), Some(false), Some(true)]
    );
}

#[test]
fn arg_positions() {
    let s = bools("f", vec![None, Some(true), Some(false), Some(true)]);
    assert_eq!(s.arg_min(), Some(2));
    assert_eq!(s.arg_max(), Some(1));
    let t = s.arg_true().unwrap();
    assert_eq!(t.len(), 2);
    assert_eq!(t.get(0), Some(1));
    assert_eq!(t.get(1), Some(3));
    let all_null = bools("f", vec![None, None]);
    assert_eq!(all_null.arg_min(), None);
    assert_eq!(all_null.arg_max(), None);
}

#[test]
fn take_filter_and_errors() {
    let s = bools("f", vec![Some(true), None, Some(false)]);
    let idx = columnar_ipc::chunked::ChunkedArray::<usize>::new("i", vec![2, 0]);
    let taken = s.take(&idx).unwrap();
    assert_eq!(cells_of(&taken), vec![Some(false), Some(true)]);
    let bad = columnar_ipc::chunked::ChunkedArray::<usize>::new("i", vec![3]);
    assert_eq!(s.take(&bad).unwrap_err(), CoreError::OutOfBounds);
    let unchecked = s.take_unchecked(&idx).unwrap();
    assert_eq!(cells_of(&unchecked), vec![Some(false), Some(true)]);

    let mask = columnar_ipc::chunked::ChunkedArray::<bool>::new_opt(
        "m",
        vec![Some(true), Some(false), None],
    );
    let kept = s.filter(&mask).unwrap();
    assert_eq!(cells_of(&kept), vec![Some(true)]);
    let short_mask = columnar_ipc::chunked::ChunkedArray::<bool>::new("m", vec![true]);
    assert_eq!(s.filter(&short_mask).unwrap_err(), CoreError::InvalidOperation);
}

#[test]
fn shift_slice_reverse_take_every_expand() {
    let s = bools("f", vec![Some(true), Some(false), None, Some(true)]);
    assert_eq!(
        cells_of(&s.shift(1)),
        vec![None, Some(true), Some(false), None]
    );
    assert_eq!(
        cells_of(&s.shift(-2)),
        vec![None, Some(true), None, None]
    );
    assert_eq!(cells_of(&s.slice(1, 2)), vec![Some(false), None]);
    assert_eq!(cells_of(&s.slice(-2, 5)), vec![None, Some(true)]);
    assert_eq!(
        cells_of(&s.reverse()),
        vec![Some(true), None, Some(false), Some(true)]
    );
    assert_eq!(cells_of(&s.take_every(2)), vec![Some(true), None]);
    assert_eq!(
        cells_of(&s.expand_at_index(1, 3)),
        vec![Some(false), Some(false), Some(false)]
    );
}

#[test]
fn zip_with_same_type_selects_elementwise() {
    let a = bools("a", vec![Some(true), Some(true), None]);
    let b = bools("b", vec![Some(false), Some(false), Some(false)]);
    let mask = columnar_ipc::chunked::ChunkedArray::<bool>::new_opt(
        "m",
        vec![Some(true), None, Some(true)],
    );
    let z = a.zip_with_same_type(&mask, &b).unwrap();
    assert_eq!(cells_of(&z), vec![Some(true), Some(false), None]);
    let wrong = Series::new_int64("n", vec![1, 2, 3]);
    assert_eq!(
        a.zip_with_same_type(&mask, &wrong).unwrap_err(),
        CoreError::SchemaMismatch
    );
}

#[test]
fn fill_null_strategies() {
    let s = bools("f", vec![None, Some(true), None, Some(false), None]);
    assert_eq!(
        cells_of(&s.fill_null(FillNullStrategy::Forward).unwrap()),
        vec![None, Some(true), Some(true), Some(false), Some(false)]
    );
    assert_eq!(
        cells_of(&s.fill_null(FillNullStrategy::Backward).unwrap()),
        vec![Some(true), Some(true), Some(false), Some(false), None]
    );
    assert_eq!(
        cells_of(&s.fill_null(FillNullStrategy::Zero).unwrap()),
        vec![Some(false), Some(true), Some(false), Some(false), Some(false)]
    );
    assert_eq!(
        cells_of(&s.fill_null(FillNullStrategy::One).unwrap()),
        vec![Some(true), Some(true), Some(true), Some(false), Some(true)]
    );
    assert_eq!(
        cells_of(&s.fill_null(FillNullStrategy::Min).unwrap()),
        vec![Some(false), Some(true), Some(false), Some(false), Some(false)]
    );
    assert_eq!(
        cells_of(&s.fill_null(FillNullStrategy::Max).unwrap()),
        vec![Some(true), Some(true), Some(true), Some(false), Some(true)]
    );
    assert_eq!(
        s.fill_null(FillNullStrategy::Mean).unwrap_err(),
        CoreError::InvalidOperation
    );
}

#[test]
fn bit_operations() {
    let a = bools("a", vec![Some(true), Some(true), Some(false), None]);
    let b = bools("b", vec![Some(true), Some(false), Some(false), Some(true)]);
    assert_eq!(
        cells_of(&a.bitand(&b).unwrap()),
        vec![Some(true), Some(false), Some(false), None]
    );
    assert_eq!(
        cells_of(&a.bitor(&b).unwrap()),
        vec![Some(true), Some(true), Some(false), None]
    );
    assert_eq!(
        cells_of(&a.bitxor(&b).unwrap()),
        vec![Some(false), Some(true), Some(false), None]
    );
}

#[test]
fn casts_between_registered_types() {
    let b = bools("f", vec![Some(true), None, Some(false)]);
    let ints = b.cast(DType::Int64).unwrap();
    match ints.get(0) {
        AnyValue::Int64(v) => assert_eq!(v, 1),
        _ => panic!("integer expected"),
    }
    let back = ints.cast(DType::Boolean).unwrap();
    assert_eq!(cells_of(&back), vec![Some(true), None, Some(false)]);
    assert_eq!(
        b.cast(DType::Utf8).unwrap_err(),
        CoreError::InvalidOperation
    );
}

#[test]
fn null_bookkeeping_and_masks() {
    let s = bools("f", vec![Some(true), None, None]);
    assert_eq!(s.null_count(), 2);
    assert!(s.has_validity());
    let nn = Series::Bool(s.is_null());
    assert_eq!(cells_of(&nn), vec![Some(false), Some(true), Some(true)]);
    let vv = Series::Bool(s.is_not_null());
    assert_eq!(cells_of(&vv), vec![Some(true), Some(false), Some(false)]);
    let solid = bools("f", vec![Some(true), Some(false)]);
    assert_eq!(solid.null_count(), 0);
    assert!(!solid.has_validity());
}

#[test]
fn argsort_orders_positions() {
    let s = bools("f", vec![Some(true), None, Some(false)]);
    let idx = s.argsort(asc()).unwrap();
    assert_eq!(idx.get(0), Some(1));
    assert_eq!(idx.get(1), Some(2));
    assert_eq!(idx.get(2), Some(0));
}

#[test]
fn equal_element_and_min_max_series() {
    let a = bools("a", vec![Some(true), None]);
    let b = bools("b", vec![None, Some(true)]);
    assert!(a.equal_element(0, 1, &b));
    assert!(a.equal_element(1, 0, &b));
    assert!(!a.equal_element(0, 0, &b));
    let mn = a.min_as_series().unwrap();
    assert_eq!(cells_of(&mn), vec![Some(true)]);
    let mx = a.max_as_series().unwrap();
    assert_eq!(cells_of(&mx), vec![Some(true)]);
}

#[test]
fn frame_construction_rules() {
    let a = Series::new_int64("a", vec![1]);
    let a2 = Series::new_int64("a", vec![2]);
    let err = DataFrame::new(vec![a.clone_inner(), a2]).unwrap_err();
    assert_eq!(err, CoreError::InvalidOperation);
    let b = Series::new_int64("b", vec![1, 2]);
    let err = DataFrame::new(vec![a.clone_inner(), b]).unwrap_err();
    assert_eq!(err, CoreError::SchemaMismatch);
    let df = DataFrame::new(vec![a]).unwrap();
    assert_eq!(df.shape(), (1, 1));
    assert!(df.column("a").is_ok());
    assert_eq!(df.column("zz").unwrap_err(), CoreError::NameResolution);
}

#[test]
fn error_descriptions_are_short() {
    assert_eq!(CoreError::SchemaMismatch.describe(), "data types don't match");
    assert_eq!(CoreError::NameResolution.describe(), "column name not found");
}

#[test]
fn rename_and_set_sorted() {
    let mut s = bools("old", vec![Some(true)]);
    s.rename("new");
    assert_eq!(s.name(), "new");
    s.set_sorted(false);
    assert_eq!(s.is_sorted(), IsSorted::Ascending);
    s.set_sorted(true);
    assert_eq!(s.is_sorted(), IsSorted::Descending);
}

#[test]
fn zip_outer_join_column_merges_sides() {
    let left = Series::new_opt_int64("l", vec![Some(10), None, Some(30)]);
    let right = Series::new_opt_int64("r", vec![Some(7), Some(8)]);
    let tuples: Vec<(Option<usize>, Option<usize>)> = vec![
        (Some(0), Some(1)),
        (None, Some(0)),
        (Some(1), None),
        (None, None),
        (Some(2), Some(0)),
    ];
    let merged = left.zip_outer_join_column(&right, &tuples).unwrap();
    assert_eq!(merged.name(), "l");
    assert_eq!(merged.len(), 5);
    let expect = vec![Some(10i64), Some(7), None, None, Some(30)];
    for (i, e) in expect.iter().enumerate() {
        match (merged.get(i), e) {
            (AnyValue::Int64(v), Some(w)) => assert_eq!(v, *w),
            (AnyValue::Null, None) => {}
            _ => panic!("unexpected merged cell"),
        }
    }
    let bad: Vec<(Option<usize>, Option<usize>)> = vec![(Some(3), None)];
    assert_eq!(
        left.zip_outer_join_column(&right, &bad).unwrap_err(),
        CoreError::OutOfBounds
    );
    let wrong = Series::new_bool("b", vec![true]);
    assert_eq!(
        left.zip_outer_join_column(&wrong, &tuples).unwrap_err(),
        CoreError::SchemaMismatch
    );
}

#[test]
fn is_wf_audits_raw_frames() {
    let ok = DataFrame::new(vec![
        Series::new_int64("a", vec![1, 2]),
        Series::new_int64("b", vec![3, 4]),
    ])
    .unwrap();
    assert!(ok.is_wf());
    assert!(ok.get_columns()[0].is_wf());
    // a frame assembled from raw parts with a duplicate name fails the audit
    let raw = DataFrame {
        columns: vec![Series::new_int64("a", vec![1]), Series::new_int64("a", vec![2])],
    };
    assert!(!raw.is_wf());
    // and so does one with ragged heights
    let ragged = DataFrame {
        columns: vec![Series::new_int64("a", vec![1]), Series::new_int64("b", vec![2, 3])],
    };
    assert!(!ragged.is_wf());
}
