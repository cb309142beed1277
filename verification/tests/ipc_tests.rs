use columnar_ipc::frame::DataFrame;
use columnar_ipc::error::CoreError;
use columnar_ipc::ipc::{IpcCompression, IpcReader, IpcWriter, IpcWriterOption, RowCount};
use columnar_ipc::series::{AnyValue, Series};

fn create_df() -> DataFrame {
    let s0 = Series::new_int64("days", vec![0, 1, 2, 3, 4]);
    let s1 = Series::new_int64("temp", vec![22, 19, 7, 2, 3]);
    DataFrame::new(vec![s0, s1]).unwrap()
}

fn abc_df() -> DataFrame {
    DataFrame::new(vec![
        Series::new_int64("a", vec![1, 2, 3]),
        Series::new_int64("b", vec![2, 3, 4]),
        Series::new_int64("c", vec![3, 4, 5]),
    ])
    .unwrap()
}

fn write_bytes(df: &mut DataFrame) -> Vec<u8> {
    let mut w = IpcWriter::new();
    w.finish(df).expect("ipc writer");
    w.into_inner()
}

#[test]
fn write_and_read_ipc() {
    let mut df = create_df();
    let buf = write_bytes(&mut df);
    let df_read = IpcReader::new(buf).finish().unwrap();
    assert!(df.frame_equal(&df_read));
}

#[test]
fn test_read_ipc_with_projection() {
    let mut df = abc_df();
    let buf = write_bytes(&mut df);

    let expected = DataFrame::new(vec![
        Series::new_int64("b", vec![2, 3, 4]),
        Series::new_int64("c", vec![3, 4, 5]),
    ])
    .unwrap();
    let df_read = IpcReader::new(buf)
        .with_projection(Some(vec![1, 2]))
        .finish()
        .unwrap();
    assert_eq!(df_read.shape(), (3, 2));
    assert!(df_read.frame_equal(&expected));
}

#[test]
fn test_read_ipc_with_columns() {
    let mut df = abc_df();
    let buf = write_bytes(&mut df);

    let expected = DataFrame::new(vec![
        Series::new_int64("c", vec![3, 4, 5]),
        Series::new_int64("b", vec![2, 3, 4]),
    ])
    .unwrap();
    let df_read = IpcReader::new(buf)
        .with_columns(Some(vec!["c".to_string(), "b".to_string()]))
        .finish()
        .unwrap();
    assert!(df_read.frame_equal(&expected));

    let mut df = DataFrame::new(vec![
        Series::new_utf8("a", vec!["x".to_string(), "y".to_string(), "z".to_string()]),
        Series::new_int64("b", vec![123, 456, 789]),
        Series::new_int64("c", vec![4, 10, 10]),
        Series::new_utf8(
            "d",
            vec!["misc".to_string(), "other".to_string(), "value".to_string()],
        ),
    ])
    .unwrap();
    let buf = write_bytes(&mut df);
    let expected = DataFrame::new(vec![
        Series::new_utf8("a", vec!["x".to_string(), "y".to_string(), "z".to_string()]),
        Series::new_int64("c", vec![4, 10, 10]),
        Series::new_utf8(
            "d",
            vec!["misc".to_string(), "other".to_string(), "value".to_string()],
        ),
        Series::new_int64("b", vec![123, 456, 789]),
    ])
    .unwrap();
    let df_read = IpcReader::new(buf)
        .with_columns(Some(vec![
            "a".to_string(),
            "c".to_string(),
            "d".to_string(),
            "b".to_string(),
        ]))
        .finish()
        .unwrap();
    assert!(df_read.frame_equal(&expected));
}

#[test]
fn test_write_with_compression() {
    let mut df = create_df();

    let compressions = vec![None, Some(IpcCompression::LZ4), Some(IpcCompression::ZSTD)];

    for compression in compressions.into_iter() {
        let mut w = IpcWriter::new().with_compression(compression);
        w.finish(&mut df).expect("ipc writer");
        let buf = w.into_inner();
        let df_read = IpcReader::new(buf)
            .finish()
            .expect(&format!("IPC reader: {:?}", compression));
        assert!(df.frame_equal(&df_read));
    }
}

#[test]
fn write_and_read_ipc_empty_series() {
    let empty: Vec<i64> = Vec::new();
    let s = Series::new_int64("empty", empty);
    let mut df = DataFrame::new(vec![s]).unwrap();
    let buf = write_bytes(&mut df);
    let df_read = IpcReader::new(buf).finish().unwrap();
    assert!(df.frame_equal(&df_read));
}

#[test]
fn round_trip_keeps_types_nulls_and_chunks() {
    let mut bools = Series::new_opt_bool("flags", vec![Some(true), None, Some(false)]);
    let more = Series::new_opt_bool("flags", vec![None, Some(true), None]);
    bools.append(&more).unwrap();
    assert_eq!(bools.n_chunks(), 2);
    let mut ints = Series::new_opt_int64("nums", vec![Some(-5), Some(0), None, Some(7), None, Some(9)]);
    ints.rename("nums");
    let strs = Series::new_opt_utf8(
        "words",
        vec![
            Some("alpha".to_string()),
            None,
            Some("".to_string()),
            Some("betagamma".to_string()),
            None,
            Some("z".to_string()),
        ],
    );
    let mut df = DataFrame::new(vec![bools, ints, strs]).unwrap();
    for compression in [None, Some(IpcCompression::LZ4), Some(IpcCompression::ZSTD)] {
        let mut w = IpcWriter::new().with_compression(compression);
        w.finish(&mut df).unwrap();
        let df_read = IpcReader::new(w.into_inner()).finish().unwrap();
        assert!(df.frame_equal(&df_read));
    }
}

#[test]
fn row_count_synthesis() {
    let mut df = create_df();
    let buf = write_bytes(&mut df);
    let df_read = IpcReader::new(buf)
        .with_row_count(Some(RowCount { name: "rc".to_string(), offset: 5 }))
        .finish()
        .unwrap();
    assert_eq!(df_read.shape(), (5, 3));
    let rc = &df_read.get_columns()[0];
    assert_eq!(rc.name(), "rc");
    for i in 0..5usize {
        match rc.get(i) {
            AnyValue::Int64(v) => assert_eq!(v, (5 + i) as i64),
            _ => panic!("row-count column must hold integers"),
        }
    }
    // the other requested columns are unaffected
    assert!(df_read.get_columns()[1].series_equal(&df.get_columns()[0]));
    assert!(df_read.get_columns()[2].series_equal(&df.get_columns()[1]));
}

#[test]
fn row_count_not_counted_in_projection_indices() {
    let mut df = abc_df();
    let buf = write_bytes(&mut df);
    let df_read = IpcReader::new(buf)
        .with_projection(Some(vec![2, 0]))
        .with_row_count(Some(RowCount { name: "rc".to_string(), offset: 0 }))
        .finish()
        .unwrap();
    assert_eq!(df_read.shape(), (3, 3));
    assert_eq!(df_read.get_columns()[0].name(), "rc");
    assert_eq!(df_read.get_columns()[1].name(), "c");
    assert_eq!(df_read.get_columns()[2].name(), "a");
}

#[test]
fn name_resolution_failure() {
    let mut df = abc_df();
    let buf = write_bytes(&mut df);
    let err = IpcReader::new(buf)
        .with_columns(Some(vec!["a".to_string(), "zz".to_string()]))
        .finish()
        .unwrap_err();
    assert_eq!(err, CoreError::NameResolution);
}

#[test]
fn projection_out_of_range_fails() {
    let mut df = abc_df();
    let buf = write_bytes(&mut df);
    let err = IpcReader::new(buf)
        .with_projection(Some(vec![0, 3]))
        .finish()
        .unwrap_err();
    assert_eq!(err, CoreError::OutOfBounds);
}

#[test]
fn projection_duplicate_fails() {
    let mut df = abc_df();
    let buf = write_bytes(&mut df);
    let err = IpcReader::new(buf)
        .with_projection(Some(vec![1, 1]))
        .finish()
        .unwrap_err();
    assert_eq!(err, CoreError::InvalidOperation);
}

#[test]
fn corrupt_bytes_fail_with_format_corruption() {
    let err = IpcReader::new(vec![1, 2, 3, 4, 5]).finish().unwrap_err();
    assert_eq!(err, CoreError::FormatCorruption);

    let mut df = abc_df();
    let mut buf = write_bytes(&mut df);
    // truncating the file breaks the footer accounting
    buf.pop();
    let err = IpcReader::new(buf).finish().unwrap_err();
    assert_eq!(err, CoreError::FormatCorruption);
}

#[test]
fn n_rows_limits_the_read() {
    let mut df = create_df();
    let buf = write_bytes(&mut df);
    let df_read = IpcReader::new(buf).with_n_rows(Some(2)).finish().unwrap();
    assert_eq!(df_read.shape(), (2, 2));
    match df_read.get_columns()[0].get(1) {
        AnyValue::Int64(v) => assert_eq!(v, 1),
        _ => panic!("unexpected cell"),
    }
}

#[test]
fn schema_reads_metadata_only() {
    let mut df = abc_df();
    let buf = write_bytes(&mut df);
    let rd = IpcReader::new(buf);
    let schema = rd.schema().unwrap();
    assert_eq!(schema.fields.len(), 3);
    assert_eq!(schema.fields[0].name, "a");
    assert_eq!(schema.fields[2].name, "c");
    let arrow = rd.arrow_schema().unwrap();
    assert_eq!(arrow.fields.len(), 3);
    let df_read = rd.finish().unwrap();
    assert!(df.frame_equal(&df_read));
}

#[test]
fn concrete_projection_example() {
    // write a three-by-three frame, read columns one and two back
    let mut df = abc_df();
    let buf = write_bytes(&mut df);
    let df_read = IpcReader::new(buf)
        .with_projection(Some(vec![1, 2]))
        .finish()
        .unwrap();
    assert_eq!(df_read.shape(), (3, 2));
    let expected = DataFrame::new(vec![
        Series::new_int64("b", vec![2, 3, 4]),
        Series::new_int64("c", vec![3, 4, 5]),
    ])
    .unwrap();
    assert!(df_read.frame_equal(&expected));
}

#[test]
fn writer_option_defaults() {
    let opt = IpcWriterOption::new();
    assert_eq!(opt.extension(), ".ipc");
    let opt = IpcWriterOption::default()
        .with_compression(Some(IpcCompression::LZ4))
        .with_extension(".feather".to_string());
    assert_eq!(opt.extension(), ".feather");
    let mut w = opt.create_writer();
    let mut df = abc_df();
    w.finish(&mut df).unwrap();
    let df_read = IpcReader::new(w.into_inner()).finish().unwrap();
    assert!(df.frame_equal(&df_read));
}

#[test]
fn set_rechunk_controls_chunking() {
    let mut df = abc_df();
    let buf = write_bytes(&mut df);
    let df_read = IpcReader::new(buf).set_rechunk(false).finish().unwrap();
    assert!(df.frame_equal(&df_read));
    for c in df_read.get_columns() {
        assert_eq!(c.n_chunks(), 1);
    }
}

#[test]
fn finish_with_scan_ops_applies_projection() {
    let mut df = abc_df();
    let buf = write_bytes(&mut df);
    let df_read = IpcReader::new(buf)
        .finish_with_scan_ops(Some(vec![2, 1]))
        .unwrap();
    assert_eq!(df_read.shape(), (3, 2));
    assert_eq!(df_read.get_columns()[0].name(), "c");
    assert_eq!(df_read.get_columns()[1].name(), "b");
}

#[test]
fn empty_projection_yields_empty_frame() {
    let mut df = abc_df();
    let buf = write_bytes(&mut df);
    let df_read = IpcReader::new(buf)
        .with_projection(Some(Vec::new()))
        .finish()
        .unwrap();
    assert_eq!(df_read.width(), 0);
}
