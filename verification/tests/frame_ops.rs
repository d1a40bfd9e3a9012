use df::frame::{AnySeries, empty};
use df::ops::{CmpOp, NumOp};
use df::series::Series;
use df::storage::VecStorage;
use df::strings::StringStorage;

fn ints(vals: &[i64]) -> Series<VecStorage> {
    Series::<VecStorage>::from_values(vals.to_vec())
}

fn texts(vals: &[&str]) -> Series<StringStorage> {
    Series::<StringStorage>::from_options(
        vals.iter().map(|s| Some(s.as_bytes().to_vec())).collect(),
    )
}

#[test]
fn insert_and_get() {
    let frame = empty()
        .insert("price".to_string(), AnySeries::from_series_i64(ints(&[1, 2, 3])))
        .unwrap();
    let back = frame.get("price").unwrap().into_series_i64().unwrap();
    assert_eq!(vec![1, 2, 3], back.to_vec(0));
    assert!(frame.get("volume").is_none());
}

#[test]
fn duplicate_name_is_refused() {
    let frame = empty()
        .insert("price".to_string(), AnySeries::from_series_i64(ints(&[1])))
        .unwrap();
    assert!(frame.insert("price".to_string(), AnySeries::from_series_i64(ints(&[2]))).is_none());
}

#[test]
fn assign() {
    let frame = empty().assign(1, AnySeries::from_series_i64(ints(&[1, 2, 3]))).unwrap();
    let price = frame.col(1).unwrap().into_series_i64().unwrap();
    let frame = frame
        .assign(2, AnySeries::from_series_i64(price.scalar_op(NumOp::Add, 1)))
        .unwrap();
    let price = frame.col(1).unwrap().into_series_i64().unwrap();
    let price2 = frame.col(2).unwrap().into_series_i64().unwrap();
    let frame = frame
        .assign(3, AnySeries::from_series_i64(price.bin_op(NumOp::Add, price2)))
        .unwrap();

    assert_eq!(vec![1, 2, 3], frame.col(1).unwrap().into_series_i64().unwrap().to_vec(0));
    assert_eq!(vec![2, 3, 4], frame.col(2).unwrap().into_series_i64().unwrap().to_vec(0));
    assert_eq!(vec![3, 5, 7], frame.col(3).unwrap().into_series_i64().unwrap().to_vec(0));
}

#[test]
fn filter_narrows_rows_across_columns() {
    // Lengths in tenths of a unit; species as byte strings.
    let frame = empty()
        .insert(
            "sepal_length".to_string(),
            AnySeries::from_series_i64(ints(&[51, 49, 62, 55])),
        )
        .unwrap()
        .insert(
            "sepal_width".to_string(),
            AnySeries::from_series_i64(ints(&[35, 41, 42, 39])),
        )
        .unwrap()
        .insert(
            "species".to_string(),
            AnySeries::from_series_str(texts(&["setosa", "setosa", "virginica", "versicolor"])),
        )
        .unwrap();

    let lengths = frame.get("sepal_length").unwrap().into_series_i64().unwrap();
    let widths = frame.get("sepal_width").unwrap().into_series_i64().unwrap();
    let long = lengths.cmp_scalar(CmpOp::Gt, 50);
    let wide = widths.cmp_scalar(CmpOp::Gt, 40);
    let both = long.bool_op(df::bits::BitOp::And, wide);

    let filtered = frame.filter(both);
    assert_eq!(1, filtered.len());
    // Storages are untouched: columns keep all four slots, the row index
    // alone was narrowed.
    let lengths = filtered.get("sepal_length").unwrap().into_series_i64().unwrap();
    assert_eq!(vec![62], lengths.to_vec(0));
    let species = filtered.get("species").unwrap().into_series_str().unwrap();
    assert_eq!(vec![b"virginica".to_vec()], species.to_vec(Vec::new()));
}

#[test]
fn filter_on_empty_condition_keeps_shape() {
    let frame = empty()
        .insert("price".to_string(), AnySeries::from_series_i64(ints(&[1, 2, 3])))
        .unwrap();
    let none = Series::<df::storage::BitVecStorage>::from_values(vec![]);
    let filtered = frame.filter(none);
    assert_eq!(0, filtered.len());
    let price = filtered.get("price").unwrap().into_series_i64().unwrap();
    assert_eq!(3, price.len());
    assert_eq!(vec![] as Vec<i64>, price.to_vec(0));
}

#[test]
fn insert_aligns_new_column() {
    let frame = empty()
        .insert("a".to_string(), AnySeries::from_series_i64(ints(&[1, 2])))
        .unwrap()
        .insert(
            "b".to_string(),
            AnySeries::from_series_i64(ints(&[10, 20, 30])),
        )
        .unwrap();
    let a = frame.get("a").unwrap().into_series_i64().unwrap();
    let b = frame.get("b").unwrap().into_series_i64().unwrap();
    assert_eq!(vec![Some(1), Some(2), None], a.to_option_vec());
    assert_eq!(vec![Some(10), Some(20), Some(30)], b.to_option_vec());
}

#[test]
fn bool_column_round_trip() {
    let flags = Series::<df::storage::BitVecStorage>::from_values(vec![true, false, true]);
    let frame = empty()
        .insert("flags".to_string(), AnySeries::from_series_bool(flags))
        .unwrap();
    let back = frame.get("flags").unwrap().into_series_bool().unwrap();
    assert_eq!(vec![true, false, true], back.to_vec(false));
    assert!(frame.get("flags").unwrap().into_series_i64().is_none());
}

#[test]
fn empty_frame_has_no_rows() {
    let frame = empty();
    assert_eq!(0, frame.len());
}
