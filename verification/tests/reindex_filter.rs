use df::index::Index;
use df::ops::CmpOp;
use df::series::Series;
use df::storage::VecStorage;

fn ints(vals: &[i64]) -> Series<VecStorage> {
    Series::<VecStorage>::from_values(vals.to_vec())
}

#[test]
fn reindex_same() {
    let series = ints(&[1, 2, 3]).reindex(Index::from_range(0, 3));
    assert_eq!(vec![1, 2, 3], series.to_vec(0));
}

#[test]
fn reindex_empty_to_empty() {
    let series = ints(&[]).reindex(Index::from_range(0, 0));
    assert_eq!(vec![] as Vec<i64>, series.to_vec(0));
}

#[test]
fn reindex_some_to_empty() {
    let series = ints(&[1, 2, 3]).reindex(Index::from_range(0, 0));
    assert_eq!(vec![] as Vec<i64>, series.to_vec(0));
}

#[test]
fn reindex_empty_to_some() {
    let series = ints(&[]).reindex(Index::from_range(0, 3));
    assert_eq!(vec![-1, -1, -1], series.to_vec(-1));
    assert_eq!(vec![None, None, None], series.to_option_vec());
}

#[test]
fn reindex_some_to_subset() {
    let series = ints(&[1, 2, 3]).reindex(Index::from_range(1, 2));
    assert_eq!(vec![2], series.to_vec(0));
}

#[test]
fn reindex_some_to_superset() {
    let series = ints(&[1, 2, 3]).reindex(Index::from_range(0, 5));
    assert_eq!(vec![1, 2, 3, -1, -1], series.to_vec(-1));
}

#[test]
fn filter_same() {
    let series = ints(&[1, 2, 3]).filter_with(|series| series.cmp_op(CmpOp::Gte, ints(&[0, 0, 0])));
    assert_eq!(vec![1, 2, 3], series.to_vec(0));
}

#[test]
fn filter_empty_to_empty() {
    let series = ints(&[]).filter(Series::<df::storage::BitVecStorage>::from_values(vec![]));
    assert_eq!(vec![] as Vec<i64>, series.to_vec(0));
}

#[test]
fn filter_some_to_empty() {
    let series = ints(&[1, 2, 3]).filter_with(|series| series.cmp_op(CmpOp::Gte, ints(&[4, 4, 4])));
    assert_eq!(vec![] as Vec<i64>, series.to_vec(0));
}

#[test]
fn filter_some_to_subset() {
    let series = ints(&[1, 2, 3]).filter_with(|series| series.cmp_op(CmpOp::Gte, ints(&[2, 2, 2])));
    assert_eq!(vec![2, 3], series.to_vec(0));
}

#[test]
fn filter_keeps_shape_and_storage() {
    // Filtering narrows only the "present" bits; length and storage stay.
    let series = ints(&[1, 2, 3]).filter_with(|series| series.cmp_scalar(CmpOp::Gt, 2));
    assert_eq!(3, series.len());
    assert_eq!(vec![3], series.to_vec(0));
}

#[test]
fn loc_range_slices_positions() {
    let series = ints(&[1, 2, 3, 4, 5]).loc_range(1, 3);
    assert_eq!(vec![2, 3], series.to_vec(0));
}

#[test]
fn loc_lookup() {
    let series = ints(&[5, 6, 7]);
    assert_eq!(Some(6), series.loc(&df::index::Loc::Pos(1)));
    assert_eq!(None, series.loc(&df::index::Loc::Pos(9)));
}
