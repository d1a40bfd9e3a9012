use df::index::{Index, Loc};
use df::ops::{CmpOp, NumOp};
use df::series::Series;
use df::storage::{BitVecStorage, VecStorage};
use df::strings::StringStorage;

fn ints(vals: &[i64]) -> Series<VecStorage> {
    Series::<VecStorage>::from_values(vals.to_vec())
}

fn texts(vals: &[&str]) -> Series<StringStorage> {
    Series::<StringStorage>::from_options(
        vals.iter().map(|s| Some(s.as_bytes().to_vec())).collect(),
    )
}

#[test]
fn rem_and_shifts() {
    let series = ints(&[7, 8, 9]);
    assert_eq!(vec![1, 2, 0], series.scalar_op(NumOp::Rem, 3).to_vec(-1));
    let series = ints(&[1, 2, 3]);
    assert_eq!(vec![4, 8, 12], series.scalar_op(NumOp::Shl, 2).to_vec(-1));
    let series = ints(&[4, 8, 12]);
    assert_eq!(vec![1, 2, 3], series.scalar_op(NumOp::Shr, 2).to_vec(-1));
    // A shift amount outside the word marks the slot invalid.
    let series = ints(&[1, 2, 3]);
    assert_eq!(
        vec![None, None, None],
        series.scalar_op(NumOp::Shl, 64).to_option_vec()
    );
}

#[test]
fn bit_ops() {
    let series1 = ints(&[0b1100, 0b1010]);
    let series2 = ints(&[0b1010, 0b0110]);
    assert_eq!(vec![0b1000, 0b0010], series1.bin_op(NumOp::BitAnd, series2).to_vec(0));
    let series1 = ints(&[0b1100, 0b1010]);
    let series2 = ints(&[0b1010, 0b0110]);
    assert_eq!(vec![0b1110, 0b1110], series1.bin_op(NumOp::BitOr, series2).to_vec(0));
}

#[test]
fn wrapping_arithmetic() {
    let series = ints(&[i64::MAX]);
    assert_eq!(vec![i64::MIN], series.scalar_op(NumOp::Add, 1).to_vec(0));
}

#[test]
fn string_comparisons() {
    let series1 = texts(&["apple", "pear", "fig"]);
    let series2 = texts(&["apricot", "pear", "date"]);
    assert_eq!(
        vec![Some(true), Some(false), Some(false)],
        series1.cmp_op(CmpOp::Lt, series2).to_option_vec()
    );
    let series1 = texts(&["apple", "pear", "fig"]);
    let series2 = texts(&["apricot", "pear", "date"]);
    assert_eq!(
        vec![Some(false), Some(true), Some(false)],
        series1.cmp_op(CmpOp::Eq, series2).to_option_vec()
    );
    // A proper prefix sorts first.
    let series1 = texts(&["ab"]);
    let series2 = texts(&["abc"]);
    assert_eq!(
        vec![Some(true)],
        series1.cmp_op(CmpOp::Lte, series2).to_option_vec()
    );
}

#[test]
fn any_all_on_missing_only() {
    let series = Series::<BitVecStorage>::from_options(vec![None, None]);
    assert_eq!(false, series.any());
    assert_eq!(true, series.all());
    assert_eq!(true, series.none());
}

#[test]
fn sum_of_empty_is_zero() {
    assert_eq!(0, ints(&[]).sum());
}

#[test]
fn iter_pairs() {
    let series = Series::<VecStorage>::from_options(vec![Some(5), None]);
    let pairs = series.iter();
    assert_eq!(2, pairs.len());
    assert_eq!((Loc::Pos(0), Some(5)), pairs[0]);
    assert_eq!((Loc::Pos(1), None), pairs[1]);
    let pairs = series.to_index_vec(-1);
    assert_eq!((Loc::Pos(1), -1), pairs[1]);
}

#[test]
fn index_union_keeps_first_occurrences() {
    let a = Index::from_range(0, 2);
    let b = Index::from_range(1, 4);
    let u = a.union(&b);
    assert_eq!(4, u.len());
    assert_eq!(Some(3), u.get(&Loc::Pos(3)));
    assert_eq!(Some(0), u.get(&Loc::Pos(0)));
}

#[test]
fn index_insert_returns_existing_offset() {
    let idx = Index::from_range(0, 3);
    let (idx, off) = idx.insert(Loc::Pos(1));
    assert_eq!(1, off);
    assert_eq!(3, idx.len());
    let (idx, off) = idx.insert(Loc::Name("fresh".to_string()));
    assert_eq!(3, off);
    assert_eq!(4, idx.len());
}

#[test]
fn index_loc_range_marks_positions() {
    let idx = Index::from_range(0, 5).loc_range(1, 3);
    assert_eq!(None, idx.get(&Loc::Pos(0)));
    assert_eq!(Some(1), idx.get(&Loc::Pos(1)));
    assert_eq!(Some(2), idx.get(&Loc::Pos(2)));
    assert_eq!(None, idx.get(&Loc::Pos(3)));
}
