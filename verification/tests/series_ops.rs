use df::ops::{CmpOp, NumOp, UnOp};
use df::series::Series;
use df::storage::VecStorage;

fn ints(vals: &[i64]) -> Series<VecStorage> {
    Series::<VecStorage>::from_values(vals.to_vec())
}

#[test]
fn add_scalar() {
    let series = ints(&[1, 2, 3]);
    assert_eq!(vec![2, 3, 4], series.scalar_op(NumOp::Add, 1).to_vec(0));
}

#[test]
fn add_series() {
    let series1 = ints(&[1, 2, 3]);
    let series2 = ints(&[10, 20, 30]);
    assert_eq!(vec![11, 22, 33], series1.bin_op(NumOp::Add, series2).to_vec(0));
}

#[test]
fn sub_mul_series() {
    let series1 = ints(&[10, 20, 30]);
    let series2 = ints(&[1, 2, 3]);
    assert_eq!(vec![9, 18, 27], series1.bin_op(NumOp::Sub, series2).to_vec(0));
    let series1 = ints(&[10, 20, 30]);
    let series2 = ints(&[1, 2, 3]);
    assert_eq!(vec![10, 40, 90], series1.bin_op(NumOp::Mul, series2).to_vec(0));
}

#[test]
fn sum_series() {
    let series = ints(&[1, 2, 3]);
    assert_eq!(6, series.sum());
}

#[test]
fn sum_skips_missing() {
    let series = Series::<VecStorage>::from_options(vec![Some(1), None, Some(3)]);
    assert_eq!(4, series.sum());
}

#[test]
fn any_all_none() {
    let series = ints(&[0, 1, 2]);
    let positive = series.cmp_scalar(CmpOp::Gt, 0);
    assert_eq!(true, positive.any());
    assert_eq!(false, positive.all());
    assert_eq!(false, positive.none());
    let series = ints(&[0, 1, 2]);
    let negative = series.cmp_scalar(CmpOp::Lt, 0);
    assert_eq!(false, negative.any());
    assert_eq!(true, negative.none());
}

#[test]
fn comparisons() {
    let series = ints(&[1, 2, 3]);
    assert_eq!(
        vec![Some(false), Some(true), Some(false)],
        series.cmp_scalar(CmpOp::Eq, 2).to_option_vec()
    );
    let series1 = ints(&[1, 5, 3]);
    let series2 = ints(&[2, 2, 3]);
    assert_eq!(
        vec![Some(true), Some(false), Some(false)],
        series1.cmp_op(CmpOp::Lt, series2).to_option_vec()
    );
}

#[test]
fn missing_propagates_through_add() {
    let series1 = Series::<VecStorage>::from_options(vec![Some(1), None, Some(3)]);
    let series2 = Series::<VecStorage>::from_options(vec![Some(10), Some(20), None]);
    assert_eq!(
        vec![Some(11), None, None],
        series1.bin_op(NumOp::Add, series2).to_option_vec()
    );
}

#[test]
fn divide_by_scalar_zero() {
    let series = ints(&[1, 2, 3, 4, 5]);
    assert_eq!(
        vec![None, None, None, None, None],
        series.scalar_op(NumOp::Div, 0).to_option_vec()
    );
}

#[test]
fn divide_marks_zero_divisors_invalid() {
    let series1 = ints(&[1, 2, 3, 4, 5]);
    let series2 = ints(&[2, 2, 0, 2, 2]);
    assert_eq!(
        vec![Some(0), Some(1), None, Some(2), Some(2)],
        series1.bin_op(NumOp::Div, series2).to_option_vec()
    );
}

#[test]
fn unary_ops() {
    let series = ints(&[-2, 0, 5]);
    assert_eq!(vec![2, 0, -5], series.un_op(UnOp::Neg).to_vec(0));
    let series = ints(&[-2, 0, 5]);
    assert_eq!(vec![2, 0, 5], series.un_op(UnOp::Abs).to_vec(0));
    let series = ints(&[-2, 0, 5]);
    assert_eq!(vec![-1, 0, 1], series.un_op(UnOp::Signum).to_vec(0));
}

#[test]
fn get_visibility() {
    let series = Series::<VecStorage>::from_options(vec![Some(7), None]);
    assert_eq!(Some(7), series.get(0));
    assert_eq!(None, series.get(1));
}

#[test]
fn add_aligns_shifted_indexes() {
    // Positions 0..3 against 1..4: only rows 1 and 2 carry both operands.
    let series1 = ints(&[1, 2, 3]);
    let series2 = ints(&[10, 20, 30]).reindex(df::index::Index::from_range(1, 4));
    let sum = series1.bin_op(NumOp::Add, series2);
    assert_eq!(4, sum.len());
    assert_eq!(vec![None, Some(22), Some(33), None], sum.to_option_vec());
}
