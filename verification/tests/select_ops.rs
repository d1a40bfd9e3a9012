use df::series::Series;
use df::storage::{BitVecStorage, VecStorage};

fn ints(vals: &[i64]) -> Series<VecStorage> {
    Series::<VecStorage>::from_values(vals.to_vec())
}

fn opt_ints(vals: Vec<Option<i64>>) -> Series<VecStorage> {
    Series::<VecStorage>::from_options(vals)
}

fn bools(vals: Vec<Option<bool>>) -> Series<BitVecStorage> {
    Series::<BitVecStorage>::from_options(vals)
}

#[test]
fn where_keeps_only_true_slots() {
    let series = ints(&[1, 2, 3]);
    let cond = bools(vec![Some(true), Some(false), None]);
    assert_eq!(vec![Some(1), None, None], series.where_(cond).to_option_vec());
}

#[test]
fn mask_drops_true_slots() {
    let series = ints(&[1, 2, 3]);
    let cond = bools(vec![Some(true), Some(false), None]);
    assert_eq!(vec![None, Some(2), Some(3)], series.mask(cond).to_option_vec());
}

#[test]
fn where_or_scalar_replaces_elsewhere() {
    let series = opt_ints(vec![Some(1), None, Some(3)]);
    let cond = bools(vec![Some(true), Some(true), Some(false)]);
    assert_eq!(
        vec![Some(1), None, Some(99)],
        series.where_or_scalar(cond, 99).to_option_vec()
    );
}

#[test]
fn mask_or_scalar_replaces_where_true() {
    let series = opt_ints(vec![Some(1), None, Some(3)]);
    let cond = bools(vec![Some(true), Some(true), Some(false)]);
    assert_eq!(
        vec![Some(99), Some(99), Some(3)],
        series.mask_or_scalar(cond, 99).to_option_vec()
    );
}

#[test]
fn where_or_takes_other_column() {
    let series1 = opt_ints(vec![Some(1), None, Some(3), Some(4)]);
    let cond = bools(vec![Some(true), Some(true), Some(false), None]);
    let series2 = opt_ints(vec![Some(10), Some(20), Some(30), None]);
    assert_eq!(
        vec![Some(1), None, Some(30), None],
        series1.where_or(cond, series2).to_option_vec()
    );
}

#[test]
fn where_mask_duality() {
    // mask_or(o, c, s) shows exactly what where_or(s, c, o) shows.
    let s = opt_ints(vec![Some(1), None, Some(3), Some(4)]);
    let c = bools(vec![Some(true), Some(false), None, Some(true)]);
    let o = opt_ints(vec![None, Some(20), Some(30), Some(40)]);

    let s2 = opt_ints(vec![Some(1), None, Some(3), Some(4)]);
    let c2 = bools(vec![Some(true), Some(false), None, Some(true)]);
    let o2 = opt_ints(vec![None, Some(20), Some(30), Some(40)]);

    let left = s.where_or(c, o).to_option_vec();
    let right = o2.mask_or(c2, s2).to_option_vec();
    assert_eq!(left, right);
}

#[test]
fn where_or_realigns_three_frames() {
    // Values over 0..3, condition over 1..4, alternative over 2..5: the
    // result ranges over 0..5, and a missing condition counts as false.
    let s = ints(&[1, 2, 3]);
    let c = bools(vec![Some(true), Some(false), Some(true)])
        .reindex(df::index::Index::from_range(1, 4));
    let o = ints(&[10, 11, 12, 13, 14]);
    let r = s.where_or(c, o);
    assert_eq!(5, r.len());
    // The condition holds only at position 2; everywhere else (false or
    // missing) the alternative column steps in.
    assert_eq!(
        vec![Some(10), Some(11), Some(3), Some(13), Some(14)],
        r.to_option_vec()
    );
}

#[test]
fn where_on_bool_and_string_columns() {
    let flags = bools(vec![Some(true), Some(false), None]);
    let cond = bools(vec![Some(true), Some(true), Some(false)]);
    assert_eq!(
        vec![Some(true), Some(false), None],
        flags.where_(cond).to_option_vec()
    );
    // Where the condition is true the scalar steps in; where it is false the
    // column's own slot is kept, an invalid one staying invalid.
    let flags = bools(vec![Some(true), Some(false), None]);
    let cond = bools(vec![Some(true), Some(true), Some(false)]);
    assert_eq!(
        vec![Some(false), Some(false), None],
        flags.mask_or_scalar(cond, false).to_option_vec()
    );

    let words = df::series::Series::<df::strings::StringStorage>::from_options(vec![
        Some(b"keep".to_vec()),
        Some(b"drop".to_vec()),
    ]);
    let cond = bools(vec![Some(true), Some(false)]);
    let kept = words.where_(cond);
    assert_eq!(
        vec![b"keep".to_vec(), b"".to_vec()],
        kept.to_vec(Vec::new())
    );
}

#[test]
fn bool_logic() {
    let a = bools(vec![Some(true), Some(false), None, Some(true)]);
    let b = bools(vec![Some(true), Some(true), Some(true), Some(false)]);
    assert_eq!(
        vec![Some(true), Some(false), None, Some(false)],
        a.bool_op(df::bits::BitOp::And, b).to_option_vec()
    );
    let a = bools(vec![Some(true), Some(false), None, Some(true)]);
    assert_eq!(
        vec![Some(false), Some(true), None, Some(false)],
        a.not().to_option_vec()
    );
}
