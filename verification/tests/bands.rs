use multiplierless_rs::bands::{band_rows, flagged_rows};

#[test]
fn flagged_rows_in_order() {
    assert_eq!(flagged_rows(&[false, true, true, false, true]), vec![1, 2, 4]);
    assert_eq!(flagged_rows(&[]), Vec::<usize>::new());
    assert_eq!(flagged_rows(&[false, false]), Vec::<usize>::new());
}

#[test]
fn bands_with_transition() {
    let in_pass = [true, true, true, false, false, false, false, false];
    let in_stop = [false, false, false, false, false, true, true, true];
    let b = band_rows(&in_pass, &in_stop);
    assert_eq!(b.pass, vec![0, 1, 2]);
    assert_eq!(b.stop, vec![5, 6, 7]);
    assert_eq!(b.transition_start, 3);
    assert_eq!(b.transition_len, 2);
}

#[test]
fn bands_touching_have_no_transition() {
    let in_pass = [true, true, false, false];
    let in_stop = [false, false, true, true];
    let b = band_rows(&in_pass, &in_stop);
    assert_eq!(b.transition_start, 2);
    assert_eq!(b.transition_len, 0);
}

#[test]
fn bands_overlapping_have_no_transition() {
    let in_pass = [true, true, true, false];
    let in_stop = [false, true, true, true];
    let b = band_rows(&in_pass, &in_stop);
    assert_eq!(b.pass, vec![0, 1, 2]);
    assert_eq!(b.stop, vec![1, 2, 3]);
    assert_eq!(b.transition_start, 3);
    assert_eq!(b.transition_len, 0);
}
