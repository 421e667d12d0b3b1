use stats::dispersion_divisor;

#[test]
fn empty_sample_has_no_divisor() {
    assert_eq!(None, dispersion_divisor(0));
}

#[test]
fn one_number_is_divided_by_zero() {
    assert_eq!(Some(0), dispersion_divisor(1));
}

#[test]
fn divisor_is_one_less_than_the_count() {
    assert_eq!(Some(1), dispersion_divisor(2));
    assert_eq!(Some(2), dispersion_divisor(3));
    assert_eq!(Some(3), dispersion_divisor(4));
    assert_eq!(Some(usize::MAX - 1), dispersion_divisor(usize::MAX));
}
