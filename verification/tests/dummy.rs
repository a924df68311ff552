use kvnode::dummy::add_two;

#[test]
fn add_test() {
    let x = 1;
    let y = 2;
    assert_eq!(x + y, add_two(x, y));
}

#[test]
fn add_two_negative_and_bounds() {
    assert_eq!(add_two(-5, 3), -2);
    assert_eq!(add_two(i32::MAX, 0), i32::MAX);
    assert_eq!(add_two(i32::MIN, 0), i32::MIN);
}
