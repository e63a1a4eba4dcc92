use multiplierless_rs::verilog::build_range_expr;

#[test]
fn empty_range_past_the_end() {
    assert_eq!(build_range_expr("", 1, 0, 0), "");
    assert_eq!(build_range_expr("+-", 5, 0, 3), "");
    assert_eq!(build_range_expr("", 7, 4, 3), "");
}
