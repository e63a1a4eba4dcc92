use multiplierless_rs::verilog::{build_range_expr, generate_transpose_verilog};

#[test]
fn range_expr_signs_and_powers() {
    assert_eq!(build_range_expr("+0-0+", 0, 5, 4), "x_shift4 - x_shift2 + x_shift0");
}

#[test]
fn range_expr_sub_range() {
    assert_eq!(build_range_expr("-00+", 1, 3, 3), "x_shift0");
}

#[test]
fn range_expr_length_clipped_to_string() {
    assert_eq!(build_range_expr("+-", 0, 100, 1), "x_shift1 - x_shift0");
}

#[test]
fn range_expr_negative_power() {
    assert_eq!(build_range_expr("0.+-", 1, 2, -2), "x_shift-4");
}

#[test]
fn range_expr_leading_minus() {
    assert_eq!(build_range_expr("-+", 0, 2, 12), "-x_shift12 + x_shift11");
}

#[test]
fn range_expr_no_nonzero_digit_is_empty() {
    assert_eq!(build_range_expr("0.000", 0, 5, 3), "");
    assert_eq!(build_range_expr("", 0, 0, 0), "");
}

#[test]
fn transpose_three_taps() {
    let csd = vec!["+0.-".to_string(), "-0.00+".to_string(), "0.00".to_string()];
    let v = generate_transpose_verilog(&csd, 16, "fir_filter");
    let expected = "\nmodule fir_filter (\n    input clk,\n    input rst_n,\n    input signed [15:0] x,\n    output signed [20:0] y\n);\n\n    // Transpose-form pipeline registers\n    reg signed [20:0] sum0;\n    reg signed [20:0] sum1;\n    reg signed [20:0] sum2;\n\n    always @(posedge clk or negedge rst_n) begin\n        if (!rst_n) begin\n            sum0 <= 0;\n            sum1 <= 0;\n            sum2 <= 0;\n        end else begin\n            sum0 <= 0;\n            sum1 <= sum0 + -x_shift4 + x_shift0;\n            sum2 <= sum1 + x_shift2 - x_shift0;\n        end\n    end\n\n    assign y = sum2;\nendmodule\n";
    assert_eq!(v, expected);
}

#[test]
fn transpose_single_tap() {
    let csd = vec!["+.0".to_string()];
    let v = generate_transpose_verilog(&csd, 8, "m");
    let expected = "\nmodule m (\n    input clk,\n    input rst_n,\n    input signed [7:0] x,\n    output signed [9:0] y\n);\n\n    // Transpose-form pipeline registers\n    reg signed [9:0] sum0;\n\n    always @(posedge clk or negedge rst_n) begin\n        if (!rst_n) begin\n            sum0 <= 0;\n        end else begin\n            sum0 <= x_shift1;\n        end\n    end\n\n    assign y = sum0;\nendmodule\n";
    assert_eq!(v, expected);
}

#[test]
fn transpose_all_zero_taps() {
    let csd = vec!["0".to_string(), "0".to_string()];
    let v = generate_transpose_verilog(&csd, 1, "z");
    let expected = "\nmodule z (\n    input clk,\n    input rst_n,\n    input signed [0:0] x,\n    output signed [0:0] y\n);\n\n    // Transpose-form pipeline registers\n    reg signed [0:0] sum0;\n    reg signed [0:0] sum1;\n\n    always @(posedge clk or negedge rst_n) begin\n        if (!rst_n) begin\n            sum0 <= 0;\n            sum1 <= 0;\n        end else begin\n            sum0 <= 0;\n            sum1 <= sum0;\n        end\n    end\n\n    assign y = sum1;\nendmodule\n";
    assert_eq!(v, expected);
}

#[test]
fn transpose_output_width_from_longest_csd() {
    let csd = vec!["+00.00".to_string(), "+".to_string()];
    let v = generate_transpose_verilog(&csd, 12, "w");
    // six characters (points included) give a maximal power of five
    assert!(v.contains("output signed [16:0] y"));
    assert!(v.contains("sum0 <= x_shift0;"));
    assert!(v.contains("sum1 <= sum0 + x_shift4;"));
}
