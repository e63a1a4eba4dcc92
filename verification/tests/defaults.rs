use multiplierless_rs::defaults::{
    default_csd_nnz, default_discretization_factor, default_filter_order, default_input_width,
    default_max_iters, default_module_name, default_parallel_cut, default_spectral_method,
    default_verilog_form,
};

#[test]
fn numeric_defaults() {
    assert_eq!(default_filter_order(), 32);
    assert_eq!(default_csd_nnz(), 7);
    assert_eq!(default_discretization_factor(), 15);
    assert_eq!(default_max_iters(), 50000);
    assert!(default_parallel_cut());
    assert_eq!(default_input_width(), 16);
}

#[test]
fn text_defaults() {
    assert_eq!(default_spectral_method(), "fft");
    assert_eq!(default_module_name(), "fir_filter");
    assert_eq!(default_verilog_form(), "transpose");
}
