use multiplierless_rs::retry::{retry_step, MAX_RETRIES};

#[test]
fn fresh_quantization_restarts_count() {
    assert_eq!(retry_step(false, 9), (0, true));
}

#[test]
fn retries_allowed_up_to_budget() {
    assert_eq!(MAX_RETRIES, 15);
    assert_eq!(retry_step(true, 0), (1, true));
    assert_eq!(retry_step(true, 13), (14, true));
    assert_eq!(retry_step(true, 14), (15, false));
    assert_eq!(retry_step(true, 20), (21, false));
}

#[test]
fn budget_over_a_run_of_retries() {
    let (mut count, mut more) = retry_step(false, 3);
    let mut allowed = 0;
    while more {
        let step = retry_step(true, count);
        count = step.0;
        more = step.1;
        allowed += 1;
    }
    assert_eq!(allowed, 15);
}
