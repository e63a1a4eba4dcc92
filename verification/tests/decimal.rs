use multiplierless_rs::decimal::{push_signed, push_unsigned, push_usize};

#[test]
fn unsigned_renderings() {
    let mut s = String::from("n=");
    push_unsigned(&mut s, 0);
    s.push(' ');
    push_unsigned(&mut s, 9);
    s.push(' ');
    push_unsigned(&mut s, 10);
    s.push(' ');
    push_unsigned(&mut s, u64::MAX);
    assert_eq!(s, format!("n=0 9 10 {}", u64::MAX));
}

#[test]
fn signed_renderings() {
    for v in [0i64, 7, -7, 1024, -1000, i64::MIN, i64::MAX] {
        let mut s = String::new();
        push_signed(&mut s, v);
        assert_eq!(s, v.to_string());
    }
}

#[test]
fn usize_rendering_appends() {
    let mut s = String::from("sum");
    push_usize(&mut s, 31);
    assert_eq!(s, "sum31");
}
