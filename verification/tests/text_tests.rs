use bench_server::order::str_lt;
use bench_server::text::push_decimal;
use bench_server::timeline::str_eq;

#[test]
fn decimal_rendering() {
    let mut s = String::from("x=");
    push_decimal(&mut s, 0);
    assert_eq!(s, "x=0");
    let mut s = String::new();
    push_decimal(&mut s, 1_234_567_890);
    assert_eq!(s, "1234567890");
    let mut s = String::new();
    push_decimal(&mut s, u64::MAX);
    assert_eq!(s, u64::MAX.to_string());
}

#[test]
fn name_order_matches_string_order() {
    let names = ["/blob", "/e404", "/e500", "/ok", "/slow", "", "/", "/o", "/ok2", "é", "z"];
    for a in names.iter() {
        for b in names.iter() {
            assert_eq!(str_lt(a, b), a < b, "{} {}", a, b);
            assert_eq!(str_eq(a, b), a == b);
        }
    }
}
