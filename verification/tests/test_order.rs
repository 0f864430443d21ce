use algorst::order::{at_least, less};

#[test]
fn less_is_strict() {
    assert!(less(&1u32, &2u32));
    assert!(!less(&2u32, &2u32));
    assert!(!less(&3u32, &2u32));
}

#[test]
fn at_least_includes_equality() {
    assert!(at_least(&2i64, &2i64));
    assert!(at_least(&3i64, &-2i64));
    assert!(!at_least(&-3i64, &-2i64));
}

#[test]
fn exactly_one_of_less_and_at_least_holds() {
    for a in 0u8..6 {
        for b in 0u8..6 {
            assert!(less(&a, &b) != at_least(&a, &b));
        }
    }
}
