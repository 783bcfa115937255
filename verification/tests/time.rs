use sod::time::Watermark;

#[test]
fn watermark_is_monotonic_max() {
    let w = Watermark::new();
    let c = w.clock();
    w.advance(10);
    w.advance(5);
    assert_eq!(w.get(), 10);
    assert_eq!(c(), 10);
    w.advance(20);
    assert_eq!(c(), 20);
}

#[test]
fn watermark_handles_share_one_value() {
    let w = Watermark::default();
    assert_eq!(w.get(), 0);
    let other = w.clone();
    other.advance(7);
    assert_eq!(w.get(), 7);
    let c = w.clock().clone();
    w.advance(9);
    assert_eq!(c(), 9);
    assert_eq!(other.get(), 9);
}
