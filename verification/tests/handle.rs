use chisel::{Handle, Tag};

#[test]
fn handle_round_trips_u64() {
    let h = Handle::from(42);
    assert_eq!(h.get(), 42);
    assert_eq!(u64::from(h), 42);
    assert_eq!(h, 42u64);
    assert_eq!(42u64, h);
}

#[test]
fn handle_displays_as_raw() {
    assert_eq!(Handle::from(7).to_string(), "7");
}

#[test]
fn tag_new_rejects_zero() {
    assert_eq!(Tag::new(0), None);
    assert_eq!(Tag::new(5).unwrap().get(), 5);
}

#[test]
fn tag_try_from_zero_errors() {
    assert!(Tag::try_from(0).is_err());
    assert_eq!(Tag::try_from(9).unwrap().get(), 9);
}

#[test]
fn tag_eq_and_display() {
    let t = Tag::new(3).unwrap();
    assert_eq!(t, 3u32);
    assert_eq!(3u32, t);
    assert_eq!(t.to_string(), "3");
    assert_eq!(u32::from(t), 3);
}
