//! Buffers and what they cost.

use kuula::buf::{BufKind, Element, Number};
use kuula::resources::{BufId, Resources, GRAPHICS_CAP};

/// A number as a buffer takes it.
fn num(v: f64) -> Number {
    Number {
        floor: v.floor() as i64,
        single: (v as f32).to_bits(),
    }
}

/// An element as a number.
fn value(e: Option<Element>) -> Option<f64> {
    e.map(|e| match e {
        Element::Int(i) => i as f64,
        Element::Single(b) => f32::from_bits(b) as f64,
    })
}

#[test]
fn alloc_charges_exact_bytes_and_free_returns_them() {
    let mut r = Resources::new(4, 4);
    assert_eq!(r.ledger().used(), 0, "screen is not charged");
    let a = r.allocate(BufKind::I16, 10, 10).unwrap();
    assert_eq!(r.ledger().used(), 200);
    let b = r.allocate(BufKind::U8, 3, 3).unwrap();
    assert_eq!(r.ledger().used(), 209);
    r.free(a).unwrap();
    assert_eq!(r.ledger().used(), 9);
    r.free(b).unwrap();
    assert_eq!(r.ledger().used(), 0);
    assert_eq!(r.live_count(), 1);
}

#[test]
fn over_cap_fails_without_allocating() {
    let mut r = Resources::new(1, 1);
    let big = r.allocate(BufKind::U8, 4096, 2048).unwrap();
    assert_eq!(r.ledger().used(), GRAPHICS_CAP);
    let err = r.allocate(BufKind::U8, 1, 1).unwrap_err();
    assert_eq!(err.code(), "graphics_budget_exceeded");
    assert_eq!(r.ledger().used(), GRAPHICS_CAP);
    assert_eq!(r.live_count(), 2);
    r.free(big).unwrap();
    assert!(r.allocate(BufKind::U8, 1, 1).is_ok());
}

#[test]
fn bad_dimensions_are_rejected() {
    let mut r = Resources::new(1, 1);
    assert_eq!(
        r.allocate(BufKind::U8, 0, 5).unwrap_err().code(),
        "buf_bad_dimensions"
    );
    assert_eq!(
        r.allocate(BufKind::U8, 4097, 1).unwrap_err().code(),
        "buf_bad_dimensions"
    );
}

#[test]
fn released_ids_stay_invalid() {
    let mut r = Resources::new(1, 1);
    let a = r.allocate(BufKind::U8, 2, 2).unwrap();
    r.free(a).unwrap();
    assert_eq!(r.get(a).unwrap_err().code(), "buf_released");
    assert_eq!(r.free(a).unwrap_err().code(), "buf_released");
    let b = r.allocate(BufKind::U8, 2, 2).unwrap();
    assert_ne!(a, b, "slot reused with a new generation");
    assert!(r.get(a).is_err());
    assert!(r.get(b).is_ok());
}

#[test]
fn screen_is_protected_and_pair_refuses_aliasing() {
    let mut r = Resources::new(2, 2);
    assert_eq!(r.free(BufId::screen()).unwrap_err().code(), "buf_protected");
    let a = r.allocate(BufKind::U8, 2, 2).unwrap();
    assert_eq!(r.pair_mut(a, a).unwrap_err().code(), "buf_aliased");
    let (d, s) = r.pair_mut(a, BufId::screen()).unwrap();
    d.set(0, 0, num(1.0));
    assert_eq!(value(s.get(0, 0)), Some(0.0));
    let (d, s) = r.pair_mut(BufId::screen(), a).unwrap();
    d.set(0, 0, num(2.0));
    assert_eq!(value(s.get(0, 0)), Some(1.0));
}

#[test]
fn names_follow_liveness() {
    let mut r = Resources::new(1, 1);
    let a = r.allocate(BufKind::U8, 2, 2).unwrap();
    r.set_name("tiles", a);
    assert_eq!(r.named("tiles"), Some(a));
    r.free(a).unwrap();
    assert_eq!(r.named("tiles"), None);
}
