//! Typed buffers.

use kuula::buf::{Buf, BufKind, Element, Number, Rect};

/// A number as a buffer takes it.
fn num(v: f64) -> Number {
    Number {
        floor: v.floor() as i64,
        single: (v as f32).to_bits(),
    }
}

/// An element as a number.
fn value(e: Option<Element>) -> Option<f64> {
    e.map(|e| match e {
        Element::Int(i) => i as f64,
        Element::Single(b) => f32::from_bits(b) as f64,
    })
}

fn numbered(w: u32, h: u32) -> Buf {
    let mut b = Buf::new(BufKind::U8, w, h).unwrap();
    for y in 0..h as i32 {
        for x in 0..w as i32 {
            b.set(x, y, num((y * w as i32 + x) as f64));
        }
    }
    b
}

#[test]
fn get_set_convert_per_kind() {
    let mut b = Buf::new(BufKind::U8, 2, 2).unwrap();
    b.set(0, 0, num(300.0));
    assert_eq!(value(b.get(0, 0)), Some(44.0));
    b.set(1, 1, num(-1.0));
    assert_eq!(value(b.get(1, 1)), Some(255.0));
    assert_eq!(value(b.get(2, 0)), None);
    b.set(5, 5, num(1.0));

    let mut m = Buf::new(BufKind::I16, 1, 1).unwrap();
    m.set(0, 0, num(-3.7));
    assert_eq!(value(m.get(0, 0)), Some(-4.0));
    m.set(0, 0, num(40000.0));
    assert_eq!(value(m.get(0, 0)), Some(-25536.0));

    let mut f = Buf::new(BufKind::F32, 1, 1).unwrap();
    f.set(0, 0, num(0.5));
    assert_eq!(value(f.get(0, 0)), Some(0.5));
    f.set(0, 0, num(f64::NAN));
    assert!(value(f.get(0, 0)).unwrap().is_nan());

    let mut i = Buf::new(BufKind::I32, 1, 1).unwrap();
    i.set(0, 0, num(1e12));
    assert_eq!(value(i.get(0, 0)), Some((1e12 as i64 as i32) as f64));
}

#[test]
fn bytes_are_exact_and_overflow_is_none() {
    assert_eq!(Buf::bytes_for(BufKind::U8, 320, 240), Some(76800));
    assert_eq!(Buf::bytes_for(BufKind::I16, 256, 1024), Some(524288));
    assert_eq!(Buf::bytes_for(BufKind::F32, u32::MAX, u32::MAX), None);
    assert_eq!(Buf::new(BufKind::F32, 3, 3).unwrap().bytes(), 36);
}

#[test]
fn copy_clips_at_every_edge() {
    let src = numbered(4, 4);
    let mut dst = Buf::new(BufKind::U8, 4, 4).unwrap();
    // Source rect hangs off the top-left of src, destination off the
    // bottom-right of dst.
    dst.copy_from(&src, -1, -1, 3, 3, 3, 3, None).unwrap();
    assert_eq!(value(dst.get(3, 3)), Some(0.0));
    assert_eq!(value(dst.get(2, 2)), Some(0.0), "untouched");
    dst.fill(num(9.0));
    dst.copy_from(&src, 2, 2, 5, 5, -1, -1, None).unwrap();
    assert_eq!(value(dst.get(0, 0)), Some(15.0));
    assert_eq!(value(dst.get(1, 0)), Some(9.0));
    dst.fill(num(9.0));
    dst.copy_from(&src, 0, 0, 4, 4, 0, 0, Some(Rect::new(1, 1, 2, 2)))
        .unwrap();
    assert_eq!(value(dst.get(0, 0)), Some(9.0));
    assert_eq!(value(dst.get(1, 1)), Some(5.0));
    assert_eq!(value(dst.get(2, 2)), Some(10.0));
    assert_eq!(value(dst.get(3, 3)), Some(9.0));
    dst.copy_from(&src, 0, 0, 0, 4, 0, 0, None).unwrap();
    dst.copy_from(&src, 10, 10, 4, 4, 0, 0, None).unwrap();
}

#[test]
fn overlapping_copy_within_matches_a_copy_through_a_temporary() {
    for (dx, dy) in [(1, 1), (-1, -1), (1, -1), (-1, 1), (0, 2), (2, 0)] {
        let mut a = numbered(6, 6);
        let mut b = numbered(6, 6);
        let temp = a.clone();
        a.copy_within(1, 1, 4, 4, 1 + dx, 1 + dy, None);
        b.copy_from(&temp, 1, 1, 4, 4, 1 + dx, 1 + dy, None)
            .unwrap();
        assert_eq!(a, b, "offset ({dx},{dy})");
    }
}

#[test]
fn copy_between_kinds_is_an_error() {
    let src = Buf::new(BufKind::I16, 2, 2).unwrap();
    let mut dst = Buf::new(BufKind::U8, 2, 2).unwrap();
    let err = dst.copy_from(&src, 0, 0, 1, 1, 0, 0, None).unwrap_err();
    assert_eq!(err.code(), "buf_kind_mismatch");
}

#[test]
fn rect_intersection() {
    let a = Rect::new(0, 0, 10, 10);
    assert_eq!(a.intersect(&Rect::new(5, 5, 10, 10)), Rect::new(5, 5, 5, 5));
    assert!(a.intersect(&Rect::new(10, 0, 5, 5)).is_empty());
    assert!(a.intersect(&Rect::new(-5, -5, 5, 5)).is_empty());
    assert!(a.contains(9, 9));
    assert!(!a.contains(10, 9));
}

#[test]
fn raw_bytes_restore_the_elements() {
    let src = numbered(5, 3);
    let bytes = src.raw_bytes();
    assert_eq!(bytes.len(), 15);
    let mut dst = Buf::new(BufKind::U8, 5, 3).unwrap();
    assert!(dst.set_raw_bytes(&bytes));
    assert_eq!(dst, src);
    assert!(!dst.set_raw_bytes(&bytes[1..]), "another length is refused");
    let mut wide = Buf::new(BufKind::I32, 1, 1).unwrap();
    wide.set(0, 0, num(-2.0));
    assert_eq!(wide.raw_bytes(), [0xfe, 0xff, 0xff, 0xff]);
}
