//! Keys, tables, budgets and base64.

use kuula::codec::base64::base64_decode;
use kuula::codec::number::{compare_int_float, Float, Order};
use kuula::codec::value::{Key, Table, Value};
use kuula::codec::{base64_encode, Budget, CodecError, MAX_DEPTH};

/// A float with its shortest decimal digits.
fn float(f: f64) -> Float {
    let mut digits: u64 = 0;
    let mut exp: i32 = 0;
    if f.is_finite() {
        let text = format!("{:e}", f.abs());
        let (mantissa, e) = text.split_once('e').unwrap();
        let (whole, fraction) = mantissa.split_once('.').unwrap_or((mantissa, ""));
        digits = format!("{whole}{fraction}").parse().unwrap();
        exp = e.parse().unwrap();
    }
    Float {
        bits: f.to_bits(),
        digits,
        exp,
    }
}

fn shown_key(k: &Key) -> String {
    match k {
        Key::Float(f) => format!("Float({:?})", f64::from_bits(f.bits)),
        k => format!("{k:?}"),
    }
}

#[test]
fn key_order_is_bool_number_string() {
    let mut keys = vec![
        Key::str("b"),
        Key::Float(float(1.5)),
        Key::Int(2),
        Key::Bool(true),
        Key::str("a"),
        Key::Int(-1),
        Key::Bool(false),
        Key::Float(float(-0.5)),
        Key::str("ab"),
        Key::Str(vec![0xff]),
    ];
    keys.sort_by(|a, b| match a.compare(b) {
        Order::Less => std::cmp::Ordering::Less,
        Order::Equal => std::cmp::Ordering::Equal,
        Order::Greater => std::cmp::Ordering::Greater,
    });
    let shown: Vec<String> = keys.iter().map(shown_key).collect();
    assert_eq!(
        shown,
        [
            "Bool(false)",
            "Bool(true)",
            "Int(-1)",
            "Float(-0.5)",
            "Float(1.5)",
            "Int(2)",
            "Str([97])",
            "Str([97, 98])",
            "Str([98])",
            "Str([255])",
        ]
    );
}

#[test]
fn int_and_float_compare_exactly() {
    assert_eq!(
        compare_int_float(9007199254740993, &float(9007199254740992.0)),
        Order::Greater
    );
    assert_eq!(compare_int_float(i64::MAX, &float(9.3e18)), Order::Less);
    assert_eq!(compare_int_float(i64::MIN, &float(-9.3e18)), Order::Greater);
    assert_eq!(compare_int_float(3, &float(3.5)), Order::Less);
    assert_eq!(compare_int_float(-3, &float(-3.5)), Order::Greater);
    assert_eq!(
        Key::Int(3).compare(&Key::Float(float(3.0))),
        Order::Less,
        "int before an equal float"
    );
}

#[test]
fn key_rules() {
    assert_eq!(Key::float(float(2.0)).unwrap_err().code, "codec_key");
    assert_eq!(Key::float(float(-0.0)).unwrap_err().code, "codec_key");
    assert_eq!(Key::float(float(f64::NAN)).unwrap_err().code, "codec_number");
    assert!(Key::float(float(1e300)).is_ok(), "out of i64 range is a float key");
    assert_eq!(
        Key::from_value(Value::Table(Table::new()))
            .unwrap_err()
            .code,
        "codec_key"
    );
    assert_eq!(Key::from_value(Value::Nil).unwrap_err().code, "codec_key");
    let mut t = Table::new();
    assert_eq!(
        t.insert(Key::str("x"), Value::Nil).unwrap_err().code,
        "codec_unsupported"
    );
}

#[test]
fn base64_round_trips_and_is_strict() {
    for (raw, text) in [
        (&b""[..], ""),
        (b"f", "Zg=="),
        (b"fo", "Zm8="),
        (b"foo", "Zm9v"),
        (b"foob", "Zm9vYg=="),
        (&[0, 1, 2, 3][..], "AAECAw=="),
        (&[0xff, 0xfe][..], "//4="),
    ] {
        assert_eq!(base64_encode(raw), text);
        assert_eq!(base64_decode(text.as_bytes()).unwrap(), raw);
    }
    for bad in [
        "Zg", "Zg=", "Z===", "Zm8=Zg==", "Zg =", "Zh==", "Zm9=", "Z*==",
    ] {
        assert!(base64_decode(bad.as_bytes()).is_err(), "{bad}");
    }
}

#[test]
fn a_refused_enter_leaves_the_depth_alone() {
    let mut b = Budget::default();
    for _ in 0..MAX_DEPTH {
        b.enter().unwrap();
    }
    assert_eq!(b.enter().unwrap_err().code, CodecError::DEPTH);
    assert_eq!(b.depth, MAX_DEPTH, "a refused enter needs no leave");
    b.leave();
    b.enter().unwrap();
}
