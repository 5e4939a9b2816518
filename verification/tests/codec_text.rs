//! The text form of values.

use kuula::codec::lexis::float_literals;
use kuula::codec::number::Float;
use kuula::codec::reading;
use kuula::codec::value::{Key, Table, Value};
use kuula::codec::writing::{encode, write_float};
use kuula::codec::{CodecError, MAX_DEPTH, MAX_ENCODED, MAX_ENTRIES};

/// A float with its shortest decimal digits.
fn float(f: f64) -> Float {
    let mut digits: u64 = 0;
    let mut exp: i32 = 0;
    if f.is_finite() {
        let text = format!("{:e}", f.abs());
        let (mantissa, e) = text.split_once('e').unwrap();
        let (whole, fraction) = mantissa.split_once('.').unwrap_or((mantissa, ""));
        digits = format!("{whole}{fraction}").parse().unwrap();
        exp = e.parse().unwrap();
    }
    Float {
        bits: f.to_bits(),
        digits,
        exp,
    }
}

/// What the float literals of a text are.
fn reads(text: &str) -> Vec<Float> {
    float_literals(text.as_bytes())
        .iter()
        .map(|l| float(std::str::from_utf8(l).unwrap().parse().unwrap()))
        .collect()
}

fn decode(text: &str) -> Result<Value, CodecError> {
    reading::decode(text, &reads(text))
}

fn t(entries: Vec<(Key, Value)>) -> Value {
    let mut table = Table::new();
    for (k, v) in entries {
        table.insert(k, v).unwrap();
    }
    Value::Table(table)
}

/// The fixture table, pinned byte for byte.
#[test]
fn fixture_encodes_to_pinned_bytes() {
    let v = t(vec![
        (Key::str("x"), Value::Float(float(1.5))),
        (Key::Int(1), Value::Int(2)),
        (Key::str("y"), Value::Bool(true)),
        (Key::str("b"), Value::Blob(vec![0, 1, 2, 3])),
        (Key::str("k"), Value::str("v")),
        (Key::Bool(false), Value::Int(0)),
        (Key::str("end"), Value::str("kw")),
        (Key::str("a b"), Value::str("sp")),
        (Key::Float(float(2.5)), Value::str("f")),
        (Key::str("s"), Value::Str(b"q\"\\\n\t\x01\xff~".to_vec())),
        (Key::str("neg"), Value::Int(i64::MIN)),
        (Key::str("z"), Value::Float(float(-0.0))),
        (Key::str("e"), t(vec![])),
        (
            Key::str("n"),
            t(vec![(Key::Int(1), t(vec![(Key::str("d"), Value::Int(3))]))]),
        ),
    ]);
    let text = encode(&v).unwrap();
    assert_eq!(
        text,
        "{ [false] = 0, [1] = 2, [2.5] = \"f\", [\"a b\"] = \"sp\", b = blob\"AAECAw==\", \
         e = {}, [\"end\"] = \"kw\", k = \"v\", n = { [1] = { d = 3 } }, \
         neg = -9223372036854775808, s = \"q\\\"\\\\\\n\\t\\x01\\xff~\", x = 1.5, \
         y = true, z = -0.0 }"
    );
    let back = decode(&text).unwrap();
    assert_eq!(encode(&back).unwrap(), text);
    let Value::Table(bt) = &back else { panic!() };
    assert!(matches!(bt.get(&Key::str("z")), Some(Value::Float(f)) if f64::from_bits(f.bits).is_sign_negative()));
    assert_eq!(bt.get(&Key::Int(1)), Some(&Value::Int(2)));
    assert_eq!(bt.get(&Key::str("neg")), Some(&Value::Int(i64::MIN)));
}

#[test]
fn float_formatting_rule() {
    let cases: &[(f64, &str)] = &[
        (0.0, "0.0"),
        (-0.0, "-0.0"),
        (1.0, "1.0"),
        (1.5, "1.5"),
        (100.0, "100.0"),
        (123456.789, "123456.789"),
        (0.1, "0.1"),
        (0.00001, "0.00001"),
        (0.000001, "1e-6"),
        (1.5e-7, "1.5e-7"),
        (1e16, "10000000000000000.0"),
        (1e17, "1e17"),
        (-2.5e300, "-2.5e300"),
        (f64::MAX, "1.7976931348623157e308"),
        (f64::MIN_POSITIVE, "2.2250738585072014e-308"),
        (5e-324, "5e-324"),
        (1.0 / 3.0, "0.3333333333333333"),
        (9007199254740993.0, "9007199254740992.0"),
    ];
    for (f, want) in cases {
        let mut out = Vec::new();
        write_float(&mut out, &float(*f));
        let s = String::from_utf8(out).unwrap();
        assert_eq!(&s, want, "{f:?}");
        let back = decode(&s).unwrap();
        assert!(
            matches!(back, Value::Float(g) if g.bits == f.to_bits()),
            "{s}"
        );
    }
}

#[test]
fn top_level_scalars() {
    for (text, canon) in [
        ("nil", "nil"),
        (" true ", "true"),
        ("false", "false"),
        ("42", "42"),
        ("-7", "-7"),
        ("1.50", "1.5"),
        ("1e2", "100.0"),
        ("1E+2", "100.0"),
        ("\"a\\x41\\\\X41\"", "\"aA\\\\X41\""),
        ("\"\"", "\"\""),
        ("blob\"\"", "blob\"\""),
        ("{x=1,}", "{ x = 1 }"),
        ("{\n  x = 1,\n  y = 2\n}", "{ x = 1, y = 2 }"),
    ] {
        let v = decode(text).unwrap();
        assert_eq!(encode(&v).unwrap(), canon, "{text}");
    }
}

#[test]
fn syntax_errors() {
    for bad in [
        "",
        "{",
        "{ x = }",
        "{ x = 1 y = 2 }",
        "{ 1, 2 }",
        "\"abc",
        "\"a\\q\"",
        "\"a\\x4\"",
        "\"a\nb\"",
        "blob\"Zg\"",
        "blob \"Zg==\"",
        "1 2",
        "'a'",
        "{ x = nil }",
        "{ [nil] = 1 }",
        "{ end = 1 }",
        "-",
        "1.",
        "1e",
        "0x10",
        "--comment\n1",
        "nul",
    ] {
        let e = decode(bad).unwrap_err();
        assert!(
            e.code == "codec_syntax" || (bad == "{ [nil] = 1 }" && e.code == "codec_key"),
            "{bad:?} -> {e:?}"
        );
    }
}

#[test]
fn number_errors() {
    assert_eq!(
        decode("9223372036854775808").unwrap_err().code,
        "codec_number"
    );
    assert_eq!(
        decode("-9223372036854775809").unwrap_err().code,
        "codec_number"
    );
    assert_eq!(decode("1e999").unwrap_err().code, "codec_number");
    assert_eq!(
        encode(&Value::Float(float(f64::NAN))).unwrap_err().code,
        "codec_number"
    );
    assert_eq!(
        encode(&Value::Float(float(f64::INFINITY))).unwrap_err().code,
        "codec_number"
    );
}

#[test]
fn key_errors() {
    assert_eq!(decode("{ x = 1, x = 2 }").unwrap_err().code, "codec_key");
    assert_eq!(
        decode("{ [1] = 1, [1] = 2 }").unwrap_err().code,
        "codec_key"
    );
    assert_eq!(decode("{ [1.0] = 1 }").unwrap_err().code, "codec_key");
    assert_eq!(decode("{ [{}] = 1 }").unwrap_err().code, "codec_key");
    assert_eq!(decode("{ [blob\"\"] = 1 }").unwrap_err().code, "codec_key");
    assert_eq!(
        decode("{ x = 1, [\"x\"] = 2 }").unwrap_err().code,
        "codec_key"
    );
}

#[test]
fn unsupported_nil_in_table() {
    let mut table = Table::new();
    assert_eq!(
        table.insert(Key::Int(1), Value::Nil).unwrap_err().code,
        "codec_unsupported"
    );
}

#[test]
fn depth_limit() {
    let ok = "{ a = ".repeat(MAX_DEPTH) + "1" + &" }".repeat(MAX_DEPTH);
    assert!(decode(&ok).is_ok());
    let deep = "{ a = ".repeat(MAX_DEPTH + 1) + "1" + &" }".repeat(MAX_DEPTH + 1);
    assert_eq!(decode(&deep).unwrap_err().code, "codec_depth");
    let mut v = Value::Int(1);
    for _ in 0..MAX_DEPTH + 1 {
        v = t(vec![(Key::str("a"), v)]);
    }
    assert_eq!(encode(&v).unwrap_err().code, "codec_depth");
}

#[test]
fn size_limits() {
    // Entries: 65 537 one-byte entries fit the encoded limit? No:
    // "[n] = 1, " is 9+ bytes, so build the value in memory instead.
    let mut table = Table::new();
    for i in 0..(MAX_ENTRIES as i64 + 1) {
        table.insert(Key::Int(i), Value::Bool(true)).unwrap();
    }
    assert_eq!(encode(&Value::Table(table)).unwrap_err().code, "codec_size");
    // Encoded: a string just over the limit.
    let big = Value::Str(vec![b'a'; MAX_ENCODED]);
    assert_eq!(encode(&big).unwrap_err().code, "codec_size");
    let fits = Value::Str(vec![b'a'; MAX_ENCODED - 2]);
    assert!(encode(&fits).is_ok());
    let text = "\"".to_string() + &"a".repeat(MAX_ENCODED) + "\"";
    assert_eq!(decode(&text).unwrap_err().code, "codec_size");
}

#[test]
fn what_is_written_reads_back() {
    let text = "{ [true] = -0.5, [7] = { a = blob\"AAECAw==\" }, name = \"x\" }";
    let v = decode(text).unwrap();
    assert_eq!(encode(&v).unwrap(), text);
    assert_eq!(decode(&encode(&v).unwrap()).unwrap(), v);
}
