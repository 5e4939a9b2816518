//! The JSON form of values.

use kuula::codec::json::{from_json, to_json, Json};
use kuula::codec::lexis::float_literals;
use kuula::codec::number::Float;
use kuula::codec::reading;
use kuula::codec::value::Value;
use kuula::codec::writing::encode;
use kuula::codec::CodecError;
use serde_json::Number;

/// A float with its shortest decimal digits.
fn float(f: f64) -> Float {
    let mut digits: u64 = 0;
    let mut exp: i32 = 0;
    if f.is_finite() {
        let text = format!("{:e}", f.abs());
        let (mantissa, e) = text.split_once('e').unwrap();
        let (whole, fraction) = mantissa.split_once('.').unwrap_or((mantissa, ""));
        digits = format!("{whole}{fraction}").parse().unwrap();
        exp = e.parse().unwrap();
    }
    Float {
        bits: f.to_bits(),
        digits,
        exp,
    }
}

/// What the float literals of a text are.
fn reads(text: &str) -> Vec<Float> {
    float_literals(text.as_bytes())
        .iter()
        .map(|l| float(std::str::from_utf8(l).unwrap().parse().unwrap()))
        .collect()
}

fn decode(text: &str) -> Result<Value, CodecError> {
    reading::decode(text, &reads(text))
}

/// A parsed document as the library holds it.
fn tree(v: &serde_json::Value) -> Json {
    match v {
        serde_json::Value::Null => Json::Null,
        serde_json::Value::Bool(b) => Json::Bool(*b),
        serde_json::Value::Number(n) => match (n.as_i64(), n.as_u64()) {
            (Some(i), _) => Json::Int(i),
            (None, Some(u)) => Json::Unsigned(u),
            (None, None) => Json::Float(float(n.as_f64().unwrap())),
        },
        serde_json::Value::String(s) => Json::Text(s.clone()),
        serde_json::Value::Array(a) => Json::Array(a.iter().map(tree).collect()),
        serde_json::Value::Object(o) => {
            Json::Object(o.iter().map(|(k, v)| (k.clone(), tree(v))).collect())
        }
    }
}

/// A document to print.
fn document(j: &Json) -> serde_json::Value {
    match j {
        Json::Null => serde_json::Value::Null,
        Json::Bool(b) => serde_json::Value::Bool(*b),
        Json::Int(i) => serde_json::Value::Number(Number::from(*i)),
        Json::Unsigned(u) => serde_json::Value::Number(Number::from(*u)),
        Json::Float(f) => {
            serde_json::Value::Number(Number::from_f64(f64::from_bits(f.bits)).unwrap())
        }
        Json::Text(s) => serde_json::Value::String(s.clone()),
        Json::Array(a) => serde_json::Value::Array(a.iter().map(document).collect()),
        Json::Object(o) => {
            let mut map = serde_json::Map::new();
            for (k, v) in o {
                map.insert(k.clone(), document(v));
            }
            serde_json::Value::Object(map)
        }
    }
}

fn round(text: &str, json: &str) {
    let v = decode(text).unwrap();
    let j = to_json(&v).unwrap();
    assert_eq!(serde_json::to_string(&document(&j)).unwrap(), json, "{text}");
    let back = from_json(&j).unwrap();
    assert_eq!(encode(&back).unwrap(), encode(&v).unwrap(), "{json}");
}

#[test]
fn plain_shapes() {
    round("nil", "null");
    round("true", "true");
    round("42", "42");
    round("-9223372036854775808", "-9223372036854775808");
    round("1.0", "1.0");
    round("-0.0", "-0.0");
    round("1.5e-7", "1.5e-7");
    round("\"h\\xc3\\xa9\"", "\"h\u{e9}\"");
    round("{}", "{}");
    round(
        "{ a = 1, b = { c = \"x\" } }",
        "{\"a\":1,\"b\":{\"c\":\"x\"}}",
    );
}

#[test]
fn tagged_shapes() {
    round("\"\\xff\"", "{\"$bytes\":\"/w==\"}");
    round("blob\"AAECAw==\"", "{\"$blob\":\"AAECAw==\"}");
    round(
        "{ [1] = \"a\", [2] = \"b\" }",
        "{\"$table\":[[1,\"a\"],[2,\"b\"]]}",
    );
    round(
        "{ [false] = 1, [1.5] = 2, x = 3 }",
        "{\"$table\":[[false,1],[1.5,2],[\"x\",3]]}",
    );
    round("{ [\"$x\"] = 1 }", "{\"$table\":[[\"$x\",1]]}");
    round(
        "{ [\"\\xff\"] = 1 }",
        "{\"$table\":[[{\"$bytes\":\"/w==\"},1]]}",
    );
}

#[test]
fn lenient_input() {
    let j = tree(&serde_json::from_str("{\"$x\": 1, \"y\": 2}").unwrap());
    assert_eq!(
        encode(&from_json(&j).unwrap()).unwrap(),
        "{ [\"$x\"] = 1, y = 2 }"
    );
    let j = tree(&serde_json::from_str("{\"$blob\": 5}").unwrap());
    assert_eq!(from_json(&j).unwrap_err().code, "codec_syntax");
    let j = tree(&serde_json::from_str("[1, 2]").unwrap());
    assert_eq!(from_json(&j).unwrap_err().code, "codec_syntax");
    let j = tree(&serde_json::from_str("18446744073709551615").unwrap());
    assert_eq!(from_json(&j).unwrap_err().code, "codec_number");
    let j = tree(&serde_json::from_str("{\"a\": null}").unwrap());
    assert_eq!(from_json(&j).unwrap_err().code, "codec_unsupported");
    let j = tree(&serde_json::from_str("{\"$table\": [[1, 1], [1, 2]]}").unwrap());
    assert_eq!(from_json(&j).unwrap_err().code, "codec_key");
    let j = tree(&serde_json::from_str("{\"$table\": [[null, 1]]}").unwrap());
    assert_eq!(from_json(&j).unwrap_err().code, "codec_key");
}

#[test]
fn depth_is_bounded_on_the_way_in() {
    let text = "{\"a\":".repeat(40) + "1" + &"}".repeat(40);
    let j = tree(&serde_json::from_str(&text).unwrap());
    assert_eq!(from_json(&j).unwrap_err().code, "codec_depth");
}
