use parquet_decode::json::FloatBits;
use parquet_decode::model::{hex, Issue, Prim, Span, Triple, Value};
use parquet_decode::text;
use parquet_decode::thrift::TVal;

fn float(bits: FloatBits) -> serde_json::Value {
    match bits {
        FloatBits::F32(b) => serde_json::Value::from(f32::from_bits(b)),
        FloatBits::F64(b) => serde_json::Value::from(f64::from_bits(b)),
    }
}

fn show(p: Prim) -> String {
    p.to_json(&float).to_string()
}

#[test]
fn issues_from_text_and_string() {
    let a = Issue::error("K", "text").for_column("c").for_page(4);
    assert_eq!((a.severity.as_str(), a.kind.as_str(), a.message.as_str()), ("error", "K", "text"));
    assert_eq!(a.column.as_deref(), Some("c"));
    assert_eq!(a.page, Some(4));
    let b = Issue::info("L", String::from("owned"));
    assert_eq!((b.severity.as_str(), b.kind.as_str(), b.message.as_str()), ("info", "L", "owned"));
    assert_eq!((b.column, b.page), (None, None));
}

#[test]
fn hex_dump() {
    assert_eq!(hex(&[]), "");
    assert_eq!(hex(&[0x00, 0x1f, 0xa0, 0xff]), "001fa0ff");
}

#[test]
fn decimal_text() {
    let mut s = String::from("n=");
    text::push_dec(&mut s, 0);
    text::push_dec(&mut s, u128::MAX);
    text::push_int(&mut s, i64::MIN);
    assert_eq!(s, "n=0340282366920938463463374607431768211455-9223372036854775808");
    assert!(text::same_text("gr\u{fc}n", "gr\u{fc}n"));
    assert!(!text::same_text("a", "ab"));
    assert!(!text::same_text("ab", "ac"));
}

#[test]
fn primitives_as_json() {
    assert_eq!(show(Prim::Bool(true)), "true");
    assert_eq!(show(Prim::I32(-5)), "-5");
    assert_eq!(show(Prim::I64(i64::MIN)), "-9223372036854775808");
    assert_eq!(
        show(Prim::I96([0, 1, 2, 3, 4, 5, 6, 7, 8, 9, 10, 255])),
        "{\"int96_hex\":\"000102030405060708090aff\"}"
    );
    assert_eq!(show(Prim::F32(0.5f32.to_bits())), "0.5");
    assert_eq!(show(Prim::F64(2.25f64.to_bits())), "2.25");
    assert_eq!(show(Prim::F64(f64::NAN.to_bits())), "null");
    assert_eq!(show(Prim::Bytes(b"plain".to_vec())), "\"plain\"");
    assert_eq!(show(Prim::Fixed("\u{e4}".as_bytes().to_vec())), "\"\u{e4}\"");
    assert_eq!(show(Prim::Bytes(vec![0xff, 0x00])), "{\"hex\":\"ff00\"}");
    // An encoded surrogate and an overlong form are no UTF-8.
    assert_eq!(show(Prim::Fixed(vec![0xed, 0xa0, 0x80])), "{\"hex\":\"eda080\"}");
    assert_eq!(show(Prim::Fixed(vec![0xc0, 0x80])), "{\"hex\":\"c080\"}");
    assert_eq!(show(Prim::Bytes(Vec::new())), "\"\"");
}

#[test]
fn values_as_json() {
    assert_eq!(Value::Null.to_json(&float), serde_json::Value::Null);
    let list = Value::List(vec![Value::Null, Value::Prim(Prim::I32(1)), Value::List(Vec::new())]);
    let value = Value::Struct(vec![
        ("a".to_string(), list),
        ("b".to_string(), Value::Prim(Prim::I32(2))),
        ("b".to_string(), Value::Prim(Prim::F64(1.5f64.to_bits()))),
        ("c".to_string(), Value::Struct(Vec::new())),
    ]);
    assert_eq!(value.to_json(&float).to_string(), "{\"a\":[null,1,[]],\"b\":1.5,\"c\":{}}");
}

#[test]
fn clones_are_equal() {
    let value = Value::Struct(vec![(
        "a".to_string(),
        Value::List(vec![Value::Prim(Prim::Bytes(vec![1, 2])), Value::Prim(Prim::I96([7; 12]))]),
    )]);
    assert_eq!(value.clone(), value);
    let t = Triple {
        rep: 1,
        def: 2,
        val: Some(Prim::Fixed(vec![9])),
        spans: vec![Span { kind: "values".to_string(), start: 3, end: 4, page: None }],
    };
    let u = t.clone();
    assert_eq!((u.rep, u.def, u.val), (1, 2, Some(Prim::Fixed(vec![9]))));
    assert_eq!((u.spans.len(), u.spans[0].start, u.spans[0].end), (1, 3, 4));
}

#[test]
fn floats_are_compared_as_numbers() {
    let doubles = [0.0, -0.0, 1.5, -1.5, f64::MIN_POSITIVE, f64::INFINITY, f64::NEG_INFINITY];
    for a in doubles.iter().chain(&[f64::NAN, -f64::NAN]) {
        for b in doubles.iter().chain(&[f64::NAN, -f64::NAN]) {
            assert_eq!(Prim::F64(a.to_bits()) == Prim::F64(b.to_bits()), a == b);
            let (x, y) = (*a as f32, *b as f32);
            assert_eq!(Prim::F32(x.to_bits()) == Prim::F32(y.to_bits()), x == y);
            let (v, w) = (TVal::Double(a.to_bits()), TVal::Double(b.to_bits()));
            assert_eq!(TVal::List(vec![v]) == TVal::List(vec![w]), a == b);
        }
    }
    let nan = || Value::List(vec![Value::Prim(Prim::F32(f32::NAN.to_bits()))]);
    assert_ne!(nan(), nan());
}

#[test]
fn other_values_are_compared_by_contents() {
    assert_ne!(Prim::Bytes(vec![1]), Prim::Fixed(vec![1]));
    assert_ne!(Prim::I32(1), Prim::I64(1));
    assert_ne!(Prim::I96([0; 12]), Prim::I96([1; 12]));
    let one = || Value::Prim(Prim::I32(1));
    let named = |n: &str, v: Value| Value::Struct(vec![(n.to_string(), v)]);
    assert_eq!(named("a", one()), named("a", one()));
    assert_ne!(named("a", one()), named("b", one()));
    assert_ne!(named("a", one()), named("a", Value::Null));
    assert_ne!(Value::List(vec![one()]), Value::List(vec![one(), one()]));
    assert_ne!(Value::List(Vec::new()), Value::Struct(Vec::new()));
    let field = |id: i16, v: i32| TVal::Struct(vec![(id, TVal::I32(v))]);
    assert_eq!(field(1, 2), field(1, 2));
    assert_ne!(field(1, 2), field(2, 2));
    assert_ne!(field(1, 2), field(1, 3));
    assert_ne!(TVal::I32(1), TVal::I64(1));
}
