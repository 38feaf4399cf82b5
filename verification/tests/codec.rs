use json_tree::decode::{decode, decode_value};
use json_tree::encode::encode;
use json_tree::token::{DecodeError, Token};
use json_tree::value::{Json, Str, Int, Double, Bool, Null, Array};

fn txt(t: &str) -> Token {
    Token::Text(String::from(t))
}

#[test]
fn test_deser_map() {
    // { "k1": "k1_val", "k2": "k2_val", "k3": 0.0 }
    let toks = vec![
        Token::MapStart,
        txt("k1"),
        txt("k1_val"),
        txt("k2"),
        txt("k2_val"),
        txt("k3"),
        Token::F64Bits(0.0f64.to_bits()),
        Token::MapEnd,
    ];
    let json = decode(&toks).unwrap();
    let o = json.as_object().unwrap();
    assert_eq!(o.len(), 3);
    assert_eq!(o.key_at(0).as_str(), "k1");
    assert_eq!(o.value_at(0).as_str().unwrap().as_str(), "k1_val");
    assert_eq!(o.key_at(1).as_str(), "k2");
    assert_eq!(o.value_at(1).as_str().unwrap().as_str(), "k2_val");
    assert_eq!(o.key_at(2).as_str(), "k3");
    assert_eq!(f64::from_bits(o.value_at(2).as_f64().unwrap()), 0.0);
    // writing it back out reproduces the same stream
    let out = encode(&json);
    assert_eq!(out, toks);
}

#[test]
fn empty_object() {
    let toks = vec![Token::MapStart, Token::MapEnd];
    let json = decode(&toks).unwrap();
    assert!(json.is_object());
    assert_eq!(json.as_object().unwrap().len(), 0);
}

#[test]
fn empty_array() {
    let toks = vec![Token::SeqStart, Token::SeqEnd];
    let json = decode(&toks).unwrap();
    assert!(json.is_array());
    assert_eq!(json.as_array().unwrap().len(), 0);
}

#[test]
fn duplicate_key_last_wins() {
    // { "a": 1, "a": 2 }
    let toks = vec![
        Token::MapStart,
        txt("a"),
        Token::I64(1),
        txt("a"),
        Token::I64(2),
        Token::MapEnd,
    ];
    let json = decode(&toks).unwrap();
    let o = json.as_object().unwrap();
    assert_eq!(o.len(), 1);
    assert_eq!(o.key_at(0).as_str(), "a");
    assert_eq!(o.value_at(0).as_i64(), Some(2));
}

#[test]
fn nested_array_and_object() {
    // [[1, 2], {"a": [true, null]}]
    let toks = vec![
        Token::SeqStart,
        Token::SeqStart,
        Token::I64(1),
        Token::I64(2),
        Token::SeqEnd,
        Token::MapStart,
        txt("a"),
        Token::SeqStart,
        Token::Bool(true),
        Token::Absent,
        Token::SeqEnd,
        Token::MapEnd,
        Token::SeqEnd,
    ];
    let json = decode(&toks).unwrap();
    let outer = json.as_array().unwrap();
    assert_eq!(outer.len(), 2);
    let first = outer[0].as_array().unwrap();
    assert_eq!(first.len(), 2);
    assert_eq!(first[0].as_i64(), Some(1));
    assert_eq!(first[1].as_i64(), Some(2));
    let second = outer[1].as_object().unwrap();
    assert_eq!(second.len(), 1);
    assert_eq!(second.key_at(0).as_str(), "a");
    let inner = second.value_at(0).as_array().unwrap();
    assert_eq!(inner.len(), 2);
    assert_eq!(inner[0].as_bool(), Some(true));
    assert!(inner[1].is_null());
}

#[test]
fn concrete_object_scenario() {
    // { "k1": "v", "k2": 2, "k3": 0.5 }, keys arriving out of order
    let toks = vec![
        Token::MapStart,
        txt("k3"),
        Token::F64Bits(0.5f64.to_bits()),
        txt("k1"),
        txt("v"),
        txt("k2"),
        Token::I64(2),
        Token::MapEnd,
    ];
    let json = decode(&toks).unwrap();
    let o = json.as_object().unwrap();
    assert_eq!(o.len(), 3);
    assert_eq!(o.key_at(0).as_str(), "k1");
    assert!(o.value_at(0).is_str());
    assert_eq!(o.value_at(0).as_str().unwrap().as_str(), "v");
    assert_eq!(o.key_at(1).as_str(), "k2");
    assert!(o.value_at(1).is_i64());
    assert_eq!(o.value_at(1).as_i64(), Some(2));
    assert_eq!(o.key_at(2).as_str(), "k3");
    assert!(o.value_at(2).is_f64());
    assert_eq!(f64::from_bits(o.value_at(2).as_f64().unwrap()), 0.5);
    // encoding writes the three pairs in sorted key order
    let out = encode(&json);
    assert_eq!(
        out,
        vec![
            Token::MapStart,
            txt("k1"),
            txt("v"),
            txt("k2"),
            Token::I64(2),
            txt("k3"),
            Token::F64Bits(0.5f64.to_bits()),
            Token::MapEnd,
        ]
    );
}

#[test]
fn round_trip_decode_encode_decode() {
    // input uses every normalized form: unsorted duplicate keys, an
    // unsigned integer, a present-optional wrapper, and the unit token
    let toks = vec![
        Token::MapStart,
        txt("b"),
        Token::U64(7),
        txt("a"),
        Token::Present,
        Token::SeqStart,
        Token::Unit,
        Token::Bool(false),
        Token::SeqEnd,
        txt("b"),
        Token::I64(-3),
        Token::MapEnd,
    ];
    let first = decode(&toks).unwrap();
    let written = encode(&first);
    let second = decode(&written).unwrap();
    assert_eq!(first, second);
    let o = second.as_object().unwrap();
    assert_eq!(o.len(), 2);
    assert_eq!(o.key_at(0).as_str(), "a");
    assert_eq!(o.key_at(1).as_str(), "b");
    assert_eq!(o.value_at(1).as_i64(), Some(-3));
}

#[test]
fn u64_narrowing_wraps() {
    let toks = vec![Token::U64(u64::MAX)];
    let json = decode(&toks).unwrap();
    assert_eq!(json.as_i64(), Some(-1));
    let toks2 = vec![Token::U64(5)];
    assert_eq!(decode(&toks2).unwrap().as_i64(), Some(5));
}

#[test]
fn present_unwraps_to_inner_value() {
    let toks = vec![Token::Present, Token::Bool(true)];
    let json = decode(&toks).unwrap();
    assert_eq!(json.as_bool(), Some(true));
}

#[test]
fn absent_and_unit_decode_to_null() {
    assert!(decode(&vec![Token::Absent]).unwrap().is_null());
    assert!(decode(&vec![Token::Unit]).unwrap().is_null());
}

#[test]
fn error_end_of_input() {
    assert_eq!(decode(&vec![]), Err(DecodeError::EndOfInput));
    let unclosed = vec![Token::SeqStart, Token::I64(1)];
    assert_eq!(decode(&unclosed), Err(DecodeError::EndOfInput));
    let no_value = vec![Token::MapStart, txt("a")];
    assert_eq!(decode(&no_value), Err(DecodeError::EndOfInput));
}

#[test]
fn error_unexpected_closer() {
    assert_eq!(decode(&vec![Token::SeqEnd]), Err(DecodeError::UnexpectedToken));
    assert_eq!(decode(&vec![Token::MapEnd]), Err(DecodeError::UnexpectedToken));
    let closer_as_element = vec![Token::SeqStart, Token::MapEnd, Token::SeqEnd];
    assert_eq!(decode(&closer_as_element), Err(DecodeError::UnexpectedToken));
}

#[test]
fn error_key_not_string() {
    let toks = vec![Token::MapStart, Token::I64(1), Token::I64(2), Token::MapEnd];
    assert_eq!(decode(&toks), Err(DecodeError::KeyNotString));
}

#[test]
fn error_trailing_tokens() {
    let toks = vec![Token::I64(1), Token::I64(2)];
    assert_eq!(decode(&toks), Err(DecodeError::TrailingTokens));
}

#[test]
fn decode_value_reports_next_position() {
    let toks = vec![Token::I64(1), Token::Bool(true), Token::Absent];
    let (v0, p1) = decode_value(&toks, 0).unwrap();
    assert_eq!(v0.as_i64(), Some(1));
    assert_eq!(p1, 1);
    let (v1, p2) = decode_value(&toks, p1).unwrap();
    assert_eq!(v1.as_bool(), Some(true));
    assert_eq!(p2, 2);
    let (v2, p3) = decode_value(&toks, p2).unwrap();
    assert!(v2.is_null());
    assert_eq!(p3, 3);
    assert_eq!(decode_value(&toks, 3), Err(DecodeError::EndOfInput));
}

#[test]
fn encode_scalars() {
    assert_eq!(encode(&Json::Str(Str { value: String::from("hi") })), vec![txt("hi")]);
    assert_eq!(encode(&Json::Int(Int { value: -9 })), vec![Token::I64(-9)]);
    assert_eq!(
        encode(&Json::Double(Double { bits: 1.5f64.to_bits() })),
        vec![Token::F64Bits(1.5f64.to_bits())]
    );
    assert_eq!(encode(&Json::Bool(Bool { value: false })), vec![Token::Bool(false)]);
    assert_eq!(encode(&Json::Null(Null { value: None })), vec![Token::Absent]);
    let arr = Json::Array(Array {
        value: vec![Json::Int(Int { value: 1 }), Json::Int(Int { value: 2 })],
    });
    assert_eq!(
        encode(&arr),
        vec![Token::SeqStart, Token::I64(1), Token::I64(2), Token::SeqEnd]
    );
}
