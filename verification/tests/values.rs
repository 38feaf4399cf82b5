use json_tree::encode::encode;
use json_tree::token::{KeyClass, Token, classify_key};
use json_tree::value::{Array, Bool, Double, Int, Json, Null, Object, Str};

fn kinds(v: &Json) -> u32 {
    let mut n: u32 = 0;
    if v.is_str() {
        n += 1;
    }
    if v.is_i64() {
        n += 1;
    }
    if v.is_f64() {
        n += 1;
    }
    if v.is_bool() {
        n += 1;
    }
    if v.is_null() {
        n += 1;
    }
    if v.is_array() {
        n += 1;
    }
    if v.is_object() {
        n += 1;
    }
    n
}

#[test]
fn test_ser_map() {
    let mut map = Object::new();
    let k1 = Str { value: String::from("k1_val") };
    let k2 = Str { value: String::from("k2_val") };
    let k3 = Double { bits: 0.0f64.to_bits() };
    map.insert(String::from("k1"), Json::Str(k1));
    map.insert(String::from("k2"), Json::Str(k2));
    map.insert(String::from("k3"), Json::Double(k3));

    let obj = Json::Object(map);

    let toks = encode(&obj);
    assert_eq!(
        toks,
        vec![
            Token::MapStart,
            Token::Text(String::from("k1")),
            Token::Text(String::from("k1_val")),
            Token::Text(String::from("k2")),
            Token::Text(String::from("k2_val")),
            Token::Text(String::from("k3")),
            Token::F64Bits(0.0f64.to_bits()),
            Token::MapEnd,
        ]
    );
}

#[test]
fn exactly_one_predicate_per_kind() {
    let values = vec![
        Json::Str(Str { value: String::from("x") }),
        Json::Int(Int { value: 4 }),
        Json::Double(Double { bits: 2.5f64.to_bits() }),
        Json::Bool(Bool { value: true }),
        Json::Null(Null { value: None }),
        Json::Array(Array { value: vec![] }),
        Json::Object(Object::new()),
    ];
    for v in &values {
        assert_eq!(kinds(v), 1);
    }
}

#[test]
fn accessors_match_predicates() {
    let s = Json::Str(Str { value: String::from("x") });
    assert_eq!(s.as_str().unwrap().as_str(), "x");
    assert_eq!(s.as_i64(), None);
    assert_eq!(s.as_f64(), None);
    assert_eq!(s.as_bool(), None);
    assert!(s.as_array().is_none());
    assert!(s.as_object().is_none());

    let i = Json::Int(Int { value: -7 });
    assert_eq!(i.as_i64(), Some(-7));
    assert!(i.as_str().is_none());

    let d = Json::Double(Double { bits: 2.5f64.to_bits() });
    assert_eq!(f64::from_bits(d.as_f64().unwrap()), 2.5);

    let b = Json::Bool(Bool { value: true });
    assert_eq!(b.as_bool(), Some(true));

    let n = Json::Null(Null { value: None });
    assert!(n.is_null());
    assert!(n.as_bool().is_none());

    let a = Json::Array(Array { value: vec![Json::Bool(Bool { value: false })] });
    assert_eq!(a.as_array().unwrap().len(), 1);
}

#[test]
fn object_insert_sorts_and_overwrites() {
    let mut o = Object::new();
    o.insert(String::from("c"), Json::Int(Int { value: 3 }));
    o.insert(String::from("a"), Json::Int(Int { value: 1 }));
    o.insert(String::from("b"), Json::Int(Int { value: 2 }));
    assert_eq!(o.len(), 3);
    assert_eq!(o.key_at(0).as_str(), "a");
    assert_eq!(o.key_at(1).as_str(), "b");
    assert_eq!(o.key_at(2).as_str(), "c");
    o.insert(String::from("a"), Json::Int(Int { value: 10 }));
    assert_eq!(o.len(), 3);
    assert_eq!(o.value_at(0).as_i64(), Some(10));
    assert_eq!(o.value_at(1).as_i64(), Some(2));
    assert_eq!(o.value_at(2).as_i64(), Some(3));
}

#[test]
fn object_keys_order_by_scalar_value() {
    let mut o = Object::new();
    o.insert(String::from("\u{e9}"), Json::Int(Int { value: 1 }));
    o.insert(String::from("z"), Json::Int(Int { value: 2 }));
    o.insert(String::from(""), Json::Int(Int { value: 0 }));
    o.insert(String::from("ab"), Json::Int(Int { value: 3 }));
    o.insert(String::from("a"), Json::Int(Int { value: 4 }));
    assert_eq!(o.len(), 5);
    assert_eq!(o.key_at(0).as_str(), "");
    assert_eq!(o.key_at(1).as_str(), "a");
    assert_eq!(o.key_at(2).as_str(), "ab");
    assert_eq!(o.key_at(3).as_str(), "z");
    assert_eq!(o.key_at(4).as_str(), "\u{e9}");
}

#[test]
fn object_get_finds_present_keys_only() {
    let mut o = Object::new();
    o.insert(String::from("beta"), Json::Int(Int { value: 2 }));
    o.insert(String::from("alpha"), Json::Int(Int { value: 1 }));
    assert_eq!(o.get("alpha").unwrap().as_i64(), Some(1));
    assert_eq!(o.get("beta").unwrap().as_i64(), Some(2));
    assert!(o.get("gamma").is_none());
    assert!(o.get("").is_none());
    assert!(o.get("alph").is_none());
}

#[test]
fn classify_key_is_ordinary() {
    let KeyClass::Ordinary(k) = classify_key(String::from("anything"));
    assert_eq!(k.as_str(), "anything");
}
