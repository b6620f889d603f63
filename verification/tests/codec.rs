use json_value::Json;
use json_value::JsonError;

#[test]
fn test_str() {
    let s = r#""abc""#;
    let j: Json = Json::from_str(&s).unwrap();
    assert_eq!(Json::Text("abc".to_string()), j);
}

#[test]
fn test_int() {
    let s = r#"1"#;
    let j: Json = Json::from_str(&s).unwrap();
    assert_eq!(Json::Integer(1), j);
}

#[test]
fn test_float() {
    let s = r#"0.1"#;
    let j: Json = Json::from_str(&s).unwrap();
    assert_eq!(Json::Float("0.1".to_string()), j);
}

#[test]
fn test_bool() {
    let s = r#"true"#;
    let j: Json = Json::from_str(&s).unwrap();
    assert_eq!(Json::Boolean(true), j);
}

#[test]
fn test_null() {
    let s = r#"null"#;
    let j: Json = Json::from_str(&s).unwrap();
    assert_eq!(Json::Null, j);
}

#[test]
#[should_panic]
fn test_error() {
    let s = r#"abcd"#;
    let _: Json = Json::from_str(&s).unwrap();
}

#[test]
fn test_array() {
    let s = r#"[0, 1]"#;
    let j: Json = Json::from_str(&s).unwrap();
    assert_eq!(Json::Array(vec![Json::Integer(0), Json::Integer(1)]), j);
}

#[test]
fn test_dict() {
    let s = r#"{"x": 1, "y": "abcd"}"#;
    let j: Json = Json::from_str(&s).unwrap();
    assert_eq!(
        Json::Object(vec![
            ("x".to_string(), Json::Integer(1)),
            ("y".to_string(), Json::Text("abcd".to_string())),
        ]),
        j
    );
}

#[test]
fn test_any_json() {
    let s = r#"[{"x": 1, "y": "abcd", "z": {} , "a": []}]"#;
    let j: Json = Json::from_str(&s).unwrap();
    assert_eq!(
        Json::Array(vec![Json::Object(vec![
            ("x".to_string(), Json::Integer(1)),
            ("y".to_string(), Json::Text("abcd".to_string())),
            ("z".to_string(), Json::Object(Vec::new())),
            ("a".to_string(), Json::Array(Vec::new())),
        ])]),
        j
    );
}

#[test]
fn test_poly() {
    let s1 = r#""abc""#;
    let s2 = r#"1"#;
    let s3 = r#"0.1"#;
    let s4 = r#"true"#;
    let s5 = r#"null"#;
    let s6 = r#"[0, 1]"#;
    let s7 = r#"{"x": 1, "y": "abcd"}"#;
    let s8 = r#"[{"x": 1, "y": "abcd", "z": {} , "a": []}]"#;

    let j1: Json = Json::from_str(&s1).unwrap();
    let j2: Json = Json::from_str(&s2).unwrap();
    let j3: Json = Json::from_str(&s3).unwrap();
    let j4: Json = Json::from_str(&s4).unwrap();
    let j5: Json = Json::from_str(&s5).unwrap();
    let j6: Json = Json::from_str(&s6).unwrap();
    let j7: Json = Json::from_str(&s7).unwrap();
    let j8: Json = Json::from_str(&s8).unwrap();

    let mut a = Vec::new();

    a.push(j1);
    a.push(j2);
    a.push(j3);
    a.push(j4);
    a.push(j5);
    a.push(j6);
    a.push(j7);
    a.push(j8);

    let all = Json::Array(a);
    let b = all.to_string().unwrap();

    println!("{:?}", all);
    println!("{}", b);
}

#[test]
fn shape_directed_dispatch() {
    let a = Json::from_str("1").unwrap();
    let b = Json::from_str("1.0").unwrap();
    let c = Json::from_str("\"1\"").unwrap();
    assert_eq!(Json::Integer(1), a);
    assert_eq!(Json::Float("1.0".to_string()), b);
    assert_eq!(Json::Text("1".to_string()), c);
    assert_ne!(a, b);
    assert_ne!(a, c);
    assert_ne!(b, c);
}

#[test]
fn duplicate_key_last_wins() {
    let j = Json::from_str(r#"{"x":1,"x":2}"#).unwrap();
    assert_eq!(Ok(&Json::Integer(2)), j.get("x"));
}

#[test]
fn object_equality_ignores_member_order() {
    let a = Json::from_str(r#"{"a":1,"b":2}"#).unwrap();
    let b = Json::from_str(r#"{"b":2,"a":1}"#).unwrap();
    assert_eq!(a, b);
}

#[test]
fn array_order_is_significant() {
    let a = Json::from_str("[1,2]").unwrap();
    let b = Json::from_str("[2,1]").unwrap();
    assert_ne!(a, b);
}

#[test]
fn malformed_inputs_are_rejected() {
    assert_eq!(Err(JsonError::MalformedInput), Json::from_str("abcd"));
    assert_eq!(Err(JsonError::MalformedInput), Json::from_str(""));
    assert_eq!(Err(JsonError::MalformedInput), Json::from_str("[1,"));
    assert_eq!(Err(JsonError::MalformedInput), Json::from_str("{\"a\":}"));
    assert_eq!(Err(JsonError::MalformedInput), Json::from_str("1 2"));
    assert_eq!(Err(JsonError::MalformedInput), Json::from_str("\"ab"));
    assert_eq!(Err(JsonError::MalformedInput), Json::from_str("01"));
    assert_eq!(Err(JsonError::MalformedInput), Json::from_str("1e999"));
}

#[test]
fn round_trip_through_text() {
    let inputs = [
        r#""abc""#,
        "1",
        "0.1",
        "-12.5e3",
        "true",
        "null",
        "[0, 1, [2, {}]]",
        r#"{"x": 1, "y": "abcd", "z": [null, false]}"#,
    ];
    for s in inputs {
        let v = Json::from_str(s).unwrap();
        let t = v.to_string().unwrap();
        let v2 = Json::from_str(&t).unwrap();
        assert_eq!(v, v2);
    }
}

#[test]
fn serialized_form_is_compact_and_canonical() {
    let v = Json::from_str(r#" { "a" : [ 1 , 2.50 ] } "#).unwrap();
    assert_eq!(r#"{"a":[1,2.5]}"#, v.to_string().unwrap());
}

#[test]
fn float_text_is_canonicalized() {
    // An exponent form reads back as the same number in canonical text, so
    // a codec that kept the raw token would fail this.
    let v = Json::from_str("1e1").unwrap();
    assert_eq!(Json::Float("10.0".to_string()), v);
    assert_eq!("10.0", v.to_string().unwrap());
}

#[test]
fn integer_width_overflow_becomes_float() {
    let v = Json::from_str("2147483648").unwrap();
    assert_eq!(Json::Float("2147483648.0".to_string()), v);
    assert_eq!("2147483648.0", v.to_string().unwrap());
    assert_eq!(v, Json::from_str(&v.to_string().unwrap()).unwrap());
    let w = Json::from_str("2147483647").unwrap();
    assert_eq!(Json::Integer(2147483647), w);
    let m = Json::from_str("-2147483648").unwrap();
    assert_eq!(Json::Integer(-2147483648), m);
}

#[test]
fn string_escapes_round_trip() {
    let v = Json::from_str(r#""a\"b\\c\nd\u0041e\u00071""#).unwrap();
    assert_eq!(Json::Text("a\"b\\c\ndAe\u{7}1".to_string()), v);
    let t = v.to_string().unwrap();
    let v2 = Json::from_str(&t).unwrap();
    assert_eq!(v, v2);
}

#[test]
fn surrogate_pair_escape() {
    let v = Json::from_str(r#""\ud83d\ude00""#).unwrap();
    assert_eq!(Json::Text("\u{1F600}".to_string()), v);
    assert_eq!(Err(JsonError::MalformedInput), Json::from_str(r#""\ud83d""#));
}
