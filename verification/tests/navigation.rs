use json_value::Json;
use json_value::JsonError;

#[test]
fn test_get() {
    let data = r#"
        {
            "version": "1.0.0",
            "meta": {
                "date": "2023-6-1",
                "author": "aofusa",
                "license": "apache 2.0"
            },
            "datalist": [
                {
                    "name": "name1",
                    "components": [
                        {
                            "name": "component1",
                            "plugins": [
                            {
                                "name": "plugin1",
                                "args": ["arg1", "arg2"]
                            }
                            ]
                        },
                        {
                            "name": "component2",
                            "plugins": []
                        }
                    ]
                },
                {
                    "name": "name2",
                    "components": [
                        1,
                        2,
                        3
                    ]
                }
            ],
            "specs": {
                "data1": {},
                "data2": {},
                "data3": {}
            }
        }
        "#;

    let json: Json = Json::from_str(&data).unwrap();

    let version = json.get("version").unwrap();
    assert_eq!(&Json::Text("1.0.0".to_string()), version);

    let meta = json.get("meta").unwrap();
    let author = meta.get("author").unwrap();
    assert_eq!(&Json::Text("aofusa".to_string()), author);

    let datalist = json.get("datalist").unwrap();
    let datalist_1 = datalist.index(1).unwrap();
    assert_eq!(
        &Json::Object(vec![
            ("name".to_string(), Json::Text("name2".to_string())),
            (
                "components".to_string(),
                Json::Array(vec![Json::Integer(1), Json::Integer(2), Json::Integer(3)]),
            ),
        ]),
        datalist_1
    );
}

#[test]
fn test_set() {
    let data = r#"
        {
            "version": "1.0.0",
            "meta": {
                "date": "2023-6-1",
                "author": "aofusa",
                "license": "apache 2.0"
            },
            "datalist": [
                {
                    "name": "name1",
                    "components": [
                        {
                            "name": "component1",
                            "plugins": [
                            {
                                "name": "plugin1",
                                "args": ["arg1", "arg2"]
                            }
                            ]
                        },
                        {
                            "name": "component2",
                            "plugins": []
                        }
                    ]
                },
                {
                    "name": "name2",
                    "components": [
                        1,
                        2,
                        3
                    ]
                }
            ],
            "specs": {
                "data1": {},
                "data2": {},
                "data3": {}
            }
        }
        "#;

    let json: Json = Json::from_str(&data).unwrap();

    let license = json.get("meta").unwrap().get("license").unwrap();
    assert_eq!(&Json::Text("apache 2.0".to_string()), license);

    let json = {
        let mut t = json.clone();
        let mut meta = t.get("meta").unwrap().clone();
        meta.set("license".to_string(), Json::Text("mit".to_string())).unwrap();
        t.set("meta".to_string(), meta).unwrap();
        t
    };

    let license = json.get("meta").unwrap().get("license").unwrap();
    assert_eq!(&Json::Text("mit".to_string()), license);
}

#[test]
fn absent_key_is_a_miss_not_null() {
    let json = Json::from_str(r#"{"a": null}"#).unwrap();
    assert_eq!(Ok(&Json::Null), json.get("a"));
    assert_eq!(Err(JsonError::KeyNotFound), json.get("b"));
    assert_eq!(Err(JsonError::KeyNotFound), Json::Integer(1).get("b"));
}

#[test]
fn out_of_range_index_is_a_miss() {
    let json = Json::from_str("[10, 20]").unwrap();
    assert_eq!(Ok(&Json::Integer(20)), json.index(1));
    assert_eq!(Err(JsonError::IndexOutOfRange), json.index(2));
    assert_eq!(Err(JsonError::IndexOutOfRange), Json::Null.index(0));
}

#[test]
fn set_replaces_and_inserts() {
    let mut json = Json::from_str(r#"{"a":1}"#).unwrap();
    json.set("a".to_string(), Json::Integer(2)).unwrap();
    json.set("b".to_string(), Json::Boolean(true)).unwrap();
    assert_eq!(Ok(&Json::Integer(2)), json.get("a"));
    assert_eq!(Ok(&Json::Boolean(true)), json.get("b"));
    assert_eq!(
        Err(JsonError::KeyNotFound),
        Json::Null.set("a".to_string(), Json::Null)
    );
}

#[test]
fn set_index_replaces_in_range_only() {
    let mut json = Json::from_str("[1,2]").unwrap();
    json.set_index(0, Json::Integer(9)).unwrap();
    assert_eq!(Ok(&Json::Integer(9)), json.index(0));
    assert_eq!(
        Err(JsonError::IndexOutOfRange),
        json.set_index(2, Json::Integer(7))
    );
}

#[test]
fn scalar_equality_is_variant_sensitive() {
    assert_ne!(Json::Integer(1), Json::Float("1.0".to_string()));
    assert_eq!(Json::Integer(1), Json::Integer(1));
    assert_ne!(Json::Null, Json::Boolean(false));
    let a = Json::from_str(r#"{"k": [1, {"m": 2}]}"#).unwrap();
    let b = a.clone();
    assert_eq!(a, b);
}
