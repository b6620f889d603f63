use json_value::Json;
use json_value::JsonError;
use serde::de::IgnoredAny;
use serde::de::MapAccess;
use serde::de::Visitor;
use serde::ser::SerializeStruct;

#[derive(PartialEq, Debug)]
struct Point {
    x: i32,
    y: i32,
}

impl serde::Serialize for Point {
    fn serialize<S: serde::Serializer>(&self, serializer: S) -> Result<S::Ok, S::Error> {
        let mut st = serializer.serialize_struct("Point", 2)?;
        st.serialize_field("x", &self.x)?;
        st.serialize_field("y", &self.y)?;
        st.end()
    }
}

struct PointVisitor;

impl<'de> Visitor<'de> for PointVisitor {
    type Value = Point;

    fn expecting(&self, f: &mut std::fmt::Formatter) -> std::fmt::Result {
        f.write_str("struct Point")
    }

    fn visit_map<A: MapAccess<'de>>(self, mut map: A) -> Result<Point, A::Error> {
        let mut x: Option<i32> = None;
        let mut y: Option<i32> = None;
        while let Some(k) = map.next_key::<String>()? {
            if k == "x" {
                x = Some(map.next_value()?);
            } else if k == "y" {
                y = Some(map.next_value()?);
            } else {
                let _: IgnoredAny = map.next_value()?;
            }
        }
        match (x, y) {
            (Some(x), Some(y)) => Ok(Point { x, y }),
            (None, _) => Err(serde::de::Error::missing_field("x")),
            (_, None) => Err(serde::de::Error::missing_field("y")),
        }
    }
}

impl<'de> serde::Deserialize<'de> for Point {
    fn deserialize<D: serde::Deserializer<'de>>(d: D) -> Result<Point, D::Error> {
        d.deserialize_struct("Point", &["x", "y"], PointVisitor)
    }
}

#[test]
fn test_struct() {
    let point_struct = Point { x: 1, y: 2 };
    let point_str = serde_json::to_string(&point_struct).unwrap();
    let point_json: Json = Json::from_str(&point_str).unwrap();
    assert_eq!(r#"{"x":1,"y":2}"#, &point_str);
    assert_eq!(
        Json::Object(vec![
            ("x".to_string(), Json::Integer(1)),
            ("y".to_string(), Json::Integer(2)),
        ]),
        point_json
    );
}

#[test]
fn test_from() {
    let point_struct = Point { x: 1, y: 2 };
    let point_json = Json::from(&point_struct).unwrap();
    assert_eq!(
        Json::Object(vec![
            ("x".to_string(), Json::Integer(1)),
            ("y".to_string(), Json::Integer(2)),
        ]),
        point_json
    );
}

#[test]
fn test_from_str() {
    let point_str = r#"{"x":1,"y":2}"#;
    let point_json = Json::from_str(&point_str).unwrap();
    assert_eq!(
        Json::Object(vec![
            ("x".to_string(), Json::Integer(1)),
            ("y".to_string(), Json::Integer(2)),
        ]),
        point_json
    );
}

#[test]
fn test_to() {
    let point_json = Json::Object(vec![
        ("x".to_string(), Json::Integer(1)),
        ("y".to_string(), Json::Integer(2)),
    ]);
    let point_struct: Point = point_json.to().unwrap();
    assert_eq!(Point { x: 1, y: 2 }, point_struct);
}

#[test]
fn test_to_string() {
    let point_json = Json::Object(vec![
        ("x".to_string(), Json::Integer(1)),
        ("y".to_string(), Json::Integer(2)),
    ]);
    let _point_str = point_json.to_string().unwrap();
}

#[test]
fn test_get_object() {
    let point_struct = Point { x: 1, y: 2 };
    let point_json = Json::from(&point_struct).unwrap();

    let x = point_json.get("x");
    assert_eq!(Ok(&Json::Integer(1)), x);

    let z = point_json.get("z");
    assert_eq!(Err(JsonError::KeyNotFound), z);
}

#[test]
fn test_get_array() {
    let data = vec![0, 1, 2];
    let j = Json::from(&data).unwrap();

    let x1 = j.index(1);
    assert_eq!(Ok(&Json::Integer(1)), x1);

    let x2 = j.index(3);
    assert_eq!(Err(JsonError::IndexOutOfRange), x2);
}

#[test]
fn bridge_round_trip() {
    let point_struct = Point { x: 1, y: 2 };
    let point_json = Json::from(&point_struct).unwrap();
    assert_eq!(Ok(&Json::Integer(1)), point_json.get("x"));
    assert_eq!(Ok(&Json::Integer(2)), point_json.get("y"));
    let back: Point = point_json.to().unwrap();
    assert_eq!(Point { x: 1, y: 2 }, back);
}

#[test]
fn bridge_missing_field_fails() {
    let json = Json::from_str(r#"{"x":1}"#).unwrap();
    let r: Result<Point, JsonError> = json.to();
    assert_eq!(Err(JsonError::ConversionError), r);
}
