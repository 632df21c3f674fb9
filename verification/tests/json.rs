use site_builder::json::{Json, JsonMap};

#[test]
fn fields_are_kept_by_key() {
    let mut map = JsonMap::new();
    map.insert(String::from("b"), Json::Null);
    map.insert(String::from("a"), Json::Bool(true));
    map.insert(String::from("é"), Json::Str(String::from("x")));
    map.insert(String::from("b"), Json::Bool(false));
    assert_eq!(map.len(), 3);
    assert_eq!(map.key_at(0), "a");
    assert_eq!(map.key_at(1), "b");
    assert_eq!(map.key_at(2), "é");
    assert_eq!(map.value_at(1), &Json::Bool(false));
    assert_eq!(map.get("a"), Some(&Json::Bool(true)));
    assert_eq!(map.get("c"), None);
}

#[test]
fn the_order_of_writes_does_not_matter() {
    let mut one = JsonMap::new();
    one.insert(String::from("x"), Json::Null);
    one.insert(String::from("y"), Json::Bool(true));
    let mut other = JsonMap::new();
    other.insert(String::from("y"), Json::Bool(true));
    other.insert(String::from("x"), Json::Null);
    assert_eq!(one, other);
}

#[test]
fn a_copy_is_the_same_value() {
    let mut map = JsonMap::new();
    map.insert(String::from("n"), Json::Number(serde_json::Number::from(7)));
    map.insert(
        String::from("l"),
        Json::Array(vec![Json::Null, Json::Str(String::from("s"))]),
    );
    let value = Json::Object(map);
    assert_eq!(value.duplicate(), value);
    assert_eq!(value.as_str(), None);
    assert_eq!(Json::Null.get("n"), None);
}
