use v8_derive::coerce::to_int32;
use v8_derive::json::{TreeNum, TreeValue};
use v8_derive::value::DynValue;
use v8_derive::{try_as_hashmap, IntoObject, IntoValue, StringMap};

fn s(x: &str) -> String {
    x.to_string()
}

#[test]
fn can_convert_into_an_array() {
    let array = vec![1, 2, 3, 4, 5];
    let array_value = array.into_value();

    match &array_value {
        DynValue::Array(items) => {
            assert_eq!(items.len(), 5);
            for i in 0..5 {
                assert_eq!(to_int32(&items[i]), i as i32 + 1);
            }
        },
        other => panic!("Expected an array, got {:?}", other),
    }
}

#[test]
fn can_convert_into_a_js_map() {
    let mut map: StringMap<i32> = StringMap::new();
    map.insert(s("one"), 1);
    map.insert(s("two"), 2);
    map.insert(s("three"), 3);

    // Convert the map into a dynamic value
    let map_value = map.into_value();
    assert!(matches!(map_value, DynValue::Assoc(_)));

    // read the value back as a map
    let map = try_as_hashmap::<i32>(&map_value).expect("Expected a map");
    assert_eq!(map.len(), 3);
    assert_eq!(map.get(&s("one")), Some(&1));
}

#[test]
fn can_convert_into_a_js_object() {
    let mut map: StringMap<i32> = StringMap::new();
    map.insert(s("one"), 1);
    map.insert(s("two"), 2);
    map.insert(s("three"), 3);

    // Convert the map into a dynamic object
    let obj_value = map.into_object();
    assert!(matches!(obj_value, DynValue::Object(_)));

    // read the value back as a map
    let map = try_as_hashmap::<i32>(&obj_value).expect("Expected a map");
    assert_eq!(map.len(), 3);
    assert_eq!(map.get(&s("one")), Some(&1));
}

#[test]
fn can_convert_non_str_keys_into_a_js_object() {
    // numeric keys reach the object as their text form
    let mut map: StringMap<String> = StringMap::new();
    map.insert(s("1"), s("one"));
    map.insert(s("2"), s("two"));
    map.insert(s("3"), s("three"));

    let obj_value = map.into_object();

    let map = try_as_hashmap::<String>(&obj_value).expect("Expected a map");
    assert_eq!(map.len(), 3);
    assert_eq!(map.get(&s("1")), Some(&s("one")));
}

#[test]
fn can_convert_non_str_keys_into_a_js_map() {
    let mut map: StringMap<String> = StringMap::new();
    map.insert(s("1"), s("one"));
    map.insert(s("2"), s("two"));
    map.insert(s("3"), s("three"));

    let map_value = map.into_value();

    let map = try_as_hashmap::<String>(&map_value).expect("Expected a map");
    assert_eq!(map.len(), 3);
    assert_eq!(map.get(&s("1")), Some(&s("one")));
}

#[test]
fn can_convert_into_a_string_type_js_map() {
    let mut map: StringMap<String> = StringMap::new();
    map.insert(s("one"), s("1"));
    map.insert(s("two"), s("2"));
    map.insert(s("three"), s("3"));

    let map_value = map.into_value();

    let map = try_as_hashmap::<String>(&map_value).expect("Expected a map");
    assert_eq!(map.len(), 3);
    assert_eq!(map.get(&s("one")), Some(&s("1")));
}

#[test]
fn can_convert_json_into_a_js_object() {
    // An integer beyond the signed 64-bit range falls back, by design, to
    // the largest signed 64-bit integer when it enters the engine.
    const MAX_ENGINE_INT: &str = "9223372036854775807";

    let json = TreeValue::Object(vec![
        (s("name"), TreeValue::Text(s("John"))),
        (s("age"), TreeValue::Number(TreeNum::Int(30))),
        (s("very_large_number"), TreeValue::Number(TreeNum::Big(u64::MAX))),
    ]);

    let obj_value = json.into_value();

    let map = try_as_hashmap::<String>(&obj_value).expect("Expected a map");
    assert_eq!(map.len(), 3);
    assert_eq!(map.get(&s("name")), Some(&s("John")));
    assert_eq!(map.get(&s("age")), Some(&s("30")));
    assert_eq!(map.get(&s("very_large_number")), Some(&MAX_ENGINE_INT.to_string()));
}
