use v8_derive::errors::Error;
use v8_derive::json::{TreeNum, TreeValue};
use v8_derive::parse::str_to_number;
use v8_derive::record::{Field, NativeValue, TypeDesc};
use v8_derive::render::number_text;
use v8_derive::value::DynValue;
use v8_derive::{try_as_hashmap, TryFromValue};

fn s(x: &str) -> String {
    x.to_string()
}

fn simple_fields() -> Vec<Field> {
    vec![
        Field { name: s("yes_no"), ty: TypeDesc::Bool },
        Field { name: s("name"), ty: TypeDesc::Text },
        Field { name: s("age"), ty: TypeDesc::I32 },
        Field { name: s("opt"), ty: TypeDesc::Optional(Box::new(TypeDesc::I32)) },
        Field { name: s("avg"), ty: TypeDesc::F64 },
    ]
}

fn simple_object() -> DynValue {
    DynValue::Object(vec![
        (s("yes_no"), DynValue::Bool(true)),
        (s("name"), DynValue::Text(s("Marcel"))),
        (s("age"), DynValue::Int32(30)),
        (s("opt"), DynValue::Int32(42)),
        (s("avg"), DynValue::Number(str_to_number(&42.42f64.to_string()))),
    ])
}

fn field<'a>(entries: &'a [(String, NativeValue)], key: &str) -> &'a NativeValue {
    &entries.iter().find(|e| e.0 == key).expect("field missing").1
}

fn num_f64(x: &NativeValue) -> f64 {
    match x {
        NativeValue::F64(n) => number_text(n).parse().unwrap(),
        _ => panic!("not a number"),
    }
}

#[test]
fn should_be_able_to_handle_incomplete_values() {
    // null is not object-shaped
    let js_null = DynValue::Null;
    v8_derive::record::try_from_value(&simple_fields(), &js_null)
        .expect_err("can't deserialize null");

    // a mandatory field that is entirely absent fails with the
    // field-not-found error naming it; the optional field stays quiet
    let object = DynValue::Object(vec![(s("yes_no"), DynValue::Bool(true))]);
    let err = v8_derive::record::try_from_value(&simple_fields(), &object)
        .expect_err("deserialize failed");
    assert_eq!(err, Error::FieldNotFound(s("name")));
}

#[test]
fn should_be_able_to_parse_primitives() {
    // bool
    let js_bool_val = DynValue::Bool(true);
    let bool_val = bool::try_from_value(&js_bool_val).unwrap();
    assert!(bool_val);

    let json_val = TreeValue::try_from_value(&js_bool_val).unwrap();
    assert_eq!(json_val, TreeValue::Bool(true));

    // String
    let js_string_val = DynValue::Text(s("Hello, World!"));
    let string_val = String::try_from_value(&js_string_val).unwrap();
    assert_eq!(string_val, "Hello, World!");

    let json_val = TreeValue::try_from_value(&js_string_val).unwrap();
    assert_eq!(json_val, TreeValue::Text(s("Hello, World!")));

    // i32
    let js_int_val = DynValue::Int32(42);
    let int_val = i32::try_from_value(&js_int_val).unwrap();
    assert_eq!(int_val, 42);

    let json_val = TreeValue::try_from_value(&js_int_val).unwrap();
    assert_eq!(json_val, TreeValue::Number(TreeNum::Int(42)));

    // Vec<i32>
    let js_array = DynValue::Array(vec![
        DynValue::Int32(1),
        DynValue::Int32(2),
        DynValue::Int32(3),
    ]);
    let array_val = Vec::<i32>::try_from_value(&js_array).unwrap();
    assert_eq!(array_val, vec![1, 2, 3]);

    let json_val = TreeValue::try_from_value(&js_array).unwrap();
    assert_eq!(
        json_val,
        TreeValue::Array(vec![
            TreeValue::Number(TreeNum::Int(1)),
            TreeValue::Number(TreeNum::Int(2)),
            TreeValue::Number(TreeNum::Int(3)),
        ])
    );

    // Option<i32>
    let js_null = DynValue::Null;
    let null_val = Option::<i32>::try_from_value(&js_null).unwrap();
    assert!(null_val.is_none());
}

#[test]
fn should_be_able_to_parse_a_simple_object() {
    let object = simple_object();
    let entries =
        v8_derive::record::try_from_value(&simple_fields(), &object).expect("failed to deserialize");
    assert_eq!(field(&entries, "yes_no"), &NativeValue::Bool(true));
    assert_eq!(field(&entries, "name"), &NativeValue::Text(s("Marcel")));
    assert_eq!(field(&entries, "age"), &NativeValue::I32(30));
    assert_eq!(
        field(&entries, "opt"),
        &NativeValue::Optional(Some(Box::new(NativeValue::I32(42))))
    );
    assert_eq!(num_f64(field(&entries, "avg")), 42.42);
}

#[test]
fn should_be_able_to_handle_optional_fields() {
    let fields = vec![Field { name: s("opt"), ty: TypeDesc::Optional(Box::new(TypeDesc::I32)) }];

    // Some value
    let object = DynValue::Object(vec![(s("opt"), DynValue::Int32(42))]);
    let entries = v8_derive::record::try_from_value(&fields, &object).expect("failed to deserialize");
    assert_eq!(
        field(&entries, "opt"),
        &NativeValue::Optional(Some(Box::new(NativeValue::I32(42))))
    );

    // Null value
    let object = DynValue::Object(vec![(s("opt"), DynValue::Null)]);
    let entries = v8_derive::record::try_from_value(&fields, &object).expect("failed to deserialize");
    assert_eq!(field(&entries, "opt"), &NativeValue::Optional(None));

    // Missing value
    let object = DynValue::Object(vec![]);
    let entries = v8_derive::record::try_from_value(&fields, &object).expect("failed to deserialize");
    assert_eq!(field(&entries, "opt"), &NativeValue::Optional(None));
}

#[test]
fn should_be_able_to_parse_nested_objects() {
    let parent_fields = vec![Field { name: s("nested"), ty: TypeDesc::Record(simple_fields()) }];
    let parent_object = DynValue::Object(vec![(s("nested"), simple_object())]);

    let entries = v8_derive::record::try_from_value(&parent_fields, &parent_object)
        .expect("failed to deserialize");
    match field(&entries, "nested") {
        NativeValue::Record(inner) => {
            assert_eq!(field(inner, "yes_no"), &NativeValue::Bool(true));
        },
        other => panic!("expected a record, got {:?}", other),
    }
}

#[test]
fn can_deserialize_an_object_with_a_vec() {
    let fields = vec![Field { name: s("vec"), ty: TypeDesc::Sequence(Box::new(TypeDesc::I32)) }];
    let object = DynValue::Object(vec![(
        s("vec"),
        DynValue::Array(vec![DynValue::Int32(1), DynValue::Int32(2), DynValue::Int32(3)]),
    )]);

    let entries = v8_derive::record::try_from_value(&fields, &object).expect("failed to deserialize");
    assert_eq!(
        field(&entries, "vec"),
        &NativeValue::Sequence(vec![
            NativeValue::I32(1),
            NativeValue::I32(2),
            NativeValue::I32(3),
        ])
    );
}

#[test]
fn should_be_able_to_parse_a_simple_object_to_hashmap() {
    let object = simple_object();
    let map = try_as_hashmap::<String>(&object).expect("failed to deserialize");
    assert_eq!(map.len(), 5);
    assert_eq!(map.get(&s("yes_no")), Some(&s("true")));
    assert_eq!(map.get(&s("name")), Some(&s("Marcel")));
    assert_eq!(map.get(&s("age")), Some(&s("30")));
    assert_eq!(map.get(&s("opt")), Some(&s("42")));
    assert_eq!(map.get(&s("avg")), Some(&s("42.42")));
}
