use v8_derive::coerce::{to_int32, to_text, truthy};
use v8_derive::errors::Error;
use v8_derive::json::{dynamic_to_tree, tree_to_dynamic, TreeNum, TreeValue};
use v8_derive::number::JsNumber;
use v8_derive::parse::str_to_number;
use v8_derive::record::{Field, NativeValue, TypeDesc};
use v8_derive::value::DynValue;
use v8_derive::{
    get_field_as, try_as_f64, try_as_hashmap, try_as_i64, try_as_i8, try_as_u32, IntoValue,
    StringMap, TryFromValue,
};

fn s(x: &str) -> String {
    x.to_string()
}

fn num(text: &str) -> JsNumber {
    str_to_number(text)
}

#[test]
fn scalar_round_trips() {
    assert_eq!(bool::try_from_value(&true.into_value()).unwrap(), true);
    assert_eq!(bool::try_from_value(&false.into_value()).unwrap(), false);
    for i in [0i32, 1, -1, i32::MIN, i32::MAX] {
        assert_eq!(i32::try_from_value(&i.into_value()).unwrap(), i);
    }
    for u in [0u32, 1, u32::MAX] {
        assert_eq!(u32::try_from_value(&u.into_value()).unwrap(), u);
    }
    for i in [0i64, -1, i64::MIN, i64::MAX] {
        assert_eq!(i64::try_from_value(&i.into_value()).unwrap(), i);
    }
    for t in ["", "plain", "hé λλο"] {
        assert_eq!(String::try_from_value(&s(t).into_value()).unwrap(), t);
    }
    for n in [num("42.42"), num("-0.5"), JsNumber::NaN, JsNumber::Infinite(true), JsNumber::Zero(false)] {
        let back = JsNumber::try_from_value(&n.clone().into_value()).unwrap();
        assert_eq!(back, n);
    }
}

#[test]
fn optional_ignores_null_and_undefined() {
    assert_eq!(Option::<i32>::try_from_value(&DynValue::Null).unwrap(), None);
    assert_eq!(Option::<i32>::try_from_value(&DynValue::Undefined).unwrap(), None);
    assert_eq!(Option::<i32>::try_from_value(&DynValue::Int32(7)).unwrap(), Some(7));
}

fn record_entries() -> Vec<(String, NativeValue)> {
    vec![
        (s("yes_no"), NativeValue::Bool(true)),
        (s("name"), NativeValue::Text(s("Marcel"))),
        (s("age"), NativeValue::I32(30)),
        (s("opt"), NativeValue::Optional(None)),
        (s("avg"), NativeValue::F64(num(&42.42f64.to_string()))),
    ]
}

#[test]
fn record_round_trip_preserves_all_fields() {
    // a record { yes_no: bool, name: text, age: i32, opt: optional i32,
    // avg: number }, with the optional field empty
    let fields = vec![
        Field { name: s("yes_no"), ty: TypeDesc::Bool },
        Field { name: s("name"), ty: TypeDesc::Text },
        Field { name: s("age"), ty: TypeDesc::I32 },
        Field { name: s("opt"), ty: TypeDesc::Optional(Box::new(TypeDesc::I32)) },
        Field { name: s("avg"), ty: TypeDesc::F64 },
    ];
    let encoded = v8_derive::record::into_value(record_entries());
    let decoded = v8_derive::record::try_from_value(&fields, &encoded).expect("record decode");
    assert_eq!(decoded, record_entries());
}

#[test]
fn sequence_round_trip_keeps_order() {
    let v = vec![1, 2, 3];
    let encoded = v.clone().into_value();
    assert_eq!(Vec::<i32>::try_from_value(&encoded).unwrap(), v);
}

#[test]
fn mapping_accepts_object_and_assoc_alike() {
    let object = DynValue::Object(vec![(s("one"), DynValue::Int32(1))]);
    let assoc = DynValue::Assoc(vec![(DynValue::Text(s("one")), DynValue::Int32(1))]);

    let from_object = try_as_hashmap::<i32>(&object).unwrap();
    let from_assoc = try_as_hashmap::<i32>(&assoc).unwrap();
    assert_eq!(from_object.len(), 1);
    assert_eq!(from_assoc.len(), 1);
    assert_eq!(from_object.get(&s("one")), Some(&1));
    assert_eq!(from_assoc.get(&s("one")), Some(&1));
}

#[test]
fn tree_round_trip_with_documented_fallback() {
    let tree = TreeValue::Object(vec![
        (
            s("list"),
            TreeValue::Array(vec![
                TreeValue::Number(TreeNum::Dec(match num("1.5") {
                    JsNumber::Fin(d) => d,
                    _ => panic!("not finite"),
                })),
                TreeValue::Text(s("x")),
                TreeValue::Bool(false),
                TreeValue::Null,
            ]),
        ),
        (s("big"), TreeValue::Number(TreeNum::Big(u64::MAX))),
        (s("n"), TreeValue::Number(TreeNum::Int(-7))),
    ]);
    let expected = TreeValue::Object(vec![
        (
            s("list"),
            TreeValue::Array(vec![
                TreeValue::Number(TreeNum::Dec(match num("1.5") {
                    JsNumber::Fin(d) => d,
                    _ => panic!("not finite"),
                })),
                TreeValue::Text(s("x")),
                TreeValue::Bool(false),
                TreeValue::Null,
            ]),
        ),
        // beyond the signed 64-bit range: the documented maximum fallback
        (s("big"), TreeValue::Number(TreeNum::Int(i64::MAX))),
        (s("n"), TreeValue::Number(TreeNum::Int(-7))),
    ]);

    let dynamic = tree_to_dynamic(tree);
    let back = dynamic_to_tree(&dynamic).expect("tree decode");
    assert_eq!(back, expected);
}

#[test]
fn every_error_kind_has_an_input() {
    assert_eq!(
        get_field_as::<i32>(&s("x"), &DynValue::Int32(1)),
        Err(Error::ExpectedObject)
    );
    assert_eq!(
        get_field_as::<i32>(&s("x"), &DynValue::Object(vec![])),
        Err(Error::FieldNotFound(s("x")))
    );
    assert_eq!(Vec::<i32>::try_from_value(&DynValue::Int32(1)), Err(Error::ExpectedArray));
    assert!(matches!(
        try_as_hashmap::<i32>(&DynValue::Int32(1)),
        Err(Error::ExpectedMap)
    ));
    assert_eq!(try_as_i64(&DynValue::Null), Err(Error::ExpectedI64));
    assert_eq!(try_as_f64(&DynValue::BigInt(1)), Err(Error::ExpectedF64));
    assert_eq!(try_as_u32(&DynValue::Number(num("1.5"))), Err(Error::ExpectedU32));
    assert_eq!(try_as_u32(&DynValue::Text(s("-5"))), Err(Error::OutOfRange));
    assert_eq!(try_as_i8(&DynValue::Int32(200)), Err(Error::OutOfRange));
    assert_eq!(dynamic_to_tree(&DynValue::Undefined), Err(Error::UnsupportedValueType));
}

#[test]
fn unsigned_decode_keeps_the_lenient_asymmetry() {
    // null and undefined read as zero, a negative text is out of range
    assert_eq!(try_as_u32(&DynValue::Null), Ok(0));
    assert_eq!(try_as_u32(&DynValue::Undefined), Ok(0));
    assert_eq!(try_as_u32(&DynValue::Text(s("-5"))), Err(Error::OutOfRange));
    assert_eq!(try_as_u32(&DynValue::Text(s("4294967295"))), Ok(u32::MAX));
    assert_eq!(try_as_u32(&DynValue::Text(s("4294967296"))), Err(Error::OutOfRange));
    assert_eq!(try_as_u32(&DynValue::Uint32(7)), Ok(7));
    assert_eq!(try_as_u32(&DynValue::Int32(7)), Ok(7));
    assert_eq!(try_as_u32(&DynValue::Int32(-1)), Err(Error::ExpectedU32));
    assert_eq!(try_as_u32(&DynValue::BigInt(5_000_000_000)), Err(Error::OutOfRange));
    assert_eq!(try_as_u32(&DynValue::Bool(true)), Ok(1));
}

#[test]
fn numeric_coercion_truncates_and_wraps() {
    assert_eq!(to_int32(&DynValue::Number(num("3.7"))), 3);
    assert_eq!(to_int32(&DynValue::Number(num("-3.7"))), -3);
    assert_eq!(to_int32(&DynValue::Number(num("2147483648"))), i32::MIN);
    assert_eq!(to_int32(&DynValue::Text(s("  42 "))), 42);
    assert_eq!(to_int32(&DynValue::Text(s(""))), 0);
    assert_eq!(to_int32(&DynValue::Text(s("wat"))), 0);
    assert_eq!(to_int32(&DynValue::Bool(true)), 1);
    assert_eq!(to_int32(&DynValue::Null), 0);
    // a 64-bit read through text wraps modulo 2^64
    assert_eq!(try_as_i64(&DynValue::Text(s("18446744073709551617"))), Ok(1));
    assert_eq!(try_as_i64(&DynValue::Text(s("-1"))), Ok(-1));
    assert_eq!(try_as_i64(&DynValue::Bool(true)), Ok(1));
    assert_eq!(try_as_i64(&DynValue::BigInt(-5)), Ok(-5));
}

#[test]
fn text_coercion_renders_like_the_engine() {
    assert_eq!(to_text(&DynValue::Int32(-5)), "-5");
    assert_eq!(to_text(&DynValue::BigInt(9_007_199_254_740_993)), "9007199254740993");
    assert_eq!(to_text(&DynValue::Bool(true)), "true");
    assert_eq!(to_text(&DynValue::Null), "null");
    assert_eq!(to_text(&DynValue::Undefined), "undefined");
    assert_eq!(
        to_text(&DynValue::Array(vec![
            DynValue::Int32(1),
            DynValue::Null,
            DynValue::Int32(2),
        ])),
        "1,,2"
    );
    assert_eq!(to_text(&DynValue::Object(vec![])), "[object Object]");
    assert_eq!(to_text(&DynValue::Assoc(vec![])), "[object Map]");
    assert_eq!(to_text(&DynValue::Number(num("1e21"))), "1e+21");
    assert_eq!(to_text(&DynValue::Number(num("0.0000001"))), "1e-7");
    assert_eq!(to_text(&DynValue::Number(num("0.000001"))), "0.000001");
    assert_eq!(to_text(&DynValue::Number(num("12300"))), "12300");
    assert_eq!(to_text(&DynValue::Number(JsNumber::NaN)), "NaN");
    assert_eq!(to_text(&DynValue::Number(JsNumber::Infinite(true))), "-Infinity");
    assert_eq!(to_text(&DynValue::Number(JsNumber::Zero(true))), "0");
}

#[test]
fn truthiness_follows_the_engine() {
    assert!(!truthy(&DynValue::Null));
    assert!(!truthy(&DynValue::Undefined));
    assert!(!truthy(&DynValue::Text(s(""))));
    assert!(truthy(&DynValue::Text(s("a"))));
    assert!(!truthy(&DynValue::Number(JsNumber::NaN)));
    assert!(!truthy(&DynValue::Number(JsNumber::Zero(true))));
    assert!(truthy(&DynValue::Number(num("0.001"))));
    assert!(truthy(&DynValue::Object(vec![])));
    assert!(!truthy(&DynValue::Int32(0)));
    assert!(truthy(&DynValue::Int32(-1)));
}

#[test]
fn text_to_number_reads_the_engine_grammar() {
    assert_eq!(try_as_f64(&DynValue::Text(s("Infinity"))), Ok(JsNumber::Infinite(false)));
    assert_eq!(try_as_f64(&DynValue::Text(s("-Infinity"))), Ok(JsNumber::Infinite(true)));
    assert_eq!(try_as_f64(&DynValue::Text(s(""))), Ok(JsNumber::Zero(false)));
    assert_eq!(try_as_f64(&DynValue::Text(s("junk"))), Ok(JsNumber::NaN));
    assert_eq!(try_as_f64(&DynValue::Text(s("-0"))), Ok(JsNumber::Zero(true)));
    assert_eq!(try_as_f64(&DynValue::Text(s(".5"))), Ok(num("0.5")));
    assert_eq!(try_as_f64(&DynValue::Text(s("2.50"))), Ok(num("2.5")));
    assert_eq!(try_as_f64(&DynValue::Text(s("1e400"))), Ok(JsNumber::Infinite(false)));
    assert_eq!(try_as_f64(&DynValue::Null), Ok(JsNumber::Zero(false)));
    assert_eq!(try_as_f64(&DynValue::Undefined), Ok(JsNumber::NaN));
}

#[test]
fn string_map_overwrites_equal_keys() {
    let mut map: StringMap<i32> = StringMap::new();
    map.insert(s("k"), 1);
    map.insert(s("k"), 2);
    map.insert(s("other"), 3);
    assert_eq!(map.len(), 2);
    assert_eq!(map.get(&s("k")), Some(&2));
    assert_eq!(map.get(&s("missing")), None);
}
