use jtd_infer::{
    HintSet, Hints, InferredSchema, Inferrer, JsonNumber, JsonValue, NumType, Schema, Type,
};
use std::collections::{BTreeMap, BTreeSet};

fn number(n: &serde_json::Number) -> JsonNumber {
    if let Some(i) = n.as_i64() {
        JsonNumber::from_i64(i)
    } else if n.as_u64().is_some() {
        JsonNumber::from_i64(i64::MAX)
    } else {
        let x = n.as_f64().unwrap();
        if x.fract() == 0.0 {
            JsonNumber::from_i64(x as i64)
        } else {
            JsonNumber::from_floor(x.floor() as i64)
        }
    }
}

fn value(v: serde_json::Value) -> JsonValue {
    match v {
        serde_json::Value::Null => JsonValue::Null,
        serde_json::Value::Bool(b) => JsonValue::Bool(b),
        serde_json::Value::Number(n) => JsonValue::Number(number(&n)),
        serde_json::Value::String(s) => JsonValue::String(s),
        serde_json::Value::Array(vs) => JsonValue::Array(vs.into_iter().map(value).collect()),
        serde_json::Value::Object(m) => {
            JsonValue::Object(m.into_iter().map(|(k, v)| (k, value(v))).collect())
        }
    }
}

fn json(text: &str) -> serde_json::Value {
    serde_json::from_str(text).unwrap()
}

fn ty(t: Type) -> jtd::Type {
    match t {
        Type::Boolean => jtd::Type::Boolean,
        Type::Int8 => jtd::Type::Int8,
        Type::Uint8 => jtd::Type::Uint8,
        Type::Int16 => jtd::Type::Int16,
        Type::Uint16 => jtd::Type::Uint16,
        Type::Int32 => jtd::Type::Int32,
        Type::Uint32 => jtd::Type::Uint32,
        Type::Float32 => jtd::Type::Float32,
        Type::Float64 => jtd::Type::Float64,
        Type::String => jtd::Type::String,
        Type::Timestamp => jtd::Type::Timestamp,
    }
}

fn entries(es: Vec<(String, Schema)>) -> BTreeMap<String, jtd::Schema> {
    es.into_iter().map(|(k, s)| (k, to_jtd(s))).collect()
}

fn to_jtd(s: Schema) -> jtd::Schema {
    let definitions = BTreeMap::new();
    let metadata = BTreeMap::new();
    match s {
        Schema::Empty => jtd::Schema::Empty { definitions, metadata },
        Schema::Type { nullable, type_ } => jtd::Schema::Type {
            definitions,
            metadata,
            nullable,
            type_: ty(type_),
        },
        Schema::Enum { nullable, enum_ } => jtd::Schema::Enum {
            definitions,
            metadata,
            nullable,
            enum_: enum_.into_iter().collect::<BTreeSet<_>>(),
        },
        Schema::Elements { nullable, elements } => jtd::Schema::Elements {
            definitions,
            metadata,
            nullable,
            elements: Box::new(to_jtd(*elements)),
        },
        Schema::Properties {
            nullable,
            properties,
            optional_properties,
            properties_is_present,
            additional_properties,
        } => jtd::Schema::Properties {
            definitions,
            metadata,
            nullable,
            properties: entries(properties),
            optional_properties: entries(optional_properties),
            properties_is_present,
            additional_properties,
        },
        Schema::Values { nullable, values } => jtd::Schema::Values {
            definitions,
            metadata,
            nullable,
            values: Box::new(to_jtd(*values)),
        },
        Schema::Discriminator { nullable, discriminator, mapping } => jtd::Schema::Discriminator {
            definitions,
            metadata,
            nullable,
            discriminator,
            mapping: entries(mapping),
        },
    }
}

fn schema_json(s: Schema) -> serde_json::Value {
    serde_json::to_value(to_jtd(s).into_serde_schema()).unwrap()
}

fn infer_all(hints: Hints, inputs: &[&str]) -> Schema {
    let mut inferrer = Inferrer::new(hints);
    for text in inputs {
        inferrer = inferrer.infer(value(json(text)));
    }
    inferrer.into_schema()
}

fn no_hints<'a>(num: NumType) -> Hints<'a> {
    Hints::new(num, HintSet::new(vec![]), HintSet::new(vec![]), HintSet::new(vec![]))
}

fn accepts(schema: &jtd::Schema, instance: &str) -> bool {
    let instance = json(instance);
    jtd::validate(schema, &instance, jtd::ValidateOptions::new())
        .unwrap()
        .is_empty()
}

const TWO_RECORDS: [&str; 2] = [
    r#"{"foo":true,"bar":"xxx"}"#,
    r#"{"foo":false,"bar":null,"baz":5}"#,
];

#[test]
fn two_records_default_uint8() {
    let schema = infer_all(no_hints(NumType::Uint8), &TWO_RECORDS);
    assert_eq!(
        json(
            r#"{"properties":{"foo":{"type":"boolean"},"bar":{"type":"string","nullable":true}},
                "optionalProperties":{"baz":{"type":"uint8"}}}"#
        ),
        schema_json(schema)
    );
}

#[test]
fn two_records_enum_hint() {
    let enum_path = vec!["bar".to_string()];
    let hints = Hints::new(
        NumType::Uint8,
        HintSet::new(vec![&enum_path]),
        HintSet::new(vec![]),
        HintSet::new(vec![]),
    );
    let schema = infer_all(hints, &TWO_RECORDS);
    assert_eq!(
        json(
            r#"{"properties":{"foo":{"type":"boolean"},"bar":{"enum":["xxx"],"nullable":true}},
                "optionalProperties":{"baz":{"type":"uint8"}}}"#
        ),
        schema_json(schema)
    );
}

#[test]
fn two_records_default_float32() {
    let schema = infer_all(no_hints(NumType::Float32), &TWO_RECORDS);
    assert_eq!(
        json(
            r#"{"properties":{"foo":{"type":"boolean"},"bar":{"type":"string","nullable":true}},
                "optionalProperties":{"baz":{"type":"float32"}}}"#
        ),
        schema_json(schema)
    );
}

#[test]
fn discriminator_hint_on_tag() {
    let tag_path = vec!["t".to_string()];
    let hints = Hints::new(
        NumType::Uint8,
        HintSet::new(vec![]),
        HintSet::new(vec![]),
        HintSet::new(vec![&tag_path]),
    );
    let schema = infer_all(hints, &[r#"{"t":"a","x":1}"#, r#"{"t":"b","y":"s"}"#]);
    assert_eq!(
        json(
            r#"{"discriminator":"t","mapping":{
                "a":{"properties":{"x":{"type":"uint8"}}},
                "b":{"properties":{"y":{"type":"string"}}}}}"#
        ),
        schema_json(schema)
    );
}

#[test]
fn values_hint_on_root() {
    let root: Vec<String> = vec![];
    let hints = Hints::new(
        NumType::Uint8,
        HintSet::new(vec![]),
        HintSet::new(vec![&root]),
        HintSet::new(vec![]),
    );
    let schema = infer_all(hints, &[r#"{"k":1}"#, r#"{"k":2}"#, r#"{"k":"oops"}"#]);
    assert_eq!(json(r#"{"values":{}}"#), schema_json(schema));
}

#[test]
fn values_hint_keeps_number_child() {
    let root: Vec<String> = vec![];
    let hints = Hints::new(
        NumType::Uint8,
        HintSet::new(vec![]),
        HintSet::new(vec![&root]),
        HintSet::new(vec![]),
    );
    let schema = infer_all(hints, &[r#"{"k":1}"#, r#"{"j":300}"#]);
    assert_eq!(json(r#"{"values":{"type":"uint16"}}"#), schema_json(schema));
}

#[test]
fn nulls_then_boolean() {
    let schema = infer_all(no_hints(NumType::Uint8), &["null", "null", "true"]);
    assert_eq!(json(r#"{"type":"boolean","nullable":true}"#), schema_json(schema));
}

#[test]
fn only_nulls_give_empty_form() {
    let schema = infer_all(no_hints(NumType::Uint8), &["null", "null"]);
    assert_eq!(Schema::Empty, schema);
}

#[test]
fn no_examples_give_empty_form() {
    let schema = infer_all(no_hints(NumType::Uint8), &[]);
    assert_eq!(Schema::Empty, schema);
}

#[test]
fn timestamp_then_plain_string() {
    let schema = infer_all(no_hints(NumType::Uint8), &[r#""1985-04-12T23:20:50.52Z""#]);
    assert_eq!(Schema::Type { nullable: false, type_: Type::Timestamp }, schema);
    let schema = infer_all(
        no_hints(NumType::Uint8),
        &[r#""1985-04-12T23:20:50.52Z""#, r#""not a date""#],
    );
    assert_eq!(Schema::Type { nullable: false, type_: Type::String }, schema);
}

#[test]
fn timestamp_then_number_is_any() {
    let schema = infer_all(no_hints(NumType::Uint8), &[r#""1985-04-12T23:20:50.52Z""#, "3"]);
    assert_eq!(Schema::Empty, schema);
}

#[test]
fn keys_seen_once_each_are_optional() {
    let schema = infer_all(no_hints(NumType::Uint8), &[r#"{"a":1}"#, r#"{"b":2}"#]);
    assert_eq!(
        json(r#"{"optionalProperties":{"a":{"type":"uint8"},"b":{"type":"uint8"}}}"#),
        schema_json(schema)
    );
}

#[test]
fn properties_flag_follows_required_keys() {
    let schema = infer_all(no_hints(NumType::Uint8), &[r#"{"a":1}"#, r#"{"b":2}"#]);
    match schema {
        Schema::Properties { properties, optional_properties, properties_is_present, additional_properties, .. } => {
            assert!(properties.is_empty());
            assert_eq!(2, optional_properties.len());
            assert!(!properties_is_present);
            assert!(!additional_properties);
        }
        other => panic!("expected properties form, got {:?}", other),
    }
}

#[test]
fn empty_object_has_no_properties() {
    let schema = infer_all(no_hints(NumType::Uint8), &["{}"]);
    assert_eq!(
        Schema::Properties {
            nullable: false,
            properties: vec![],
            optional_properties: vec![],
            properties_is_present: false,
            additional_properties: false,
        },
        schema
    );
}

#[test]
fn array_elements_joined() {
    let schema = infer_all(no_hints(NumType::Uint8), &["[1, 2, 300]", "[-1]"]);
    assert_eq!(json(r#"{"elements":{"type":"int16"}}"#), schema_json(schema));
}

#[test]
fn array_then_object_is_any() {
    let schema = infer_all(no_hints(NumType::Uint8), &["[1]", "{}"]);
    assert_eq!(Schema::Empty, schema);
}

#[test]
fn enum_hint_inside_array_by_wildcard() {
    let path = vec!["-".to_string()];
    let hints = Hints::new(
        NumType::Uint8,
        HintSet::new(vec![&path]),
        HintSet::new(vec![]),
        HintSet::new(vec![]),
    );
    let schema = infer_all(hints, &[r#"["a","b"]"#, r#"["a","c"]"#]);
    assert_eq!(json(r#"{"elements":{"enum":["a","b","c"]}}"#), schema_json(schema));
}

#[test]
fn enum_hint_inside_array_by_index() {
    let path = vec!["1".to_string()];
    let hints = Hints::new(
        NumType::Uint8,
        HintSet::new(vec![&path]),
        HintSet::new(vec![]),
        HintSet::new(vec![]),
    );
    // Only the element at index 1 sees the hint, and it comes second: the
    // element inference is already a string by then.
    let schema = infer_all(hints, &[r#"["x","y"]"#]);
    assert_eq!(json(r#"{"elements":{"type":"string"}}"#), schema_json(schema));
    let schema = infer_all(Hints::new(
        NumType::Uint8,
        HintSet::new(vec![&path]),
        HintSet::new(vec![]),
        HintSet::new(vec![]),
    ), &[r#"[null,"y"]"#]);
    assert_eq!(json(r#"{"elements":{"enum":["y"],"nullable":true}}"#), schema_json(schema));
}

#[test]
fn enum_growth_has_exactly_seen_strings() {
    let root: Vec<String> = vec![];
    let hints = Hints::new(
        NumType::Uint8,
        HintSet::new(vec![&root]),
        HintSet::new(vec![]),
        HintSet::new(vec![]),
    );
    let schema = infer_all(hints, &[r#""b""#, r#""a""#, r#""b""#, r#""c""#]);
    assert_eq!(json(r#"{"enum":["a","b","c"]}"#), schema_json(schema));
}

#[test]
fn discriminator_then_non_object_is_any() {
    let tag_path = vec!["t".to_string()];
    let hints = Hints::new(
        NumType::Uint8,
        HintSet::new(vec![]),
        HintSet::new(vec![]),
        HintSet::new(vec![&tag_path]),
    );
    let schema = infer_all(hints, &[r#"{"t":"a"}"#, r#"{"t":5}"#]);
    assert_eq!(Schema::Empty, schema);
}

#[test]
fn discriminator_without_string_tag_is_properties() {
    let tag_path = vec!["t".to_string()];
    let hints = Hints::new(
        NumType::Uint8,
        HintSet::new(vec![]),
        HintSet::new(vec![]),
        HintSet::new(vec![&tag_path]),
    );
    let schema = infer_all(hints, &[r#"{"t":1}"#]);
    assert_eq!(json(r#"{"properties":{"t":{"type":"uint8"}}}"#), schema_json(schema));
}

#[test]
fn discriminator_branch_widens() {
    let tag_path = vec!["t".to_string()];
    let hints = Hints::new(
        NumType::Uint8,
        HintSet::new(vec![]),
        HintSet::new(vec![]),
        HintSet::new(vec![&tag_path]),
    );
    let schema = infer_all(hints, &[r#"{"t":"a","x":1}"#, r#"{"t":"a","x":-1,"z":true}"#]);
    assert_eq!(
        json(
            r#"{"discriminator":"t","mapping":{
                "a":{"properties":{"x":{"type":"int8"}},"optionalProperties":{"z":{"type":"boolean"}}}}}"#
        ),
        schema_json(schema)
    );
}

const MIXED: [&str; 6] = [
    r#"{"id":1,"tags":["a"],"when":"2020-01-01T00:00:00Z","meta":{"x":null}}"#,
    r#"{"id":70000,"tags":[],"when":"later","extra":[1.5]}"#,
    r#"{"id":2,"tags":["b","c"],"when":null,"meta":{"x":3,"y":"q"}}"#,
    "null",
    r#"{"id":-4,"tags":["d"],"when":"2021-01-01T00:00:00Z"}"#,
    r#"{"id":5,"tags":["e"],"when":"x","meta":{}}"#,
];

#[test]
fn every_example_is_accepted() {
    let schema = to_jtd(infer_all(no_hints(NumType::Uint8), &MIXED));
    for x in MIXED {
        assert!(accepts(&schema, x), "rejected {}", x);
    }
    assert!(!accepts(&schema, r#"{"tags":[]}"#));
}

#[test]
fn earlier_examples_stay_accepted() {
    for n in 1..MIXED.len() {
        let before = to_jtd(infer_all(no_hints(NumType::Uint8), &MIXED[..n]));
        let after = to_jtd(infer_all(no_hints(NumType::Uint8), &MIXED[..n + 1]));
        for x in &MIXED[..n] {
            assert!(accepts(&before, x));
            assert!(accepts(&after, x), "rejected {} after {} examples", x, n + 1);
        }
    }
}

#[test]
fn null_folds_are_idempotent() {
    let once = infer_all(no_hints(NumType::Uint8), &[r#"{"a":[1]}"#, "null"]);
    let thrice = infer_all(no_hints(NumType::Uint8), &[r#"{"a":[1]}"#, "null", "null", "null"]);
    assert_eq!(once, thrice);
    assert_eq!(
        json(r#"{"properties":{"a":{"elements":{"type":"uint8"}}},"nullable":true}"#),
        schema_json(thrice)
    );
}

#[test]
fn same_example_twice_gives_same_schema() {
    for x in MIXED {
        let once = infer_all(no_hints(NumType::Uint8), &[x]);
        let twice = infer_all(no_hints(NumType::Uint8), &[x, x]);
        assert_eq!(once, twice, "example {}", x);
    }
}

#[test]
fn inferred_schema_folds_directly() {
    let hints = no_hints(NumType::Uint8);
    let s = InferredSchema::Unknown
        .infer(JsonValue::Bool(true), &hints)
        .infer(JsonValue::Null, &hints);
    assert_eq!(Schema::Type { nullable: true, type_: Type::Boolean }, s.into_schema(&hints));
}

#[test]
fn infer_text_takes_timestamp_answer() {
    let hints = no_hints(NumType::Uint8);
    let t = "anything".to_string();
    let s = InferredSchema::Unknown.infer_text(&t, true, &hints);
    assert_eq!(Schema::Type { nullable: false, type_: Type::Timestamp }, s.into_schema(&hints));
    let s = InferredSchema::Unknown
        .infer_text(&t, true, &hints)
        .infer_text(&t, false, &hints)
        .infer_text(&t, true, &hints);
    assert_eq!(Schema::Type { nullable: false, type_: Type::String }, s.into_schema(&hints));
    let s = InferredSchema::Boolean.infer_text(&t, true, &hints);
    assert_eq!(Schema::Empty, s.into_schema(&hints));
}

#[test]
fn infer_text_grows_enum_at_hinted_position() {
    let root: Vec<String> = vec![];
    let hints = Hints::new(
        NumType::Uint8,
        HintSet::new(vec![&root]),
        HintSet::new(vec![]),
        HintSet::new(vec![]),
    );
    let a = "a".to_string();
    let b = "b".to_string();
    let s = InferredSchema::Unknown
        .infer_text(&a, true, &hints)
        .infer_text(&b, false, &hints)
        .infer_text(&a, false, &hints);
    assert_eq!(json(r#"{"enum":["a","b"]}"#), schema_json(s.into_schema(&hints)));
}
