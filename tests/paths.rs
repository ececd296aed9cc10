use schema_infer::mask::{ABSENT, I64, OBJECT, STRING, STRING_SET};
use schema_infer::path::{combine_string_sets, convert_type, merge_schemas, SchemaType, ValueType, SOME_MAX_VARIANTS};
use schema_infer::schema::{infer_type, Config, Schema};
use schema_infer::value::JsonValue;

fn strings(n: usize, prefix: &str) -> Vec<String> {
    (0..n).map(|i| format!("{}{}", prefix, i)).collect()
}

fn sorted(v: Option<Vec<String>>) -> Option<Vec<String>> {
    v.map(|mut x| {
        x.sort();
        x
    })
}

#[test]
fn string_sets_unite_while_small() {
    let a = Some(vec!["a".to_string(), "b".to_string()]);
    let b = Some(vec!["b".to_string(), "c".to_string()]);
    assert_eq!(sorted(combine_string_sets(&a, &b)), Some(vec!["a".to_string(), "b".to_string(), "c".to_string()]));
    assert_eq!(combine_string_sets(&None, &None), None);
    assert_eq!(sorted(combine_string_sets(&a, &None)), sorted(a.clone()));
    assert_eq!(sorted(combine_string_sets(&None, &b)), sorted(b.clone()));
}

#[test]
fn string_sets_drop_when_too_many() {
    let ten = Some(strings(SOME_MAX_VARIANTS, "x"));
    let eleven = Some(strings(SOME_MAX_VARIANTS + 1, "x"));
    assert_eq!(combine_string_sets(&eleven, &None), None);
    assert_eq!(combine_string_sets(&ten, &ten).map(|v| v.len()), Some(SOME_MAX_VARIANTS));
    assert_eq!(combine_string_sets(&ten, &Some(vec!["new".to_string()])), None);
}

#[test]
fn path_schemas_merge() {
    let a = SchemaType { types: vec![ValueType::String], optional: false, string_set: Some(vec!["a".to_string()]) };
    let b = SchemaType { types: vec![ValueType::Null, ValueType::String], optional: true, string_set: None };
    let m = merge_schemas(&a, &b);
    assert_eq!(m.types, vec![ValueType::String, ValueType::Null]);
    assert!(m.optional);
    assert_eq!(m.string_set, Some(vec!["a".to_string()]));
}

#[test]
fn value_kinds() {
    assert_eq!(convert_type(&JsonValue::Null), ValueType::Null);
    assert_eq!(convert_type(&JsonValue::F64), ValueType::Number);
    assert_eq!(convert_type(&JsonValue::U64(3)), ValueType::Number);
    assert_eq!(convert_type(&JsonValue::Str("s".to_string())), ValueType::String);
    assert_eq!(convert_type(&JsonValue::Array(vec![])), ValueType::Array);
    assert_eq!(convert_type(&JsonValue::Object(vec![])), ValueType::Object);
    assert_eq!(convert_type(&JsonValue::Bool(true)), ValueType::Boolean);
}

fn config() -> Config {
    Config {
        max_object_keys: 200,
        max_string_set_values: 100,
        max_string_set_variant_length: 50,
        consider_string_set: true,
        consider_array_items: false,
        max_array_items: 10,
        chunk_size: 1024,
        stats: false,
    }
}

#[test]
fn validity_check_accepts_inferred_and_rejects_broken() {
    let c = config();
    let v = JsonValue::Object(vec![("k".to_string(), JsonValue::Str("v".to_string()))]);
    let s = infer_type(&v, &c);
    assert!(s.is_valid(&c));
    let mut off = c;
    off.consider_string_set = false;
    assert!(!s.is_valid(&off));
    let both = Schema::new(STRING | STRING_SET);
    assert!(!both.is_valid(&c));
    let no_props = Schema::new(OBJECT);
    assert!(!no_props.is_valid(&c));
    let dup = Schema {
        type_mask: OBJECT,
        object_properties: Some(vec![("a".to_string(), Schema::new(I64)), ("a".to_string(), Schema::new(I64))]),
        string_values: None,
        array_items: None,
    };
    assert!(!dup.is_valid(&c));
    assert!(Schema::new(I64 | ABSENT).is_valid(&c));
}
