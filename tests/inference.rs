use schema_infer::json_schema::{JsonSchemaType, JsonSchemaVariant, RootJsonSchema};
use schema_infer::mask::{ABSENT, ARRAY, BOOLEAN, F64, I64, LARGE_OBJECT, NULL, OBJECT, STRING, STRING_SET, U64};
use schema_infer::process::{find_chunk_boundaries, process_chunk, Accumulator};
use schema_infer::schema::{infer_type, Config, Schema};
use schema_infer::value::JsonValue;

fn config() -> Config {
    Config {
        max_object_keys: 200,
        max_string_set_values: 100,
        max_string_set_variant_length: 50,
        consider_string_set: false,
        consider_array_items: false,
        max_array_items: 10,
        chunk_size: 16 * 1024 * 1024,
        stats: false,
    }
}

fn run(input: &str, config: &Config) -> Accumulator {
    let mut acc = Accumulator::new();
    process_chunk(input.as_bytes(), &mut acc, config);
    acc
}

fn prop<'a>(s: &'a Schema, key: &str) -> &'a Schema {
    let props = s.object_properties.as_ref().expect("object properties");
    &props.iter().find(|(k, _)| k == key).expect("property").1
}

fn values(s: &Schema) -> Vec<String> {
    let mut v = s.string_values.clone().expect("string values");
    v.sort();
    v
}

fn string(s: &str) -> JsonValue {
    JsonValue::Str(s.to_string())
}

fn object(members: Vec<(&str, JsonValue)>) -> JsonValue {
    JsonValue::Object(members.into_iter().map(|(k, v)| (k.to_string(), v)).collect())
}

#[test]
fn same_key_twice_is_required() {
    let acc = run("{\"a\":1}\n{\"a\":2}\n", &config());
    assert_eq!(acc.count, 2);
    let s = acc.schema.expect("schema");
    assert_eq!(s.type_mask, OBJECT);
    assert_eq!(prop(&s, "a").type_mask, I64);
}

#[test]
fn disjoint_keys_are_absent() {
    let acc = run("{\"a\":1}\n{\"b\":\"x\"}\n", &config());
    let s = acc.schema.expect("schema");
    assert_eq!(prop(&s, "a").type_mask, I64 | ABSENT);
    assert_eq!(prop(&s, "b").type_mask, STRING | ABSENT);
    let mut c = config();
    c.consider_string_set = true;
    let s = run("{\"a\":1}\n{\"b\":\"x\"}\n", &c).schema.expect("schema");
    assert_eq!(prop(&s, "b").type_mask, STRING_SET | ABSENT);
    assert_eq!(values(prop(&s, "b")), vec!["x".to_string()]);
}

#[test]
fn repeated_strings_form_a_set() {
    let mut c = config();
    c.consider_string_set = true;
    c.max_string_set_values = 10;
    let s = run("{\"k\":\"red\"}\n{\"k\":\"red\"}\n{\"k\":\"blue\"}\n", &c).schema.expect("schema");
    let k = prop(&s, "k");
    assert_eq!(k.type_mask, STRING_SET);
    assert_eq!(values(k), vec!["blue".to_string(), "red".to_string()]);
}

#[test]
fn too_many_strings_become_open() {
    let mut c = config();
    c.consider_string_set = true;
    c.max_string_set_values = 100;
    let mut input = String::new();
    for i in 0..=100 {
        input.push_str(&format!("{{\"k\":\"v{}\"}}\n", i));
    }
    let acc = run(&input, &c);
    assert_eq!(acc.count, 101);
    let s = acc.schema.expect("schema");
    let k = prop(&s, "k");
    assert_eq!(k.type_mask, STRING);
    assert!(k.string_values.is_none());
}

#[test]
fn empty_array_keeps_items() {
    let mut c = config();
    c.consider_array_items = true;
    let s = run("{\"xs\":[1,2,3]}\n{\"xs\":[]}\n", &c).schema.expect("schema");
    let xs = prop(&s, "xs");
    assert_eq!(xs.type_mask, ARRAY);
    assert_eq!(xs.array_items.as_ref().expect("items").type_mask, I64);
}

#[test]
fn null_then_integer() {
    let s = run("{\"a\":null}\n{\"a\":7}\n", &config()).schema.expect("schema");
    assert_eq!(prop(&s, "a").type_mask, NULL | I64);
}

#[test]
fn string_set_at_capacity_stays_then_collapses() {
    let mut c = config();
    c.consider_string_set = true;
    c.max_string_set_values = 2;
    let mut s = infer_type(&string("a"), &c);
    s.merge(infer_type(&string("b"), &c), &c);
    assert_eq!(s.type_mask, STRING_SET);
    s.merge(infer_type(&string("a"), &c), &c);
    assert_eq!(s.type_mask, STRING_SET);
    assert_eq!(values(&s), vec!["a".to_string(), "b".to_string()]);
    s.merge(infer_type(&string("c"), &c), &c);
    assert_eq!(s.type_mask, STRING);
    assert!(s.string_values.is_none());
}

#[test]
fn string_one_byte_too_long_is_open() {
    let mut c = config();
    c.consider_string_set = true;
    c.max_string_set_variant_length = 5;
    assert_eq!(infer_type(&string("abcdef"), &c).type_mask, STRING);
    let s = infer_type(&string("abcde"), &c);
    assert_eq!(s.type_mask, STRING_SET);
    assert_eq!(values(&s), vec!["abcde".to_string()]);
    // two bytes in UTF-8, one character
    assert_eq!(infer_type(&string("abcdé"), &c).type_mask, STRING);
}

#[test]
fn object_over_key_bound_collapses() {
    let mut c = config();
    c.max_object_keys = 2;
    let big = object(vec![("a", JsonValue::I64(1)), ("b", JsonValue::I64(2)), ("c", JsonValue::I64(3))]);
    let inferred = infer_type(&big, &c);
    assert_eq!(inferred.type_mask, OBJECT);
    assert_eq!(inferred.object_properties.as_ref().map(|p| p.len()), Some(3));
    let mut s = infer_type(&big, &c);
    s.merge(infer_type(&object(vec![]), &c), &c);
    assert_eq!(s.type_mask, LARGE_OBJECT);
    assert!(s.object_properties.is_none());
    let mut t = infer_type(&object(vec![]), &c);
    t.merge(infer_type(&big, &c), &c);
    assert_eq!(t.type_mask, LARGE_OBJECT);
    let mut u = infer_type(&object(vec![("x", JsonValue::Null)]), &c);
    u.merge(infer_type(&object(vec![("y", JsonValue::Null)]), &c), &c);
    assert_eq!(u.type_mask, OBJECT);
    u.merge(infer_type(&object(vec![("z", JsonValue::Null)]), &c), &c);
    assert_eq!(u.type_mask, LARGE_OBJECT);
}

#[test]
fn unsigned_integers_that_fit_are_signed() {
    let c = config();
    assert_eq!(infer_type(&JsonValue::U64(7), &c).type_mask, I64);
    assert_eq!(infer_type(&JsonValue::U64(9223372036854775807), &c).type_mask, I64);
    assert_eq!(infer_type(&JsonValue::U64(9223372036854775808), &c).type_mask, U64);
    assert_eq!(infer_type(&JsonValue::I64(-3), &c).type_mask, I64);
    assert_eq!(infer_type(&JsonValue::F64, &c).type_mask, F64);
}

#[test]
fn numbers_keep_their_kinds() {
    let acc = run("1\n18446744073709551615\n2.5\ntrue\n", &config());
    assert_eq!(acc.count, 4);
    assert_eq!(acc.schema.expect("schema").type_mask, I64 | U64 | F64 | BOOLEAN);
}

#[test]
fn malformed_and_empty_lines_are_skipped() {
    let acc = run("{\"a\":1}\n\nnot json\n{\"a\":2}", &config());
    assert_eq!(acc.count, 2);
    assert_eq!(prop(&acc.schema.expect("schema"), "a").type_mask, I64);
    let acc = run("", &config());
    assert_eq!(acc.count, 0);
    assert!(acc.schema.is_none());
}

#[test]
fn parser_reads_nested_values() {
    let mut c = config();
    c.consider_array_items = true;
    let acc = run("{\"a\":[1,2.5,null],\"b\":{\"c\":\"d\"}}\n{\"a\":\n", &c);
    assert_eq!(acc.count, 1);
    let s = acc.schema.expect("schema");
    let a = prop(&s, "a");
    assert_eq!(a.type_mask, ARRAY);
    assert_eq!(a.array_items.as_ref().expect("items").type_mask, I64 | F64 | NULL);
    let b = prop(&s, "b");
    assert_eq!(b.type_mask, OBJECT);
    assert_eq!(prop(b, "c").type_mask, STRING);
}

#[test]
fn array_items_sample_is_bounded() {
    let mut c = config();
    c.consider_array_items = true;
    c.max_array_items = 2;
    let s = run("[1, 2, \"x\"]\n", &c).schema.expect("schema");
    assert_eq!(s.array_items.as_ref().expect("items").type_mask, I64);
    c.max_array_items = 3;
    let s = run("[1, 2, \"x\"]\n", &c).schema.expect("schema");
    assert_eq!(s.array_items.as_ref().expect("items").type_mask, I64 | STRING);
}

#[test]
fn merge_order_does_not_matter() {
    let mut c = config();
    c.consider_string_set = true;
    c.consider_array_items = true;
    let lines = ["{\"a\":1,\"b\":[\"x\"]}", "{\"a\":\"y\",\"c\":null}", "{\"b\":[true],\"c\":{\"d\":1}}"];
    let forward = run(&lines.join("\n"), &c);
    let mut rev: Vec<&str> = lines.to_vec();
    rev.reverse();
    let backward = run(&rev.join("\n"), &c);
    let f = forward.schema.expect("schema");
    let b = backward.schema.expect("schema");
    for key in ["a", "b", "c"] {
        assert_eq!(prop(&f, key).type_mask, prop(&b, key).type_mask);
    }
    assert_eq!(prop(&f, "a").type_mask, I64 | STRING_SET | ABSENT);
    assert_eq!(prop(prop(&f, "c"), "d").type_mask, I64 | ABSENT);
}

#[test]
fn accumulators_combine() {
    let c = config();
    let a = run("{\"a\":1}\n", &c);
    let b = run("{\"b\":true}\n{\"b\":false}\n", &c);
    let both = a.combine(b, &c);
    assert_eq!(both.count, 3);
    let s = both.schema.expect("schema");
    assert_eq!(prop(&s, "a").type_mask, I64 | ABSENT);
    assert_eq!(prop(&s, "b").type_mask, BOOLEAN | ABSENT);
    let only = Accumulator::new().combine(run("{\"a\":1}\n", &c), &c);
    assert_eq!(only.count, 1);
    assert_eq!(prop(&only.schema.expect("schema"), "a").type_mask, I64);
}

#[test]
fn chunk_boundaries_follow_lines() {
    assert!(find_chunk_boundaries(b"", 4).is_empty());
    let data = b"ab\ncdef\ng\nhi";
    assert_eq!(find_chunk_boundaries(data, 2), vec![(0, 3), (3, 8), (8, 12)]);
    assert_eq!(find_chunk_boundaries(data, 100), vec![(0, 12)]);
    assert_eq!(find_chunk_boundaries(b"abcdefgh\nij\n", 2), vec![(0, 9), (9, 12)]);
    assert_eq!(find_chunk_boundaries(b"abcdefgh", 2), vec![(0, 8)]);
}

#[test]
fn chunking_does_not_change_the_schema() {
    let mut c = config();
    c.consider_string_set = true;
    let data = "{\"a\":1}\n{\"b\":\"x\"}\n{\"a\":null,\"b\":\"y\"}\n{\"c\":[]}\n";
    let whole = run(data, &c);
    for size in [1usize, 5, 12, 40] {
        let mut total = Accumulator::new();
        for (start, end) in find_chunk_boundaries(data.as_bytes(), size) {
            let mut part = Accumulator::new();
            process_chunk(&data.as_bytes()[start..end], &mut part, &c);
            total = total.combine(part, &c);
        }
        assert_eq!(total.count, whole.count);
        let t = total.schema.expect("schema");
        let w = whole.schema.as_ref().expect("schema");
        for key in ["a", "b", "c"] {
            assert_eq!(prop(&t, key).type_mask, prop(w, key).type_mask);
        }
        assert_eq!(values(prop(&t, "b")), vec!["x".to_string(), "y".to_string()]);
    }
}

#[test]
fn emitted_document_lists_types_and_required() {
    let mut c = config();
    c.consider_string_set = true;
    c.consider_array_items = true;
    let s = run("{\"a\":1,\"s\":\"x\",\"xs\":[null]}\n{\"a\":2.5,\"n\":null}\n", &c).schema.expect("schema");
    let root = RootJsonSchema::new(s);
    assert_eq!(root.schema, "https://json-schema.org/draft/2020-12/schema");
    assert_eq!(root.inner.schema_type, vec![JsonSchemaType::Object]);
    assert_eq!(root.inner.required, vec!["a".to_string()]);
    let get = |k: &str| &root.inner.properties.iter().find(|(n, _)| n == k).expect("property").1;
    assert_eq!(get("a").schema_type, vec![JsonSchemaType::Number]);
    assert_eq!(get("s").schema_type, vec![JsonSchemaType::String]);
    match &get("s").any_of[0] {
        JsonSchemaVariant::StringEnum { schema_type, values } => {
            assert_eq!(*schema_type, JsonSchemaType::String);
            assert_eq!(values, &vec!["x".to_string()]);
        }
    }
    assert_eq!(get("xs").schema_type, vec![JsonSchemaType::Array]);
    assert_eq!(get("xs").items.as_ref().expect("items").schema_type, vec![JsonSchemaType::Null]);
    assert_eq!(get("n").schema_type, vec![JsonSchemaType::Null]);
}

#[test]
fn emitted_large_object_has_description() {
    let mut c = config();
    c.max_object_keys = 1;
    let s = run("{\"a\":1}\n{\"b\":2}\n", &c).schema.expect("schema");
    assert_eq!(s.type_mask, LARGE_OBJECT);
    let root = RootJsonSchema::new(s);
    assert_eq!(root.inner.description, Some("Large object".to_string()));
    assert!(root.inner.schema_type.is_empty());
    assert!(root.inner.properties.is_empty());
    assert_eq!(JsonSchemaType::Number.name(), "number");
}

#[test]
fn new_schema_has_no_payload() {
    let s = Schema::new(NULL | BOOLEAN);
    assert_eq!(s.type_mask, NULL | BOOLEAN);
    assert!(s.object_properties.is_none() && s.string_values.is_none() && s.array_items.is_none());
}

#[test]
fn merging_a_node_with_itself_changes_nothing() {
    let mut c = config();
    c.consider_string_set = true;
    c.consider_array_items = true;
    let v = object(vec![
        ("a", JsonValue::Array(vec![JsonValue::I64(1), string("x")])),
        ("b", object(vec![("c", JsonValue::Null)])),
        ("d", string("y")),
    ]);
    let mut s = infer_type(&v, &c);
    s.merge(infer_type(&v, &c), &c);
    assert_eq!(s.type_mask, OBJECT);
    let a = prop(&s, "a");
    assert_eq!(a.type_mask, ARRAY);
    assert_eq!(a.array_items.as_ref().expect("items").type_mask, I64 | STRING_SET);
    assert_eq!(prop(prop(&s, "b"), "c").type_mask, NULL);
    assert_eq!(values(prop(&s, "d")), vec!["y".to_string()]);
}

#[test]
fn merge_grouping_does_not_matter() {
    let mut c = config();
    c.consider_string_set = true;
    c.max_string_set_values = 2;
    c.max_object_keys = 3;
    let x = object(vec![("a", string("p")), ("b", JsonValue::Null)]);
    let y = object(vec![("a", string("q")), ("c", JsonValue::Bool(true))]);
    let z = object(vec![("a", string("r")), ("b", JsonValue::F64)]);
    let mut left = infer_type(&x, &c);
    left.merge(infer_type(&y, &c), &c);
    left.merge(infer_type(&z, &c), &c);
    let mut right_tail = infer_type(&y, &c);
    right_tail.merge(infer_type(&z, &c), &c);
    let mut right = infer_type(&x, &c);
    right.merge(right_tail, &c);
    for key in ["a", "b", "c"] {
        assert_eq!(prop(&left, key).type_mask, prop(&right, key).type_mask);
    }
    assert_eq!(prop(&left, "a").type_mask, STRING);
    assert_eq!(prop(&left, "b").type_mask, NULL | F64 | ABSENT);
    assert_eq!(prop(&left, "c").type_mask, BOOLEAN | ABSENT);
}

#[test]
fn accumulator_takes_parsed_values() {
    let c = config();
    let mut acc = Accumulator::new();
    acc.add_value(&object(vec![("a", JsonValue::I64(-1))]), &c);
    acc.add_value(&object(vec![("a", JsonValue::U64(18446744073709551615))]), &c);
    assert_eq!(acc.count, 2);
    assert_eq!(prop(&acc.schema.expect("schema"), "a").type_mask, I64 | U64);
}

#[test]
fn duplicate_members_keep_the_last() {
    let v = object(vec![("a", JsonValue::I64(1)), ("a", string("x"))]);
    let s = infer_type(&v, &config());
    assert_eq!(s.object_properties.as_ref().map(|p| p.len()), Some(1));
    assert_eq!(prop(&s, "a").type_mask, STRING);
}

#[test]
fn repeated_key_in_a_wide_object_keeps_the_later_member() {
    let mut line = String::from("{");
    for i in 0..33 {
        line.push_str(&format!("\"k{}\":{},", i, i));
    }
    line.push_str("\"d\":1,\"d\":\"x\"}\n");
    for _ in 0..5 {
        let acc = run(&line, &config());
        assert_eq!(acc.count, 1);
        let s = acc.schema.expect("schema");
        assert_eq!(s.object_properties.as_ref().map(|p| p.len()), Some(34));
        assert_eq!(prop(&s, "d").type_mask, STRING);
        assert_eq!(prop(&s, "k32").type_mask, I64);
    }
}

#[test]
fn emitted_lists_have_no_repeats() {
    let mut c = config();
    c.consider_string_set = true;
    let s = run("{\"a\":\"x\",\"b\":1}\n{\"a\":\"x\",\"b\":2}\n{\"a\":\"y\",\"b\":3}\n", &c).schema.expect("schema");
    let root = RootJsonSchema::new(s);
    let mut required = root.inner.required.clone();
    required.sort();
    assert_eq!(required, vec!["a".to_string(), "b".to_string()]);
    let a = &root.inner.properties.iter().find(|(n, _)| n == "a").expect("property").1;
    assert_eq!(a.any_of.len(), 1);
    match &a.any_of[0] {
        JsonSchemaVariant::StringEnum { schema_type, values } => {
            assert_eq!(*schema_type, JsonSchemaType::String);
            let mut v = values.clone();
            v.sort();
            assert_eq!(v, vec!["x".to_string(), "y".to_string()]);
        }
    }
}
