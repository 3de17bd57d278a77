use json_schema_sniffer::json::{JsonNumber, JsonValue};
use json_schema_sniffer::sniffer::SchemaSniffer;
use json_schema_sniffer::validate::{sightings, validate_with_inferred_schema};

/// A value of the library from a value of `serde_json`.
fn from_serde(v: &serde_json::Value) -> JsonValue {
    match v {
        serde_json::Value::Null => JsonValue::Null,
        serde_json::Value::Bool(b) => JsonValue::Bool(*b),
        serde_json::Value::Number(n) => {
            if let Some(u) = n.as_u64() {
                JsonValue::Number(JsonNumber::PosInt(u))
            } else if let Some(i) = n.as_i64() {
                JsonValue::Number(JsonNumber::NegInt(i))
            } else {
                let f = n.as_f64().unwrap();
                let f = if f == 0.0 { 0.0 } else { f };
                JsonValue::Number(JsonNumber::Float(f.to_bits()))
            }
        }
        serde_json::Value::String(s) => JsonValue::String(s.clone()),
        serde_json::Value::Array(a) => JsonValue::Array(a.iter().map(from_serde).collect()),
        serde_json::Value::Object(m) => {
            JsonValue::Object(m.iter().map(|(k, x)| (k.clone(), from_serde(x))).collect())
        }
    }
}

/// The value written in a JSON text.
fn json(text: &str) -> JsonValue {
    from_serde(&serde_json::from_str(text).unwrap())
}

/// A schema as a value of `serde_json`.
fn as_serde(schema: &JsonValue) -> serde_json::Value {
    match schema {
        JsonValue::Null => serde_json::Value::Null,
        JsonValue::Bool(b) => serde_json::Value::Bool(*b),
        JsonValue::Number(JsonNumber::PosInt(u)) => serde_json::Value::from(*u),
        JsonValue::Number(JsonNumber::NegInt(i)) => serde_json::Value::from(*i),
        JsonValue::Number(JsonNumber::Float(b)) => serde_json::Value::from(f64::from_bits(*b)),
        JsonValue::String(s) => serde_json::Value::String(s.clone()),
        JsonValue::Array(es) => serde_json::Value::Array(es.iter().map(as_serde).collect()),
        JsonValue::Object(ms) => {
            serde_json::Value::Object(ms.iter().map(|(k, x)| (k.clone(), as_serde(x))).collect())
        }
    }
}

/// A value of `serde_json` written in a JSON text.
fn sj(text: &str) -> serde_json::Value {
    serde_json::from_str(text).unwrap()
}

fn s(text: &str) -> JsonValue {
    JsonValue::String(text.to_string())
}

fn num(n: u64) -> JsonValue {
    JsonValue::Number(JsonNumber::PosInt(n))
}

fn sniff(values: &[&str]) -> SchemaSniffer {
    let mut sniffer = SchemaSniffer::new();
    for v in values {
        sniffer.add_value(&json(v));
    }
    sniffer
}

fn sorted(mut v: Vec<String>) -> Vec<String> {
    v.sort();
    v
}

#[test]
fn analyze_static_objects() {
    let counts = vec![
        (json(r#"{"a": 1, "b": 2}"#), 1),
        (json(r#"{"b": 3, "a": 4}"#), 2),
    ];
    let (dynamic, keys) = SchemaSniffer::analyze_object_properties(&counts);
    assert!(!dynamic);
    assert_eq!(sorted(keys), vec!["a".to_string(), "b".to_string()]);
}

#[test]
fn analyze_dynamic_objects_weighs_counts() {
    // "a" is in all three objects seen, "b" in two of them.
    let counts = vec![
        (json(r#"{"a": 1, "b": 2}"#), 2),
        (json(r#"{"a": 3}"#), 1),
    ];
    let (dynamic, keys) = SchemaSniffer::analyze_object_properties(&counts);
    assert!(dynamic);
    assert_eq!(keys, vec!["a".to_string()]);
}

#[test]
fn analyze_ignores_values_that_are_not_objects() {
    // the string is counted in the total, so no key is in every value
    let counts = vec![(json(r#"{"a": 1}"#), 1), (s("x"), 1)];
    let (dynamic, keys) = SchemaSniffer::analyze_object_properties(&counts);
    assert!(dynamic);
    assert!(keys.is_empty());
}

#[test]
fn analyze_nothing_seen() {
    let counts: Vec<(JsonValue, usize)> = Vec::new();
    let (dynamic, keys) = SchemaSniffer::analyze_object_properties(&counts);
    assert!(!dynamic);
    assert!(keys.is_empty());
}

#[test]
fn empty_sniffer_gives_basic_schema() {
    let schema = as_serde(&SchemaSniffer::new().infer_schema());
    let expected: serde_json::Value = serde_json::from_str(
        r#"{
            "$schema": "https://json-schema.org/draft/2020-12/schema",
            "$id": "https://example.com/my-schema",
            "type": "object",
            "$defs": {},
            "properties": {}
        }"#,
    )
    .unwrap();
    assert_eq!(schema, expected);
}

#[test]
fn scalar_types_and_mixed_types() {
    let sniffer = sniff(&[
        r#"{"n": 1, "f": 1.5, "m": 1, "z": null, "b": true}"#,
        r#"{"n": -3, "f": 2.5, "m": "one", "z": null, "b": false}"#,
    ]);
    let schema = as_serde(&sniffer.infer_schema());
    let props = &schema["properties"];
    assert_eq!(props["n"]["type"], "integer");
    assert_eq!(props["f"]["type"], "number");
    assert_eq!(props["z"]["type"], "null");
    assert_eq!(props["b"]["type"], "boolean");
    // several types: their names, sorted
    assert_eq!(props["m"]["type"], sj(r#"["integer", "string"]"#));
}

#[test]
fn arrays_get_items_schemas() {
    let sniffer = sniff(&[r#"{"tags": [1, 2], "empty": [], "people": [{"name": "a"}]}"#]);
    let schema = as_serde(&sniffer.infer_schema());
    let props = &schema["properties"];
    assert_eq!(props["tags"]["type"], "array");
    assert_eq!(props["tags"]["items"]["type"], "integer");
    assert_eq!(props["people"]["type"], "array");
    assert_eq!(props["people"]["items"]["type"], "object");
    assert_eq!(props["people"]["items"]["properties"]["name"]["type"], "string");
    // an empty array records nothing
    assert!(props.get("empty").is_none());
}

#[test]
fn repeated_strings_become_an_enum_named_by_path() {
    let mut sniffer = SchemaSniffer::new();
    for _ in 0..10 {
        sniffer.add_value(&json(r#"{"a": {"b": ["x", "y"]}}"#));
    }
    let schema = as_serde(&sniffer.infer_schema());
    let items = &schema["properties"]["a"]["properties"]["b"]["items"];
    assert_eq!(items["type"], "string");
    assert_eq!(items["$ref"], "#/$defs/a_bEnum");
    let def = &schema["$defs"]["a_bEnum"];
    assert_eq!(def["type"], "string");
    assert_eq!(def["enum"], sj(r#"["x", "y"]"#));
}

#[test]
fn names_that_rarely_repeat_make_no_enum() {
    // names are no labels: two distinct ones need twenty values
    let mut sniffer = SchemaSniffer::new();
    for i in 0..19 {
        let v = if i % 2 == 0 { "Ann" } else { "Bo" };
        sniffer.add_value(&JsonValue::Object(vec![("c".to_string(), s(v))]));
    }
    let schema = as_serde(&sniffer.infer_schema());
    assert!(schema["properties"]["c"].get("$ref").is_none());
    assert_eq!(schema["$defs"], sj("{}"));
    sniffer.add_value(&JsonValue::Object(vec![("c".to_string(), s("Ann"))]));
    let schema = as_serde(&sniffer.infer_schema());
    assert_eq!(schema["properties"]["c"]["$ref"], "#/$defs/cEnum");
    assert_eq!(schema["$defs"]["cEnum"]["enum"], sj(r#"["Ann", "Bo"]"#));
}

#[test]
fn labels_make_an_enum_at_once() {
    let values = vec![
        json(r#"{"status": "active"}"#),
        json(r#"{"status": "inactive"}"#),
        json(r#"{"status": "pending"}"#),
    ];
    let (validator, schema) = match validate_with_inferred_schema(values) {
        Ok(r) => r,
        Err(e) => panic!("no validator: {:?}", e),
    };
    let schema = as_serde(&schema);
    assert_eq!(schema["properties"]["status"]["$ref"], "#/$defs/statusEnum");
    assert!(validator.compiled.0.is_valid(&sj(r#"{"status": "pending"}"#)));
    assert!(!validator.compiled.0.is_valid(&sj(r#"{"status": "unknown"}"#)));
    // codes and names are no labels
    let mut sniffer = SchemaSniffer::new();
    sniffer.add_value(&json(r#"{"d": "1d6", "n": "Staff", "e": ""}"#));
    let schema = as_serde(&sniffer.infer_schema());
    assert!(schema["properties"]["d"].get("$ref").is_none());
    assert!(schema["properties"]["n"].get("$ref").is_none());
    assert!(schema["properties"]["e"].get("$ref").is_none());
}

#[test]
fn enum_lists_each_string_seen_once() {
    let mut sniffer = SchemaSniffer::new();
    for i in 0..30 {
        let v = ["red", "green", "red"][i % 3];
        sniffer.add_value(&JsonValue::Object(vec![("colour".to_string(), s(v))]));
        sniffer.add_value(&JsonValue::Object(vec![("colour".to_string(), num(7))]));
    }
    let schema = as_serde(&sniffer.infer_schema());
    assert_eq!(schema["$defs"]["colourEnum"]["enum"], sj(r#"["red", "green"]"#));
    assert_eq!(schema["properties"]["colour"]["type"], sj(r#"["integer", "string"]"#));
}

#[test]
fn counts_do_not_depend_on_order() {
    let a = r#"{"k": "v", "o": {"x": 1}, "l": [true, true]}"#;
    let b = r#"{"k": "w", "o": {"x": 1, "y": null}, "l": [false]}"#;
    let ab = sniff(&[a, b]);
    let ba = sniff(&[b, a]);
    for (path, value) in [
        ("k", s("v")),
        ("k", s("w")),
        ("o", json(r#"{"x": 1}"#)),
        ("o", json(r#"{"x": 1, "y": null}"#)),
        ("o.x", num(1)),
        ("o.y", JsonValue::Null),
        ("l[]", JsonValue::Bool(true)),
        ("l[]", JsonValue::Bool(false)),
        ("l", JsonValue::Bool(true)),
    ] {
        assert_eq!(ab.times_seen(path, &value), ba.times_seen(path, &value));
    }
    assert_eq!(ab.times_seen("o.x", &num(1)), 2);
    assert_eq!(ab.times_seen("l[]", &JsonValue::Bool(true)), 2);
    assert_eq!(ab.times_seen("l", &JsonValue::Bool(true)), 0);
}

#[test]
fn adding_a_value_counts_each_leaf_once_more() {
    let mut sniffer = sniff(&[r#"{"a": 1, "b": [2, 2]}"#]);
    assert_eq!(sniffer.times_seen("a", &num(1)), 1);
    assert_eq!(sniffer.times_seen("b[]", &num(2)), 2);
    sniffer.add_value(&json(r#"{"a": 1, "b": [2]}"#));
    assert_eq!(sniffer.times_seen("a", &num(1)), 2);
    assert_eq!(sniffer.times_seen("b[]", &num(2)), 3);
    assert_eq!(sniffer.times_seen("", &num(1)), 0);
    // a top-level scalar is seen at the empty path
    sniffer.add_value(&num(1));
    assert_eq!(sniffer.times_seen("", &num(1)), 1);
}

#[test]
fn every_schema_has_the_header() {
    for values in [
        vec![],
        vec![r#"{"a": 1}"#],
        vec![r#"[1, 2]"#, r#""top""#],
        vec![r#"{"$schema": "x", "type": {"$id": 3}}"#],
    ] {
        let schema = as_serde(&sniff(&values).infer_schema());
        assert_eq!(schema["$schema"], "https://json-schema.org/draft/2020-12/schema");
        assert_eq!(schema["$id"], "https://example.com/my-schema");
        assert_eq!(schema["type"], "object");
    }
}

#[test]
fn sightings_count_leaves_and_nested_objects() {
    let values = vec![
        json(r#"{"a": 1, "b": {"c": 2}}"#),
        json(r#"[1, [2, 3], {}]"#),
        json(r#""x""#),
    ];
    // 1 + (1 + 1), then 1 + 2 + 1, then 1
    assert_eq!(sightings(&values), Some(8));
    assert_eq!(sightings(&vec![]), Some(0));
}

#[test]
fn validator_checks_new_values() {
    let values = vec![
        json(r#"{"name": "Alice", "age": 30, "active": true}"#),
        json(r#"{"name": "Bob", "age": 25, "active": false}"#),
    ];
    let (validator, schema) = match validate_with_inferred_schema(values) {
        Ok(r) => r,
        Err(e) => panic!("no validator: {:?}", e),
    };
    let schema = as_serde(&schema);
    assert_eq!(schema["properties"]["age"]["type"], "integer");
    let good: serde_json::Value =
        serde_json::from_str(r#"{"name": "Charlie", "age": 35, "active": true}"#).unwrap();
    let bad: serde_json::Value =
        serde_json::from_str(r#"{"name": "Dora", "age": "old", "active": true}"#).unwrap();
    assert!(validator.compiled.0.is_valid(&good));
    assert!(!validator.compiled.0.is_valid(&bad));
}

#[test]
fn a_reference_that_does_not_resolve_is_a_schema_error() {
    // the enumeration's name holds "/", so the reference's JSON pointer
    // leads to a definition that does not exist
    let mut values = Vec::new();
    for _ in 0..10 {
        values.push(json(r#"{"a/b": "x"}"#));
    }
    match validate_with_inferred_schema(values) {
        Err(_) => {}
        Ok(_) => panic!("the schema should be refused"),
    }
}

#[test]
fn every_enum_referenced_is_defined() {
    // "a.b" and "a_b" make the same enumeration name; the definition is there
    // for both references
    let mut sniffer = SchemaSniffer::new();
    for _ in 0..10 {
        sniffer.add_value(&json(r#"{"a": {"b": "x"}, "a_b": "y"}"#));
    }
    let schema = as_serde(&sniffer.infer_schema());
    assert_eq!(schema["properties"]["a"]["properties"]["b"]["$ref"], "#/$defs/a_bEnum");
    assert_eq!(schema["properties"]["a_b"]["$ref"], "#/$defs/a_bEnum");
    assert_eq!(schema["$defs"]["a_bEnum"]["type"], "string");
    // deeper paths are taken in first, so the shallower one's strings remain
    assert_eq!(schema["$defs"]["a_bEnum"]["enum"], sj(r#"["y"]"#));
}

#[test]
fn deeply_nested_values_get_a_validator() {
    // a schema nests two levels for each level of the values: far deeper
    // than a JSON text parser would take
    let mut value = num(1);
    for _ in 0..200 {
        value = JsonValue::Object(vec![("a".to_string(), value)]);
    }
    let serde_value = as_serde(&value);
    let (validator, schema) = match validate_with_inferred_schema(vec![value]) {
        Ok(r) => r,
        Err(e) => panic!("no validator: {:?}", e),
    };
    let mut node = &as_serde(&schema);
    for _ in 0..200 {
        node = &node["properties"]["a"];
    }
    assert_eq!(node["type"], "integer");
    assert!(validator.compiled.0.is_valid(&serde_value));
}

#[test]
fn default_sniffer_is_empty() {
    let sniffer = SchemaSniffer::default();
    assert_eq!(
        as_serde(&sniffer.infer_schema()),
        as_serde(&SchemaSniffer::new().infer_schema())
    );
    assert!(format!("{:?}", sniffer).contains("SchemaSniffer"));
}

#[test]
fn analysis_depends_on_proportions_only() {
    let make = |m: usize| {
        vec![
            (json(r#"{"a": 1, "b": 2}"#), 2 * m),
            (json(r#"{"a": 3}"#), m),
            (s("x"), m),
        ]
    };
    let counts = make(1);
    let scaled = make(7);
    let (d1, k1) = SchemaSniffer::analyze_object_properties(&counts);
    let (d2, k2) = SchemaSniffer::analyze_object_properties(&scaled);
    assert_eq!(d1, d2);
    assert_eq!(sorted(k1), sorted(k2));
}

#[test]
fn enum_under_a_varying_object_stays_defined() {
    // "x" is missing from some objects, so its property is dropped while its
    // enumeration stays among the definitions
    let mut sniffer = SchemaSniffer::new();
    for _ in 0..10 {
        sniffer.add_value(&json(r#"{"m": {"x": "on", "y": 1}}"#));
        sniffer.add_value(&json(r#"{"m": {"y": 2}}"#));
    }
    let schema = as_serde(&sniffer.infer_schema());
    assert_eq!(schema["properties"]["m"]["additionalProperties"], true);
    assert!(schema["properties"]["m"]["properties"].get("x").is_none());
    assert_eq!(schema["properties"]["m"]["properties"]["y"]["type"], "integer");
    assert_eq!(schema["$defs"]["m_xEnum"]["enum"], sj(r#"["on"]"#));
}

#[test]
fn checked_adding_counts_sightings() {
    let mut sniffer = SchemaSniffer::new();
    assert_eq!(sniffer.total_sightings(), 0);
    assert!(sniffer.try_add_value(&json(r#"{"a": 1, "b": {"c": [true, false]}}"#)));
    // a, b (an object), b.c[] twice
    assert_eq!(sniffer.total_sightings(), 4);
    assert_eq!(sniffer.times_seen("b.c[]", &JsonValue::Bool(true)), 1);
}

#[test]
fn nested_nodes_describe_their_values() {
    let mut sniffer = SchemaSniffer::new();
    sniffer.add_value(&json(r#"{"o": {"list": [{"k": "on", "n": 1}, {"k": "off", "n": 2.5}]}}"#));
    let schema = as_serde(&sniffer.infer_schema());
    let items = &schema["properties"]["o"]["properties"]["list"]["items"];
    assert_eq!(items["type"], "object");
    assert!(items.get("additionalProperties").is_none());
    assert_eq!(items["properties"]["n"]["type"], sj(r#"["integer", "number"]"#));
    assert_eq!(items["properties"]["k"]["$ref"], "#/$defs/o_list_kEnum");
    assert!(items["properties"]["n"].get("$ref").is_none());
}
