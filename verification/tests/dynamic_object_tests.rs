use json_schema_sniffer::json::{JsonNumber, JsonValue};
use json_schema_sniffer::sniffer::SchemaSniffer;

/// A value of the library from a value of `serde_json`.
fn from_serde(v: &serde_json::Value) -> JsonValue {
    match v {
        serde_json::Value::Null => JsonValue::Null,
        serde_json::Value::Bool(b) => JsonValue::Bool(*b),
        serde_json::Value::Number(n) => {
            if let Some(u) = n.as_u64() {
                JsonValue::Number(JsonNumber::PosInt(u))
            } else if let Some(i) = n.as_i64() {
                JsonValue::Number(JsonNumber::NegInt(i))
            } else {
                let f = n.as_f64().unwrap();
                let f = if f == 0.0 { 0.0 } else { f };
                JsonValue::Number(JsonNumber::Float(f.to_bits()))
            }
        }
        serde_json::Value::String(s) => JsonValue::String(s.clone()),
        serde_json::Value::Array(a) => JsonValue::Array(a.iter().map(from_serde).collect()),
        serde_json::Value::Object(m) => {
            JsonValue::Object(m.iter().map(|(k, x)| (k.clone(), from_serde(x))).collect())
        }
    }
}

/// The value written in a JSON text.
fn json(text: &str) -> JsonValue {
    from_serde(&serde_json::from_str(text).unwrap())
}

/// A schema as a value of `serde_json`.
fn as_serde(schema: &JsonValue) -> serde_json::Value {
    match schema {
        JsonValue::Null => serde_json::Value::Null,
        JsonValue::Bool(b) => serde_json::Value::Bool(*b),
        JsonValue::Number(JsonNumber::PosInt(u)) => serde_json::Value::from(*u),
        JsonValue::Number(JsonNumber::NegInt(i)) => serde_json::Value::from(*i),
        JsonValue::Number(JsonNumber::Float(b)) => serde_json::Value::from(f64::from_bits(*b)),
        JsonValue::String(s) => serde_json::Value::String(s.clone()),
        JsonValue::Array(es) => serde_json::Value::Array(es.iter().map(as_serde).collect()),
        JsonValue::Object(ms) => {
            serde_json::Value::Object(ms.iter().map(|(k, x)| (k.clone(), as_serde(x))).collect())
        }
    }
}

#[test]
fn test_static_object_detection() {
    let values = vec![
        json(r#"{
            "stats": {
                "strength": { "base": 10, "modifier": 0 },
                "dexterity": { "base": 12, "modifier": 1 }
            }
        }"#),
        json(r#"{
            "stats": {
                "strength": { "base": 15, "modifier": 2 },
                "dexterity": { "base": 14, "modifier": 2 }
            }
        }"#),
    ];

    let mut sniffer = SchemaSniffer::new();
    for value in values {
        sniffer.add_value(&value);
    }

    let schema = as_serde(&sniffer.infer_schema());

    assert_eq!(schema["properties"]["stats"]["type"], "object");
    assert!(!schema["properties"]["stats"].get("additionalProperties").is_some(),
        "Static object should not have additionalProperties");
}

#[test]
fn test_dynamic_object_detection() {
    let values = vec![
        json(r#"{
            "metadata": {
                "favorite_color": { "value": "blue", "since": 2020 }
            }
        }"#),
        json(r#"{
            "metadata": {
                "preferred_language": { "value": "Rust", "proficiency": "expert" }
            }
        }"#),
    ];

    let mut sniffer = SchemaSniffer::new();
    for value in values {
        sniffer.add_value(&value);
    }

    let schema = as_serde(&sniffer.infer_schema());

    assert_eq!(schema["properties"]["metadata"]["type"], "object");
    assert!(schema["properties"]["metadata"].get("additionalProperties").is_some(),
        "Dynamic object should have additionalProperties");
    assert_eq!(schema["properties"]["metadata"]["additionalProperties"], true);
}

#[test]
fn test_mixed_keys_object_detection() {
    let values = vec![
        json(r#"{
            "metadata": {
                "common": "value1",
                "only_first": "unique"
            }
        }"#),
        json(r#"{
            "metadata": {
                "common": "value2",
                "only_second": "unique"
            }
        }"#),
    ];

    let mut sniffer = SchemaSniffer::new();
    for value in values {
        sniffer.add_value(&value);
    }

    let schema = as_serde(&sniffer.infer_schema());

    assert_eq!(schema["properties"]["metadata"]["type"], "object");
    assert!(schema["properties"]["metadata"].get("additionalProperties").is_some(),
        "Object with mixed keys should have additionalProperties");
    assert_eq!(schema["properties"]["metadata"]["additionalProperties"], true);
}
