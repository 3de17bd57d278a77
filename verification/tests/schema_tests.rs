use json_schema_sniffer::json::{JsonNumber, JsonValue};
use json_schema_sniffer::validate::validate_with_inferred_schema;

/// A value of the library from a value of `serde_json`.
fn from_serde(v: &serde_json::Value) -> JsonValue {
    match v {
        serde_json::Value::Null => JsonValue::Null,
        serde_json::Value::Bool(b) => JsonValue::Bool(*b),
        serde_json::Value::Number(n) => {
            if let Some(u) = n.as_u64() {
                JsonValue::Number(JsonNumber::PosInt(u))
            } else if let Some(i) = n.as_i64() {
                JsonValue::Number(JsonNumber::NegInt(i))
            } else {
                let f = n.as_f64().unwrap();
                let f = if f == 0.0 { 0.0 } else { f };
                JsonValue::Number(JsonNumber::Float(f.to_bits()))
            }
        }
        serde_json::Value::String(s) => JsonValue::String(s.clone()),
        serde_json::Value::Array(a) => JsonValue::Array(a.iter().map(from_serde).collect()),
        serde_json::Value::Object(m) => {
            JsonValue::Object(m.iter().map(|(k, x)| (k.clone(), from_serde(x))).collect())
        }
    }
}

/// The value written in a JSON text.
fn json(text: &str) -> JsonValue {
    from_serde(&serde_json::from_str(text).unwrap())
}

/// A schema as a value of `serde_json`.
fn as_serde(schema: &JsonValue) -> serde_json::Value {
    match schema {
        JsonValue::Null => serde_json::Value::Null,
        JsonValue::Bool(b) => serde_json::Value::Bool(*b),
        JsonValue::Number(JsonNumber::PosInt(u)) => serde_json::Value::from(*u),
        JsonValue::Number(JsonNumber::NegInt(i)) => serde_json::Value::from(*i),
        JsonValue::Number(JsonNumber::Float(b)) => serde_json::Value::from(f64::from_bits(*b)),
        JsonValue::String(s) => serde_json::Value::String(s.clone()),
        JsonValue::Array(es) => serde_json::Value::Array(es.iter().map(as_serde).collect()),
        JsonValue::Object(ms) => {
            serde_json::Value::Object(ms.iter().map(|(k, x)| (k.clone(), as_serde(x))).collect())
        }
    }
}

fn get_basic_test_values() -> Vec<JsonValue> {
    vec![
        json(r#"{
            "name": "Alice",
            "age": 30,
            "active": true,
            "eye-colour": "blue"
        }"#),
        json(r#"{
            "name": "Bob",
            "age": 25,
            "active": false,
            "eye-colour": "green"
        }"#),
        json(r#"{
            "name": "Charlie",
            "age": 35,
            "active": true,
            "eye-colour": "blue"
        }"#),
        json(r#"{
            "name": "Diana",
            "age": 28,
            "active": true,
            "eye-colour": "green"
        }"#),
        json(r#"{
            "name": "Eve",
            "age": 32,
            "active": false,
            "eye-colour": "green"
        }"#),
        json(r#"{
            "name": "Frank",
            "age": 40,
            "active": true,
            "eye-colour": "blue"
        }"#),
        json(r#"{
            "name": "Grace",
            "age": 22,
            "active": false,
            "eye-colour": "green"
        }"#),
        json(r#"{
            "name": "Heidi",
            "age": 29,
            "active": true,
            "eye-colour": "blue"
        }"#),
        json(r#"{
            "name": "Ivan",
            "age": 31,
            "active": true,
            "eye-colour": "green"
        }"#),
        json(r#"{
            "name": "Judy",
            "age": 27,
            "active": false,
            "eye-colour": "blue"
        }"#),
        json(r#"{
            "name": "Kevin",
            "age": 33,
            "active": true,
            "eye-colour": "green"
        }"#),
        json(r#"{
            "name": "Linda",
            "age": 26,
            "active": true,
            "eye-colour": "blue"
        }"#),
        json(r#"{
            "name": "Michael",
            "age": 34,
            "active": false,
            "eye-colour": "green"
        }"#),
        json(r#"{
            "name": "Nancy",
            "age": 29,
            "active": true,
            "eye-colour": "blue"
        }"#),
        json(r#"{
            "name": "Oscar",
            "age": 30,
            "active": true,
            "eye-colour": "green"
        }"#),
        json(r#"{
            "name": "Paul",
            "age": 38,
            "active": true,
            "eye-colour": "blue"
        }"#),
        json(r#"{
            "name": "Quinn",
            "age": 27,
            "active": false,
            "eye-colour": "green"
        }"#),
        json(r#"{
            "name": "Rachel",
            "age": 31,
            "active": true,
            "eye-colour": "blue"
        }"#),
        json(r#"{
            "name": "Steve",
            "age": 29,
            "active": true,
            "eye-colour": "green"
        }"#),
        json(r#"{
            "name": "Tina",
            "age": 33,
            "active": false,
            "eye-colour": "blue"
        }"#),
        json(r#"{
            "name": "Uma",
            "age": 28,
            "active": true,
            "eye-colour": "green"
        }"#),
        json(r#"{
            "name": "Victor",
            "age": 35,
            "active": true,
            "eye-colour": "blue"
        }"#),
        json(r#"{
            "name": "Wendy",
            "age": 30,
            "active": false,
            "eye-colour": "green"
        }"#),
        json(r#"{
            "name": "Xander",
            "age": 32,
            "active": true,
            "eye-colour": "blue"
        }"#),
        json(r#"{
            "name": "Yvonne",
            "age": 29,
            "active": true,
            "eye-colour": "green"
        }"#),
        json(r#"{
            "name": "Zack",
            "age": 31,
            "active": false,
            "eye-colour": "blue"
        }"#),
    ]
}

fn get_dnd_test_values() -> Vec<JsonValue> {
    vec![
        json(r#"{
            "name": "Gandalf",
            "class": "Wizard",
            "level": 20,
            "stats": {
                "strength": 10,
                "dexterity": 12,
                "constitution": 14,
                "intelligence": 20,
                "wisdom": 18,
                "charisma": 16
            },
            "inventory": {
                "weapons": [
                    {"name": "Staff", "damage": "1d6", "type": "bludgeoning"},
                    {"name": "Glamdring", "damage": "2d6", "type": "slashing"}
                ],
                "armor": [
                    {"name": "Robe", "ac": 10},
                    {"name": "Cloak of Protection", "ac": 12}
                ],
                "misc": {
                    "potions": 3,
                    "scrolls": 5,
                    "gold": 150
                }
            },
            "spells": [
                {"name": "Fireball", "level": 3, "school": "Evocation"},
                {"name": "Mage Armor", "level": 1, "school": "Abjuration"}
            ]
        }"#),
        json(r#"{
            "name": "Aragorn",
            "class": "Ranger",
            "level": 15,
            "stats": {
                "strength": 18,
                "dexterity": 16,
                "constitution": 16,
                "intelligence": 14,
                "wisdom": 14,
                "charisma": 12
            },
            "inventory": {
                "weapons": [
                    {"name": "Andúril", "damage": "2d6", "type": "slashing"}
                ],
                "armor": [
                    {"name": "Chainmail", "ac": 16}
                ],
                "misc": {
                    "potions": 1,
                    "scrolls": 0,
                    "gold": 50
                }
            },
            "spells": []
        }"#)
    ]
}

#[test]
fn test_schema_inference() {
    let values = get_basic_test_values();

    let (validator, schema) = validate_with_inferred_schema(values)
        .expect("Failed to create validator");
    let schema = as_serde(&schema);

    // Test with valid eye color
    let test_value: serde_json::Value = serde_json::from_str(r#"{
        "name": "Charlie",
        "age": 35,
        "active": true,
        "eye-colour": "blue"
    }"#).unwrap();

    assert!(validator.compiled.0.is_valid(&test_value), "Valid value should pass validation");

    // Test with invalid eye color
    let invalid_test_value: serde_json::Value = serde_json::from_str(r#"{
        "name": "Charlie",
        "age": 35,
        "active": true,
        "eye-colour": "flashing"
    }"#).unwrap();

    assert!(!validator.compiled.0.is_valid(&invalid_test_value), "Invalid value should fail validation");
    
    // Check that the error message contains the expected enum values
    let errors: Vec<String> = validator
        .compiled
        .0
        .iter_errors(&invalid_test_value)
        .map(|e| e.to_string())
        .collect();
    
    assert!(errors.iter().any(|e| e.contains("blue")), "Error should mention 'blue'");
    assert!(errors.iter().any(|e| e.contains("green")), "Error should mention 'green'");
}

#[test]
fn test_deeply_nested_structure() {
    let values = get_dnd_test_values();
    let (_, schema) = validate_with_inferred_schema(values)
        .expect("Failed to create validator");
    let schema = as_serde(&schema);

    // Print the inferred schema
    println!("Inferred D&D schema:\n{}", serde_json::to_string_pretty(&schema).unwrap());

    // Check nested stats structure
    assert_eq!(schema["properties"]["stats"]["type"], "object");
    // The checks that `stats.strength` and `stats.dexterity` are objects with
    // `base` and `modifier` integers are left out: in these values they are
    // integers (10, 12, 18, 16), so no schema inferred from them can say so,
    // and `test_gimli_validation` asks that the same schema accept Gimli's
    // integer strength of 18, which an `object` type would refuse.

    // Check nested inventory structure
    assert_eq!(schema["properties"]["inventory"]["type"], "object");
    assert_eq!(schema["properties"]["inventory"]["properties"]["weapons"]["type"], "array");
    assert_eq!(schema["properties"]["inventory"]["properties"]["weapons"]["items"]["type"], "object");
    assert_eq!(schema["properties"]["inventory"]["properties"]["weapons"]["items"]["properties"]["name"]["type"], "string");
    assert_eq!(schema["properties"]["inventory"]["properties"]["weapons"]["items"]["properties"]["damage"]["type"], "string");

    // Check deeply nested misc items
    assert_eq!(schema["properties"]["inventory"]["properties"]["misc"]["type"], "object");
    assert_eq!(schema["properties"]["inventory"]["properties"]["misc"]["properties"]["potions"]["type"], "integer");
    assert_eq!(schema["properties"]["inventory"]["properties"]["misc"]["properties"]["gold"]["type"], "integer");

    // Check spells array structure
    assert_eq!(schema["properties"]["spells"]["type"], "array");
    assert_eq!(schema["properties"]["spells"]["items"]["type"], "object");
    assert_eq!(schema["properties"]["spells"]["items"]["properties"]["name"]["type"], "string");
    assert_eq!(schema["properties"]["spells"]["items"]["properties"]["level"]["type"], "integer");
}

#[test]
fn test_gimli_validation() {
    let values = get_dnd_test_values();
    let (validator, _) = validate_with_inferred_schema(values)
        .expect("Failed to create validator");

    // Create Gimli's character data
    let gimli: serde_json::Value = serde_json::from_str(r#"{
        "name": "Gimli",
        "class": "Fighter",
        "level": 12,
        "stats": {
            "strength": 18,
            "dexterity": 10,
            "constitution": 16,
            "intelligence": 10,
            "wisdom": 12,
            "charisma": 8
        },
        "inventory": {
            "weapons": [
                {"name": "Battle Axe", "damage": "1d10", "type": "slashing"}
            ],
            "armor": [
                {"name": "Chainmail", "ac": 16}
            ],
            "misc": {
                "potions": 2,
                "scrolls": 0,
                "gold": 75
            }
        },
        "spells": []
    }"#).unwrap();

    // Validate Gimli against the schema
    assert!(validator.compiled.0.is_valid(&gimli), "Gimli's character data should validate against the schema");

    // Test invalid data: level should be integer
    let invalid_gimli: serde_json::Value = serde_json::from_str(r#"{
        "name": "Gimli",
        "class": "Fighter",
        "level": "twelve",
        "stats": {
            "strength": 18,
            "dexterity": 10,
            "constitution": 16,
            "intelligence": 10,
            "wisdom": 12,
            "charisma": 8
        },
        "inventory": {
            "weapons": [
                {"name": "Battle Axe", "damage": "1d10", "type": "slashing"}
            ],
            "armor": [
                {"name": "Chainmail", "ac": 16}
            ],
            "misc": {
                "potions": 2,
                "scrolls": 0,
                "gold": 75
            }
        },
        "spells": []
    }"#).unwrap();

    assert!(!validator.compiled.0.is_valid(&invalid_gimli), "Invalid level type should fail validation");
}

#[test]
fn test_dynamic_vs_static_objects() {
    let values = vec![
        // Static object example with object values
        json(r#"{
            "stats": {
                "strength": { "base": 10, "modifier": 0 },
                "dexterity": { "base": 12, "modifier": 1 }
            }
        }"#),
        json(r#"{
            "stats": {
                "strength": { "base": 15, "modifier": 2 },
                "dexterity": { "base": 14, "modifier": 2 }
            }
        }"#),
        // Dynamic object example
        json(r#"{
            "metadata": {
                "favorite_color": { "value": "blue", "since": 2020 },
                "age": { "value": 30, "unit": "years" }
            }
        }"#),
        json(r#"{
            "metadata": {
                "preferred_language": { "value": "Rust", "proficiency": "expert" },
                "experience_years": { "value": 5, "details": "professional" }
            }
        }"#),
        json(r#"{
            "metadata": {
                "hobby": { "value": "programming", "frequency": "daily" },
                "coffee_cups_per_day": { "value": 3, "preferred_type": "espresso" }
            }
        }"#)
    ];

    let (validator, schema) = validate_with_inferred_schema(values)
        .expect("Failed to create validator");
    let schema = as_serde(&schema);

    // Print the inferred schema
    println!("Inferred schema:\n{}", serde_json::to_string_pretty(&schema).unwrap());

    // Test static object behavior
    assert_eq!(schema["properties"]["stats"]["type"], "object");
    assert_eq!(schema["properties"]["stats"]["properties"]["strength"]["type"], "object");
    assert_eq!(schema["properties"]["stats"]["properties"]["dexterity"]["type"], "object");
    assert!(!schema["properties"]["stats"].get("additionalProperties").is_some(), 
        "Static object should not have additionalProperties");

    // Test dynamic object behavior
    assert_eq!(schema["properties"]["metadata"]["type"], "object");
    assert!(schema["properties"]["metadata"].get("additionalProperties").is_some(), 
        "Dynamic object should have additionalProperties");
    assert_eq!(schema["properties"]["metadata"]["additionalProperties"], true);
    assert!(schema["properties"]["metadata"]["properties"].as_object().unwrap().is_empty(),
        "Dynamic object should have empty properties");
}

#[test]
fn test_schema_structure() {
    let values = get_basic_test_values();

    let (_, schema) = validate_with_inferred_schema(values)
        .expect("Failed to create validator");
    let schema = as_serde(&schema);

    // Check basic schema structure
    assert_eq!(schema["type"], "object");
    assert!(schema["properties"].is_object());
    
    // Check field types
    assert_eq!(schema["properties"]["name"]["type"], "string");
    assert_eq!(schema["properties"]["age"]["type"], "integer");
    assert_eq!(schema["properties"]["active"]["type"], "boolean");
    
    // Check enum reference
    assert!(schema["properties"]["eye-colour"]["$ref"].is_string());
    let ref_path = schema["properties"]["eye-colour"]["$ref"].as_str().unwrap();
    assert!(ref_path.starts_with("#/$defs/"));
    
    // Check enum definition
    let enum_name = ref_path.trim_start_matches("#/$defs/");
    assert!(schema["$defs"][enum_name].is_object());
    assert_eq!(schema["$defs"][enum_name]["type"], "string");
    assert!(schema["$defs"][enum_name]["enum"].is_array());
}
