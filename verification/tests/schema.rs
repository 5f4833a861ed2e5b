use wedr_waza_core::schema::{
    builtin_kernel_schema, EventSchema, FieldSchema, FieldType, SchemaDeclaration, SchemaRegistry,
};

fn sample() -> SchemaDeclaration {
    SchemaDeclaration {
        module: "kernel_callback".into(),
        events: vec![EventSchema {
            name: "process_create".into(),
            fields: vec![
                FieldSchema {
                    name: "pid".into(),
                    field_type: FieldType::Int,
                },
                FieldSchema {
                    name: "image_path".into(),
                    field_type: FieldType::String,
                },
            ],
        }],
    }
}

#[test]
fn register_and_validate() {
    let mut reg = SchemaRegistry::new();
    assert!(reg.is_empty());
    reg.register(sample());
    assert!(!reg.is_empty());
    assert_eq!(
        reg.validate_field("kernel_callback", "process_create", "pid"),
        Some(FieldType::Int)
    );
    assert_eq!(
        reg.validate_field("kernel_callback", "process_create", "image_path"),
        Some(FieldType::String)
    );
    assert_eq!(
        reg.validate_field("kernel_callback", "process_create", "nope"),
        None
    );
    assert_eq!(reg.validate_field("other", "x", "y"), None);
}

#[test]
fn builtin_includes_process_create_pid() {
    let s = builtin_kernel_schema();
    assert_eq!(s.module, "kernel_callback");
    let pc = s.events.iter().find(|e| e.name == "process_create").unwrap();
    assert!(pc.fields.iter().any(|f| f.name == "pid"));
}

fn field_type(name: &str) -> FieldType {
    match name {
        "int" => FieldType::Int,
        "float" => FieldType::Float,
        "string" => FieldType::String,
        "bool" => FieldType::Bool,
        other => panic!("unknown field type {other}"),
    }
}

fn text(v: &serde_json::Value, key: &str) -> String {
    v[key].as_str().unwrap().to_string()
}

fn list<'a>(v: &'a serde_json::Value, key: &str) -> &'a Vec<serde_json::Value> {
    v[key].as_array().unwrap()
}

#[test]
fn parse_from_json() {
    let json = r#"
        [
          { "module": "kernel_callback",
            "events": [
              { "name": "process_create",
                "fields": [ {"name":"pid","field_type":"int"} ] }
            ] }
        ]"#;
    let parsed: serde_json::Value = serde_json::from_str(json).unwrap();
    let decls: Vec<SchemaDeclaration> = parsed
        .as_array()
        .unwrap()
        .iter()
        .map(|d| SchemaDeclaration {
            module: text(d, "module"),
            events: list(d, "events")
                .iter()
                .map(|e| EventSchema {
                    name: text(e, "name"),
                    fields: list(e, "fields")
                        .iter()
                        .map(|f| FieldSchema {
                            name: text(f, "name"),
                            field_type: field_type(&text(f, "field_type")),
                        })
                        .collect(),
                })
                .collect(),
        })
        .collect();
    let mut reg = SchemaRegistry::new();
    reg.register_all(decls);
    assert_eq!(
        reg.validate_field("kernel_callback", "process_create", "pid"),
        Some(FieldType::Int)
    );
}

#[test]
fn a_later_declaration_replaces_that_of_its_module_alone() {
    let mut reg = SchemaRegistry::default();
    reg.register(sample());
    reg.register(SchemaDeclaration {
        module: "other".to_string(),
        events: vec![
            EventSchema {
                name: "e".to_string(),
                fields: vec![],
            },
            EventSchema {
                name: "e".to_string(),
                fields: vec![
                    FieldSchema {
                        name: "f".to_string(),
                        field_type: FieldType::Int,
                    },
                    FieldSchema {
                        name: "f".to_string(),
                        field_type: FieldType::Bool,
                    },
                ],
            },
        ],
    });
    assert_eq!(reg.validate_field("other", "e", "f"), Some(FieldType::Bool));
    reg.register(SchemaDeclaration {
        module: "other".to_string(),
        events: vec![],
    });
    assert_eq!(reg.validate_field("other", "e", "f"), None);
    assert_eq!(
        reg.validate_field("kernel_callback", "process_create", "pid"),
        Some(FieldType::Int)
    );
}

#[test]
fn the_builtin_schema_validates_its_own_fields() {
    let schema = builtin_kernel_schema();
    let mut reg = SchemaRegistry::new();
    reg.register_all(vec![schema.clone()]);
    for event in &schema.events {
        for field in &event.fields {
            assert_eq!(
                reg.validate_field("kernel_callback", &event.name, &field.name),
                Some(field.field_type)
            );
        }
    }
}
