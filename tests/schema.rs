use ddql_executor::schema::{AttrType, AttributeDefinition, KeyAttrType, KeyDef, KeySchemaElement, TableDesc, TableDescription};

fn def(n: &str, t: &str) -> AttributeDefinition {
    AttributeDefinition { attribute_name: n.to_string(), attribute_type: t.to_string() }
}

fn elem(n: &str, k: &str) -> KeySchemaElement {
    KeySchemaElement { attribute_name: n.to_string(), key_type: k.to_string() }
}

#[test]
fn key_attr_type_tags() {
    assert!(matches!(KeyAttrType::from_string("S".to_string()), Some(KeyAttrType::String)));
    assert!(matches!(KeyAttrType::from_string("n".to_string()), Some(KeyAttrType::Number)));
    assert!(matches!(KeyAttrType::from_string("B".to_string()), Some(KeyAttrType::Binary)));
    assert!(KeyAttrType::from_string("BOOL".to_string()).is_none());
    assert!(KeyAttrType::from_tag("s").is_none());
}

#[test]
fn attr_type_tags() {
    assert!(matches!(AttrType::from_string("bool".to_string()), Some(AttrType::Boolean)));
    assert!(matches!(AttrType::from_string("NS".to_string()), Some(AttrType::NumberSet)));
    assert!(matches!(AttrType::from_string("m".to_string()), Some(AttrType::Mapping)));
    assert!(matches!(AttrType::from_tag("BS"), Some(AttrType::BinarySet)));
    assert!(AttrType::from_string("X".to_string()).is_none());
}

#[test]
fn key_def_from_declaration() {
    let k = KeyDef::from_attr_def(def("id", "s")).unwrap();
    assert_eq!(k.name, "id");
    assert_eq!(k.attr_type, KeyAttrType::String);
    assert!(KeyDef::from_attr_def(def("tags", "SS")).is_none());
}

#[test]
fn hash_and_range_resolve() {
    let d = TableDescription {
        table_name: Some("T".to_string()),
        attribute_definitions: Some(vec![def("id", "S"), def("ts", "N")]),
        key_schema: Some(vec![elem("ts", "RANGE"), elem("id", "HASH")]),
    };
    let t = TableDesc::from_desc(d).unwrap();
    assert_eq!(t.key_schema.hash.name, "id");
    assert_eq!(t.key_schema.hash.attr_type, KeyAttrType::String);
    let r = t.key_schema.range.unwrap();
    assert_eq!(r.name, "ts");
    assert_eq!(r.attr_type, KeyAttrType::Number);
}

#[test]
fn only_first_hash_entry_counts() {
    let d = TableDescription {
        table_name: None,
        attribute_definitions: Some(vec![def("b", "S")]),
        key_schema: Some(vec![elem("a", "HASH"), elem("b", "HASH")]),
    };
    assert!(TableDesc::from_desc(d).is_none());
}

#[test]
fn unrecognized_types_give_no_schema() {
    let d = TableDescription {
        table_name: None,
        attribute_definitions: Some(vec![def("id", "BOOL"), def("x", "L")]),
        key_schema: Some(vec![elem("id", "HASH")]),
    };
    assert!(TableDesc::from_desc(d).is_none());
}

#[test]
fn missing_declarations_give_no_schema() {
    let d = TableDescription { table_name: None, attribute_definitions: None, key_schema: Some(vec![elem("id", "HASH")]) };
    assert!(TableDesc::from_desc(d).is_none());
}
