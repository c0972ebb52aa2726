use skaf::registry::NameMap;
use skaf::structure::{Structure, StructureBuilder, TypeTag};
use skaf::upperise::upperise;

#[test]
fn field_types_by_name() {
    let s = Structure::builder()
        .field("name", TypeTag::string())
        .field("count", TypeTag::new("u32"))
        .build();
    assert_eq!(s.get_field("name").map(|t| t.name().to_string()), Some("String".to_string()));
    assert_eq!(s.get_field("count").map(|t| t.name().to_string()), Some("u32".to_string()));
    assert!(s.get_field("other").is_none());
}

#[test]
fn later_field_of_same_name_replaces_its_type() {
    let s = StructureBuilder::new()
        .field("x", TypeTag::string())
        .field("x", TypeTag::new("u8"))
        .build();
    assert_eq!(s.get_field("x").map(|t| t.name().to_string()), Some("u8".to_string()));
}

#[test]
fn empty_structure_has_no_fields() {
    let s = StructureBuilder::new().build();
    assert!(s.get_field("").is_none());
}

#[test]
fn type_tags_compare_by_name() {
    assert!(TypeTag::string().same(&TypeTag::new("String")));
    assert!(!TypeTag::string().same(&TypeTag::new("string")));
    assert_eq!(TypeTag::new("u8").duplicate().name(), "u8");
}

#[test]
fn name_map_replaces_and_keeps_order() {
    let mut m: NameMap<u32> = NameMap::new();
    m.insert("a".to_string(), 1);
    m.insert("b".to_string(), 2);
    m.insert("a".to_string(), 3);
    assert_eq!(m.len(), 2);
    assert_eq!(m.get("a"), Some(&3));
    assert_eq!(m.get("b"), Some(&2));
    assert_eq!(m.get("c"), None);
    assert!(m.contains("b"));
    assert!(!m.contains("c"));
    assert_eq!(m.key_at(0), "a");
    assert_eq!(m.key_at(1), "b");
    assert_eq!(*m.value_at(0), 3);
}

#[test]
fn upperise_puts_text_in_upper_case() {
    assert_eq!(upperise::function("edgelink".to_string()), "EDGELINK");
    assert_eq!(upperise::function("Mixed 1-case".to_string()), "MIXED 1-CASE");
    assert_eq!(upperise::function("stra\u{df}e".to_string()), "STRASSE");
    assert_eq!(upperise::function(String::new()), "");
}
