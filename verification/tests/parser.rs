use skaf::lex::Lexer;
use skaf::parser::{parse, try_parse, Identifier, Object, Value, ValueVariant};
use std::collections::hash_map::DefaultHasher;
use std::hash::{Hash, Hasher};

fn objects(src: &str) -> Vec<Object> {
    parse(Lexer::new(src))
}

fn text(v: &Value) -> String {
    match &v.value {
        ValueVariant::String(s) => s.clone(),
        _ => panic!("not a string literal"),
    }
}

const SRC: &str = "namespace default-namespace {
    name: \"default\"
}

namespace edgelink-namespace {
    name: .upperise \"edgelink\"
}

{v1.deployment} edge-link-deployment {
    name: \"edge-link\"
    namespace: ?edgelink-namespace.name
}
";

#[test]
fn parses_tags_names_and_fields() {
    let os = objects(SRC);
    assert_eq!(os.len(), 3);
    assert_eq!(os[0].get_tag(), "namespace");
    assert_eq!(os[0].get_name(), "default-namespace");
    assert_eq!((os[0].line, os[0].col), (0, 1));
    assert_eq!(text(os[0].get_field("name").unwrap()), "default");
    assert_eq!(os[1].get_name(), "edgelink-namespace");
    assert_eq!(os[2].get_tag(), "v1.deployment");
    assert_eq!(os[2].get_name(), "edge-link-deployment");
    assert_eq!(os[2].data.len(), 2);
    assert!(os[2].get_field("missing").is_none());
}

#[test]
fn parses_calls() {
    let os = objects(SRC);
    let v = os[1].get_field("name").unwrap();
    assert_eq!((v.line, v.col), (5, 11));
    match &v.value {
        ValueVariant::Invoke(f, args) => {
            assert_eq!(f, "upperise");
            assert_eq!(args.len(), 1);
            assert_eq!(text(&args[0]), "edgelink");
            assert_eq!((args[0].line, args[0].col), (5, 21));
        },
        _ => panic!("not a call"),
    }
}

#[test]
fn parses_queries() {
    let os = objects(SRC);
    let v = os[2].get_field("namespace").unwrap();
    assert_eq!((v.line, v.col), (10, 16));
    match &v.value {
        ValueVariant::Query(path) => {
            assert_eq!(path, &vec!["edgelink-namespace".to_string(), "name".to_string()]);
        },
        _ => panic!("not a query"),
    }
}

#[test]
fn braced_identifier_with_doubled_brace() {
    let os = objects("{a}}b} x {\n}\n");
    assert_eq!(os.len(), 1);
    assert_eq!(os[0].get_tag(), "a}b");
    assert_eq!(os[0].get_name(), "x");
}

#[test]
fn later_field_of_same_name_wins_in_first_place() {
    let os = objects("n x {\n    f: \"a\"\n    g: \"b\"\n    f: \"c\"\n}\n");
    assert_eq!(os.len(), 1);
    let o = &os[0];
    assert_eq!(o.data.len(), 2);
    assert_eq!(o.data[0].0.value, "f");
    assert_eq!(o.data[0].0.line, 1);
    assert_eq!(text(&o.data[0].1), "c");
    assert_eq!(o.data[1].0.value, "g");
    assert_eq!(text(o.get_field("f").unwrap()), "c");
}

#[test]
fn stops_at_a_token_that_starts_no_object() {
    let os = objects("n a {\n}\n: n b {\n}\n");
    assert_eq!(os.len(), 1);
    assert_eq!(os[0].get_name(), "a");
}

#[test]
fn object_may_end_at_end_of_source() {
    let os = objects("n x {\n    f: \"a\"\n");
    assert_eq!(os.len(), 1);
    assert_eq!(text(os[0].get_field("f").unwrap()), "a");
}

#[test]
fn malformed_object_is_dropped() {
    let os = objects("n x y {\n}\n");
    assert_eq!(os.len(), 0);
}

#[test]
fn empty_source_has_no_objects() {
    assert_eq!(objects("").len(), 0);
    assert_eq!(objects("\n\n").len(), 0);
}

#[test]
fn try_parse_agrees_with_parse() {
    let a = try_parse(Lexer::new(SRC)).unwrap();
    let b = objects(SRC);
    assert_eq!(a.len(), b.len());
    for i in 0..a.len() {
        assert_eq!(a[i].get_tag(), b[i].get_tag());
        assert_eq!(a[i].get_name(), b[i].get_name());
    }
}

#[test]
fn try_parse_refuses_an_identifier_cut_inside_a_character() {
    assert!(try_parse(Lexer::new("\u{e9}\u{e9} a {\n}\n")).is_none());
}

#[test]
fn objects_come_in_source_order() {
    let os = objects("a x {\n}\n  b y {\n}\nc z {\n}\n");
    let places: Vec<(usize, usize)> = os.iter().map(|o| (o.line, o.col)).collect();
    assert_eq!(places, vec![(0, 1), (2, 3), (4, 1)]);
}

#[test]
fn identifiers_are_equal_by_text_alone() {
    let a = Identifier { line: 1, col: 2, value: "name".to_string() };
    let b = Identifier { line: 7, col: 9, value: "name".to_string() };
    let c = Identifier { line: 1, col: 2, value: "other".to_string() };
    assert!(a == b);
    assert!(a != c);
    let hash = |i: &Identifier| {
        let mut h = DefaultHasher::new();
        i.hash(&mut h);
        h.finish()
    };
    assert_eq!(hash(&a), hash(&b));
}

#[test]
fn a_cloned_object_keeps_its_fields() {
    let os = objects(SRC);
    let copy = os[2].clone();
    assert_eq!(copy.line, os[2].line);
    assert_eq!(copy.tag.value, os[2].tag.value);
    assert_eq!(copy.name.value, os[2].name.value);
    assert_eq!(copy.data.len(), os[2].data.len());
    for (x, y) in copy.data.iter().zip(os[2].data.iter()) {
        assert_eq!(x.0.value, y.0.value);
        assert_eq!(format!("{:?}", x.1), format!("{:?}", y.1));
    }
    let call = os[1].data[0].1.clone();
    match call.value {
        ValueVariant::Invoke(f, args) => {
            assert_eq!(f, "upperise");
            assert_eq!(args.len(), 1);
            assert_eq!(text(&args[0]), "edgelink");
        }
        _ => panic!("not a call"),
    }
}
