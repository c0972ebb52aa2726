use skaf::engine::{Engine, LoadIssue, Proxy};
use skaf::resources::{Deployment, Namespace};
use skaf::parser::{Value, ValueVariant};
use skaf::structure::{Structure, TypeTag};
use skaf::upperise::upperise;

fn engine() -> Engine {
    Engine::builder()
        .function(upperise {})
        .structure::<Namespace>()
        .structure::<Deployment>()
        .register_structure("counter", Structure::builder().field("count", TypeTag::new("u32")).build())
        .build()
}

const SRC: &str = "namespace default-namespace {
    name: \"default\"
}

namespace edgelink-namespace {
    name: .upperise \"edgelink\"
}

{v1.deployment} edge-link-deployment {
    name: \"edge-link\"
    namespace: ?edgelink-namespace.name
}

namespace other-thing {
    name: ?edge-link-deployment.namespace
}
";

fn ns(name: &str) -> Namespace {
    Namespace { name: name.to_string() }
}

#[test]
fn loads_and_resolves_the_sample() {
    let mut e = engine();
    let issues = e.load(SRC);
    assert_eq!(issues, vec![]);
    assert_eq!(e.get::<Namespace>("default-namespace"), Some(ns("default")));
    assert_eq!(e.get::<Namespace>("edgelink-namespace"), Some(ns("EDGELINK")));
    assert_eq!(
        e.get::<Deployment>("edge-link-deployment"),
        Some(Deployment { name: "edge-link".to_string(), namespace: "EDGELINK".to_string() })
    );
    assert_eq!(e.get::<Namespace>("other-thing"), Some(ns("EDGELINK")));
}

#[test]
fn get_of_unknown_object_or_other_tag_is_none() {
    let mut e = engine();
    e.load(SRC);
    assert_eq!(e.get::<Namespace>("nothing"), None);
    assert_eq!(e.get::<Deployment>("default-namespace"), None);
}

#[test]
fn query_resolves_to_the_target_field() {
    let mut e = engine();
    e.load(SRC);
    let path = vec!["edge-link-deployment".to_string(), "namespace".to_string()];
    assert_eq!(e.query(&path), "EDGELINK");
    let path = vec!["default-namespace".to_string(), "name".to_string()];
    assert_eq!(e.query(&path), "default");
}

#[test]
fn call_applies_the_registered_function() {
    let e = engine();
    let v = Value { line: 0, col: 0, value: ValueVariant::String("mixed Case".to_string()) };
    let p = e.make_value_string(&v);
    assert_eq!(e.call("upperise", &vec![p]), "MIXED CASE");
}

#[test]
fn literal_proxy_resolves_to_its_text() {
    let e = engine();
    let v = Value { line: 3, col: 4, value: ValueVariant::String("text".to_string()) };
    let p: Proxy = e.make_value_string(&v);
    assert_eq!((p.line, p.col), (3, 4));
    assert_eq!(p.get_value(&e), "text");
}

#[test]
fn call_proxy_resolves_to_the_result() {
    let e = engine();
    let arg = Value { line: 1, col: 9, value: ValueVariant::String("abc".to_string()) };
    let v = Value { line: 1, col: 1, value: ValueVariant::Invoke("upperise".to_string(), vec![arg]) };
    let p = e.make_value(&v);
    assert_eq!(p.get_value(&e), "ABC");
}

#[test]
fn resolve_gives_every_field() {
    let mut e = engine();
    e.load(SRC);
    let ro = e.resolve("edge-link-deployment", "v1.deployment").unwrap();
    assert_eq!(ro.get("name"), Some("edge-link".to_string()));
    assert_eq!(ro.get("namespace"), Some("EDGELINK".to_string()));
    assert_eq!(ro.get("other"), None);
    assert!(e.resolve("edge-link-deployment", "namespace").is_none());
    assert!(e.resolve("nothing", "namespace").is_none());
}

#[test]
fn try_get_agrees_with_get_where_fields_resolve() {
    let mut e = engine();
    e.load(SRC);
    assert_eq!(e.try_get::<Namespace>("other-thing"), Ok(Some(ns("EDGELINK"))));
    assert_eq!(e.try_get::<Namespace>("nothing"), Ok(None));
    assert_eq!(e.try_get::<Deployment>("other-thing"), Ok(None));
    let ro = e.try_resolve("edge-link-deployment", "v1.deployment").unwrap().unwrap();
    assert_eq!(ro.get("namespace"), Some("EDGELINK".to_string()));
}

#[test]
fn long_query_chain_resolves() {
    let mut e = engine();
    let mut src = String::from("namespace n0 {\n    name: \"end\"\n}\n");
    for i in 1..40 {
        src.push_str(&format!("namespace n{i} {{\n    name: ?n{}.name\n}}\n", i - 1));
    }
    assert_eq!(e.load(&src), vec![]);
    assert_eq!(e.try_get::<Namespace>("n39"), Ok(Some(ns("end"))));
    assert_eq!(e.get::<Namespace>("n39"), Some(ns("end")));
}

#[test]
fn queries_in_a_circle_do_not_resolve() {
    let mut e = engine();
    let issues = e.load("namespace a {\n    name: ?b.name\n}\nnamespace b {\n    name: ?a.name\n}\n");
    assert_eq!(issues, vec![]);
    assert_eq!(e.try_get::<Namespace>("a"), Err(()));
    assert!(e.try_resolve("b", "namespace").is_err());
}

#[test]
fn query_of_an_object_that_failed_does_not_resolve() {
    let mut e = engine();
    let issues = e.load("namespace a {\n    name: ?b.name\n}\nnamespace b {\n    nme: \"x\"\n}\n");
    assert_eq!(issues, vec![LoadIssue::UnknownField { line: 4, col: 5 }]);
    assert_eq!(e.try_get::<Namespace>("a"), Err(()));
    assert_eq!(e.try_get::<Namespace>("b"), Ok(None));
}

#[test]
fn unregistered_tag_is_reported() {
    let mut e = engine();
    let issues = e.load("unknown thing {\n    name: \"x\"\n}\n");
    assert_eq!(issues, vec![LoadIssue::Unregistered { line: 0, col: 1, tag: "unknown".to_string() }]);
    assert_eq!(e.get::<Namespace>("thing"), None);
}

#[test]
fn duplicate_name_is_reported_and_the_later_object_replaces() {
    let mut e = engine();
    let issues = e.load("namespace a {\n    name: \"x\"\n}\nnamespace a {\n    name: \"y\"\n}\n");
    assert_eq!(
        issues,
        vec![LoadIssue::DuplicateObject { line: 3, col: 11, name: "a".to_string() }]
    );
    assert_eq!(e.get::<Namespace>("a"), Some(ns("y")));
}

#[test]
fn duplicate_name_is_checked_against_the_first_tag() {
    let mut e = engine();
    let issues = e.load("namespace a {\n    name: \"x\"\n}\ncounter a {\n    name: .upperise \"y\"\n}\n");
    assert_eq!(
        issues,
        vec![LoadIssue::DuplicateObject { line: 3, col: 9, name: "a".to_string() }]
    );
    assert_eq!(e.get::<Namespace>("a"), Some(ns("Y")));
    assert!(e.resolve("a", "counter").is_none());
}

#[test]
fn unknown_field_is_reported() {
    let mut e = engine();
    let issues = e.load("namespace a {\n    nme: \"x\"\n}\n");
    assert_eq!(issues, vec![LoadIssue::UnknownField { line: 1, col: 5 }]);
    assert_eq!(e.get::<Namespace>("a"), None);
}

#[test]
fn string_literal_in_other_type_is_reported() {
    let mut e = engine();
    let issues = e.load("counter c {\n    count: \"5\"\n}\n");
    assert_eq!(issues, vec![LoadIssue::NotAString]);
    assert!(e.resolve("c", "counter").is_none());
}

#[test]
fn unknown_function_is_reported() {
    let mut e = engine();
    let issues = e.load("namespace a {\n    name: .nothing \"x\"\n}\n");
    assert_eq!(
        issues,
        vec![LoadIssue::UnknownFunction { line: 1, col: 11, name: "nothing".to_string() }]
    );
}

#[test]
fn wrong_return_type_is_reported() {
    let mut e = engine();
    let issues = e.load("counter c {\n    count: .upperise \"x\"\n}\n");
    assert_eq!(
        issues,
        vec![LoadIssue::WrongReturnType { line: 1, col: 12, name: "upperise".to_string() }]
    );
}

#[test]
fn wrong_argument_count_is_reported() {
    let mut e = engine();
    let issues = e.load("namespace a {\n    name: .upperise \"x\" \"y\"\n}\n");
    assert_eq!(
        issues,
        vec![LoadIssue::WrongArgCount {
            line: 1,
            col: 11,
            name: "upperise".to_string(),
            expected: 1,
            given: 2,
        }]
    );
}

#[test]
fn wrong_argument_is_reported_after_its_own_problem() {
    let mut e = engine();
    let issues = e.load("counter b {\n}\nnamespace a {\n    name: .upperise ?b.count\n}\n");
    assert_eq!(
        issues,
        vec![
            LoadIssue::IncompleteObject { line: 0, col: 1, name: "b".to_string() },
            LoadIssue::WrongFieldType { line: 3, col: 21, field: "count".to_string() },
            LoadIssue::WrongArgument { line: 3, col: 11, index: 0, name: "upperise".to_string() },
        ]
    );
    assert_eq!(e.get::<Namespace>("a"), None);
    assert!(e.resolve("b", "counter").is_none());
}

#[test]
fn query_with_other_than_two_parts_is_reported() {
    let mut e = engine();
    let issues = e.load("namespace a {\n    name: ?a.b.c\n}\n");
    assert_eq!(issues, vec![LoadIssue::QueryLength { line: 1, col: 11 }]);
}

#[test]
fn query_of_unknown_object_is_reported() {
    let mut e = engine();
    let issues = e.load("namespace a {\n    name: ?zzz.name\n}\n");
    assert_eq!(
        issues,
        vec![LoadIssue::UnknownObject { line: 1, col: 11, name: "zzz".to_string() }]
    );
}

#[test]
fn query_of_undeclared_field_is_reported() {
    let mut e = engine();
    let issues = e.load("namespace b {\n}\nnamespace a {\n    name: ?b.nothing\n}\n");
    assert_eq!(
        issues,
        vec![LoadIssue::IncompleteObject { line: 0, col: 1, name: "b".to_string() }, LoadIssue::MissingField {
            line: 3,
            col: 11,
            tag: "namespace".to_string(),
            field: "nothing".to_string(),
        }]
    );
}

#[test]
fn query_of_field_of_other_type_is_reported() {
    let mut e = engine();
    let issues = e.load("counter b {\n}\nnamespace a {\n    name: ?b.count\n}\n");
    assert_eq!(
        issues,
        vec![
            LoadIssue::IncompleteObject { line: 0, col: 1, name: "b".to_string() },
            LoadIssue::WrongFieldType { line: 3, col: 11, field: "count".to_string() },
        ]
    );
}

#[test]
fn first_pass_problems_come_first() {
    let mut e = engine();
    let issues = e.load("namespace a {\n    nme: \"x\"\n}\nunknown b {\n}\n");
    assert_eq!(
        issues,
        vec![
            LoadIssue::Unregistered { line: 3, col: 1, tag: "unknown".to_string() },
            LoadIssue::UnknownField { line: 1, col: 5 },
        ]
    );
}

#[test]
fn a_later_load_keeps_earlier_objects() {
    let mut e = engine();
    e.load("namespace x {\n    name: \"one\"\n}\n");
    let issues = e.load("namespace y {\n    name: ?x.name\n}\n");
    assert_eq!(issues, vec![LoadIssue::UnknownObject { line: 1, col: 11, name: "x".to_string() }]);
    e.load("namespace z {\n    name: \"two\"\n}\n");
    assert_eq!(e.get::<Namespace>("x"), Some(ns("one")));
    assert_eq!(e.get::<Namespace>("y"), None);
    assert_eq!(e.get::<Namespace>("z"), Some(ns("two")));
}

#[test]
fn a_later_load_replaces_an_object_of_the_same_name() {
    let mut e = engine();
    e.load("namespace x {\n    name: \"one\"\n}\n");
    e.load("namespace x {\n    name: \"two\"\n}\n");
    assert_eq!(e.get::<Namespace>("x"), Some(ns("two")));
}

#[test]
fn object_without_a_declared_field_is_refused() {
    let mut e = engine();
    let issues = e.load("{v1.deployment} d {\n    name: \"n\"\n}\n");
    assert_eq!(issues, vec![LoadIssue::IncompleteObject { line: 0, col: 1, name: "d".to_string() }]);
    assert!(e.resolve("d", "v1.deployment").is_none());
    assert_eq!(e.get::<Deployment>("d"), None);
}

#[test]
fn try_load_refuses_an_identifier_cut_inside_a_character() {
    let mut e = engine();
    e.load("namespace x {\n    name: \"one\"\n}\n");
    assert_eq!(e.try_load("\u{e9}\u{e9} a {\n}\n"), None);
    assert_eq!(e.get::<Namespace>("x"), Some(ns("one")));
    assert_eq!(e.try_load("namespace y {\n    name: \"two\"\n}\n"), Some(vec![]));
    assert_eq!(e.get::<Namespace>("y"), Some(ns("two")));
}

#[test]
fn load_objects_of_parsed_source() {
    let mut e = engine();
    let parsed = skaf::parser::parse(skaf::lex::Lexer::new(SRC));
    let issues = e.load_objects(&parsed);
    assert_eq!(issues, vec![]);
    assert_eq!(e.get::<Namespace>("other-thing"), Some(ns("EDGELINK")));
}

#[test]
fn get_follows_a_query_to_the_other_object() {
    let mut e = Engine::builder().structure::<Namespace>().build();
    let issues = e.load("namespace a {\nname: \"x\"\n}\nnamespace b {\nname: ?a.name\n}");
    assert_eq!(issues, vec![]);
    assert_eq!(e.get::<Namespace>("b").map(|n| n.name), Some("x".to_string()));
    assert_eq!(e.get::<Namespace>("a").map(|n| n.name), Some("x".to_string()));
}

#[test]
fn query_after_registering_a_structure_and_loading() {
    let mut e = Engine::builder().structure::<Namespace>().build();
    e.load("namespace a {\nname: \"x\"\n}");
    let path = vec!["a".to_string(), "name".to_string()];
    assert_eq!(e.query(&path), "x");
}

#[test]
fn call_after_registering_the_function() {
    let e = Engine::builder().function(upperise {}).build();
    let arg = Value { line: 0, col: 0, value: ValueVariant::String("ab".to_string()) };
    let args = vec![e.make_value_string(&arg)];
    assert_eq!(e.call("upperise", &args), "AB");
}

#[test]
fn describe_lists_functions_and_structures_in_registration_order() {
    let e = engine();
    assert_eq!(
        e.describe(),
        "Engine { functions: [\"upperise\"], structures: {\"namespace\": Structure { fields: {\"name\": String} }, \"v1.deployment\": Structure { fields: {\"name\": String, \"namespace\": String} }, \"counter\": Structure { fields: {\"count\": u32} }} }"
    );
    let empty = Engine::builder().build();
    assert_eq!(empty.describe(), "Engine { functions: [], structures: {} }");
}

#[test]
fn describe_with_one_function_and_no_structures() {
    let e = Engine::builder().function(upperise {}).build();
    assert_eq!(e.describe(), "Engine { functions: [\"upperise\"], structures: {} }");
}

#[test]
fn loading_leaves_the_description_unchanged() {
    let mut e = engine();
    let before = e.describe();
    let issues = e.load(SRC);
    assert!(issues.is_empty());
    assert_eq!(e.describe(), before);
}
