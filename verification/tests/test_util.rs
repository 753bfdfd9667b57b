use praxis_policy::test_util::{
    compile_test_policy, compile_test_route, CompiledRoute, ParseError, PluginDeclaration,
    PluginRegistry, TestDocument, TestPolicy,
};

fn yaml(text: &str) -> serde_yaml::Value {
    serde_yaml::from_str(text).expect("test YAML parses")
}

fn decl(name: &str, kind: &str) -> PluginDeclaration {
    PluginDeclaration {
        name: name.to_string(),
        spec: yaml(&format!("kind: {kind}")),
    }
}

fn kind_of(d: &PluginDeclaration) -> Option<&str> {
    d.spec.get("kind").and_then(|k| k.as_str())
}

fn document() -> TestDocument {
    TestDocument {
        plugins: vec![
            decl("pii-guard", "builtin/deny"),
            decl("audit", "builtin/log"),
            decl("pii-guard", "builtin/allow"),
        ],
        route: Some(yaml("authorization:\n  pre_invocation:\n    - \"require(authenticated)\"\n")),
    }
}

#[test]
fn a_document_compiles_to_its_route_and_registry() {
    let p = compile_test_policy("get_weather", Ok(document())).expect("compiles");
    assert_eq!(p.route.source, "get_weather");
    assert_eq!(p.route.block, Some(yaml("authorization:\n  pre_invocation:\n    - \"require(authenticated)\"\n")));
    assert_eq!(kind_of(p.plugins.get("audit").unwrap()), Some("builtin/log"));
    assert!(p.plugins.get("missing").is_none());
}

#[test]
fn a_duplicate_plugin_name_is_last_one_wins() {
    let p = compile_test_policy("r", Ok(document())).expect("compiles");
    assert_eq!(kind_of(p.plugins.get("pii-guard").unwrap()), Some("builtin/allow"));
}

#[test]
fn a_document_without_a_route_gives_an_empty_route() {
    let doc = TestDocument { plugins: vec![decl("a", "x")], route: None };
    let route = compile_test_route("only_plugins", Ok(doc)).expect("compiles");
    assert_eq!(route.source, "only_plugins");
    assert!(route.block.is_none());
}

#[test]
fn the_route_does_not_depend_on_the_plugins() {
    let with = compile_test_route("r", Ok(document())).unwrap();
    let mut doc = document();
    doc.plugins = Vec::new();
    let without = compile_test_route("r", Ok(doc)).unwrap();
    assert_eq!(with.block, without.block);
    assert_eq!(with.source, without.source);
}

#[test]
fn a_document_that_did_not_read_keeps_its_error() {
    let err = || Err(ParseError::Yaml("unknown field `routes`".to_string()));
    match compile_test_policy("x", err()) {
        Err(ParseError::Yaml(m)) => assert_eq!(m, "unknown field `routes`"),
        Ok(_) => panic!("expected the reader's error"),
    }
    match compile_test_route("x", err()) {
        Err(ParseError::Yaml(m)) => assert_eq!(m, "unknown field `routes`"),
        Ok(_) => panic!("expected the reader's error"),
    }
}

#[test]
fn an_empty_registry_finds_nothing_and_inserts_replace() {
    let p = TestPolicy::default();
    assert!(p.plugins.get("a").is_none());
    assert_eq!(p.route.source, "");
    assert!(CompiledRoute::new("s").block.is_none());
    let mut r = PluginRegistry::with_capacity(2);
    r.insert("a".to_string(), decl("a", "one"));
    r.insert("b".to_string(), decl("b", "two"));
    r.insert("a".to_string(), decl("a", "three"));
    assert_eq!(kind_of(r.get("a").unwrap()), Some("three"));
    assert_eq!(kind_of(r.get("b").unwrap()), Some("two"));
    assert!(PluginRegistry::new().get("a").is_none());
}
