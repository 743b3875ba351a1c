use keebgen::{
    ComponentKind, Definition, InlineDefinition, Input, InputKind, RemoteDefinition,
    RemoteDocument, ResolveError, resolve_definitions,
};

fn inline(name: &str, kind: ComponentKind, pins: &[(&str, InputKind)]) -> Definition {
    Definition::Inline(InlineDefinition {
        name: name.to_string(),
        kind,
        inputs: pins
            .iter()
            .map(|(n, k)| Input { name: n.to_string(), kind: *k })
            .collect(),
    })
}

fn remote(name: &str, repository: &str, path: &str, target: Option<&str>) -> Definition {
    Definition::Remote(RemoteDefinition {
        name: name.to_string(),
        repository: repository.to_string(),
        path: path.to_string(),
        target: target.map(|t| t.to_string()),
    })
}

fn document(repository: &str, path: &str, definitions: Vec<Definition>) -> RemoteDocument {
    RemoteDocument { repository: repository.to_string(), path: path.to_string(), definitions }
}

#[test]
fn inline_only_table_is_the_declared_definitions() {
    let defs = vec![
        inline("mcu", ComponentKind::Controller, &[("gnd", InputKind::Ground), ("d0", InputKind::Io)]),
        inline("sw", ComponentKind::Switch, &[("a", InputKind::Io)]),
    ];
    let res = resolve_definitions(&defs, &vec![]).unwrap();
    assert_eq!(res.definitions.len(), 2);
    assert_eq!(res.definitions[0].name, "mcu");
    assert_eq!(res.definitions[0].kind, ComponentKind::Controller);
    assert_eq!(res.definitions[0].inputs.len(), 2);
    assert_eq!(res.definitions[0].inputs[0].name, "gnd");
    assert_eq!(res.definitions[0].inputs[0].kind, InputKind::Ground);
    assert_eq!(res.definitions[0].inputs[1].kind, InputKind::Io);
    assert_eq!(res.definitions[1].name, "sw");
    assert_eq!(res.definitions[1].kind, ComponentKind::Switch);
    assert!(res.fetched.is_empty());
}

#[test]
fn empty_definitions_resolve_to_empty_table() {
    let res = resolve_definitions(&vec![], &vec![]).unwrap();
    assert!(res.definitions.is_empty());
}

#[test]
fn duplicate_local_name_is_an_error() {
    let defs = vec![
        inline("sw", ComponentKind::Switch, &[]),
        inline("sw", ComponentKind::Encoder, &[]),
    ];
    match resolve_definitions(&defs, &vec![]) {
        Err(ResolveError::DuplicateDefinitionName { name }) => assert_eq!(name, "sw"),
        other => panic!("unexpected {:?}", other),
    }
}

#[test]
fn remote_definition_is_taken_under_its_local_name() {
    let store = vec![document(
        "https://example.org/parts",
        "parts.kdl",
        vec![inline("pro-micro", ComponentKind::Controller, &[("d1", InputKind::Io)])],
    )];
    let defs = vec![remote("mcu", "https://example.org/parts", "parts.kdl", Some("pro-micro"))];
    let res = resolve_definitions(&defs, &store).unwrap();
    assert_eq!(res.definitions.len(), 1);
    assert_eq!(res.definitions[0].name, "mcu");
    assert_eq!(res.definitions[0].kind, ComponentKind::Controller);
    assert_eq!(res.definitions[0].inputs[0].name, "d1");
}

#[test]
fn omitted_target_looks_up_the_local_name() {
    let store = vec![document(
        "repo",
        "defs.kdl",
        vec![
            inline("other", ComponentKind::Peripheral, &[]),
            inline("sw", ComponentKind::Switch, &[("row", InputKind::Io)]),
        ],
    )];
    let defs = vec![remote("sw", "repo", "defs.kdl", None)];
    let res = resolve_definitions(&defs, &store).unwrap();
    assert_eq!(res.definitions[0].name, "sw");
    assert_eq!(res.definitions[0].kind, ComponentKind::Switch);
    assert_eq!(res.fetched[0].target, "sw");
}

#[test]
fn same_remote_key_is_fetched_once() {
    let store = vec![document("repo", "defs.kdl", vec![inline("sw", ComponentKind::Switch, &[])])];
    let defs = vec![
        remote("left", "repo", "defs.kdl", Some("sw")),
        remote("right", "repo", "defs.kdl", Some("sw")),
    ];
    let res = resolve_definitions(&defs, &store).unwrap();
    assert_eq!(res.definitions.len(), 2);
    assert_eq!(res.definitions[0].name, "left");
    assert_eq!(res.definitions[1].name, "right");
    assert_eq!(res.fetched.len(), 1);
    assert_eq!(res.fetched[0].repository, "repo");
    assert_eq!(res.fetched[0].path, "defs.kdl");
    assert_eq!(res.fetched[0].target, "sw");
}

#[test]
fn distinct_remote_keys_are_each_fetched() {
    let store = vec![document(
        "repo",
        "defs.kdl",
        vec![inline("sw", ComponentKind::Switch, &[]), inline("enc", ComponentKind::Encoder, &[])],
    )];
    let defs = vec![
        remote("sw", "repo", "defs.kdl", None),
        remote("enc", "repo", "defs.kdl", None),
        remote("sw2", "repo", "defs.kdl", Some("sw")),
    ];
    let res = resolve_definitions(&defs, &store).unwrap();
    assert_eq!(res.fetched.len(), 2);
}

#[test]
fn transitive_remote_definitions_resolve() {
    let store = vec![
        document("a", "one.kdl", vec![remote("sw", "b", "two.kdl", Some("base"))]),
        document("b", "two.kdl", vec![inline("base", ComponentKind::Switch, &[("p", InputKind::Io)])]),
    ];
    let defs = vec![remote("key", "a", "one.kdl", Some("sw"))];
    let res = resolve_definitions(&defs, &store).unwrap();
    assert_eq!(res.definitions[0].name, "key");
    assert_eq!(res.definitions[0].inputs.len(), 1);
}

#[test]
fn remote_chain_back_to_itself_is_cyclic() {
    let store = vec![document("repo", "defs.kdl", vec![remote("a", "repo", "defs.kdl", None)])];
    let defs = vec![remote("a", "repo", "defs.kdl", None)];
    match resolve_definitions(&defs, &store) {
        Err(ResolveError::CyclicRemoteResolution { repository, path, target }) => {
            assert_eq!(repository, "repo");
            assert_eq!(path, "defs.kdl");
            assert_eq!(target, "a");
        }
        other => panic!("unexpected {:?}", other),
    }
}

#[test]
fn two_document_cycle_is_cyclic() {
    let store = vec![
        document("x", "1.kdl", vec![remote("a", "y", "2.kdl", Some("b"))]),
        document("y", "2.kdl", vec![remote("b", "x", "1.kdl", Some("a"))]),
    ];
    let defs = vec![remote("a", "x", "1.kdl", None)];
    assert!(matches!(
        resolve_definitions(&defs, &store),
        Err(ResolveError::CyclicRemoteResolution { .. })
    ));
}

#[test]
fn missing_document_is_a_fetch_error() {
    let defs = vec![remote("sw", "repo", "missing.kdl", None)];
    match resolve_definitions(&defs, &vec![]) {
        Err(ResolveError::RemoteFetchError { repository, path }) => {
            assert_eq!(repository, "repo");
            assert_eq!(path, "missing.kdl");
        }
        other => panic!("unexpected {:?}", other),
    }
}

#[test]
fn missing_target_is_reported() {
    let store = vec![document("repo", "defs.kdl", vec![inline("sw", ComponentKind::Switch, &[])])];
    let defs = vec![remote("enc", "repo", "defs.kdl", None)];
    match resolve_definitions(&defs, &store) {
        Err(ResolveError::RemoteTargetNotFound { target, .. }) => assert_eq!(target, "enc"),
        other => panic!("unexpected {:?}", other),
    }
}

#[test]
fn remote_name_clashing_with_inline_is_duplicate() {
    let store = vec![document("repo", "defs.kdl", vec![inline("sw", ComponentKind::Switch, &[])])];
    let defs = vec![inline("sw", ComponentKind::Switch, &[]), remote("sw", "repo", "defs.kdl", None)];
    assert!(matches!(
        resolve_definitions(&defs, &store),
        Err(ResolveError::DuplicateDefinitionName { .. })
    ));
}

#[test]
fn failure_in_an_unrelated_remote_definition_fails_the_lookup() {
    let store = vec![document(
        "repo",
        "defs.kdl",
        vec![inline("sw", ComponentKind::Switch, &[]), remote("gone", "nowhere", "x.kdl", None)],
    )];
    let defs = vec![remote("sw", "repo", "defs.kdl", None)];
    assert!(matches!(
        resolve_definitions(&defs, &store),
        Err(ResolveError::RemoteFetchError { .. })
    ));
}

#[test]
fn chain_through_two_documents_back_to_the_start_is_cyclic() {
    let store = vec![
        document("r2", "p2", vec![remote("B", "r", "p", Some("A"))]),
        document("r", "p", vec![remote("A", "r2", "p2", Some("B"))]),
    ];
    let defs = vec![remote("A", "r2", "p2", Some("B"))];
    match resolve_definitions(&defs, &store) {
        Err(ResolveError::CyclicRemoteResolution { repository, path, target }) => {
            assert_eq!(repository, "r2");
            assert_eq!(path, "p2");
            assert_eq!(target, "B");
        }
        other => panic!("unexpected {:?}", other),
    }
}
