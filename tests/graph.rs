use keebgen::{
    BuildError, CompileError, Component, ComponentKind, Definition, Definitions, InlineDefinition,
    Input, InputKind, Keyboard, KeyboardSpec, Location, Output, ShapeError, Violation, build_graph, compile,
    split_document, validate,
};

fn definition(name: &str, kind: ComponentKind, pins: &[InputKind]) -> InlineDefinition {
    InlineDefinition {
        name: name.to_string(),
        kind,
        inputs: pins
            .iter()
            .enumerate()
            .map(|(i, k)| Input { name: format!("p{}", i), kind: *k })
            .collect(),
    }
}

fn table() -> Vec<InlineDefinition> {
    vec![
        definition("mcu", ComponentKind::Controller, &[InputKind::Ground, InputKind::Io]),
        definition("sw", ComponentKind::Switch, &[InputKind::Io]),
        definition("gnd", ComponentKind::Peripheral, &[InputKind::Ground]),
    ]
}

fn component(definition: &str, rotation: Option<u64>, outputs: &[(u64, u64)]) -> Component {
    Component {
        definition: definition.to_string(),
        rotation,
        location: Location { x: 1, y: 2 },
        outputs: outputs.iter().map(|(t, i)| Output { target: *t, input: *i }).collect(),
    }
}

fn keyboard(components: Vec<Component>) -> Keyboard {
    Keyboard {
        name: "board".to_string(),
        designer: Some("someone".to_string()),
        designed: None,
        components,
    }
}

fn inline_defs() -> Vec<Definition> {
    table().into_iter().map(Definition::Inline).collect()
}

#[test]
fn single_wire_to_io_pin_is_valid() {
    let comps = vec![component("mcu", None, &[(1, 0)]), component("sw", None, &[])];
    let g = build_graph(table(), &comps).unwrap();
    assert_eq!(g.nodes.len(), 2);
    assert_eq!(g.nodes[0].definition, 0);
    assert_eq!(g.nodes[1].definition, 1);
    assert_eq!(g.nodes[0].rotation, 0);
    assert_eq!(g.nodes[0].location, Location { x: 1, y: 2 });
    assert_eq!(g.nodes[0].outputs, vec![Output { target: 1, input: 0 }]);
    assert!(validate(&g).is_empty());
}

#[test]
fn second_wire_to_io_pin_is_duplicate_wiring() {
    let comps = vec![
        component("mcu", None, &[(1, 0)]),
        component("sw", None, &[]),
        component("mcu", None, &[(1, 0)]),
    ];
    let g = build_graph(table(), &comps).unwrap();
    assert_eq!(validate(&g), vec![Violation::DuplicateIoWiring { component: 2, output: 0 }]);
}

#[test]
fn ground_pin_accepts_many_wires() {
    let comps = vec![
        component("gnd", None, &[]),
        component("sw", None, &[(0, 0)]),
        component("sw", None, &[(0, 0)]),
        component("mcu", None, &[(0, 0), (3, 0)]),
    ];
    let g = build_graph(table(), &comps).unwrap();
    assert!(validate(&g).is_empty());
}

#[test]
fn rotation_of_45_is_invalid() {
    let comps = vec![component("sw", Some(45), &[])];
    let g = build_graph(table(), &comps).unwrap();
    assert_eq!(validate(&g), vec![Violation::InvalidRotation { component: 0 }]);
}

#[test]
fn rotation_of_180_is_valid() {
    let comps = vec![component("sw", Some(180), &[])];
    let g = build_graph(table(), &comps).unwrap();
    assert_eq!(g.nodes[0].rotation, 180);
    assert!(validate(&g).is_empty());
}

#[test]
fn quarter_turns_are_valid_rotations() {
    for r in [0u64, 90, 270] {
        let comps = vec![component("sw", Some(r), &[])];
        let g = build_graph(table(), &comps).unwrap();
        assert!(validate(&g).is_empty());
    }
    let comps = vec![component("sw", Some(360), &[])];
    let g = build_graph(table(), &comps).unwrap();
    assert_eq!(validate(&g).len(), 1);
}

#[test]
fn wire_to_missing_component_is_out_of_range() {
    let comps = vec![component("mcu", None, &[(1, 0), (5, 0)]), component("sw", None, &[])];
    let g = build_graph(table(), &comps).unwrap();
    assert_eq!(validate(&g), vec![Violation::IndexOutOfRange { component: 0, output: 1 }]);
}

#[test]
fn wire_to_missing_pin_is_out_of_range() {
    let comps = vec![component("mcu", None, &[(1, 1)]), component("sw", None, &[])];
    let g = build_graph(table(), &comps).unwrap();
    assert_eq!(validate(&g), vec![Violation::IndexOutOfRange { component: 0, output: 0 }]);
}

#[test]
fn all_defects_are_reported_together() {
    let comps = vec![
        component("mcu", Some(10), &[(1, 0), (9, 9)]),
        component("sw", None, &[]),
        component("mcu", None, &[(1, 0)]),
    ];
    let g = build_graph(table(), &comps).unwrap();
    let vs = validate(&g);
    assert_eq!(vs.len(), 3);
    assert!(vs.contains(&Violation::InvalidRotation { component: 0 }));
    assert!(vs.contains(&Violation::IndexOutOfRange { component: 0, output: 1 }));
    assert!(vs.contains(&Violation::DuplicateIoWiring { component: 2, output: 0 }));
}

#[test]
fn unknown_definition_names_the_component() {
    let comps = vec![component("sw", None, &[]), component("led", None, &[])];
    match build_graph(table(), &comps) {
        Err(BuildError::UnknownDefinition { component }) => assert_eq!(component, 1),
        other => panic!("unexpected {:?}", other),
    }
}

#[test]
fn compile_produces_the_checked_graph() {
    let kb = keyboard(vec![component("mcu", Some(90), &[(1, 0)]), component("sw", None, &[])]);
    let out = compile(&kb, &inline_defs(), &vec![]).unwrap();
    assert_eq!(out.name, "board");
    assert_eq!(out.designer, Some("someone".to_string()));
    assert_eq!(out.designed, None);
    assert_eq!(out.graph.nodes.len(), 2);
    assert_eq!(out.graph.definitions.len(), 3);
    assert_eq!(out.graph.nodes[0].rotation, 90);
}

#[test]
fn compile_reports_defects() {
    let kb = keyboard(vec![component("sw", Some(45), &[])]);
    match compile(&kb, &inline_defs(), &vec![]) {
        Err(CompileError::Invalid(vs)) => {
            assert_eq!(vs, vec![Violation::InvalidRotation { component: 0 }])
        }
        other => panic!("unexpected {:?}", other),
    }
}

#[test]
fn compile_reports_unknown_definitions() {
    let kb = keyboard(vec![component("led", None, &[])]);
    assert!(matches!(
        compile(&kb, &inline_defs(), &vec![]),
        Err(CompileError::Build(BuildError::UnknownDefinition { component: 0 }))
    ));
}

#[test]
fn split_document_separates_keyboards_and_definitions() {
    let doc = vec![
        KeyboardSpec::Definition(Definitions {
            definitions: vec![Definition::Inline(definition("sw", ComponentKind::Switch, &[]))],
        }),
        KeyboardSpec::Keyboard(keyboard(vec![])),
        KeyboardSpec::Definition(Definitions {
            definitions: vec![
                Definition::Inline(definition("mcu", ComponentKind::Controller, &[])),
                Definition::Inline(definition("enc", ComponentKind::Encoder, &[])),
            ],
        }),
    ];
    let (kbs, defs) = split_document(doc);
    assert_eq!(kbs.len(), 1);
    assert_eq!(kbs[0].name, "board");
    assert_eq!(defs.len(), 3);
    match &defs[2] {
        Definition::Inline(d) => assert_eq!(d.name, "enc"),
        Definition::Remote(_) => panic!("expected an inline definition"),
    }
}

#[test]
fn component_kind_defaults_to_switch() {
    assert_eq!(ComponentKind::default(), ComponentKind::Switch);
}

#[test]
fn output_pair_form_is_read_positionally() {
    let o = Output::from_shapes(&vec![3, 1], None, None).unwrap();
    assert_eq!(o, Output { target: 3, input: 1 });
    let o = Output::from_shapes(&vec![3, 1], Some(7), Some(8)).unwrap();
    assert_eq!(o, Output { target: 3, input: 1 });
}

#[test]
fn output_keyed_form_is_read_by_name() {
    let o = Output::from_shapes(&vec![], Some(2), Some(0)).unwrap();
    assert_eq!(o, Output { target: 2, input: 0 });
}

#[test]
fn output_of_neither_shape_is_malformed() {
    assert_eq!(Output::from_shapes(&vec![1], None, None), Err(ShapeError::Malformed));
    assert_eq!(Output::from_shapes(&vec![], Some(1), None), Err(ShapeError::Malformed));
    assert_eq!(Output::from_shapes(&vec![1, 2, 3], None, None), Err(ShapeError::Malformed));
}

#[test]
fn compile_accepts_rotation_of_180() {
    let kb = keyboard(vec![component("sw", Some(180), &[])]);
    let out = compile(&kb, &inline_defs(), &vec![]).unwrap();
    assert_eq!(out.graph.nodes[0].rotation, 180);
}
