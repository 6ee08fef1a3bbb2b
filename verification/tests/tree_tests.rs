use treeerror::chain::convert;
use treeerror::tree::{compile_tree, Modifier, Node, TreeError, TypeDecl, VariantPayload};
use treeerror::value::Value;

fn s(x: &str) -> String {
    x.to_string()
}

fn leaf(name: &str, modifier: Modifier) -> Node {
    Node { name: s(name), modifier, children: vec![], annotations: vec![] }
}

fn branch(name: &str, children: Vec<Node>) -> Node {
    Node { name: s(name), modifier: Modifier::Plain, children, annotations: vec![] }
}

fn marker(name: &str) -> Value {
    Value::Marker { ty: s(name) }
}

fn variant_value(ty: &str, variant: &str, fields: Vec<Value>) -> Value {
    Value::Sum { ty: s(ty), variant: s(variant), fields }
}

/// A schema with every kind of entry: unit, flat, nested, and
/// foreign-wrapping children under one branch.
fn hello_schema() -> Vec<Node> {
    vec![branch(
        "Hello",
        vec![
            leaf("World", Modifier::Unit),
            leaf("FlatWorld", Modifier::FlatUnit),
            branch(
                "OtherWorld",
                vec![
                    leaf("W0", Modifier::Unit),
                    leaf("W1", Modifier::Unit),
                    leaf("W2", Modifier::Unit),
                    leaf("W3", Modifier::FlatUnit),
                ],
            ),
            leaf("Terminal", Modifier::Foreign(s("String"))),
            leaf("LifetimeTerminal", Modifier::Foreign(s("&'static str"))),
            branch("Test", vec![leaf("A", Modifier::FlatUnit)]),
        ],
    )]
}

#[test]
fn test_class_derivations() {
    let out = compile_tree(&hello_schema()).unwrap();
    let names: Vec<String> = out
        .decls
        .iter()
        .map(|d| match d {
            TypeDecl::Sum { name, .. } => name.clone(),
            TypeDecl::Marker { name, .. } => name.clone(),
        })
        .collect();
    assert_eq!(
        names,
        vec![s("Hello"), s("World"), s("OtherWorld"), s("W0"), s("W1"), s("W2"), s("Test")]
    );

    assert_eq!(variant_value("Hello", "FlatWorld", vec![]).render(), "FlatWorld");
    assert_eq!(
        variant_value("Hello", "World", vec![marker("World")]).render(),
        "World(World)"
    );
    assert_eq!(
        variant_value(
            "Hello",
            "OtherWorld",
            vec![variant_value("OtherWorld", "W0", vec![marker("W0")])]
        )
        .render(),
        "OtherWorld(W0(W0))"
    );
    assert_eq!(
        variant_value(
            "Hello",
            "OtherWorld",
            vec![variant_value("OtherWorld", "W1", vec![marker("W1")])]
        )
        .render(),
        "OtherWorld(W1(W1))"
    );
    assert_eq!(
        variant_value(
            "Hello",
            "OtherWorld",
            vec![variant_value("OtherWorld", "W2", vec![marker("W2")])]
        )
        .render(),
        "OtherWorld(W2(W2))"
    );
    assert_eq!(
        variant_value("Hello", "OtherWorld", vec![variant_value("OtherWorld", "W3", vec![])])
            .render(),
        "OtherWorld(W3)"
    );
    assert_eq!(
        variant_value(
            "Hello",
            "Terminal",
            vec![Value::Text { ty: s("String"), text: s("hi") }]
        )
        .render(),
        "Terminal(\"hi\")"
    );
    assert_eq!(
        variant_value(
            "Hello",
            "LifetimeTerminal",
            vec![Value::Text { ty: s("&'static str"), text: s("hi") }]
        )
        .render(),
        "LifetimeTerminal(\"hi\")"
    );
}

#[test]
fn test_from_derivations() {
    let out = compile_tree(&hello_schema()).unwrap();
    let reg = &out.registry;

    assert_eq!(variant_value("Hello", "FlatWorld", vec![]).render(), "FlatWorld");
    assert_eq!(
        convert(reg, marker("World"), &s("Hello")).unwrap().render(),
        "World(World)"
    );
    assert_eq!(
        convert(reg, marker("W0"), &s("OtherWorld")).unwrap().render(),
        "W0(W0)"
    );
    assert_eq!(
        convert(reg, marker("W0"), &s("Hello")).unwrap().render(),
        "OtherWorld(W0(W0))"
    );
    assert_eq!(
        convert(reg, marker("W1"), &s("OtherWorld")).unwrap().render(),
        "W1(W1)"
    );
    assert_eq!(
        convert(reg, marker("W1"), &s("Hello")).unwrap().render(),
        "OtherWorld(W1(W1))"
    );
    assert_eq!(
        convert(reg, marker("W2"), &s("OtherWorld")).unwrap().render(),
        "W2(W2)"
    );
    assert_eq!(
        convert(reg, variant_value("OtherWorld", "W3", vec![]), &s("Hello"))
            .unwrap()
            .render(),
        "OtherWorld(W3)"
    );
    assert_eq!(
        convert(reg, Value::Text { ty: s("String"), text: s("hi") }, &s("Hello"))
            .unwrap()
            .render(),
        "Terminal(\"hi\")"
    );
    assert_eq!(
        convert(reg, Value::Text { ty: s("&'static str"), text: s("hi") }, &s("Hello"))
            .unwrap()
            .render(),
        "LifetimeTerminal(\"hi\")"
    );
}

/// The concrete scenario: declared types, the conversion closure, and
/// the shape of converted values.
#[test]
fn small_schema_scenario() {
    let schema = vec![branch(
        "Hello",
        vec![
            leaf("World", Modifier::Unit),
            leaf("FlatWorld", Modifier::FlatUnit),
            branch("OtherWorld", vec![leaf("W0", Modifier::Unit), leaf("W1", Modifier::Unit)]),
        ],
    )];
    let out = compile_tree(&schema).unwrap();

    let names: Vec<String> = out
        .decls
        .iter()
        .map(|d| match d {
            TypeDecl::Sum { name, .. } => name.clone(),
            TypeDecl::Marker { name, .. } => name.clone(),
        })
        .collect();
    assert_eq!(names, vec![s("Hello"), s("World"), s("OtherWorld"), s("W0"), s("W1")]);
    assert!(!names.contains(&s("FlatWorld")));

    let pairs: Vec<(String, String)> = out
        .registry
        .conversions
        .iter()
        .map(|c| (c.from.clone(), c.to.clone()))
        .collect();
    assert_eq!(
        pairs,
        vec![
            (s("World"), s("Hello")),
            (s("OtherWorld"), s("Hello")),
            (s("W0"), s("OtherWorld")),
            (s("W0"), s("Hello")),
            (s("W1"), s("OtherWorld")),
            (s("W1"), s("Hello")),
        ]
    );

    let world_up = convert(&out.registry, marker("World"), &s("Hello")).unwrap();
    assert_eq!(world_up, variant_value("Hello", "World", vec![marker("World")]));

    let w0_up = convert(&out.registry, marker("W0"), &s("Hello")).unwrap();
    assert_eq!(
        w0_up,
        variant_value(
            "Hello",
            "OtherWorld",
            vec![variant_value("OtherWorld", "W0", vec![marker("W0")])]
        )
    );
}

/// The flat variant of the parent's declaration carries no payload.
#[test]
fn flat_leaf_variant_is_payload_free() {
    let schema = vec![branch(
        "Hello",
        vec![leaf("World", Modifier::Unit), leaf("FlatWorld", Modifier::FlatUnit)],
    )];
    let out = compile_tree(&schema).unwrap();
    match &out.decls[0] {
        TypeDecl::Sum { variants, .. } => {
            assert_eq!(variants[1].name, s("FlatWorld"));
            assert_eq!(variants[1].payload, VariantPayload::Empty);
        },
        TypeDecl::Marker { .. } => panic!("the first declaration is the branch"),
    }
}

/// A node with both children and a foreign payload is a schema error.
#[test]
fn mixed_node_is_fatal() {
    let schema = vec![Node {
        name: s("Bad"),
        modifier: Modifier::Foreign(s("String")),
        children: vec![leaf("Child", Modifier::Unit)],
        annotations: vec![],
    }];
    let err = compile_tree(&schema).unwrap_err();
    assert_eq!(err, TreeError::MixedNode { name: s("Bad") });
}

/// Two siblings with one name are a schema error.
#[test]
fn sibling_clash_is_fatal() {
    let schema = vec![branch(
        "Top",
        vec![leaf("Twin", Modifier::Unit), leaf("Twin", Modifier::Unit)],
    )];
    let err = compile_tree(&schema).unwrap_err();
    assert_eq!(err, TreeError::DuplicateName { name: s("Twin") });
}

/// Two declared types with one name anywhere in the schema are a schema
/// error.
#[test]
fn global_name_clash_is_fatal() {
    let schema = vec![
        branch("TopA", vec![leaf("Shared", Modifier::Unit)]),
        branch("TopB", vec![leaf("Shared", Modifier::Unit)]),
    ];
    let err = compile_tree(&schema).unwrap_err();
    assert_eq!(err, TreeError::DuplicateName { name: s("Shared") });
}

/// Two leaves wrapping one pre-existing type under one parent would
/// register the same conversion pair twice.
#[test]
fn duplicate_conversion_is_fatal() {
    let schema = vec![branch(
        "Top",
        vec![
            leaf("First", Modifier::Foreign(s("String"))),
            leaf("Second", Modifier::Foreign(s("String"))),
        ],
    )];
    let err = compile_tree(&schema).unwrap_err();
    assert_eq!(err, TreeError::DuplicateConversion { from: s("String"), to: s("Top") });
}

/// An unrecognised modifier degrades the node to a unit leaf and is
/// reported as a warning, not an error.
#[test]
fn unknown_modifier_degrades_with_warning() {
    let schema = vec![branch(
        "Top",
        vec![leaf("Odd", Modifier::Unknown(s("sideways"))), leaf("Plain", Modifier::Unit)],
    )];
    let out = compile_tree(&schema).unwrap();
    assert_eq!(out.warnings, vec![s("Odd")]);
    let names: Vec<String> = out
        .decls
        .iter()
        .map(|d| match d {
            TypeDecl::Sum { name, .. } => name.clone(),
            TypeDecl::Marker { name, .. } => name.clone(),
        })
        .collect();
    assert_eq!(names, vec![s("Top"), s("Odd"), s("Plain")]);
}

/// An empty schema compiles to nothing at all.
#[test]
fn empty_schema_compiles_to_nothing() {
    let out = compile_tree(&vec![]).unwrap();
    assert!(out.decls.is_empty());
    assert!(out.registry.conversions.is_empty());
    assert!(out.warnings.is_empty());
}
