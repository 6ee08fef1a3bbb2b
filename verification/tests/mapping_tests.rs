use treeerror::mapping::{
    apply_mapping, coerce, compile_mapping, construct, destructure, CatchAll, EnumDecl,
    MapApplyError, MapError, MapOutcome, MapRule, VariantSig,
};
use treeerror::tree::{compile_tree, Modifier, Node};
use treeerror::simple::Registry;
use treeerror::value::Value;

fn s(x: &str) -> String {
    x.to_string()
}

fn int_val(ty: &str, value: i128) -> Value {
    Value::Int { ty: s(ty), value }
}

fn variant_value(ty: &str, variant: &str, fields: Vec<Value>) -> Value {
    Value::Sum { ty: s(ty), variant: s(variant), fields }
}

fn plain_rule(source: &str) -> MapRule {
    MapRule {
        source: s(source),
        renamed: None,
        unit: false,
        flatten: false,
        convert: false,
        fields: vec![],
        body: None,
    }
}

fn renamed_rule(source: &str, dest: &str) -> MapRule {
    MapRule { renamed: Some(s(dest)), ..plain_rule(source) }
}

fn unit_rule(source: &str) -> MapRule {
    MapRule { unit: true, ..plain_rule(source) }
}

#[test]
fn test_expr_unit() {
    let reg = Registry::new();
    let a = construct(&reg, &s("Submap"), &s("Unit"), vec![], false, &vec![]).unwrap();
    assert_eq!(a, variant_value("Submap", "Unit", vec![]), "escaped identifier to be used");
}

#[test]
fn test_expr_single() {
    let reg = Registry::new();
    let sample = int_val("u64", 0);
    let a = construct(&reg, &s("Submap"), &s("U"), vec![sample], false, &vec![s("u64")]).unwrap();
    assert_eq!(
        a,
        variant_value("Submap", "U", vec![int_val("u64", 0)]),
        "escaped identifier to be used"
    );
}

#[test]
fn test_expr_multi() {
    let reg = Registry::new();
    let a = int_val("i32", 0);
    let b = int_val("u64", 2);
    let a1 = construct(
        &reg,
        &s("Submap"),
        &s("M"),
        vec![a, b],
        false,
        &vec![s("i32"), s("u64")],
    )
    .unwrap();
    assert_eq!(
        a1,
        variant_value("Submap", "M", vec![int_val("i32", 0), int_val("u64", 2)]),
        "escaped identifier to be used"
    );
}

#[test]
fn test_expr_single_convert() {
    let reg = Registry::new();
    let sample = int_val("u32", 0);
    let a = construct(&reg, &s("Submap"), &s("U"), vec![sample], true, &vec![s("u64")]).unwrap();
    assert_eq!(
        a,
        variant_value("Submap", "U", vec![int_val("u64", 0)]),
        "escaped identifier to be used"
    );
}

#[test]
fn test_expr_multi_convert() {
    let reg = Registry::new();
    let a = int_val("i16", 0);
    let b = int_val("u32", 2);
    let a1 = construct(
        &reg,
        &s("Submap"),
        &s("M"),
        vec![a, b],
        true,
        &vec![s("i32"), s("u64")],
    )
    .unwrap();
    assert_eq!(
        a1,
        variant_value("Submap", "M", vec![int_val("i32", 0), int_val("u64", 2)]),
        "escaped identifier to be used"
    );
}

#[test]
fn test_pattern_unit() {
    let v = variant_value("Submap", "Unit", vec![]);
    match destructure(v, &s("Submap"), &s("Unit"), true) {
        Ok(_) => {},
        Err(_) => {
            panic!("`s` should get matched in the previous line.");
        },
    }
}

#[test]
fn test_pattern_single() {
    let v = variant_value("Submap", "I", vec![int_val("i32", 0)]);
    match destructure(v, &s("Submap"), &s("I"), false) {
        Ok(fields) => {
            assert_eq!(fields[0], int_val("i32", 0), "Macro to properly extract the value");
        },
        Err(_) => {
            panic!("`s` should get matched in the previous line.");
        },
    }
}

#[test]
fn test_pattern_multi() {
    let v = variant_value("Submap", "M", vec![int_val("i32", 0), int_val("u64", 1)]);
    match destructure(v, &s("Submap"), &s("M"), false) {
        Ok(fields) => {
            assert_eq!(fields[0], int_val("i32", 0), "Macro to properly extract the value");
            assert_eq!(fields[1], int_val("u64", 1), "Macro to properly extract the value");
            return;
        },
        Err(_) => {},
    }
    panic!("`s` should get matched in the previous line.");
}

/// The concrete mapping scenario: renamed plain rules plus one unit
/// rule; the payload travels unchanged and the bare variant maps to the
/// bare variant.
#[test]
fn small_mapping_scenario() {
    let source = EnumDecl {
        name: s("Source"),
        variants: vec![
            VariantSig { name: s("I"), field_types: vec![s("i32")] },
            VariantSig { name: s("U"), field_types: vec![s("u64")] },
            VariantSig { name: s("Unit"), field_types: vec![] },
        ],
    };
    let dest = EnumDecl {
        name: s("Dest"),
        variants: vec![
            VariantSig { name: s("Ib"), field_types: vec![s("i32")] },
            VariantSig { name: s("Ub"), field_types: vec![s("u64")] },
            VariantSig { name: s("Unit"), field_types: vec![] },
        ],
    };
    let rules = vec![renamed_rule("I", "Ib"), renamed_rule("U", "Ub"), unit_rule("Unit")];
    let m = compile_mapping(source, dest, rules, None).unwrap();
    let reg = Registry::new();

    let mapped = apply_mapping(&m, &reg, variant_value("Source", "I", vec![int_val("i32", 5)]))
        .unwrap();
    assert_eq!(mapped, MapOutcome::Made(variant_value("Dest", "Ib", vec![int_val("i32", 5)])));

    let mapped = apply_mapping(&m, &reg, variant_value("Source", "Unit", vec![])).unwrap();
    assert_eq!(mapped, MapOutcome::Made(variant_value("Dest", "Unit", vec![])));
}

/// An unmatched variant routes through the catch-all with the original
/// value accessible.
#[test]
fn catch_all_receives_original() {
    let source = EnumDecl {
        name: s("Source"),
        variants: vec![
            VariantSig { name: s("I"), field_types: vec![s("i32")] },
            VariantSig { name: s("Odd"), field_types: vec![s("u64")] },
        ],
    };
    let dest = EnumDecl {
        name: s("Dest"),
        variants: vec![VariantSig { name: s("I"), field_types: vec![s("i32")] }],
    };
    let rules = vec![plain_rule("I")];
    let catch = CatchAll { binder: Some(s("e")), body: s("panic_on(e)") };
    let m = compile_mapping(source, dest, rules, Some(catch)).unwrap();
    let reg = Registry::new();

    let odd = variant_value("Source", "Odd", vec![int_val("u64", 9)]);
    let mapped = apply_mapping(&m, &reg, odd).unwrap();
    assert_eq!(
        mapped,
        MapOutcome::Fallback {
            body: s("panic_on(e)"),
            original: variant_value("Source", "Odd", vec![int_val("u64", 9)]),
        }
    );
}

/// A rule with a custom body hands the bound fields to that body.
#[test]
fn custom_body_receives_fields() {
    let source = EnumDecl {
        name: s("Source"),
        variants: vec![VariantSig { name: s("Pair"), field_types: vec![s("i32"), s("u64")] }],
    };
    let dest = EnumDecl { name: s("Dest"), variants: vec![] };
    let rule = MapRule {
        fields: vec![s("a"), s("b")],
        body: Some(s("combine(a, b)")),
        ..plain_rule("Pair")
    };
    let m = compile_mapping(source, dest, vec![rule], None).unwrap();
    let reg = Registry::new();

    let v = variant_value("Source", "Pair", vec![int_val("i32", 1), int_val("u64", 2)]);
    let mapped = apply_mapping(&m, &reg, v).unwrap();
    assert_eq!(
        mapped,
        MapOutcome::Custom {
            body: s("combine(a, b)"),
            args: vec![int_val("i32", 1), int_val("u64", 2)],
        }
    );
}

/// A `flatten` rule passes the payload through unwrapped.
#[test]
fn flatten_passes_payload_through() {
    let source = EnumDecl {
        name: s("Wrapper"),
        variants: vec![VariantSig { name: s("Inner"), field_types: vec![s("Dest")] }],
    };
    let dest = EnumDecl {
        name: s("Dest"),
        variants: vec![VariantSig { name: s("Leaf"), field_types: vec![] }],
    };
    let rule = MapRule { flatten: true, ..plain_rule("Inner") };
    let m = compile_mapping(source, dest, vec![rule], None).unwrap();
    let reg = Registry::new();

    let payload = variant_value("Dest", "Leaf", vec![]);
    let v = variant_value("Wrapper", "Inner", vec![payload]);
    let mapped = apply_mapping(&m, &reg, v).unwrap();
    assert_eq!(mapped, MapOutcome::Made(variant_value("Dest", "Leaf", vec![])));
}

/// A source variant with no rule and no catch-all refuses the mapping at
/// build time.
#[test]
fn non_exhaustive_mapping_is_fatal() {
    let source = EnumDecl {
        name: s("Source"),
        variants: vec![
            VariantSig { name: s("I"), field_types: vec![s("i32")] },
            VariantSig { name: s("Forgotten"), field_types: vec![s("u64")] },
        ],
    };
    let dest = EnumDecl {
        name: s("Dest"),
        variants: vec![VariantSig { name: s("I"), field_types: vec![s("i32")] }],
    };
    let err = compile_mapping(source, dest, vec![plain_rule("I")], None).unwrap_err();
    assert_eq!(err, MapError::NonExhaustive { name: s("Forgotten") });
}

/// Two rules for one source variant are refused.
#[test]
fn duplicate_rule_is_fatal() {
    let source = EnumDecl {
        name: s("Source"),
        variants: vec![VariantSig { name: s("I"), field_types: vec![s("i32")] }],
    };
    let dest = EnumDecl {
        name: s("Dest"),
        variants: vec![VariantSig { name: s("I"), field_types: vec![s("i32")] }],
    };
    let err =
        compile_mapping(source, dest, vec![plain_rule("I"), plain_rule("I")], None).unwrap_err();
    assert_eq!(err, MapError::DuplicateRule { name: s("I") });
}

/// A rule for a variant the source enum does not declare is refused.
#[test]
fn unknown_source_variant_is_fatal() {
    let source = EnumDecl { name: s("Source"), variants: vec![] };
    let dest = EnumDecl { name: s("Dest"), variants: vec![] };
    let err = compile_mapping(source, dest, vec![plain_rule("Ghostly")], None).unwrap_err();
    assert_eq!(err, MapError::UnknownSourceVariant { name: s("Ghostly") });
}

/// A rule building a variant the destination does not declare is
/// refused.
#[test]
fn unknown_dest_variant_is_fatal() {
    let source = EnumDecl {
        name: s("Source"),
        variants: vec![VariantSig { name: s("I"), field_types: vec![s("i32")] }],
    };
    let dest = EnumDecl { name: s("Dest"), variants: vec![] };
    let err = compile_mapping(source, dest, vec![plain_rule("I")], None).unwrap_err();
    assert_eq!(err, MapError::UnknownDestVariant { name: s("I") });
}

/// A field list whose length does not match the variant's arity is
/// refused.
#[test]
fn arity_mismatch_is_fatal() {
    let source = EnumDecl {
        name: s("Source"),
        variants: vec![VariantSig { name: s("Pair"), field_types: vec![s("i32"), s("u64")] }],
    };
    let dest = EnumDecl {
        name: s("Dest"),
        variants: vec![VariantSig { name: s("Pair"), field_types: vec![s("i32"), s("u64")] }],
    };
    let rule = MapRule { fields: vec![s("a")], ..plain_rule("Pair") };
    let err = compile_mapping(source, dest, vec![rule], None).unwrap_err();
    assert_eq!(err, MapError::ArityMismatch { name: s("Pair") });
}

/// A `flatten` rule without `convert` whose payload is not of the
/// destination type is refused.
#[test]
fn flatten_mismatch_is_fatal() {
    let source = EnumDecl {
        name: s("Wrapper"),
        variants: vec![VariantSig { name: s("Inner"), field_types: vec![s("Elsewhere")] }],
    };
    let dest = EnumDecl { name: s("Dest"), variants: vec![] };
    let rule = MapRule { flatten: true, ..plain_rule("Inner") };
    let err = compile_mapping(source, dest, vec![rule], None).unwrap_err();
    assert_eq!(err, MapError::FlattenMismatch { name: s("Inner") });
}

/// Coercion retags a primitive payload and leaves an already-typed one
/// alone.
#[test]
fn coercion_retags_primitives() {
    let reg = Registry::new();
    assert_eq!(coerce(&reg, int_val("u32", 7), &s("u64")).unwrap(), int_val("u64", 7));
    assert_eq!(coerce(&reg, int_val("u64", 7), &s("u64")).unwrap(), int_val("u64", 7));
    assert_eq!(
        coerce(&reg, Value::Text { ty: s("&str"), text: s("hi") }, &s("String")).unwrap(),
        Value::Text { ty: s("String"), text: s("hi") }
    );
    assert!(coerce(&reg, Value::Marker { ty: s("A") }, &s("B")).is_none());
}

/// Negative and extreme integers print in plain decimal.
#[test]
fn integers_render_in_decimal() {
    assert_eq!(int_val("i32", 0).render(), "0");
    assert_eq!(int_val("i32", -5).render(), "-5");
    assert_eq!(int_val("u64", 1234567890).render(), "1234567890");
    assert_eq!(int_val("i128", i128::MIN).render(), "-170141183460469231731687303715884105728");
    assert_eq!(int_val("i128", i128::MAX).render(), "170141183460469231731687303715884105727");
}

/// A payload coercion can travel through conversions the tree compiler
/// registered.
#[test]
fn mapping_coerces_through_registered_conversions() {
    let schema = vec![Node {
        name: s("Hello"),
        modifier: Modifier::Plain,
        children: vec![Node {
            name: s("World"),
            modifier: Modifier::Unit,
            children: vec![],
            annotations: vec![],
        }],
        annotations: vec![],
    }];
    let reg = compile_tree(&schema).unwrap().registry;

    let source = EnumDecl {
        name: s("Outer"),
        variants: vec![VariantSig { name: s("V"), field_types: vec![s("World")] }],
    };
    let dest = EnumDecl {
        name: s("Lifted"),
        variants: vec![VariantSig { name: s("V"), field_types: vec![s("Hello")] }],
    };
    let rule = MapRule { convert: true, ..plain_rule("V") };
    let m = compile_mapping(source, dest, vec![rule], None).unwrap();

    let v = variant_value("Outer", "V", vec![Value::Marker { ty: s("World") }]);
    let mapped = apply_mapping(&m, &reg, v).unwrap();
    assert_eq!(
        mapped,
        MapOutcome::Made(variant_value(
            "Lifted",
            "V",
            vec![variant_value("Hello", "World", vec![Value::Marker { ty: s("World") }])]
        ))
    );
}

/// Values outside the source sum type, unhandled variants, ill-shaped
/// payloads and impossible coercions each fail application with their
/// own report.
#[test]
fn apply_failures_are_reported() {
    let source = EnumDecl {
        name: s("Source"),
        variants: vec![VariantSig { name: s("Unit"), field_types: vec![] }],
    };
    let dest = EnumDecl {
        name: s("Dest"),
        variants: vec![
            VariantSig { name: s("Unit"), field_types: vec![] },
            VariantSig { name: s("Hold"), field_types: vec![s("Elsewhere")] },
        ],
    };
    let rules = vec![unit_rule("Unit")];
    let m = compile_mapping(source, dest, rules, None).unwrap();
    let reg = Registry::new();

    let err = apply_mapping(&m, &reg, int_val("i32", 1)).unwrap_err();
    assert_eq!(err, MapApplyError::NotSource);

    let err = apply_mapping(&m, &reg, variant_value("Another", "Unit", vec![])).unwrap_err();
    assert_eq!(err, MapApplyError::NotSource);

    let err =
        apply_mapping(&m, &reg, variant_value("Source", "Ghostly", vec![])).unwrap_err();
    assert_eq!(err, MapApplyError::Unhandled { variant: s("Ghostly") });

    let err = apply_mapping(&m, &reg, variant_value("Source", "Unit", vec![int_val("i32", 1)]))
        .unwrap_err();
    assert_eq!(err, MapApplyError::ShapeMismatch { variant: s("Unit") });

    let source = EnumDecl {
        name: s("Source"),
        variants: vec![VariantSig { name: s("Hold"), field_types: vec![s("Opaque")] }],
    };
    let dest = EnumDecl {
        name: s("Dest"),
        variants: vec![VariantSig { name: s("Hold"), field_types: vec![s("Elsewhere")] }],
    };
    let rule = MapRule { convert: true, ..plain_rule("Hold") };
    let m = compile_mapping(source, dest, vec![rule], None).unwrap();
    let v = variant_value("Source", "Hold", vec![Value::Marker { ty: s("Opaque") }]);
    let err = apply_mapping(&m, &reg, v).unwrap_err();
    assert_eq!(err, MapApplyError::Incoercible { variant: s("Hold") });
}
