use treeerror::chain::{convert, ChainLink};
use treeerror::simple::{ConvRule, Conversion, EmitError, Registry};
use treeerror::value::Value;

fn s(x: &str) -> String {
    x.to_string()
}

fn marker(name: &str) -> Value {
    Value::Marker { ty: s(name) }
}

/// Registrations in the style of the layered `from_many` families, plus
/// the single wrap at the bottom; every lower type then converts into
/// every higher type.
#[test]
fn lib_test_from_impls() {
    let mut reg = Registry::new();
    reg.from_many(
        &s("Root"),
        &s("A"),
        &vec![s("A"), s("Alpha"), s("One"), s("Child")],
    )
    .unwrap();
    reg.from_many(&s("A"), &s("Alpha"), &vec![s("Alpha"), s("One"), s("Child")])
        .unwrap();
    reg.from_many(&s("Alpha"), &s("One"), &vec![s("One"), s("Child")])
        .unwrap();
    reg.from_wrap(&s("One"), &s("Child"), &s("Child"), &s("Child"))
        .unwrap();

    let _one = convert(&reg, marker("Child"), &s("One")).unwrap();
    let one = convert(&reg, marker("Child"), &s("One")).unwrap();
    let _alpha = convert(&reg, one, &s("Alpha")).unwrap();
    let alpha = convert(&reg, marker("Child"), &s("Alpha")).unwrap();
    let _a = convert(&reg, alpha, &s("A")).unwrap();
    let _root = convert(&reg, marker("Child"), &s("Root")).unwrap();

    let _alpha = convert(&reg, marker("Child"), &s("Alpha")).unwrap();
    let _a = convert(&reg, marker("Child"), &s("A")).unwrap();
    let _root = convert(&reg, marker("Child"), &s("Root")).unwrap();
}

/// The same closure built in one stroke from a chain declaration.
#[test]
fn lib_test_from_impls_all_together() {
    let mut reg = Registry::new();
    let links = vec![
        ChainLink { ty: s("Root"), variant: s("A") },
        ChainLink { ty: s("A"), variant: s("Alpha") },
        ChainLink { ty: s("Alpha"), variant: s("One") },
        ChainLink { ty: s("One"), variant: s("Child") },
    ];
    reg.from_chain(&links, &s("Child")).unwrap();

    let one = convert(&reg, marker("Child"), &s("One")).unwrap();
    let _alpha = convert(&reg, one, &s("Alpha")).unwrap();
    let alpha = convert(&reg, marker("Child"), &s("Alpha")).unwrap();
    let _a = convert(&reg, alpha, &s("A")).unwrap();
    let a = convert(&reg, marker("Child"), &s("A")).unwrap();
    let _root = convert(&reg, a, &s("Root")).unwrap();

    let _alpha = convert(&reg, marker("Child"), &s("Alpha")).unwrap();
    let _a = convert(&reg, marker("Child"), &s("A")).unwrap();
    let _root = convert(&reg, marker("Child"), &s("Root")).unwrap();
}

/// Ten single wraps registered one by one, as the conversion primitive
/// takes them.
#[test]
fn simple_test_from_impls() {
    let mut reg = Registry::new();
    reg.from_wrap(&s("One"), &s("Child"), &s("Child"), &s("Child"))
        .unwrap();
    reg.from_wrap(&s("Alpha"), &s("One"), &s("One"), &s("One"))
        .unwrap();
    reg.from_wrap(&s("Alpha"), &s("One"), &s("One"), &s("Child"))
        .unwrap();
    reg.from_wrap(&s("A"), &s("Alpha"), &s("Alpha"), &s("Alpha"))
        .unwrap();
    reg.from_wrap(&s("A"), &s("Alpha"), &s("Alpha"), &s("One"))
        .unwrap();
    reg.from_wrap(&s("A"), &s("Alpha"), &s("Alpha"), &s("Child"))
        .unwrap();
    reg.from_wrap(&s("Root"), &s("A"), &s("A"), &s("A")).unwrap();
    reg.from_wrap(&s("Root"), &s("A"), &s("A"), &s("Alpha"))
        .unwrap();
    reg.from_wrap(&s("Root"), &s("A"), &s("A"), &s("One"))
        .unwrap();
    reg.from_wrap(&s("Root"), &s("A"), &s("A"), &s("Child"))
        .unwrap();

    let _one = convert(&reg, marker("Child"), &s("One")).unwrap();
    let one = convert(&reg, marker("Child"), &s("One")).unwrap();
    let _alpha = convert(&reg, one, &s("Alpha")).unwrap();
    let alpha = convert(&reg, marker("Child"), &s("Alpha")).unwrap();
    let _a = convert(&reg, alpha, &s("A")).unwrap();
    let _root = convert(&reg, marker("Child"), &s("Root")).unwrap();
}

/// The chained closure nests each level inside the next: the exact shape
/// of converting the lowest type into the root.
#[test]
fn chain_conversion_builds_nested_value() {
    let mut reg = Registry::new();
    let links = vec![
        ChainLink { ty: s("A"), variant: s("BVariant") },
        ChainLink { ty: s("B"), variant: s("CVariant") },
        ChainLink { ty: s("C"), variant: s("DVariant") },
    ];
    reg.from_chain(&links, &s("D")).unwrap();

    let c = convert(&reg, marker("D"), &s("C")).unwrap();
    assert_eq!(
        c,
        Value::Sum {
            ty: s("C"),
            variant: s("DVariant"),
            fields: vec![Value::Marker { ty: s("D") }],
        }
    );
    let a = convert(&reg, marker("D"), &s("A")).unwrap();
    assert_eq!(a.render(), "BVariant(CVariant(DVariant(D)))");
}

/// Re-registering a (source, destination) pair is refused and leaves the
/// registry as it was.
#[test]
fn duplicate_pair_is_refused() {
    let mut reg = Registry::new();
    reg.from_wrap(&s("B"), &s("V"), &s("A"), &s("A")).unwrap();
    let err = reg
        .from_wrap(&s("B"), &s("W"), &s("A"), &s("A"))
        .unwrap_err();
    assert_eq!(err, EmitError::Duplicate { from: s("A"), to: s("B") });
    assert_eq!(reg.conversions.len(), 1);
}

/// A clash anywhere in a batch refuses the whole batch.
#[test]
fn clashing_batch_is_refused_whole() {
    let mut reg = Registry::new();
    let items = vec![
        Conversion { from: s("A"), to: s("B"), rule: ConvRule::Via { middle: s("M") } },
        Conversion { from: s("A"), to: s("B"), rule: ConvRule::Via { middle: s("N") } },
    ];
    let err = reg.register_all(items).unwrap_err();
    assert_eq!(err, EmitError::Duplicate { from: s("A"), to: s("B") });
    assert_eq!(reg.conversions.len(), 0);
}

/// A conversion nobody registered does not apply.
#[test]
fn missing_conversion_is_refused() {
    let reg = Registry::new();
    assert!(convert(&reg, marker("X"), &s("Y")).is_none());
}

/// The future pinned through `assert_send` is the very future given.
#[test]
fn assert_send_hands_future_back() {
    let fut = std::future::ready(7u32);
    let _pinned = treeerror::assert_send(fut);
}

/// A chained registration through an intermediate type composes the two
/// single hops already registered.
#[test]
fn via_composes_registered_hops() {
    let mut reg = Registry::new();
    reg.from_wrap(&s("B"), &s("CVariant"), &s("C"), &s("C"))
        .unwrap();
    reg.from_wrap(&s("A"), &s("BVariant"), &s("B"), &s("B"))
        .unwrap();
    reg.from_via(&s("A"), &s("C"), &s("B")).unwrap();

    let direct = convert(&reg, marker("C"), &s("A")).unwrap();
    let b = convert(&reg, marker("C"), &s("B")).unwrap();
    let stepped = convert(&reg, b, &s("A")).unwrap();
    assert_eq!(direct, stepped);
    assert_eq!(direct.render(), "BVariant(CVariant(C))");
}
