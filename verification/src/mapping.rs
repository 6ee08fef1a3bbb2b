//! The structural mapping compiler: from a list of per-variant
//! correspondence rules between two independently declared sum types to
//! one total conversion function.
//!
//! Each [`MapRule`] handles one source variant. In resolution order: a
//! `unit` rule matches the bare variant and builds the bare destination
//! variant; a `flatten` rule passes the single payload through unwrapped
//! (coercing it into the destination type when `convert` is also set); a
//! rule with a custom body hands the bound fields to that body; a rule
//! without a field list re-wraps the single payload (coercing it when
//! `convert` is set); a rule with a field list destructures the payload
//! by position, coerces each field independently when `convert` is set,
//! and rebuilds the destination variant in the same order. Source
//! variants named by no rule fall to the catch-all clause, which receives
//! the whole unmatched value; without a catch-all, an uncovered variant
//! refuses the mapping at build time.

use vstd::prelude::*;

use crate::chain::{convert, converted};
use crate::simple::{has_pair, lemma_lookup_some, Registry, SpecConversion};
use crate::value::{lemma_value_views, name_views, value_views, Val, Value};

verus! {

/// One variant of a pre-existing sum type, with its positional field
/// types.
#[derive(Debug, PartialEq, Eq)]
pub struct VariantSig {
    pub name: String,
    pub field_types: Vec<String>,
}

/// A pre-existing sum type the mapping reads or builds.
#[derive(Debug, PartialEq, Eq)]
pub struct EnumDecl {
    pub name: String,
    pub variants: Vec<VariantSig>,
}

/// The mathematical model of a [`VariantSig`].
pub struct SpecVariantSig {
    pub name: Seq<char>,
    pub field_types: Seq<Seq<char>>,
}

/// The mathematical model of an [`EnumDecl`].
pub struct SpecEnumDecl {
    pub name: Seq<char>,
    pub variants: Seq<SpecVariantSig>,
}

impl View for VariantSig {
    type V = SpecVariantSig;

    open spec fn view(&self) -> SpecVariantSig {
        SpecVariantSig { name: self.name@, field_types: name_views(self.field_types@) }
    }
}

impl View for EnumDecl {
    type V = SpecEnumDecl;

    open spec fn view(&self) -> SpecEnumDecl {
        SpecEnumDecl {
            name: self.name@,
            variants: Seq::new(self.variants@.len(), |i: int| self.variants@[i]@),
        }
    }
}

/// One variant correspondence rule.
#[derive(Debug, PartialEq, Eq)]
pub struct MapRule {
    /// The source variant this rule handles.
    pub source: String,
    /// The destination variant, when it is not named like the source.
    pub renamed: Option<String>,
    /// Match the bare variant and build the bare destination variant.
    pub unit: bool,
    /// Pass the single payload through unwrapped.
    pub flatten: bool,
    /// Coerce the payload (or each field) into the destination's type.
    pub convert: bool,
    /// Names binding the payload fields by position; empty means one
    /// opaque payload.
    pub fields: Vec<String>,
    /// A replacement body that receives the bound fields and produces the
    /// destination value itself, carried through as opaque text.
    pub body: Option<String>,
}

/// The mathematical model of a [`MapRule`].
pub struct SpecMapRule {
    pub source: Seq<char>,
    pub renamed: Option<Seq<char>>,
    pub unit: bool,
    pub flatten: bool,
    pub convert: bool,
    pub fields: Seq<Seq<char>>,
    pub body: Option<Seq<char>>,
}

impl View for MapRule {
    type V = SpecMapRule;

    open spec fn view(&self) -> SpecMapRule {
        SpecMapRule {
            source: self.source@,
            renamed: match self.renamed {
                Some(ref x) => Some(x@),
                None => None,
            },
            unit: self.unit,
            flatten: self.flatten,
            convert: self.convert,
            fields: name_views(self.fields@),
            body: match self.body {
                Some(ref x) => Some(x@),
                None => None,
            },
        }
    }
}

/// The models of a sequence of rules.
pub open spec fn rule_views(s: Seq<MapRule>) -> Seq<SpecMapRule> {
    Seq::new(s.len(), |i: int| s[i]@)
}

/// The catch-all clause: an opaque body that receives every unmatched
/// source value, optionally bound to a name.
#[derive(Debug, PartialEq, Eq)]
pub struct CatchAll {
    pub binder: Option<String>,
    pub body: String,
}

/// The mathematical model of a [`CatchAll`].
pub struct SpecCatchAll {
    pub binder: Option<Seq<char>>,
    pub body: Seq<char>,
}

impl View for CatchAll {
    type V = SpecCatchAll;

    open spec fn view(&self) -> SpecCatchAll {
        SpecCatchAll {
            binder: match self.binder {
                Some(ref x) => Some(x@),
                None => None,
            },
            body: self.body@,
        }
    }
}

/// A compiled mapping, ready to apply.
#[derive(Debug, PartialEq, Eq)]
pub struct EnumMapping {
    pub source: EnumDecl,
    pub dest: EnumDecl,
    pub rules: Vec<MapRule>,
    pub catch_all: Option<CatchAll>,
}

/// The mathematical model of an [`EnumMapping`].
pub struct SpecEnumMapping {
    pub source: SpecEnumDecl,
    pub dest: SpecEnumDecl,
    pub rules: Seq<SpecMapRule>,
    pub catch_all: Option<SpecCatchAll>,
}

impl View for EnumMapping {
    type V = SpecEnumMapping;

    open spec fn view(&self) -> SpecEnumMapping {
        SpecEnumMapping {
            source: self.source@,
            dest: self.dest@,
            rules: rule_views(self.rules@),
            catch_all: match self.catch_all {
                Some(ref x) => Some(x@),
                None => None,
            },
        }
    }
}

/// The first variant of the list that carries `name`, if any.
pub open spec fn spec_find_variant(vs: Seq<SpecVariantSig>, name: Seq<char>) -> Option<
    SpecVariantSig,
>
    decreases vs.len(),
{
    if vs.len() == 0 {
        None
    } else if vs[0].name == name {
        Some(vs[0])
    } else {
        spec_find_variant(vs.drop_first(), name)
    }
}

/// When a matching variant stands at index `i` and no earlier one
/// matches, the search returns exactly that variant.
proof fn lemma_find_variant_at(vs: Seq<SpecVariantSig>, name: Seq<char>, i: int)
    requires
        0 <= i < vs.len(),
        vs[i].name == name,
        forall|j: int| 0 <= j < i ==> vs[j].name != name,
    ensures
        spec_find_variant(vs, name) == Some(vs[i]),
    decreases vs.len(),
{
    if i > 0 {
        lemma_find_variant_at(vs.drop_first(), name, i - 1);
    }
}

/// The search fails exactly when no variant carries the name.
proof fn lemma_find_variant_none(vs: Seq<SpecVariantSig>, name: Seq<char>)
    requires
        forall|j: int| 0 <= j < vs.len() ==> vs[j].name != name,
    ensures
        spec_find_variant(vs, name) is None,
    decreases vs.len(),
{
    if vs.len() > 0 {
        lemma_find_variant_none(vs.drop_first(), name);
    }
}

impl EnumDecl {
    /// The index of the first variant named `name`, if any.
    pub fn find_variant(&self, name: &String) -> (r: Option<usize>)
        ensures
            r matches Some(i) ==> 0 <= i < self@.variants.len() && spec_find_variant(
                self@.variants,
                name@,
            ) == Some(self@.variants[i as int]),
            r is None ==> spec_find_variant(self@.variants, name@) is None,
    {
        let n = self.variants.len();
        for i in 0..n
            invariant
                n == self.variants@.len(),
                forall|j: int| 0 <= j < i ==> #[trigger] self@.variants[j].name != name@,
        {
            if self.variants[i].name.eq(name) {
                proof {
                    lemma_find_variant_at(self@.variants, name@, i as int);
                }
                return Some(i);
            }
        }
        proof {
            lemma_find_variant_none(self@.variants, name@);
        }
        None
    }
}

/// The destination variant a rule builds: the renaming when given, the
/// source variant's own name otherwise.
pub open spec fn spec_dest_name(r: SpecMapRule) -> Seq<char> {
    match r.renamed {
        Some(x) => x,
        None => r.source,
    }
}

/// One rule is well-shaped against the two declarations: its source
/// variant exists and has the arity the rule's shape asks for, and the
/// destination variant it builds (when it builds one) exists with the
/// matching arity; a `flatten` rule without `convert` must pass a payload
/// that already is of the destination type.
pub open spec fn spec_rule_ok(r: SpecMapRule, src: SpecEnumDecl, dst: SpecEnumDecl) -> bool {
    match spec_find_variant(src.variants, r.source) {
        None => false,
        Some(sv) => {
            if r.unit {
                &&& r.fields.len() == 0
                &&& sv.field_types.len() == 0
                &&& match spec_find_variant(dst.variants, spec_dest_name(r)) {
                    Some(dv) => dv.field_types.len() == 0,
                    None => false,
                }
            } else {
                &&& (if r.fields.len() > 0 {
                    sv.field_types.len() == r.fields.len()
                } else {
                    sv.field_types.len() == 1
                })
                &&& (r.flatten ==> r.fields.len() == 0)
                &&& (if r.flatten {
                    r.convert || sv.field_types[0] == dst.name
                } else if r.body is Some {
                    true
                } else {
                    match spec_find_variant(dst.variants, spec_dest_name(r)) {
                        Some(dv) => dv.field_types.len() == (if r.fields.len() > 0 {
                            r.fields.len() as int
                        } else {
                            1int
                        }),
                        None => false,
                    }
                })
            }
        },
    }
}

/// No two rules name the same source variant.
pub open spec fn spec_rules_distinct(rules: Seq<SpecMapRule>) -> bool {
    forall|i: int, j: int| 0 <= i < j < rules.len() ==> rules[i].source != rules[j].source
}

/// The first rule handling `variant`, if any.
pub open spec fn spec_find_rule(rules: Seq<SpecMapRule>, variant: Seq<char>) -> Option<SpecMapRule>
    decreases rules.len(),
{
    if rules.len() == 0 {
        None
    } else if rules[0].source == variant {
        Some(rules[0])
    } else {
        spec_find_rule(rules.drop_first(), variant)
    }
}

/// Every source variant is handled by a rule, or a catch-all stands.
pub open spec fn spec_covered(
    src: SpecEnumDecl,
    rules: Seq<SpecMapRule>,
    has_catch: bool,
) -> bool {
    forall|i: int|
        0 <= i < src.variants.len() ==> has_catch || spec_find_rule(
            rules,
            #[trigger] src.variants[i].name,
        ) is Some
}

/// A mapping compiles exactly when every rule is well-shaped, no two
/// rules share a source variant, and every source variant is covered.
pub open spec fn spec_mapping_ok(m: SpecEnumMapping) -> bool {
    &&& forall|i: int| 0 <= i < m.rules.len() ==> spec_rule_ok(#[trigger] m.rules[i], m.source, m.dest)
    &&& spec_rules_distinct(m.rules)
    &&& spec_covered(m.source, m.rules, m.catch_all is Some)
}

/// The errors that refuse a mapping at build time.
#[derive(Debug, PartialEq, Eq)]
pub enum MapError {
    /// A rule names a source variant the source enum does not declare.
    UnknownSourceVariant { name: String },
    /// A rule builds a destination variant the destination enum does not
    /// declare.
    UnknownDestVariant { name: String },
    /// Two rules name the same source variant.
    DuplicateRule { name: String },
    /// A rule's shape does not fit its variant's field count.
    ArityMismatch { name: String },
    /// A `flatten` rule without `convert` whose payload is not of the
    /// destination type.
    FlattenMismatch { name: String },
    /// A source variant with no rule and no catch-all.
    NonExhaustive { name: String },
}


/// When a matching rule stands at index `i` and no earlier one matches,
/// the search returns exactly that rule.
proof fn lemma_find_rule_at(rules: Seq<SpecMapRule>, variant: Seq<char>, i: int)
    requires
        0 <= i < rules.len(),
        rules[i].source == variant,
        forall|j: int| 0 <= j < i ==> rules[j].source != variant,
    ensures
        spec_find_rule(rules, variant) == Some(rules[i]),
    decreases rules.len(),
{
    if i > 0 {
        lemma_find_rule_at(rules.drop_first(), variant, i - 1);
    }
}

/// The search fails exactly when no rule handles the variant.
proof fn lemma_find_rule_none(rules: Seq<SpecMapRule>, variant: Seq<char>)
    requires
        forall|j: int| 0 <= j < rules.len() ==> rules[j].source != variant,
    ensures
        spec_find_rule(rules, variant) is None,
    decreases rules.len(),
{
    if rules.len() > 0 {
        lemma_find_rule_none(rules.drop_first(), variant);
    }
}

/// The index of the first rule handling `variant`, if any.
fn find_rule(rules: &Vec<MapRule>, variant: &String) -> (r: Option<usize>)
    ensures
        r matches Some(i) ==> 0 <= i < rules@.len() && spec_find_rule(rule_views(rules@), variant@)
            == Some(rule_views(rules@)[i as int]),
        r is None ==> spec_find_rule(rule_views(rules@), variant@) is None,
{
    let n = rules.len();
    for i in 0..n
        invariant
            n == rules@.len(),
            forall|j: int| 0 <= j < i ==> #[trigger] rule_views(rules@)[j].source != variant@,
    {
        if rules[i].source.eq(variant) {
            proof {
                lemma_find_rule_at(rule_views(rules@), variant@, i as int);
            }
            return Some(i);
        }
    }
    proof {
        lemma_find_rule_none(rule_views(rules@), variant@);
    }
    None
}

/// The model of an optional catch-all clause.
pub open spec fn catch_views(c: Option<CatchAll>) -> Option<SpecCatchAll> {
    match c {
        Some(x) => Some(x@),
        None => None,
    }
}

/// The model of the mapping that compiling these inputs would build.
pub open spec fn spec_mapping_of(
    source: EnumDecl,
    dest: EnumDecl,
    rules: Seq<MapRule>,
    catch_all: Option<CatchAll>,
) -> SpecEnumMapping {
    SpecEnumMapping {
        source: source@,
        dest: dest@,
        rules: rule_views(rules),
        catch_all: catch_views(catch_all),
    }
}

/// Compile a mapping: refuse an ill-shaped, ambiguous or non-exhaustive
/// rule list, and keep the declarations and rules for application.
pub fn compile_mapping(
    source: EnumDecl,
    dest: EnumDecl,
    rules: Vec<MapRule>,
    catch_all: Option<CatchAll>,
) -> (r: Result<EnumMapping, MapError>)
    ensures
        r is Ok <==> spec_mapping_ok(spec_mapping_of(source, dest, rules@, catch_all)),
        r matches Ok(m) ==> m@ == spec_mapping_of(source, dest, rules@, catch_all),
        r matches Err(e) ==> {
            let sm = spec_mapping_of(source, dest, rules@, catch_all);
            &&& !spec_mapping_ok(sm)
            &&& match e {
                MapError::UnknownSourceVariant { name } => exists|i: int|
                    0 <= i < sm.rules.len() && #[trigger] sm.rules[i].source == name@
                        && spec_find_variant(sm.source.variants, name@) is None,
                MapError::UnknownDestVariant { name } => exists|i: int|
                    0 <= i < sm.rules.len() && spec_dest_name(#[trigger] sm.rules[i]) == name@
                        && spec_find_variant(sm.dest.variants, name@) is None,
                MapError::DuplicateRule { name } => exists|i: int, j: int|
                    0 <= i < j < sm.rules.len() && #[trigger] sm.rules[i].source == name@
                        && #[trigger] sm.rules[j].source == name@,
                MapError::ArityMismatch { name } => exists|i: int|
                    0 <= i < sm.rules.len() && #[trigger] sm.rules[i].source == name@
                        && !spec_rule_ok(sm.rules[i], sm.source, sm.dest),
                MapError::FlattenMismatch { name } => exists|i: int|
                    0 <= i < sm.rules.len() && #[trigger] sm.rules[i].source == name@
                        && !spec_rule_ok(sm.rules[i], sm.source, sm.dest),
                MapError::NonExhaustive { name } => exists|i: int|
                    0 <= i < sm.source.variants.len() && #[trigger] sm.source.variants[i].name
                        == name@ && spec_find_rule(sm.rules, name@) is None
                        && sm.catch_all is None,
            }
        },
{
    let ghost sm = spec_mapping_of(source, dest, rules@, catch_all);
    let n = rules.len();
    for i in 0..n
        invariant
            n == rules@.len(),
            sm == spec_mapping_of(source, dest, rules@, catch_all),
            forall|k: int| 0 <= k < i ==> spec_rule_ok(#[trigger] sm.rules[k], sm.source, sm.dest),
    {
        let rule = &rules[i];
        proof {
            assert(sm.rules[i as int] == rules@[i as int]@);
        }
        let svi = match source.find_variant(&rule.source) {
            None => {
                proof {
                    assert(sm.rules[i as int].source == rules@[i as int].source@);
                    assert(!spec_rule_ok(sm.rules[i as int], sm.source, sm.dest));
                }
                return Err(MapError::UnknownSourceVariant { name: rule.source.clone() });
            },
            Some(x) => x,
        };
        let sv = &source.variants[svi];
        proof {
            assert(sv@ == sm.source.variants[svi as int]);
            assert(spec_find_variant(sm.source.variants, rule.source@) == Some(sv@));
        }
        if rule.unit {
            if rule.fields.len() != 0 || sv.field_types.len() != 0 {
                return Err(MapError::ArityMismatch { name: rule.source.clone() });
            }
            let dname: &String = match &rule.renamed {
                Some(x) => x,
                None => &rule.source,
            };
            proof {
                assert(dname@ == spec_dest_name(sm.rules[i as int]));
            }
            match dest.find_variant(dname) {
                None => {
                    return Err(MapError::UnknownDestVariant { name: dname.clone() });
                },
                Some(dvi) => {
                    if dest.variants[dvi].field_types.len() != 0 {
                        proof {
                            assert(dest.variants@[dvi as int]@ == sm.dest.variants[dvi as int]);
                        }
                        return Err(MapError::ArityMismatch { name: rule.source.clone() });
                    }
                    proof {
                        assert(dest.variants@[dvi as int]@ == sm.dest.variants[dvi as int]);
                        assert(spec_rule_ok(sm.rules[i as int], sm.source, sm.dest));
                    }
                },
            }
        } else {
            let arity_ok = if rule.fields.len() > 0 {
                sv.field_types.len() == rule.fields.len()
            } else {
                sv.field_types.len() == 1
            };
            if !arity_ok || (rule.flatten && rule.fields.len() != 0) {
                return Err(MapError::ArityMismatch { name: rule.source.clone() });
            }
            if rule.flatten {
                if !rule.convert && !sv.field_types[0].eq(&dest.name) {
                    proof {
                        assert(sv@.field_types[0] == sv.field_types@[0]@);
                    }
                    return Err(MapError::FlattenMismatch { name: rule.source.clone() });
                }
                proof {
                    assert(sv@.field_types[0] == sv.field_types@[0]@);
                    assert(spec_rule_ok(sm.rules[i as int], sm.source, sm.dest));
                }
            } else if rule.body.is_some() {
                proof {
                    assert(spec_rule_ok(sm.rules[i as int], sm.source, sm.dest));
                }
            } else {
                let dname: &String = match &rule.renamed {
                    Some(x) => x,
                    None => &rule.source,
                };
                proof {
                    assert(dname@ == spec_dest_name(sm.rules[i as int]));
                }
                match dest.find_variant(dname) {
                    None => {
                        return Err(MapError::UnknownDestVariant { name: dname.clone() });
                    },
                    Some(dvi) => {
                        let want = if rule.fields.len() > 0 {
                            rule.fields.len()
                        } else {
                            1
                        };
                        proof {
                            assert(dest.variants@[dvi as int]@ == sm.dest.variants[dvi as int]);
                        }
                        if dest.variants[dvi].field_types.len() != want {
                            return Err(MapError::ArityMismatch { name: rule.source.clone() });
                        }
                        proof {
                            assert(spec_rule_ok(sm.rules[i as int], sm.source, sm.dest));
                        }
                    },
                }
            }
        }
    }
    for i in 0..n
        invariant
            n == rules@.len(),
            sm == spec_mapping_of(source, dest, rules@, catch_all),
            forall|k: int| 0 <= k < rules@.len() ==> spec_rule_ok(
                #[trigger] sm.rules[k],
                sm.source,
                sm.dest,
            ),
            forall|a: int, b: int|
                #![trigger sm.rules[a].source, sm.rules[b].source]
                0 <= a < b < n && a < i ==> sm.rules[a].source != sm.rules[b].source,
    {
        for j in i + 1..n
            invariant
                n == rules@.len(),
                sm == spec_mapping_of(source, dest, rules@, catch_all),
                i < n,
                forall|k: int| 0 <= k < rules@.len() ==> spec_rule_ok(
                    #[trigger] sm.rules[k],
                    sm.source,
                    sm.dest,
                ),
                forall|a: int, b: int|
                    #![trigger sm.rules[a].source, sm.rules[b].source]
                    0 <= a < b < n && a < i ==> sm.rules[a].source != sm.rules[b].source,
                forall|b: int| i < b < j ==> sm.rules[i as int].source != #[trigger] sm.rules[b].source,
        {
            if rules[j].source.eq(&rules[i].source) {
                proof {
                    assert(sm.rules[i as int].source == rules@[i as int].source@);
                    assert(sm.rules[j as int].source == rules@[j as int].source@);
                    assert(!spec_rules_distinct(sm.rules));
                }
                return Err(MapError::DuplicateRule { name: rules[i].source.clone() });
            }
        }
    }
    if catch_all.is_none() {
        let m = source.variants.len();
        for vi in 0..m
            invariant
                m == source.variants@.len(),
                sm == spec_mapping_of(source, dest, rules@, catch_all),
                catch_views(catch_all) is None,
                forall|k: int| 0 <= k < rules@.len() ==> spec_rule_ok(
                    #[trigger] sm.rules[k],
                    sm.source,
                    sm.dest,
                ),
                spec_rules_distinct(sm.rules),
                forall|k: int|
                    0 <= k < vi ==> spec_find_rule(sm.rules, #[trigger] sm.source.variants[k].name)
                        is Some,
        {
            proof {
                assert(sm.source.variants[vi as int] == source.variants@[vi as int]@);
            }
            if find_rule(&rules, &source.variants[vi].name).is_none() {
                proof {
                    assert(sm.source.variants[vi as int].name == source.variants@[vi as int].name@);
                    assert(spec_find_rule(sm.rules, sm.source.variants[vi as int].name) is None);
                    assert(!spec_covered(sm.source, sm.rules, sm.catch_all is Some));
                }
                return Err(MapError::NonExhaustive { name: source.variants[vi].name.clone() });
            }
        }
    }
    proof {
        assert(spec_covered(sm.source, sm.rules, sm.catch_all is Some));
        assert(spec_mapping_ok(sm));
    }
    Ok(EnumMapping { source, dest, rules, catch_all })
}



/// Match a value against one variant pattern: a bare path for a `unit`
/// rule, a binding pattern otherwise. On a match, the bound payload
/// fields come back in order.
pub open spec fn spec_match_variant(
    v: Val,
    en: Seq<char>,
    var: Seq<char>,
    unit: bool,
) -> Option<Seq<Val>> {
    match v {
        Val::Sum { ty, variant, fields } => if ty == en && variant == var && (!unit
            || fields.len() == 0) {
            Some(fields)
        } else {
            None
        },
        _ => None,
    }
}

/// One single-hop coercion of a payload into a field type: the identity
/// on its own type, a registered conversion when one stands for the pair,
/// and a retagging for a primitive payload otherwise.
pub open spec fn spec_coerce(convs: Seq<SpecConversion>, v: Val, to: Seq<char>) -> Option<Val> {
    if v.type_of() == to {
        Some(v)
    } else if has_pair(convs, v.type_of(), to) {
        converted(convs, v, to)
    } else {
        match v {
            Val::Int { ty, value } => Some(Val::Int { ty: to, value }),
            Val::Text { ty, text } => Some(Val::Text { ty: to, text }),
            _ => None,
        }
    }
}

/// Coerce each payload field into its positional field type.
pub open spec fn spec_coerce_all(
    convs: Seq<SpecConversion>,
    args: Seq<Val>,
    fts: Seq<Seq<char>>,
) -> Option<Seq<Val>>
    decreases args.len(),
{
    if args.len() != fts.len() {
        None
    } else if args.len() == 0 {
        Some(Seq::empty())
    } else {
        match spec_coerce(convs, args[0], fts[0]) {
            None => None,
            Some(x) => match spec_coerce_all(convs, args.drop_first(), fts.drop_first()) {
                None => None,
                Some(rest) => Some(seq![x] + rest),
            },
        }
    }
}

/// Coercing a field list succeeds exactly when each positional field
/// coerces on its own, and then each position of the result is that
/// field's own coercion: the order is kept and no field is dropped.
pub proof fn lemma_coerce_all(convs: Seq<SpecConversion>, args: Seq<Val>, fts: Seq<Seq<char>>)
    requires
        args.len() == fts.len(),
    ensures
        spec_coerce_all(convs, args, fts) is Some <==> (forall|i: int|
            0 <= i < args.len() ==> spec_coerce(convs, #[trigger] args[i], fts[i]) is Some),
        spec_coerce_all(convs, args, fts) matches Some(cs) ==> cs.len() == args.len() && forall|
            i: int,
        |
            0 <= i < args.len() ==> #[trigger] cs[i] == spec_coerce(convs, args[i], fts[i])->Some_0,
    decreases args.len(),
{
    if args.len() > 0 {
        lemma_coerce_all(convs, args.drop_first(), fts.drop_first());
        assert(forall|i: int|
            1 <= i < args.len() ==> args.drop_first()[i - 1] == #[trigger] args[i]
                && fts.drop_first()[i - 1] == fts[i]);
        if spec_coerce(convs, args[0], fts[0]) is Some && spec_coerce_all(
            convs,
            args.drop_first(),
            fts.drop_first(),
        ) is Some {
            let x = spec_coerce(convs, args[0], fts[0])->Some_0;
            let rest = spec_coerce_all(convs, args.drop_first(), fts.drop_first())->Some_0;
            assert(forall|i: int| 1 <= i < args.len() ==> (seq![x] + rest)[i] == rest[i - 1]);
        }
    }
}

/// Build one destination variant from the bound fields, coercing each
/// field into its positional type when `conv` is set.
pub open spec fn spec_construct(
    convs: Seq<SpecConversion>,
    en: Seq<char>,
    var: Seq<char>,
    args: Seq<Val>,
    conv: bool,
    fts: Seq<Seq<char>>,
) -> Option<Val> {
    if !conv {
        Some(Val::Sum { ty: en, variant: var, fields: args })
    } else {
        match spec_coerce_all(convs, args, fts) {
            None => None,
            Some(cs) => Some(Val::Sum { ty: en, variant: var, fields: cs }),
        }
    }
}

/// What applying a compiled mapping to one source value produces.
#[derive(Debug, PartialEq, Eq)]
pub enum MapOutcome {
    /// A destination value built by a rule's default reconstruction.
    Made(Value),
    /// A custom body, applied to the fields the rule bound.
    Custom { body: String, args: Vec<Value> },
    /// The catch-all clause, applied to the whole unmatched value.
    Fallback { body: String, original: Value },
}

/// The mathematical model of a [`MapOutcome`].
pub enum SpecMapOutcome {
    Made(Val),
    Custom { body: Seq<char>, args: Seq<Val> },
    Fallback { body: Seq<char>, original: Val },
}

impl View for MapOutcome {
    type V = SpecMapOutcome;

    open spec fn view(&self) -> SpecMapOutcome {
        match self {
            MapOutcome::Made(v) => SpecMapOutcome::Made(v@),
            MapOutcome::Custom { body, args } => SpecMapOutcome::Custom {
                body: body@,
                args: value_views(args@),
            },
            MapOutcome::Fallback { body, original } => SpecMapOutcome::Fallback {
                body: body@,
                original: original@,
            },
        }
    }
}

/// Whether the bound fields have the shape the rule's pattern binds: none
/// for a `unit` rule, one per field name for a field list, one opaque
/// payload otherwise.
pub open spec fn spec_shape_fits(r: SpecMapRule, fields: Seq<Val>) -> bool {
    if r.unit {
        fields.len() == 0
    } else if r.fields.len() > 0 {
        fields.len() == r.fields.len()
    } else {
        fields.len() == 1
    }
}

/// One rule's arm applied to the bound fields, in resolution order:
/// `unit`, `flatten` (with or without `convert`), custom body, then
/// default reconstruction.
pub open spec fn spec_arm(
    convs: Seq<SpecConversion>,
    m: SpecEnumMapping,
    r: SpecMapRule,
    fields: Seq<Val>,
) -> Option<SpecMapOutcome> {
    if r.unit {
        Some(
            SpecMapOutcome::Made(
                Val::Sum { ty: m.dest.name, variant: spec_dest_name(r), fields: Seq::empty() },
            ),
        )
    } else if r.flatten {
        if r.convert {
            match spec_coerce(convs, fields[0], m.dest.name) {
                None => None,
                Some(x) => Some(SpecMapOutcome::Made(x)),
            }
        } else {
            Some(SpecMapOutcome::Made(fields[0]))
        }
    } else if r.body is Some {
        Some(SpecMapOutcome::Custom { body: r.body->0, args: fields })
    } else {
        let dn = spec_dest_name(r);
        match spec_find_variant(m.dest.variants, dn) {
            None => None,
            Some(dv) => match spec_construct(convs, m.dest.name, dn, fields, r.convert, dv.field_types) {
                None => None,
                Some(x) => Some(SpecMapOutcome::Made(x)),
            },
        }
    }
}

/// The mapping function applied to one source value: the matching rule's
/// arm, or the catch-all for an unhandled variant.
pub open spec fn spec_apply(
    m: SpecEnumMapping,
    convs: Seq<SpecConversion>,
    v: Val,
) -> Option<SpecMapOutcome> {
    match v {
        Val::Sum { ty, variant, fields } => if ty != m.source.name {
            None
        } else {
            match spec_find_rule(m.rules, variant) {
                Some(r) => if spec_shape_fits(r, fields) {
                    spec_arm(convs, m, r, fields)
                } else {
                    None
                },
                None => match m.catch_all {
                    Some(c) => Some(SpecMapOutcome::Fallback { body: c.body, original: v }),
                    None => None,
                },
            }
        },
        _ => None,
    }
}

/// Apply one single-hop coercion to a payload value.
pub fn coerce(reg: &Registry, v: Value, to: &String) -> (r: Option<Value>)
    ensures
        r matches Some(w) ==> spec_coerce(reg@, v@, to@) == Some(w@),
        r is None ==> spec_coerce(reg@, v@, to@) is None,
{
    if v.ty_name().eq(to) {
        return Some(v);
    }
    match reg.find(v.ty_name(), to) {
        Some(_) => {
            proof {
                lemma_lookup_some(reg@, v@.type_of(), to@);
            }
            convert(reg, v, to)
        },
        None => {
            proof {
                lemma_lookup_some(reg@, v@.type_of(), to@);
            }
            match v {
                Value::Int { ty: _, value } => Some(Value::Int { ty: to.clone(), value }),
                Value::Text { ty: _, text } => Some(Value::Text { ty: to.clone(), text }),
                other => None,
            }
        },
    }
}

/// Match a value against one variant pattern, handing back the bound
/// payload fields on a match and the untouched value otherwise.
pub fn destructure(v: Value, enum_name: &String, variant: &String, unit: bool) -> (r: Result<
    Vec<Value>,
    Value,
>)
    ensures
        r matches Ok(fs) ==> spec_match_variant(v@, enum_name@, variant@, unit) == Some(
            value_views(fs@),
        ),
        r matches Err(orig) ==> orig == v && spec_match_variant(v@, enum_name@, variant@, unit)
            is None,
{
    match v {
        Value::Sum { ty, variant: var, fields } => {
            if ty.eq(enum_name) && var.eq(variant) && (!unit || fields.len() == 0) {
                Ok(fields)
            } else {
                Err(Value::Sum { ty, variant: var, fields })
            }
        },
        other => Err(other),
    }
}

/// Build one destination variant from the bound fields, coercing each
/// field into its positional type when `conv` is set.
pub fn construct(
    reg: &Registry,
    enum_name: &String,
    variant: &String,
    args: Vec<Value>,
    conv: bool,
    field_types: &Vec<String>,
) -> (r: Option<Value>)
    ensures
        r matches Some(w) ==> spec_construct(
            reg@,
            enum_name@,
            variant@,
            value_views(args@),
            conv,
            name_views(field_types@),
        ) == Some(w@),
        r is None ==> spec_construct(
            reg@,
            enum_name@,
            variant@,
            value_views(args@),
            conv,
            name_views(field_types@),
        ) is None,
{
    let ghost orig = value_views(args@);
    let ghost fts = name_views(field_types@);
    proof {
        lemma_value_views(args@);
    }
    if !conv {
        let r = Value::Sum { ty: enum_name.clone(), variant: variant.clone(), fields: args };
        return Some(r);
    }
    if args.len() != field_types.len() {
        return None;
    }
    proof {
        lemma_coerce_all(reg@, orig, fts);
    }
    let n = args.len();
    let mut rest = args;
    let mut done: Vec<Value> = Vec::new();
    for i in 0..n
        invariant
            conv,
            orig == value_views(args@),
            n == orig.len() && n == fts.len(),
            fts == name_views(field_types@),
            rest@.len() == n - i,
            forall|k: int| 0 <= k < n - i ==> #[trigger] rest@[k]@ == orig[k + i],
            done@.len() == i,
            forall|k: int|
                #![trigger orig[k]]
                0 <= k < i ==> spec_coerce(reg@, orig[k], fts[k]) is Some && done@[k]@
                    == spec_coerce(reg@, orig[k], fts[k])->Some_0,
    {
        let ghost rest_before = rest@;
        let a = rest.remove(0);
        proof {
            assert(a@ == orig[i as int]);
            assert(forall|k: int|
                0 <= k < n - i - 1 ==> #[trigger] rest@[k] == rest_before[k + 1]);
        }
        match coerce(reg, a, &field_types[i]) {
            None => {
                proof {
                    lemma_coerce_all(reg@, orig, fts);
                    assert(fts[i as int] == field_types@[i as int]@);
                    assert(spec_coerce(reg@, orig[i as int], fts[i as int]) is None);
                    assert(spec_coerce_all(reg@, orig, fts) is None);
                }
                return None;
            },
            Some(w) => {
                done.push(w);
                proof {
                    assert(fts[i as int] == field_types@[i as int]@);
                    assert(spec_coerce(reg@, orig[i as int], fts[i as int]) == Some(w@));
                    assert(done@[i as int]@ == spec_coerce(reg@, orig[i as int], fts[i as int])->Some_0);
                    assert(forall|k: int| 0 <= k < i ==> #[trigger] done@[k] == done@.drop_last()[k]);
                }
            },
        }
    }
    proof {
        lemma_coerce_all(reg@, orig, fts);
        assert(spec_coerce_all(reg@, orig, fts) is Some);
        let cs = spec_coerce_all(reg@, orig, fts)->Some_0;
        lemma_value_views(done@);
        assert(value_views(done@) =~= cs);
    }
    let r = Value::Sum { ty: enum_name.clone(), variant: variant.clone(), fields: done };
    Some(r)
}

/// Why applying a mapping to a value failed.
#[derive(Debug, PartialEq, Eq)]
pub enum MapApplyError {
    /// The value is not a variant of the source sum type.
    NotSource,
    /// No rule handles the variant and the mapping has no catch-all.
    Unhandled { variant: String },
    /// The fields do not have the shape the rule's pattern binds.
    ShapeMismatch { variant: String },
    /// The rule builds a destination variant that is not declared.
    MissingDestVariant { name: String },
    /// A payload coercion has no conversion to apply.
    Incoercible { variant: String },
}

/// Apply a compiled mapping to one source value.
pub fn apply_mapping(m: &EnumMapping, reg: &Registry, v: Value) -> (r: Result<
    MapOutcome,
    MapApplyError,
>)
    ensures
        r matches Ok(o) ==> spec_apply(m@, reg@, v@) == Some(o@),
        r is Err ==> spec_apply(m@, reg@, v@) is None,
{
    let ghost vv = v@;
    let (ty, variant, fields) = match v {
        Value::Sum { ty, variant, fields } => (ty, variant, fields),
        _ => {
            return Err(MapApplyError::NotSource);
        },
    };
    proof {
        lemma_value_views(fields@);
        assert(vv == Val::Sum { ty: ty@, variant: variant@, fields: value_views(fields@) });
    }
    if !ty.eq(&m.source.name) {
        return Err(MapApplyError::NotSource);
    }
    let ri = match find_rule(&m.rules, &variant) {
        None => {
            match &m.catch_all {
                Some(c) => {
                    let original = Value::Sum { ty, variant, fields };
                    return Ok(MapOutcome::Fallback { body: c.body.clone(), original });
                },
                None => {
                    return Err(MapApplyError::Unhandled { variant });
                },
            }
        },
        Some(i) => i,
    };
    let rule = &m.rules[ri];
    proof {
        assert(m@.rules[ri as int] == m.rules@[ri as int]@);
        assert(spec_find_rule(m@.rules, variant@) == Some(rule@));
    }
    let shape_ok = if rule.unit {
        fields.len() == 0
    } else if rule.fields.len() > 0 {
        fields.len() == rule.fields.len()
    } else {
        fields.len() == 1
    };
    if !shape_ok {
        return Err(MapApplyError::ShapeMismatch { variant });
    }
    if rule.unit {
        let dname: &String = match &rule.renamed {
            Some(x) => x,
            None => &rule.source,
        };
        proof {
            assert(dname@ == spec_dest_name(rule@));
        }
        let empty_fields: Vec<Value> = Vec::new();
        proof {
            assert(value_views(empty_fields@) =~= Seq::<Val>::empty());
        }
        let made = Value::Sum {
            ty: m.dest.name.clone(),
            variant: dname.clone(),
            fields: empty_fields,
        };
        Ok(MapOutcome::Made(made))
    } else if rule.flatten {
        let ghost fv = value_views(fields@);
        let mut fs = fields;
        let p = fs.remove(0);
        proof {
            assert(p@ == fv[0]);
        }
        if rule.convert {
            match coerce(reg, p, &m.dest.name) {
                Some(w) => Ok(MapOutcome::Made(w)),
                None => Err(MapApplyError::Incoercible { variant }),
            }
        } else {
            Ok(MapOutcome::Made(p))
        }
    } else if let Some(b) = &rule.body {
        Ok(MapOutcome::Custom { body: b.clone(), args: fields })
    } else {
        let dname: &String = match &rule.renamed {
            Some(x) => x,
            None => &rule.source,
        };
        proof {
            assert(dname@ == spec_dest_name(rule@));
        }
        let dvi = match m.dest.find_variant(dname) {
            None => {
                return Err(MapApplyError::MissingDestVariant { name: dname.clone() });
            },
            Some(i) => i,
        };
        proof {
            assert(m.dest.variants@[dvi as int]@ == m@.dest.variants[dvi as int]);
        }
        match construct(reg, &m.dest.name, dname, fields, rule.convert, &m.dest.variants[dvi].field_types) {
            Some(w) => Ok(MapOutcome::Made(w)),
            None => Err(MapApplyError::Incoercible { variant }),
        }
    }
}



/// A successful coercion yields a value of the requested type.
pub proof fn lemma_coerce_type(convs: Seq<SpecConversion>, v: Val, to: Seq<char>)
    requires
        spec_coerce(convs, v, to) is Some,
    ensures
        spec_coerce(convs, v, to)->Some_0.type_of() == to,
{
    if v.type_of() == to {
    } else if has_pair(convs, v.type_of(), to) {
        crate::chain::lemma_convert_type(convs, v, to, convs.len());
    }
}

/// A found rule is one of the list's elements.
proof fn lemma_find_rule_is_element(rules: Seq<SpecMapRule>, variant: Seq<char>)
    requires
        spec_find_rule(rules, variant) is Some,
    ensures
        exists|i: int|
            0 <= i < rules.len() && #[trigger] rules[i] == spec_find_rule(rules, variant)->Some_0
                && rules[i].source == variant,
    decreases rules.len(),
{
    if rules.len() > 0 {
        if rules[0].source == variant {
            assert(rules[0] == spec_find_rule(rules, variant)->Some_0);
        } else {
            lemma_find_rule_is_element(rules.drop_first(), variant);
            let i = choose|i: int|
                0 <= i < rules.drop_first().len() && #[trigger] rules.drop_first()[i]
                    == spec_find_rule(rules.drop_first(), variant)->Some_0
                    && rules.drop_first()[i].source == variant;
            assert(rules[i + 1] == rules.drop_first()[i]);
        }
    }
}

/// Against a compiled mapping, every well-typed value of a declared
/// source variant is handled: a rule or the catch-all takes it; a
/// matching rule that coerces nothing always produces an outcome; every
/// value a rule builds belongs to the destination sum type; and a
/// variant no rule names routes through the catch-all with the original
/// value intact.
pub proof fn lemma_mapping_totality(m: SpecEnumMapping, convs: Seq<SpecConversion>, v: Val)
    requires
        spec_mapping_ok(m),
        v is Sum,
        v->Sum_ty == m.source.name,
        spec_find_variant(m.source.variants, v->Sum_variant) is Some,
        v->Sum_fields.len() == spec_find_variant(
            m.source.variants,
            v->Sum_variant,
        )->Some_0.field_types.len(),
        forall|i: int|
            0 <= i < v->Sum_fields.len() ==> (#[trigger] v->Sum_fields[i]).type_of()
                == spec_find_variant(m.source.variants, v->Sum_variant)->Some_0.field_types[i],
    ensures
        spec_find_rule(m.rules, v->Sum_variant) is Some || m.catch_all is Some,
        spec_find_rule(m.rules, v->Sum_variant) is None ==> spec_apply(m, convs, v) == Some(
            SpecMapOutcome::Fallback { body: m.catch_all->Some_0.body, original: v },
        ),
        spec_find_rule(m.rules, v->Sum_variant) matches Some(r) && !r.convert ==> spec_apply(
            m,
            convs,
            v,
        ) is Some,
        spec_apply(m, convs, v) matches Some(SpecMapOutcome::Made(d)) ==> d.type_of()
            == m.dest.name,
{
    let variant = v->Sum_variant;
    let fields = v->Sum_fields;
    let sv = spec_find_variant(m.source.variants, variant)->Some_0;
    assert(spec_find_rule(m.rules, variant) is Some || m.catch_all is Some) by {
        if m.catch_all is None {
            lemma_find_variant_is_element(m.source.variants, variant);
            let vi = choose|vi: int|
                0 <= vi < m.source.variants.len() && #[trigger] m.source.variants[vi]
                    == spec_find_variant(m.source.variants, variant)->Some_0
                    && m.source.variants[vi].name == variant;
            assert(spec_find_rule(m.rules, m.source.variants[vi].name) is Some);
        }
    }
    if spec_find_rule(m.rules, variant) is Some {
        let r = spec_find_rule(m.rules, variant)->Some_0;
        lemma_find_rule_is_element(m.rules, variant);
        let ri = choose|ri: int|
            0 <= ri < m.rules.len() && #[trigger] m.rules[ri] == spec_find_rule(
                m.rules,
                variant,
            )->Some_0 && m.rules[ri].source == variant;
        assert(spec_rule_ok(m.rules[ri], m.source, m.dest));
        assert(spec_rule_ok(r, m.source, m.dest));
        assert(spec_shape_fits(r, fields));
        if r.unit {
        } else if r.flatten {
            if r.convert {
                if spec_coerce(convs, fields[0], m.dest.name) is Some {
                    lemma_coerce_type(convs, fields[0], m.dest.name);
                }
            } else {
                assert(fields[0].type_of() == sv.field_types[0]);
            }
        } else if r.body is Some {
        } else {
            let dn = spec_dest_name(r);
            let dv = spec_find_variant(m.dest.variants, dn)->Some_0;
            if !r.convert {
            } else {
                if spec_coerce_all(convs, fields, dv.field_types) is Some {
                }
            }
        }
    }
}

/// A found variant is one of the list's elements.
proof fn lemma_find_variant_is_element(vs: Seq<SpecVariantSig>, name: Seq<char>)
    requires
        spec_find_variant(vs, name) is Some,
    ensures
        exists|i: int|
            0 <= i < vs.len() && #[trigger] vs[i] == spec_find_variant(vs, name)->Some_0
                && vs[i].name == name,
    decreases vs.len(),
{
    if vs.len() > 0 {
        if vs[0].name == name {
            assert(vs[0] == spec_find_variant(vs, name)->Some_0);
        } else {
            lemma_find_variant_is_element(vs.drop_first(), name);
            let i = choose|i: int|
                0 <= i < vs.drop_first().len() && #[trigger] vs.drop_first()[i]
                    == spec_find_variant(vs.drop_first(), name)->Some_0 && vs.drop_first()[i].name
                    == name;
            assert(vs[i + 1] == vs.drop_first()[i]);
        }
    }
}



/// When a field-list rule with `convert` builds its destination
/// variant, every position of the result is that field's own coercion,
/// the order is kept, and no field is dropped; the build succeeds
/// exactly when every field coerces.
pub proof fn lemma_field_list_fidelity(
    convs: Seq<SpecConversion>,
    en: Seq<char>,
    var: Seq<char>,
    args: Seq<Val>,
    fts: Seq<Seq<char>>,
)
    requires
        args.len() == fts.len(),
    ensures
        spec_construct(convs, en, var, args, true, fts) is Some <==> (forall|i: int|
            0 <= i < args.len() ==> spec_coerce(convs, #[trigger] args[i], fts[i]) is Some),
        spec_construct(convs, en, var, args, true, fts) matches Some(d) ==> {
            &&& d is Sum
            &&& d->Sum_ty == en
            &&& d->Sum_variant == var
            &&& d->Sum_fields.len() == args.len()
            &&& forall|i: int|
                0 <= i < args.len() ==> #[trigger] d->Sum_fields[i] == spec_coerce(
                    convs,
                    args[i],
                    fts[i],
                )->Some_0
        },
{
    lemma_coerce_all(convs, args, fts);
}


} // verus!
