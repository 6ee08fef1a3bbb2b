//! The tree compiler: from a nested schema to type declarations and to
//! the transitive closure of conversions between each type and its
//! ancestors.
//!
//! A schema is a forest of [`Node`]s. Compilation runs in two phases.
//! Phase one classifies every node and declares its type: a node with
//! children becomes a sum type with one variant per child, a plain or
//! `unit` leaf becomes an empty marker type, a `flatunit` leaf becomes a
//! payload-free variant of its parent and no type of its own, and a leaf
//! wrapping a pre-existing (foreign) type declares nothing. Phase two
//! emits, for every node that converts at all, one conversion into each
//! of its ancestors: a direct wrap into the nearest one, and a chained
//! hop through the nearest one into each of the others.
//!
//! Ill-shaped schemas are refused: a node with both children and a
//! foreign payload, a name that collides with a sibling or with any other
//! declared type, and two conversions for one (source, destination) pair
//! are each fatal. A node whose modifier is not recognised (or a leaf
//! modifier placed on a node with children) degrades to a unit leaf, its
//! subtree discarded, and is reported as a warning rather than an error.

use vstd::prelude::*;

use crate::chain::{converted, spec_convert, via_conversion, wrap_conversion};
use crate::simple::{
    conv_views, distinct_pairs, has_pair, lookup, Conversion, EmitError, Registry, SpecConvRule,
    SpecConversion,
};
use crate::value::Val;
use crate::value::name_views;

verus! {

/// The modifier written on one schema entry.
#[derive(Debug, PartialEq, Eq)]
pub enum Modifier {
    /// No modifier: a branch when children follow, else a unit leaf.
    Plain,
    /// `unit`: an empty marker type.
    Unit,
    /// `flatunit`: a payload-free variant of the parent, no type of its
    /// own.
    FlatUnit,
    /// A leaf wrapping the named pre-existing type.
    Foreign(String),
    /// A modifier word the compiler does not recognise.
    Unknown(String),
}

/// One entry of the schema tree.
#[derive(Debug, PartialEq, Eq)]
pub struct Node {
    pub name: String,
    pub modifier: Modifier,
    pub children: Vec<Node>,
    /// Opaque annotation text carried through to the declaration.
    pub annotations: Vec<String>,
}

/// The mathematical model of a [`Modifier`].
pub enum SpecModifier {
    Plain,
    Unit,
    FlatUnit,
    Foreign(Seq<char>),
    Unknown(Seq<char>),
}

/// The mathematical model of a [`Node`].
pub struct SpecNode {
    pub name: Seq<char>,
    pub modifier: SpecModifier,
    pub children: Seq<SpecNode>,
    pub annotations: Seq<Seq<char>>,
}

impl View for Modifier {
    type V = SpecModifier;

    open spec fn view(&self) -> SpecModifier {
        match self {
            Modifier::Plain => SpecModifier::Plain,
            Modifier::Unit => SpecModifier::Unit,
            Modifier::FlatUnit => SpecModifier::FlatUnit,
            Modifier::Foreign(t) => SpecModifier::Foreign(t@),
            Modifier::Unknown(w) => SpecModifier::Unknown(w@),
        }
    }
}

/// The mathematical model of one node.
pub open spec fn node_view(n: Node) -> SpecNode
    decreases n,
{
    SpecNode {
        name: n.name@,
        modifier: n.modifier@,
        children: node_views(n.children@),
        annotations: name_views(n.annotations@),
    }
}

/// The models of a sequence of nodes, element by element.
pub open spec fn node_views(s: Seq<Node>) -> Seq<SpecNode>
    decreases s,
{
    if s.len() == 0 {
        Seq::empty()
    } else {
        seq![node_view(s[0])] + node_views(s.drop_first())
    }
}

/// `node_views` maps `node_view` over the sequence element by element.
pub proof fn lemma_node_views(s: Seq<Node>)
    ensures
        node_views(s).len() == s.len(),
        forall|i: int| 0 <= i < s.len() ==> node_views(s)[i] == node_view(s[i]),
    decreases s.len(),
{
    if s.len() > 0 {
        lemma_node_views(s.drop_first());
    }
}

impl View for Node {
    type V = SpecNode;

    open spec fn view(&self) -> SpecNode {
        node_view(*self)
    }
}

/// How one node behaves once classified.
#[derive(Debug, PartialEq, Eq, Clone, Copy)]
pub enum Kind {
    /// Children and no modifier: a sum type with one variant per child.
    Branch,
    /// A leaf with no modifier or `unit` — or a degraded node: an empty
    /// marker type.
    UnitLeaf,
    /// A `flatunit` leaf: a payload-free variant, no type of its own.
    FlatLeaf,
    /// A leaf wrapping a pre-existing type: no declaration of its own.
    ForeignLeaf,
}

impl SpecNode {
    /// A node offering both children and a foreign payload is ill-shaped.
    pub open spec fn mixed(self) -> bool {
        self.children.len() > 0 && self.modifier is Foreign
    }

    /// A node the compiler accepts only by degrading it to a unit leaf:
    /// a leaf modifier or an unrecognised word on a node with children,
    /// or an unrecognised word on a leaf.
    pub open spec fn degraded(self) -> bool {
        if self.children.len() > 0 {
            self.modifier is Unit || self.modifier is FlatUnit || self.modifier is Unknown
        } else {
            self.modifier is Unknown
        }
    }

    /// The classification of a (non-mixed) node.
    pub open spec fn kind(self) -> Kind {
        if self.children.len() > 0 {
            if self.modifier is Plain {
                Kind::Branch
            } else {
                Kind::UnitLeaf
            }
        } else {
            match self.modifier {
                SpecModifier::FlatUnit => Kind::FlatLeaf,
                SpecModifier::Foreign(_) => Kind::ForeignLeaf,
                _ => Kind::UnitLeaf,
            }
        }
    }

    /// The type a conversion out of this node starts from: the wrapped
    /// pre-existing type for a foreign leaf, the node's own type
    /// otherwise.
    pub open spec fn conv_source(self) -> Seq<char> {
        match self.modifier {
            SpecModifier::Foreign(t) => if self.children.len() == 0 {
                t
            } else {
                self.name
            },
            _ => self.name,
        }
    }
}

impl Node {
    /// Classify this node.
    pub fn kind(&self) -> (k: Kind)
        ensures
            k == self@.kind(),
    {
        if self.children.len() > 0 {
            if let Modifier::Plain = self.modifier {
                Kind::Branch
            } else {
                Kind::UnitLeaf
            }
        } else {
            match &self.modifier {
                Modifier::FlatUnit => Kind::FlatLeaf,
                Modifier::Foreign(_) => Kind::ForeignLeaf,
                _ => Kind::UnitLeaf,
            }
        }
    }
}

/// What one variant of a declared sum type carries.
#[derive(Debug, PartialEq, Eq)]
pub enum VariantPayload {
    /// Nothing: the variant of a `flatunit` child.
    Empty,
    /// A value of the named declared type.
    Declared(String),
    /// A value of the named pre-existing type.
    Foreign(String),
}

/// One variant of a declared sum type.
#[derive(Debug, PartialEq, Eq)]
pub struct VariantDecl {
    pub name: String,
    pub payload: VariantPayload,
}

/// One emitted type declaration.
#[derive(Debug, PartialEq, Eq)]
pub enum TypeDecl {
    /// A sum type with one variant per child of the branch.
    Sum { name: String, variants: Vec<VariantDecl>, annotations: Vec<String> },
    /// An empty marker type.
    Marker { name: String, annotations: Vec<String> },
}

/// The mathematical model of a [`VariantPayload`].
pub enum SpecVariantPayload {
    Empty,
    Declared(Seq<char>),
    Foreign(Seq<char>),
}

/// The mathematical model of a [`VariantDecl`].
pub struct SpecVariantDecl {
    pub name: Seq<char>,
    pub payload: SpecVariantPayload,
}

/// The mathematical model of a [`TypeDecl`].
pub enum SpecTypeDecl {
    Sum { name: Seq<char>, variants: Seq<SpecVariantDecl>, annotations: Seq<Seq<char>> },
    Marker { name: Seq<char>, annotations: Seq<Seq<char>> },
}

impl View for VariantPayload {
    type V = SpecVariantPayload;

    open spec fn view(&self) -> SpecVariantPayload {
        match self {
            VariantPayload::Empty => SpecVariantPayload::Empty,
            VariantPayload::Declared(t) => SpecVariantPayload::Declared(t@),
            VariantPayload::Foreign(t) => SpecVariantPayload::Foreign(t@),
        }
    }
}

impl View for VariantDecl {
    type V = SpecVariantDecl;

    open spec fn view(&self) -> SpecVariantDecl {
        SpecVariantDecl { name: self.name@, payload: self.payload@ }
    }
}

impl View for TypeDecl {
    type V = SpecTypeDecl;

    open spec fn view(&self) -> SpecTypeDecl {
        match self {
            TypeDecl::Sum { name, variants, annotations } => SpecTypeDecl::Sum {
                name: name@,
                variants: Seq::new(variants@.len(), |i: int| variants@[i]@),
                annotations: name_views(annotations@),
            },
            TypeDecl::Marker { name, annotations } => SpecTypeDecl::Marker {
                name: name@,
                annotations: name_views(annotations@),
            },
        }
    }
}

/// The models of a sequence of type declarations.
pub open spec fn decl_views(s: Seq<TypeDecl>) -> Seq<SpecTypeDecl> {
    Seq::new(s.len(), |i: int| s[i]@)
}

/// The variant a child contributes to its parent's sum type.
pub open spec fn spec_variant_of(c: SpecNode) -> SpecVariantDecl {
    SpecVariantDecl {
        name: c.name,
        payload: match c.kind() {
            Kind::FlatLeaf => SpecVariantPayload::Empty,
            Kind::ForeignLeaf => SpecVariantPayload::Foreign(c.modifier->Foreign_0),
            _ => SpecVariantPayload::Declared(c.name),
        },
    }
}

/// The variants of a branch, one per child, in order.
pub open spec fn spec_variants_of(children: Seq<SpecNode>) -> Seq<SpecVariantDecl> {
    Seq::new(children.len(), |i: int| spec_variant_of(children[i]))
}

/// Phase one for one node: the declarations of the node and, under a
/// branch, of its whole subtree, in pre-order.
pub open spec fn spec_decls_of_node(n: SpecNode) -> Seq<SpecTypeDecl>
    decreases n,
{
    match n.kind() {
        Kind::Branch => seq![
            SpecTypeDecl::Sum {
                name: n.name,
                variants: spec_variants_of(n.children),
                annotations: n.annotations,
            },
        ] + spec_decls_of_forest(n.children),
        Kind::UnitLeaf => seq![SpecTypeDecl::Marker { name: n.name, annotations: n.annotations }],
        _ => Seq::empty(),
    }
}

/// Phase one for a forest.
pub open spec fn spec_decls_of_forest(s: Seq<SpecNode>) -> Seq<SpecTypeDecl>
    decreases s,
{
    if s.len() == 0 {
        Seq::empty()
    } else {
        spec_decls_of_node(s[0]) + spec_decls_of_forest(s.drop_first())
    }
}

/// The conversions out of one node whose ancestors are `path`, nearest
/// first: a direct wrap into the nearest ancestor, and a chained hop
/// through the nearest ancestor into each of the others.
pub open spec fn spec_path_conversions(
    from: Seq<char>,
    variant: Seq<char>,
    path: Seq<Seq<char>>,
) -> Seq<SpecConversion> {
    Seq::new(
        path.len(),
        |i: int|
            if i == 0 {
                SpecConversion {
                    from: from,
                    to: path[0],
                    rule: SpecConvRule::Wrap { variant: variant, payload: from },
                }
            } else {
                SpecConversion { from: from, to: path[i], rule: SpecConvRule::Via { middle: path[0] } }
            },
    )
}

/// Phase two for one node: its own conversions into every ancestor (none
/// for a flat leaf), then those of its subtree when it is a branch.
pub open spec fn spec_convs_of_node(n: SpecNode, path: Seq<Seq<char>>) -> Seq<SpecConversion>
    decreases n,
{
    (if n.kind() is FlatLeaf {
        Seq::empty()
    } else {
        spec_path_conversions(n.conv_source(), n.name, path)
    }) + (if n.kind() is Branch {
        spec_convs_of_forest(n.children, seq![n.name] + path)
    } else {
        Seq::empty()
    })
}

/// Phase two for a forest.
pub open spec fn spec_convs_of_forest(s: Seq<SpecNode>, path: Seq<Seq<char>>) -> Seq<
    SpecConversion,
>
    decreases s,
{
    if s.len() == 0 {
        Seq::empty()
    } else {
        spec_convs_of_node(s[0], path) + spec_convs_of_forest(s.drop_first(), path)
    }
}

/// The names of the nodes a compilation degrades to unit leaves.
pub open spec fn spec_warnings_of_node(n: SpecNode) -> Seq<Seq<char>>
    decreases n,
{
    (if n.degraded() {
        seq![n.name]
    } else {
        Seq::empty()
    }) + (if n.kind() is Branch {
        spec_warnings_of_forest(n.children)
    } else {
        Seq::empty()
    })
}

/// The degraded names of a forest, in pre-order.
pub open spec fn spec_warnings_of_forest(s: Seq<SpecNode>) -> Seq<Seq<char>>
    decreases s,
{
    if s.len() == 0 {
        Seq::empty()
    } else {
        spec_warnings_of_node(s[0]) + spec_warnings_of_forest(s.drop_first())
    }
}

/// The names a compilation declares as types, in pre-order.
pub open spec fn spec_declared_of_node(n: SpecNode) -> Seq<Seq<char>>
    decreases n,
{
    match n.kind() {
        Kind::Branch => seq![n.name] + spec_declared_of_forest(n.children),
        Kind::UnitLeaf => seq![n.name],
        _ => Seq::empty(),
    }
}

/// The declared names of a forest, in pre-order.
pub open spec fn spec_declared_of_forest(s: Seq<SpecNode>) -> Seq<Seq<char>>
    decreases s,
{
    if s.len() == 0 {
        Seq::empty()
    } else {
        spec_declared_of_node(s[0]) + spec_declared_of_forest(s.drop_first())
    }
}

/// No two siblings share a name.
pub open spec fn spec_names_ok(s: Seq<SpecNode>) -> bool {
    forall|i: int, j: int| 0 <= i < j < s.len() ==> s[i].name != s[j].name
}

/// One node is well-shaped: not mixed, and when it is a branch its
/// children are well-shaped siblings.
pub open spec fn spec_node_ok(n: SpecNode) -> bool
    decreases n, 2int,
{
    !n.mixed() && (n.kind() is Branch ==> spec_forest_ok(n.children))
}

/// Every node of the forest is well-shaped and the siblings at every
/// level have distinct names.
pub open spec fn spec_forest_ok(s: Seq<SpecNode>) -> bool
    decreases s, 1int,
{
    spec_names_ok(s) && spec_all_ok(s)
}

/// Each node of the sequence is well-shaped.
pub open spec fn spec_all_ok(s: Seq<SpecNode>) -> bool
    decreases s, 0int,
{
    if s.len() == 0 {
        true
    } else {
        spec_node_ok(s[0]) && spec_all_ok(s.drop_first())
    }
}

/// No two entries of a name list are equal.
pub open spec fn distinct_names(s: Seq<Seq<char>>) -> bool {
    forall|i: int, j: int| 0 <= i < j < s.len() ==> s[i] != s[j]
}

/// A schema compiles exactly when its forest is well-shaped, no two
/// declared types share a name, and no two conversion obligations share
/// a (source, destination) pair.
pub open spec fn schema_ok(s: Seq<SpecNode>) -> bool {
    &&& spec_forest_ok(s)
    &&& distinct_names(spec_declared_of_forest(s))
    &&& distinct_pairs(spec_convs_of_forest(s, Seq::empty()))
}

/// Somewhere in this subtree (degraded subtrees aside) stands a mixed
/// node named `x`.
pub open spec fn spec_mixed_in(n: SpecNode, x: Seq<char>) -> bool
    decreases n, 1int,
{
    ||| (n.mixed() && n.name == x)
    ||| (n.kind() is Branch && spec_mixed_in_forest(n.children, x))
}

/// Somewhere in this forest stands a mixed node named `x`.
pub open spec fn spec_mixed_in_forest(s: Seq<SpecNode>, x: Seq<char>) -> bool
    decreases s, 0int,
{
    if s.len() == 0 {
        false
    } else {
        spec_mixed_in(s[0], x) || spec_mixed_in_forest(s.drop_first(), x)
    }
}

/// Somewhere at or below this level, two siblings both carry the name
/// `x`.
pub open spec fn spec_clash_from_forest(s: Seq<SpecNode>, x: Seq<char>) -> bool
    decreases s, 1int,
{
    ||| (exists|i: int, j: int| 0 <= i < j < s.len() && s[i].name == x && s[j].name == x)
    ||| spec_clash_each(s, x)
}

/// Below one of these nodes, two siblings both carry the name `x`.
pub open spec fn spec_clash_each(s: Seq<SpecNode>, x: Seq<char>) -> bool
    decreases s, 0int,
{
    if s.len() == 0 {
        false
    } else {
        spec_clash_in(s[0], x) || spec_clash_each(s.drop_first(), x)
    }
}

/// Below this node, two siblings both carry the name `x`.
pub open spec fn spec_clash_in(n: SpecNode, x: Seq<char>) -> bool
    decreases n, 2int,
{
    n.kind() is Branch && spec_clash_from_forest(n.children, x)
}

/// A name list holds the name `x` at two positions.
pub open spec fn dup_in(s: Seq<Seq<char>>, x: Seq<char>) -> bool {
    exists|i: int, j: int| 0 <= i < j < s.len() && s[i] == x && s[j] == x
}

/// The errors that refuse a schema.
#[derive(Debug, PartialEq, Eq)]
pub enum TreeError {
    /// A node declares both children and a foreign payload.
    MixedNode { name: String },
    /// A name collides with a sibling or with another declared type.
    DuplicateName { name: String },
    /// Two obligations target the same (source, destination) pair.
    DuplicateConversion { from: String, to: String },
}

/// Everything one compilation emits: the type declarations in pre-order,
/// the registry holding the conversion closure, and the names of the
/// nodes that were degraded to unit leaves.
#[derive(Debug, PartialEq, Eq)]
pub struct TreeOutput {
    pub decls: Vec<TypeDecl>,
    pub registry: Registry,
    pub warnings: Vec<String>,
}

/// Copy a list of names.
fn clone_names(v: &Vec<String>) -> (r: Vec<String>)
    ensures
        name_views(r@) == name_views(v@),
{
    let mut r: Vec<String> = Vec::new();
    let n = v.len();
    for i in 0..n
        invariant
            n == v@.len(),
            r@.len() == i,
            forall|k: int| 0 <= k < i ==> r@[k]@ == v@[k]@,
    {
        r.push(v[i].clone());
    }
    proof {
        assert(name_views(r@) =~= name_views(v@));
    }
    r
}

impl Node {
    /// Whether compilation degrades this node to a unit leaf.
    pub fn is_degraded(&self) -> (r: bool)
        ensures
            r == self@.degraded(),
    {
        if self.children.len() > 0 {
            match &self.modifier {
                Modifier::Unit => true,
                Modifier::FlatUnit => true,
                Modifier::Unknown(_) => true,
                _ => false,
            }
        } else {
            match &self.modifier {
                Modifier::Unknown(_) => true,
                _ => false,
            }
        }
    }
}

/// The variant a child contributes to its parent's sum type.
fn variant_decl_of(c: &Node) -> (r: VariantDecl)
    ensures
        r@ == spec_variant_of(c@),
{
    let payload = if c.children.len() == 0 {
        match &c.modifier {
            Modifier::FlatUnit => VariantPayload::Empty,
            Modifier::Foreign(t) => VariantPayload::Foreign(t.clone()),
            _ => VariantPayload::Declared(c.name.clone()),
        }
    } else {
        VariantPayload::Declared(c.name.clone())
    };
    VariantDecl { name: c.name.clone(), payload }
}

/// Phase one for one node: append its declarations (and its subtree's,
/// under a branch) to `out`.
fn push_decls_node(n: &Node, out: &mut Vec<TypeDecl>)
    ensures
        decl_views(final(out)@) == decl_views(old(out)@) + spec_decls_of_node(n@),
    decreases *n,
{
    let ghost base = decl_views(out@);
    match n.kind() {
        Kind::Branch => {
            let mut variants: Vec<VariantDecl> = Vec::new();
            let m = n.children.len();
            proof {
                lemma_node_views(n.children@);
            }
            for j in 0..m
                invariant
                    m == n.children@.len(),
                    variants@.len() == j,
                    forall|k: int|
                        0 <= k < j ==> variants@[k]@ == spec_variant_of(
                            #[trigger] node_views(n.children@)[k],
                        ),
                    forall|k: int|
                        0 <= k < n.children@.len() ==> node_views(n.children@)[k] == node_view(
                            #[trigger] n.children@[k],
                        ),
                    node_views(n.children@).len() == n.children@.len(),
            {
                variants.push(variant_decl_of(&n.children[j]));
            }
            let decl = TypeDecl::Sum {
                name: n.name.clone(),
                variants,
                annotations: clone_names(&n.annotations),
            };
            proof {
                assert(decl@ == (SpecTypeDecl::Sum {
                    name: n@.name,
                    variants: spec_variants_of(n@.children),
                    annotations: n@.annotations,
                })) by {
                    assert(Seq::new(decl->Sum_variants@.len(), |i: int| decl->Sum_variants@[i]@)
                        =~= spec_variants_of(n@.children));
                }
            }
            out.push(decl);
            proof {
                assert(decl_views(out@) =~= base + spec_decls_of_node(n@).take(1));
                broadcast use vstd::std_specs::vec::group_vec_axioms;

                assert(decreases_to!(*n => n.children));
                assert(decreases_to!(n.children => n.children@));
                assert(n.children@.skip(0) =~= n.children@);
            }
            push_decls_forest(&n.children, 0, out);
            proof {
                assert(node_views(n.children@).skip(0) =~= node_views(n.children@));
                assert(decl_views(out@) =~= base + spec_decls_of_node(n@));
            }
        },
        Kind::UnitLeaf => {
            let decl = TypeDecl::Marker {
                name: n.name.clone(),
                annotations: clone_names(&n.annotations),
            };
            out.push(decl);
            proof {
                assert(decl_views(out@) =~= base + spec_decls_of_node(n@));
            }
        },
        _ => {
            proof {
                assert(decl_views(out@) =~= base + spec_decls_of_node(n@));
            }
        },
    }
}

/// Phase one for the tail of a forest that starts at entry `i`.
fn push_decls_forest(forest: &Vec<Node>, i: usize, out: &mut Vec<TypeDecl>)
    requires
        i <= forest@.len(),
    ensures
        decl_views(final(out)@) == decl_views(old(out)@) + spec_decls_of_forest(
            node_views(forest@).skip(i as int),
        ),
    decreases forest@.skip(i as int),
{
    let ghost base = decl_views(out@);
    proof {
        lemma_node_views(forest@);
    }
    if i == forest.len() {
        proof {
            assert(node_views(forest@).skip(i as int) =~= Seq::<SpecNode>::empty());
            assert(decl_views(out@) =~= base + spec_decls_of_forest(
                node_views(forest@).skip(i as int),
            ));
        }
        return ;
    }
    proof {
        let s = forest@.skip(i as int);
        assert(s[0] == forest@[i as int]);
        assert(decreases_to!(s => s[0]));
    }
    push_decls_node(&forest[i], out);
    proof {
        let s = forest@.skip(i as int);
        assert(forest@.skip(i as int + 1) =~= s.subrange(1, s.len() as int));
        assert(decreases_to!(s => s.subrange(1, s.len() as int)));
    }
    push_decls_forest(forest, i + 1, out);
    proof {
        let sv = node_views(forest@).skip(i as int);
        assert(sv[0] == node_view(forest@[i as int]));
        assert(sv.drop_first() =~= node_views(forest@).skip(i as int + 1));
        assert(decl_views(out@) =~= base + spec_decls_of_forest(sv));
    }
}


/// Phase two for one node: append its conversions (and its subtree's,
/// under a branch) to `out`; `path` holds the ancestor names, nearest
/// first.
fn push_convs_node(n: &Node, path: &Vec<String>, out: &mut Vec<Conversion>)
    ensures
        conv_views(final(out)@) == conv_views(old(out)@) + spec_convs_of_node(
            n@,
            name_views(path@),
        ),
    decreases *n,
{
    let ghost base = conv_views(out@);
    let ghost sp = name_views(path@);
    let k = n.kind();
    let ghost own = if n@.kind() is FlatLeaf {
        Seq::<SpecConversion>::empty()
    } else {
        spec_path_conversions(n@.conv_source(), n@.name, sp)
    };
    if !matches!(k, Kind::FlatLeaf) {
        let src: &String = if let Modifier::Foreign(t) = &n.modifier {
            if n.children.len() == 0 {
                t
            } else {
                &n.name
            }
        } else {
            &n.name
        };
        proof {
            assert(src@ == n@.conv_source());
        }
        let m = path.len();
        let mut own_items: Vec<Conversion> = Vec::new();
        for i in 0..m
            invariant
                m == path@.len(),
                sp == name_views(path@),
                own == spec_path_conversions(n@.conv_source(), n@.name, sp),
                src@ == n@.conv_source(),
                own_items@.len() == i,
                conv_views(own_items@) =~= own.take(i as int),
        {
            if i == 0 {
                own_items.push(wrap_conversion(&path[0], &n.name, src, src));
            } else {
                own_items.push(via_conversion(&path[i], src, &path[0]));
            }
            proof {
                assert(conv_views(own_items@) =~= own.take(i + 1));
            }
        }
        out.append(&mut own_items);
        proof {
            assert(own.take(m as int) =~= own);
            assert(conv_views(out@) =~= base + own);
        }
    }
    if matches!(k, Kind::Branch) {
        let mut child_path: Vec<String> = Vec::new();
        child_path.push(n.name.clone());
        let m = path.len();
        for i in 0..m
            invariant
                m == path@.len(),
                child_path@.len() == i + 1,
                child_path@[0]@ == n@.name,
                forall|w: int| 0 <= w < i ==> child_path@[w + 1]@ == path@[w]@,
        {
            child_path.push(path[i].clone());
        }
        proof {
            assert(name_views(child_path@) =~= seq![n@.name] + name_views(path@));
            broadcast use vstd::std_specs::vec::group_vec_axioms;

            assert(decreases_to!(*n => n.children));
            assert(decreases_to!(n.children => n.children@));
            assert(n.children@.skip(0) =~= n.children@);
        }
        push_convs_forest(&n.children, 0, &child_path, out);
        proof {
            assert(node_views(n.children@).skip(0) =~= node_views(n.children@));
            assert(conv_views(out@) =~= base + spec_convs_of_node(n@, sp));
        }
    } else {
        proof {
            assert(conv_views(out@) =~= base + spec_convs_of_node(n@, sp));
        }
    }
}

/// Phase two for the tail of a forest that starts at entry `i`.
fn push_convs_forest(forest: &Vec<Node>, i: usize, path: &Vec<String>, out: &mut Vec<Conversion>)
    requires
        i <= forest@.len(),
    ensures
        conv_views(final(out)@) == conv_views(old(out)@) + spec_convs_of_forest(
            node_views(forest@).skip(i as int),
            name_views(path@),
        ),
    decreases forest@.skip(i as int),
{
    let ghost base = conv_views(out@);
    proof {
        lemma_node_views(forest@);
    }
    if i == forest.len() {
        proof {
            assert(node_views(forest@).skip(i as int) =~= Seq::<SpecNode>::empty());
            assert(conv_views(out@) =~= base + spec_convs_of_forest(
                node_views(forest@).skip(i as int),
                name_views(path@),
            ));
        }
        return ;
    }
    proof {
        let s = forest@.skip(i as int);
        assert(s[0] == forest@[i as int]);
        assert(decreases_to!(s => s[0]));
    }
    push_convs_node(&forest[i], path, out);
    proof {
        let s = forest@.skip(i as int);
        assert(forest@.skip(i as int + 1) =~= s.subrange(1, s.len() as int));
        assert(decreases_to!(s => s.subrange(1, s.len() as int)));
    }
    push_convs_forest(forest, i + 1, path, out);
    proof {
        let sv = node_views(forest@).skip(i as int);
        assert(sv[0] == node_view(forest@[i as int]));
        assert(sv.drop_first() =~= node_views(forest@).skip(i as int + 1));
        assert(conv_views(out@) =~= base + spec_convs_of_forest(sv, name_views(path@)));
    }
}

/// Collect the names of degraded nodes, in pre-order.
fn push_warnings_node(n: &Node, out: &mut Vec<String>)
    ensures
        name_views(final(out)@) == name_views(old(out)@) + spec_warnings_of_node(n@),
    decreases *n,
{
    let ghost base = name_views(out@);
    if n.is_degraded() {
        out.push(n.name.clone());
    }
    if matches!(n.kind(), Kind::Branch) {
        proof {
            broadcast use vstd::std_specs::vec::group_vec_axioms;

            assert(decreases_to!(*n => n.children));
            assert(decreases_to!(n.children => n.children@));
            assert(n.children@.skip(0) =~= n.children@);
        }
        push_warnings_forest(&n.children, 0, out);
        proof {
            assert(node_views(n.children@).skip(0) =~= node_views(n.children@));
            assert(name_views(out@) =~= base + spec_warnings_of_node(n@));
        }
    } else {
        proof {
            assert(name_views(out@) =~= base + spec_warnings_of_node(n@));
        }
    }
}

fn push_warnings_forest(forest: &Vec<Node>, i: usize, out: &mut Vec<String>)
    requires
        i <= forest@.len(),
    ensures
        name_views(final(out)@) == name_views(old(out)@) + spec_warnings_of_forest(
            node_views(forest@).skip(i as int),
        ),
    decreases forest@.skip(i as int),
{
    let ghost base = name_views(out@);
    proof {
        lemma_node_views(forest@);
    }
    if i == forest.len() {
        proof {
            assert(node_views(forest@).skip(i as int) =~= Seq::<SpecNode>::empty());
            assert(name_views(out@) =~= base + spec_warnings_of_forest(
                node_views(forest@).skip(i as int),
            ));
        }
        return ;
    }
    proof {
        let s = forest@.skip(i as int);
        assert(s[0] == forest@[i as int]);
        assert(decreases_to!(s => s[0]));
    }
    push_warnings_node(&forest[i], out);
    proof {
        let s = forest@.skip(i as int);
        assert(forest@.skip(i as int + 1) =~= s.subrange(1, s.len() as int));
        assert(decreases_to!(s => s.subrange(1, s.len() as int)));
    }
    push_warnings_forest(forest, i + 1, out);
    proof {
        let sv = node_views(forest@).skip(i as int);
        assert(sv[0] == node_view(forest@[i as int]));
        assert(sv.drop_first() =~= node_views(forest@).skip(i as int + 1));
        assert(name_views(out@) =~= base + spec_warnings_of_forest(sv));
    }
}

/// Collect the names this compilation declares as types, in pre-order.
fn push_declared_node(n: &Node, out: &mut Vec<String>)
    ensures
        name_views(final(out)@) == name_views(old(out)@) + spec_declared_of_node(n@),
    decreases *n,
{
    let ghost base = name_views(out@);
    match n.kind() {
        Kind::Branch => {
            out.push(n.name.clone());
            proof {
                broadcast use vstd::std_specs::vec::group_vec_axioms;

                assert(decreases_to!(*n => n.children));
                assert(decreases_to!(n.children => n.children@));
                assert(n.children@.skip(0) =~= n.children@);
            }
            push_declared_forest(&n.children, 0, out);
            proof {
                assert(node_views(n.children@).skip(0) =~= node_views(n.children@));
                assert(name_views(out@) =~= base + spec_declared_of_node(n@));
            }
        },
        Kind::UnitLeaf => {
            out.push(n.name.clone());
            proof {
                assert(name_views(out@) =~= base + spec_declared_of_node(n@));
            }
        },
        _ => {
            proof {
                assert(name_views(out@) =~= base + spec_declared_of_node(n@));
            }
        },
    }
}

fn push_declared_forest(forest: &Vec<Node>, i: usize, out: &mut Vec<String>)
    requires
        i <= forest@.len(),
    ensures
        name_views(final(out)@) == name_views(old(out)@) + spec_declared_of_forest(
            node_views(forest@).skip(i as int),
        ),
    decreases forest@.skip(i as int),
{
    let ghost base = name_views(out@);
    proof {
        lemma_node_views(forest@);
    }
    if i == forest.len() {
        proof {
            assert(node_views(forest@).skip(i as int) =~= Seq::<SpecNode>::empty());
            assert(name_views(out@) =~= base + spec_declared_of_forest(
                node_views(forest@).skip(i as int),
            ));
        }
        return ;
    }
    proof {
        let s = forest@.skip(i as int);
        assert(s[0] == forest@[i as int]);
        assert(decreases_to!(s => s[0]));
    }
    push_declared_node(&forest[i], out);
    proof {
        let s = forest@.skip(i as int);
        assert(forest@.skip(i as int + 1) =~= s.subrange(1, s.len() as int));
        assert(decreases_to!(s => s.subrange(1, s.len() as int)));
    }
    push_declared_forest(forest, i + 1, out);
    proof {
        let sv = node_views(forest@).skip(i as int);
        assert(sv[0] == node_view(forest@[i as int]));
        assert(sv.drop_first() =~= node_views(forest@).skip(i as int + 1));
        assert(name_views(out@) =~= base + spec_declared_of_forest(sv));
    }
}



/// Find a name that two siblings share, if any.
fn find_sibling_clash(children: &Vec<Node>) -> (r: Option<String>)
    ensures
        r matches Some(x) ==> exists|i: int, j: int|
            0 <= i < j < node_views(children@).len() && node_views(children@)[i].name == x@
                && node_views(children@)[j].name == x@,
        r is None ==> spec_names_ok(node_views(children@)),
{
    proof {
        lemma_node_views(children@);
    }
    let n = children.len();
    for i in 0..n
        invariant
            n == children@.len(),
            node_views(children@).len() == n,
            forall|k: int|
                0 <= k < children@.len() ==> node_views(children@)[k] == node_view(
                    #[trigger] children@[k],
                ),
            forall|a: int, b: int|
                #![trigger node_views(children@)[a].name, node_views(children@)[b].name]
                0 <= a < b < n && a < i ==> node_views(children@)[a].name != node_views(
                    children@,
                )[b].name,
    {
        for j in i + 1..n
            invariant
                n == children@.len(),
                node_views(children@).len() == n,
                i < n,
                forall|k: int|
                    0 <= k < children@.len() ==> node_views(children@)[k] == node_view(
                        #[trigger] children@[k],
                    ),
                forall|b: int|
                    i < b < j ==> node_views(children@)[i as int].name != #[trigger] node_views(
                        children@,
                    )[b].name,
        {
            if children[i].name.eq(&children[j].name) {
                return Some(children[i].name.clone());
            }
        }
    }
    None
}

/// Check one node: refuse a mixed node and any sibling clash below it.
fn check_node(n: &Node) -> (r: Result<(), TreeError>)
    ensures
        r is Ok <==> spec_node_ok(n@),
        r matches Err(TreeError::MixedNode { name }) ==> spec_mixed_in(n@, name@),
        r matches Err(TreeError::DuplicateName { name }) ==> spec_clash_in(n@, name@),
        r matches Err(TreeError::DuplicateConversion { .. }) ==> false,
    decreases *n,
{
    if n.children.len() > 0 {
        if let Modifier::Foreign(_) = &n.modifier {
            return Err(TreeError::MixedNode { name: n.name.clone() });
        }
    }
    if matches!(n.kind(), Kind::Branch) {
        if let Some(x) = find_sibling_clash(&n.children) {
            return Err(TreeError::DuplicateName { name: x });
        }
        proof {
            broadcast use vstd::std_specs::vec::group_vec_axioms;

            assert(decreases_to!(*n => n.children));
            assert(decreases_to!(n.children => n.children@));
            assert(n.children@.skip(0) =~= n.children@);
        }
        let r = check_forest(&n.children, 0);
        proof {
            assert(node_views(n.children@).skip(0) =~= node_views(n.children@));
        }
        match r {
            Ok(_) => Ok(()),
            Err(e) => Err(e),
        }
    } else {
        Ok(())
    }
}

/// Check every node of the forest tail that starts at entry `i`.
fn check_forest(forest: &Vec<Node>, i: usize) -> (r: Result<(), TreeError>)
    requires
        i <= forest@.len(),
    ensures
        r is Ok <==> spec_all_ok(node_views(forest@).skip(i as int)),
        r matches Err(TreeError::MixedNode { name }) ==> spec_mixed_in_forest(
            node_views(forest@).skip(i as int),
            name@,
        ),
        r matches Err(TreeError::DuplicateName { name }) ==> spec_clash_each(
            node_views(forest@).skip(i as int),
            name@,
        ),
        r matches Err(TreeError::DuplicateConversion { .. }) ==> false,
    decreases forest@.skip(i as int),
{
    proof {
        lemma_node_views(forest@);
    }
    if i == forest.len() {
        proof {
            assert(node_views(forest@).skip(i as int) =~= Seq::<SpecNode>::empty());
        }
        return Ok(());
    }
    proof {
        let s = forest@.skip(i as int);
        assert(s[0] == forest@[i as int]);
        assert(decreases_to!(s => s[0]));
        let sv = node_views(forest@).skip(i as int);
        assert(sv[0] == node_view(forest@[i as int]));
        assert(sv.drop_first() =~= node_views(forest@).skip(i as int + 1));
    }
    match check_node(&forest[i]) {
        Err(e) => Err(e),
        Ok(_) => {
            proof {
                let s = forest@.skip(i as int);
                assert(forest@.skip(i as int + 1) =~= s.subrange(1, s.len() as int));
                assert(decreases_to!(s => s.subrange(1, s.len() as int)));
            }
            match check_forest(forest, i + 1) {
                Err(e) => Err(e),
                Ok(_) => Ok(()),
            }
        },
    }
}

/// Find a name that occurs twice in a list, if any.
fn find_dup_name(names: &Vec<String>) -> (r: Option<String>)
    ensures
        r matches Some(x) ==> dup_in(name_views(names@), x@),
        r is None ==> distinct_names(name_views(names@)),
{
    let n = names.len();
    for i in 0..n
        invariant
            n == names@.len(),
            forall|a: int, b: int|
                #![trigger name_views(names@)[a], name_views(names@)[b]]
                0 <= a < b < n && a < i ==> name_views(names@)[a] != name_views(names@)[b],
    {
        for j in i + 1..n
            invariant
                n == names@.len(),
                i < n,
                forall|b: int|
                    i < b < j ==> name_views(names@)[i as int] != #[trigger] name_views(
                        names@,
                    )[b],
        {
            if names[i].eq(&names[j]) {
                proof {
                    assert(name_views(names@)[i as int] == names@[i as int]@);
                    assert(name_views(names@)[j as int] == names@[j as int]@);
                }
                return Some(names[i].clone());
            }
        }
    }
    None
}

/// Compile a whole schema: refuse an ill-shaped forest, then declare
/// every type and register every conversion obligation.
pub fn compile_tree(forest: &Vec<Node>) -> (r: Result<TreeOutput, TreeError>)
    ensures
        r is Ok <==> schema_ok(node_views(forest@)),
        r matches Ok(out) ==> {
            &&& decl_views(out.decls@) == spec_decls_of_forest(node_views(forest@))
            &&& out.registry@ == spec_convs_of_forest(node_views(forest@), Seq::empty())
            &&& out.registry.wf()
            &&& name_views(out.warnings@) == spec_warnings_of_forest(node_views(forest@))
        },
        r matches Err(e) ==> match e {
            TreeError::MixedNode { name } => spec_mixed_in_forest(node_views(forest@), name@),
            TreeError::DuplicateName { name } => spec_clash_from_forest(node_views(forest@), name@)
                || dup_in(spec_declared_of_forest(node_views(forest@)), name@),
            TreeError::DuplicateConversion { from, to } => !distinct_pairs(
                spec_convs_of_forest(node_views(forest@), Seq::empty()),
            ) && has_pair(spec_convs_of_forest(node_views(forest@), Seq::empty()), from@, to@),
        },
{
    let ghost views = node_views(forest@);
    if let Some(x) = find_sibling_clash(forest) {
        return Err(TreeError::DuplicateName { name: x });
    }
    proof {
        assert(views.skip(0) =~= views);
        assert(forest@.skip(0) =~= forest@);
    }
    if let Err(e) = check_forest(forest, 0) {
        return Err(e);
    }
    let mut declared: Vec<String> = Vec::new();
    push_declared_forest(forest, 0, &mut declared);
    proof {
        assert(name_views(declared@) =~= spec_declared_of_forest(views));
    }
    if let Some(x) = find_dup_name(&declared) {
        return Err(TreeError::DuplicateName { name: x });
    }
    let mut convs: Vec<Conversion> = Vec::new();
    let empty_path: Vec<String> = Vec::new();
    proof {
        assert(name_views(empty_path@) =~= Seq::<Seq<char>>::empty());
    }
    push_convs_forest(forest, 0, &empty_path, &mut convs);
    proof {
        assert(conv_views(convs@) =~= spec_convs_of_forest(views, Seq::empty()));
    }
    let ghost batch = conv_views(convs@);
    let mut registry = Registry::new();
    if let Err(e) = registry.register_all(convs) {
        let EmitError::Duplicate { from, to } = e;
        proof {
            assert(!crate::simple::fresh_batch(Seq::<SpecConversion>::empty(), batch));
            assert(!distinct_pairs(batch));
            assert(Seq::<SpecConversion>::empty() + batch =~= batch);
        }
        return Err(TreeError::DuplicateConversion { from, to });
    }
    proof {
        assert(Seq::<SpecConversion>::empty() + batch =~= batch);
        assert(distinct_pairs(batch)) by {
            assert(crate::simple::fresh_batch(Seq::<SpecConversion>::empty(), batch));
        }
    }
    let mut decls: Vec<TypeDecl> = Vec::new();
    push_decls_forest(forest, 0, &mut decls);
    proof {
        assert(decl_views(decls@) =~= spec_decls_of_forest(views));
    }
    let mut warnings: Vec<String> = Vec::new();
    push_warnings_forest(forest, 0, &mut warnings);
    proof {
        assert(name_views(warnings@) =~= spec_warnings_of_forest(views));
    }
    Ok(TreeOutput { decls, registry, warnings })
}



/// Membership of a node in a subtree: `n` stands somewhere in `root`'s
/// subtree with ancestor names `anc`, nearest first, where `base` holds
/// the ancestors of `root` itself.
pub open spec fn spec_in_node(
    root: SpecNode,
    base: Seq<Seq<char>>,
    n: SpecNode,
    anc: Seq<Seq<char>>,
) -> bool
    decreases root, 1int,
{
    ||| (n == root && anc == base)
    ||| (root.kind() is Branch && spec_in_forest(root.children, seq![root.name] + base, n, anc))
}

/// Membership of a node in a forest whose own ancestors are `base`.
pub open spec fn spec_in_forest(
    s: Seq<SpecNode>,
    base: Seq<Seq<char>>,
    n: SpecNode,
    anc: Seq<Seq<char>>,
) -> bool
    decreases s, 0int,
{
    if s.len() == 0 {
        false
    } else {
        spec_in_node(s[0], base, n, anc) || spec_in_forest(s.drop_first(), base, n, anc)
    }
}

/// A contained element stays contained when the sequence grows on either
/// side.
proof fn lemma_contains_concat<T>(a: Seq<T>, b: Seq<T>, x: T)
    requires
        a.contains(x) || b.contains(x),
    ensures
        (a + b).contains(x),
{
    if a.contains(x) {
        let i = choose|i: int| 0 <= i < a.len() && a[i] == x;
        assert((a + b)[i] == x);
    } else {
        let i = choose|i: int| 0 <= i < b.len() && b[i] == x;
        assert((a + b)[a.len() + i] == x);
    }
}

/// Completeness over one subtree: every conversion obligation of a member
/// node stands in the subtree's emitted conversions.
proof fn lemma_node_conv_contains(
    root: SpecNode,
    base: Seq<Seq<char>>,
    n: SpecNode,
    anc: Seq<Seq<char>>,
    k: int,
)
    requires
        spec_in_node(root, base, n, anc),
        !(n.kind() is FlatLeaf),
        0 <= k < anc.len(),
    ensures
        spec_convs_of_node(root, base).contains(
            spec_path_conversions(n.conv_source(), n.name, anc)[k],
        ),
    decreases root, 1int,
{
    let target = spec_path_conversions(n.conv_source(), n.name, anc)[k];
    if n == root && anc == base {
        let own = spec_path_conversions(root.conv_source(), root.name, base);
        assert(own[k] == target);
        assert(spec_convs_of_node(root, base)[k] == target);
        assert(spec_convs_of_node(root, base).contains(target));
    } else {
        assert(root.kind() is Branch && spec_in_forest(
            root.children,
            seq![root.name] + base,
            n,
            anc,
        ));
        lemma_forest_conv_contains(root.children, seq![root.name] + base, n, anc, k);
        let own = spec_path_conversions(root.conv_source(), root.name, base);
        lemma_contains_concat(
            own,
            spec_convs_of_forest(root.children, seq![root.name] + base),
            target,
        );
    }
}

proof fn lemma_forest_conv_contains(
    s: Seq<SpecNode>,
    base: Seq<Seq<char>>,
    n: SpecNode,
    anc: Seq<Seq<char>>,
    k: int,
)
    requires
        spec_in_forest(s, base, n, anc),
        !(n.kind() is FlatLeaf),
        0 <= k < anc.len(),
    ensures
        spec_convs_of_forest(s, base).contains(
            spec_path_conversions(n.conv_source(), n.name, anc)[k],
        ),
    decreases s, 0int,
{
    let target = spec_path_conversions(n.conv_source(), n.name, anc)[k];
    if spec_in_node(s[0], base, n, anc) {
        lemma_node_conv_contains(s[0], base, n, anc, k);
        lemma_contains_concat(
            spec_convs_of_node(s[0], base),
            spec_convs_of_forest(s.drop_first(), base),
            target,
        );
    } else {
        lemma_forest_conv_contains(s.drop_first(), base, n, anc, k);
        lemma_contains_concat(
            spec_convs_of_node(s[0], base),
            spec_convs_of_forest(s.drop_first(), base),
            target,
        );
    }
}

/// In a registry without duplicate pairs, a contained conversion is what
/// lookup of its pair returns.
pub proof fn lemma_lookup_unique(s: Seq<SpecConversion>, c: SpecConversion)
    requires
        distinct_pairs(s),
        s.contains(c),
    ensures
        lookup(s, c.from, c.to) == Some(c),
    decreases s.len(),
{
    let w = choose|w: int| 0 <= w < s.len() && s[w] == c;
    if s[0].from == c.from && s[0].to == c.to {
        if w != 0 {
            assert(s[0].from == s[w].from && s[0].to == s[w].to);
            assert(false);
        }
    } else {
        assert(w != 0);
        assert(s.drop_first()[w - 1] == c);
        assert(distinct_pairs(s.drop_first())) by {
            assert(forall|a: int, b: int|
                #![trigger s.drop_first()[a], s.drop_first()[b]]
                0 <= a < b < s.drop_first().len() ==> s.drop_first()[a] == s[a + 1]
                    && s.drop_first()[b] == s[b + 1]);
        }
        lemma_lookup_unique(s.drop_first(), c);
    }
}

/// Every conversion a schema owes exists: for every node (flat leaves
/// aside) and every one of its ancestors, the emitted conversions hold a
/// conversion from the node's source type into that ancestor — a direct
/// wrap into the nearest one, a chained hop into each of the others —
/// and on a registry without duplicate pairs it is what lookup finds.
pub proof fn lemma_tree_completeness(s0: Seq<SpecNode>, n: SpecNode, anc: Seq<Seq<char>>, k: int)
    requires
        spec_in_forest(s0, Seq::empty(), n, anc),
        !(n.kind() is FlatLeaf),
        0 <= k < anc.len(),
    ensures
        has_pair(spec_convs_of_forest(s0, Seq::empty()), n.conv_source(), anc[k]),
        distinct_pairs(spec_convs_of_forest(s0, Seq::empty())) ==> lookup(
            spec_convs_of_forest(s0, Seq::empty()),
            n.conv_source(),
            anc[k],
        ) == Some(spec_path_conversions(n.conv_source(), n.name, anc)[k]),
{
    let convs = spec_convs_of_forest(s0, Seq::empty());
    let target = spec_path_conversions(n.conv_source(), n.name, anc)[k];
    lemma_forest_conv_contains(s0, Seq::empty(), n, anc, k);
    let w = choose|w: int| 0 <= w < convs.len() && convs[w] == target;
    assert(convs[w].from == n.conv_source() && convs[w].to == anc[k]);
    if distinct_pairs(convs) {
        lemma_lookup_unique(convs, target);
    }
}

/// The value that wrapping `v` upward through `k + 1` ancestor layers
/// builds: the nearest ancestor's variant named after the node, then each
/// ancestor's variant named after the one below it.
pub open spec fn spec_lift(v: Val, nname: Seq<char>, anc: Seq<Seq<char>>, k: int) -> Val
    decreases k,
{
    if k <= 0 {
        Val::Sum { ty: anc[0], variant: nname, fields: seq![v] }
    } else {
        Val::Sum { ty: anc[k], variant: anc[k - 1], fields: seq![spec_lift(v, nname, anc, k - 1)] }
    }
}

/// Lifting through `k` layers equals lifting once and then lifting the
/// result through the remaining layers from the parent.
proof fn lemma_lift_shift(v: Val, nname: Seq<char>, anc: Seq<Seq<char>>, k: int)
    requires
        1 <= k < anc.len(),
    ensures
        spec_lift(v, nname, anc, k) == spec_lift(
            spec_lift(v, nname, anc, 0),
            anc[0],
            anc.drop_first(),
            k - 1,
        ),
    decreases k,
{
    if k > 1 {
        lemma_lift_shift(v, nname, anc, k - 1);
    }
}

/// If a node stands in the forest with a non-empty ancestor path, its
/// nearest ancestor stands there too, as a branch, with the rest of the
/// path.
proof fn lemma_parent_in_node(root: SpecNode, base: Seq<Seq<char>>, n: SpecNode, anc: Seq<Seq<char>>)
    requires
        spec_in_node(root, base, n, anc),
        anc != base,
    ensures
        exists|p: SpecNode|
            #![all_triggers]
            spec_in_node(root, base, p, anc.drop_first()) && p.name == anc[0] && p.kind()
                is Branch,
    decreases root, 1int,
{
    assert(root.kind() is Branch && spec_in_forest(root.children, seq![root.name] + base, n, anc));
    if anc == seq![root.name] + base {
        assert(anc.drop_first() =~= base);
        assert(spec_in_node(root, base, root, anc.drop_first()));
        assert(anc[0] == root.name);
    } else {
        lemma_parent_in_forest(root.children, seq![root.name] + base, n, anc);
        let p = choose|p: SpecNode|
            #![all_triggers]
            spec_in_forest(root.children, seq![root.name] + base, p, anc.drop_first()) && p.name
                == anc[0] && p.kind() is Branch;
        assert(spec_in_node(root, base, p, anc.drop_first()));
    }
}

proof fn lemma_parent_in_forest(
    s: Seq<SpecNode>,
    base: Seq<Seq<char>>,
    n: SpecNode,
    anc: Seq<Seq<char>>,
)
    requires
        spec_in_forest(s, base, n, anc),
        anc != base,
    ensures
        exists|p: SpecNode|
            #![all_triggers]
            spec_in_forest(s, base, p, anc.drop_first()) && p.name == anc[0] && p.kind()
                is Branch,
    decreases s, 0int,
{
    if spec_in_node(s[0], base, n, anc) {
        lemma_parent_in_node(s[0], base, n, anc);
        let p = choose|p: SpecNode|
            #![all_triggers]
            spec_in_node(s[0], base, p, anc.drop_first()) && p.name == anc[0] && p.kind()
                is Branch;
        assert(spec_in_forest(s, base, p, anc.drop_first()));
    } else {
        lemma_parent_in_forest(s.drop_first(), base, n, anc);
        let p = choose|p: SpecNode|
            #![all_triggers]
            spec_in_forest(s.drop_first(), base, p, anc.drop_first()) && p.name == anc[0]
                && p.kind() is Branch;
        assert(spec_in_forest(s, base, p, anc.drop_first()));
    }
}

/// On a registry compiled from a well-shaped schema, converting a value
/// of a node's source type into the ancestor at distance `k` succeeds
/// and yields exactly the value wrapped upward layer by layer — the same
/// value the single-hop conversions produce when applied manually at
/// each level.
pub proof fn lemma_tree_convert(
    s0: Seq<SpecNode>,
    n: SpecNode,
    anc: Seq<Seq<char>>,
    v: Val,
    k: int,
    fuel: nat,
)
    requires
        spec_in_forest(s0, Seq::empty(), n, anc),
        distinct_pairs(spec_convs_of_forest(s0, Seq::empty())),
        !(n.kind() is FlatLeaf),
        0 <= k < anc.len(),
        v.type_of() == n.conv_source(),
        fuel > k,
    ensures
        spec_convert(spec_convs_of_forest(s0, Seq::empty()), v, anc[k], fuel) == Some(
            spec_lift(v, n.name, anc, k),
        ),
    decreases k,
{
    let convs = spec_convs_of_forest(s0, Seq::empty());
    let own = spec_path_conversions(n.conv_source(), n.name, anc);
    lemma_tree_completeness(s0, n, anc, k);
    if k == 0 {
        assert(lookup(convs, v.type_of(), anc[0]) == Some(own[0]));
        assert(own[0].rule == (SpecConvRule::Wrap {
            variant: n.name,
            payload: n.conv_source(),
        }));
        assert(spec_convert(convs, v, anc[0], fuel) == Some(
            Val::Sum { ty: anc[0], variant: n.name, fields: seq![v] },
        ));
    } else {
        assert(lookup(convs, v.type_of(), anc[k]) == Some(own[k]));
        assert(own[k].rule == (SpecConvRule::Via { middle: anc[0] }));
        lemma_tree_convert(s0, n, anc, v, 0, (fuel - 1) as nat);
        let w0 = spec_lift(v, n.name, anc, 0);
        assert(w0.type_of() == anc[0]);
        lemma_parent_in_forest(s0, Seq::empty(), n, anc);
        let p = choose|p: SpecNode|
            #![all_triggers]
            spec_in_forest(s0, Seq::empty(), p, anc.drop_first()) && p.name == anc[0] && p.kind()
                is Branch;
        assert(p.conv_source() == p.name);
        assert(!(p.kind() is FlatLeaf));
        assert(anc.drop_first().len() == anc.len() - 1);
        lemma_tree_convert(s0, p, anc.drop_first(), w0, k - 1, (fuel - 1) as nat);
        assert(anc.drop_first()[k - 1] == anc[k]);
        lemma_lift_shift(v, n.name, anc, k);
    }
}

/// Peel `d` single-field layers off a value.
pub open spec fn spec_peel(w: Val, d: nat) -> Val
    decreases d,
{
    if d == 0 {
        w
    } else {
        match w {
            Val::Sum { ty, variant, fields } => if fields.len() == 1 {
                spec_peel(fields[0], (d - 1) as nat)
            } else {
                w
            },
            _ => w,
        }
    }
}

/// The lifted value carries the original, unchanged, under exactly
/// `k + 1` single-field layers.
pub proof fn lemma_lift_preserves(v: Val, nname: Seq<char>, anc: Seq<Seq<char>>, k: int)
    requires
        0 <= k,
    ensures
        spec_peel(spec_lift(v, nname, anc, k), (k + 1) as nat) == v,
    decreases k,
{
    if k == 0 {
        assert(spec_peel(v, 0) == v);
    } else {
        lemma_lift_preserves(v, nname, anc, k - 1);
    }
}

/// A flat leaf declares no type of its own, adds no conversion
/// obligation of its own, and contributes a payload-free variant to its
/// parent: nothing ever wraps, or converts into, a flat-leaf type.
pub proof fn lemma_flat_leaf_transparent(n: SpecNode, path: Seq<Seq<char>>)
    requires
        n.kind() is FlatLeaf,
    ensures
        spec_decls_of_node(n) == Seq::<SpecTypeDecl>::empty(),
        spec_declared_of_node(n) == Seq::<Seq<char>>::empty(),
        spec_convs_of_node(n, path) == Seq::<SpecConversion>::empty(),
        spec_variant_of(n).payload is Empty,
{
    assert(spec_convs_of_node(n, path) =~= Seq::<SpecConversion>::empty());
}



/// A member node's conversions alone already count one per ancestor.
proof fn lemma_node_conv_len(root: SpecNode, base: Seq<Seq<char>>, n: SpecNode, anc: Seq<Seq<char>>)
    requires
        spec_in_node(root, base, n, anc),
        !(n.kind() is FlatLeaf),
    ensures
        spec_convs_of_node(root, base).len() >= anc.len(),
    decreases root, 1int,
{
    if n == root && anc == base {
    } else {
        lemma_forest_conv_len(root.children, seq![root.name] + base, n, anc);
    }
}

proof fn lemma_forest_conv_len(s: Seq<SpecNode>, base: Seq<Seq<char>>, n: SpecNode, anc: Seq<Seq<char>>)
    requires
        spec_in_forest(s, base, n, anc),
        !(n.kind() is FlatLeaf),
    ensures
        spec_convs_of_forest(s, base).len() >= anc.len(),
    decreases s, 0int,
{
    if spec_in_node(s[0], base, n, anc) {
        lemma_node_conv_len(s[0], base, n, anc);
    } else {
        lemma_forest_conv_len(s.drop_first(), base, n, anc);
    }
}

/// [`lemma_tree_convert`] at the default depth the executable conversion
/// uses: the compiled registry is always deep enough for its own tree.
pub proof fn lemma_tree_converted(s0: Seq<SpecNode>, n: SpecNode, anc: Seq<Seq<char>>, v: Val, k: int)
    requires
        spec_in_forest(s0, Seq::empty(), n, anc),
        distinct_pairs(spec_convs_of_forest(s0, Seq::empty())),
        !(n.kind() is FlatLeaf),
        0 <= k < anc.len(),
        v.type_of() == n.conv_source(),
    ensures
        converted(spec_convs_of_forest(s0, Seq::empty()), v, anc[k]) == Some(
            spec_lift(v, n.name, anc, k),
        ),
{
    lemma_forest_conv_len(s0, Seq::empty(), n, anc);
    lemma_tree_convert(s0, n, anc, v, k, spec_convs_of_forest(s0, Seq::empty()).len());
}

/// Converting a value straight into a distant ancestor equals
/// converting it into the nearest ancestor first and converting that
/// result onward, at every depth the tree offers.
pub proof fn lemma_chain_equivalence(
    s0: Seq<SpecNode>,
    n: SpecNode,
    anc: Seq<Seq<char>>,
    v: Val,
    k: int,
)
    requires
        spec_in_forest(s0, Seq::empty(), n, anc),
        distinct_pairs(spec_convs_of_forest(s0, Seq::empty())),
        !(n.kind() is FlatLeaf),
        1 <= k < anc.len(),
        v.type_of() == n.conv_source(),
    ensures
        converted(spec_convs_of_forest(s0, Seq::empty()), v, anc[0]) is Some,
        converted(spec_convs_of_forest(s0, Seq::empty()), v, anc[k]) is Some,
        converted(spec_convs_of_forest(s0, Seq::empty()), v, anc[k]) == converted(
            spec_convs_of_forest(s0, Seq::empty()),
            converted(spec_convs_of_forest(s0, Seq::empty()), v, anc[0])->Some_0,
            anc[k],
        ),
{
    let convs = spec_convs_of_forest(s0, Seq::empty());
    lemma_tree_converted(s0, n, anc, v, 0);
    lemma_tree_converted(s0, n, anc, v, k);
    let w0 = spec_lift(v, n.name, anc, 0);
    lemma_parent_in_forest(s0, Seq::empty(), n, anc);
    let p = choose|p: SpecNode|
        #![all_triggers]
        spec_in_forest(s0, Seq::empty(), p, anc.drop_first()) && p.name == anc[0] && p.kind()
            is Branch;
    assert(p.conv_source() == p.name);
    assert(w0.type_of() == anc[0]);
    lemma_tree_converted(s0, p, anc.drop_first(), w0, k - 1);
    assert(anc.drop_first()[k - 1] == anc[k]);
    lemma_lift_shift(v, n.name, anc, k);
}


/// The climb of a payload-free variant: a value of a branch tagged with
/// one of its flat variants converts into every ancestor, gaining one
/// layer per level and staying payload-free and untouched at the bottom.
pub proof fn lemma_flat_variant_climbs_intact(
    s0: Seq<SpecNode>,
    p: SpecNode,
    anc: Seq<Seq<char>>,
    flat_variant: Seq<char>,
    k: int,
)
    requires
        spec_in_forest(s0, Seq::empty(), p, anc),
        distinct_pairs(spec_convs_of_forest(s0, Seq::empty())),
        p.kind() is Branch,
        0 <= k < anc.len(),
    ensures
        ({
            let v = Val::Sum { ty: p.name, variant: flat_variant, fields: Seq::empty() };
            &&& converted(spec_convs_of_forest(s0, Seq::empty()), v, anc[k]) == Some(
                spec_lift(v, p.name, anc, k),
            )
            &&& spec_peel(spec_lift(v, p.name, anc, k), (k + 1) as nat) == v
        }),
{
    let v = Val::Sum { ty: p.name, variant: flat_variant, fields: Seq::empty() };
    assert(p.conv_source() == p.name);
    lemma_tree_converted(s0, p, anc, v, k);
    lemma_lift_preserves(v, p.name, anc, k);
}

} // verus!
