//! Chained conversions: building whole families of single-hop
//! conversions, and evaluating a registered conversion on a value.
//!
//! [`Registry::from_many`] registers one wrapping conversion into a fixed
//! variant for each of several source types, the way a layered sum type
//! accepts its own child plus everything below it. [`Registry::from_chain`]
//! does that for every level of a linear chain at once, so that the lowest
//! type converts into every type above it.
//!
//! [`convert`] runs one registered conversion on a [`Value`], applying
//! payload conversions and intermediate hops recursively; its meaning is
//! the spec function [`converted`].

use vstd::prelude::*;

use crate::simple::{
    conv_views, fresh_batch, has_pair, lookup, ConvRule, Conversion, EmitError, Registry,
    SpecConvRule, SpecConversion,
};
use crate::value::{name_views, value_views, Val, Value};

verus! {

/// One registered conversion applied to a modelled value, with at most
/// `fuel` nested hops: wrapping adds one layer around the (possibly
/// converted) payload, chaining converts through the intermediate type.
pub open spec fn spec_convert(
    s: Seq<SpecConversion>,
    v: Val,
    to: Seq<char>,
    fuel: nat,
) -> Option<Val>
    decreases fuel,
{
    if fuel == 0 {
        None
    } else {
        match lookup(s, v.type_of(), to) {
            None => None,
            Some(c) => match c.rule {
                SpecConvRule::Wrap { variant, payload } => {
                    if v.type_of() == payload {
                        Some(Val::Sum { ty: to, variant, fields: seq![v] })
                    } else {
                        match spec_convert(s, v, payload, (fuel - 1) as nat) {
                            None => None,
                            Some(w) => Some(Val::Sum { ty: to, variant, fields: seq![w] }),
                        }
                    }
                },
                SpecConvRule::Via { middle } => {
                    match spec_convert(s, v, middle, (fuel - 1) as nat) {
                        None => None,
                        Some(w) => spec_convert(s, w, to, (fuel - 1) as nat),
                    }
                },
            },
        }
    }
}

/// [`spec_convert`] at the default depth: one hop per registered
/// conversion is always enough for the families built in this crate.
pub open spec fn converted(s: Seq<SpecConversion>, v: Val, to: Seq<char>) -> Option<Val> {
    spec_convert(s, v, to, s.len())
}

/// A conversion that succeeds at some depth keeps its result at any
/// greater depth.
pub proof fn lemma_convert_fuel_mono(
    s: Seq<SpecConversion>,
    v: Val,
    to: Seq<char>,
    f1: nat,
    f2: nat,
)
    requires
        f1 <= f2,
        spec_convert(s, v, to, f1) is Some,
    ensures
        spec_convert(s, v, to, f2) == spec_convert(s, v, to, f1),
    decreases f1,
{
    if f1 > 0 {
        match lookup(s, v.type_of(), to) {
            None => {},
            Some(c) => match c.rule {
                SpecConvRule::Wrap { variant, payload } => {
                    if v.type_of() != payload {
                        lemma_convert_fuel_mono(s, v, payload, (f1 - 1) as nat, (f2 - 1) as nat);
                    }
                },
                SpecConvRule::Via { middle } => {
                    lemma_convert_fuel_mono(s, v, middle, (f1 - 1) as nat, (f2 - 1) as nat);
                    let w = spec_convert(s, v, middle, (f1 - 1) as nat)->Some_0;
                    lemma_convert_fuel_mono(s, w, to, (f1 - 1) as nat, (f2 - 1) as nat);
                },
            },
        }
    }
}

/// A singleton field list models to the singleton of the model.
pub proof fn lemma_value_views_one(v: Value)
    ensures
        value_views(seq![v]) == seq![v@],
{
    assert(value_views(seq![v]) =~= seq![v@]) by {
        reveal_with_fuel(value_views, 2);
        assert(seq![v].drop_first() =~= Seq::<Value>::empty());
        assert(seq![v][0] == v);
    }
}

/// Apply the registered conversion from `v`'s type into `to`, descending
/// through at most `fuel` hops.
pub fn convert_fuel(reg: &Registry, v: Value, to: &String, fuel: usize) -> (r: Option<Value>)
    ensures
        r matches Some(w) ==> spec_convert(reg@, v@, to@, fuel as nat) == Some(w@),
        r is None ==> spec_convert(reg@, v@, to@, fuel as nat) is None,
    decreases fuel,
{
    if fuel == 0 {
        return None;
    }
    let idx = match reg.find(v.ty_name(), to) {
        None => {
            return None;
        },
        Some(i) => i,
    };
    let c = &reg.conversions[idx];
    proof {
        assert(reg@[idx as int] == c@);
    }
    match &c.rule {
        ConvRule::Wrap { variant, payload } => {
            if v.ty_name().eq(payload) {
                let mut fields: Vec<Value> = Vec::new();
                fields.push(v);
                proof {
                    assert(fields@ =~= seq![v]);
                    lemma_value_views_one(v);
                }
                Some(Value::Sum { ty: to.clone(), variant: variant.clone(), fields })
            } else {
                match convert_fuel(reg, v, payload, fuel - 1) {
                    None => None,
                    Some(w) => {
                        let mut fields: Vec<Value> = Vec::new();
                        fields.push(w);
                        proof {
                            assert(fields@ =~= seq![w]);
                            lemma_value_views_one(w);
                        }
                        Some(Value::Sum { ty: to.clone(), variant: variant.clone(), fields })
                    },
                }
            }
        },
        ConvRule::Via { middle } => {
            match convert_fuel(reg, v, middle, fuel - 1) {
                None => None,
                Some(w) => convert_fuel(reg, w, to, fuel - 1),
            }
        },
    }
}

/// Apply the registered conversion from `v`'s type into `to`.
pub fn convert(reg: &Registry, v: Value, to: &String) -> (r: Option<Value>)
    ensures
        r matches Some(w) ==> converted(reg@, v@, to@) == Some(w@),
        r is None ==> converted(reg@, v@, to@) is None,
{
    let fuel = reg.conversions.len();
    convert_fuel(reg, v, to, fuel)
}

/// Build one wrapping conversion.
pub fn wrap_conversion(to: &String, variant: &String, payload: &String, from: &String) -> (c:
    Conversion)
    ensures
        c@ == (SpecConversion {
            from: from@,
            to: to@,
            rule: SpecConvRule::Wrap { variant: variant@, payload: payload@ },
        }),
{
    Conversion {
        from: from.clone(),
        to: to.clone(),
        rule: ConvRule::Wrap { variant: variant.clone(), payload: payload.clone() },
    }
}

/// Build one chaining conversion.
pub fn via_conversion(to: &String, from: &String, middle: &String) -> (c: Conversion)
    ensures
        c@ == (SpecConversion {
            from: from@,
            to: to@,
            rule: SpecConvRule::Via { middle: middle@ },
        }),
{
    Conversion {
        from: from.clone(),
        to: to.clone(),
        rule: ConvRule::Via { middle: middle.clone() },
    }
}

/// The family of wrapping conversions that `from_many` registers: each
/// source wraps into `variant` of `to`, whose payload type is the first
/// source.
pub open spec fn many_conversions(
    to: Seq<char>,
    variant: Seq<char>,
    sources: Seq<Seq<char>>,
) -> Seq<SpecConversion> {
    Seq::new(
        sources.len(),
        |i: int|
            SpecConversion {
                from: sources[i],
                to: to,
                rule: SpecConvRule::Wrap { variant: variant, payload: sources[0] },
            },
    )
}

/// One level of a linear chain: the type declared at this level and the
/// variant under which it wraps the level below.
#[derive(Debug, PartialEq, Eq)]
pub struct ChainLink {
    pub ty: String,
    pub variant: String,
}

/// The mathematical model of a [`ChainLink`].
pub struct SpecChainLink {
    pub ty: Seq<char>,
    pub variant: Seq<char>,
}

impl View for ChainLink {
    type V = SpecChainLink;

    open spec fn view(&self) -> SpecChainLink {
        SpecChainLink { ty: self.ty@, variant: self.variant@ }
    }
}

/// The models of a sequence of chain links, element by element.
pub open spec fn link_views(s: Seq<ChainLink>) -> Seq<SpecChainLink> {
    Seq::new(s.len(), |i: int| s[i]@)
}

/// The source types below one chain level: the type of each later link,
/// then the final type that ends the chain.
pub open spec fn tail_types(links: Seq<SpecChainLink>, last: Seq<char>) -> Seq<Seq<char>> {
    Seq::new(links.len(), |i: int| links[i].ty).push(last)
}

/// Every conversion a chain registers: at each level, one wrapping
/// conversion from each type below it, the level directly below being the
/// variant's payload type.
pub open spec fn chain_conversions(links: Seq<SpecChainLink>, last: Seq<char>) -> Seq<
    SpecConversion,
>
    decreases links.len(),
{
    if links.len() == 0 {
        Seq::empty()
    } else {
        many_conversions(links[0].ty, links[0].variant, tail_types(links.drop_first(), last))
            + chain_conversions(links.drop_first(), last)
    }
}

/// Build the conversions of the chain suffix that starts at link `i`.
fn chain_items(links: &Vec<ChainLink>, i: usize, last: &String) -> (r: Vec<Conversion>)
    requires
        i <= links@.len(),
    ensures
        conv_views(r@) == chain_conversions(link_views(links@).skip(i as int), last@),
    decreases links@.len() - i,
{
    let mut out: Vec<Conversion> = Vec::new();
    if i == links.len() {
        proof {
            assert(link_views(links@).skip(i as int) =~= Seq::<SpecChainLink>::empty());
            assert(conv_views(out@) =~= chain_conversions(
                link_views(links@).skip(i as int),
                last@,
            ));
        }
        return out;
    }
    let to = &links[i].ty;
    let variant = &links[i].variant;
    let n = links.len();
    let payload = if i + 1 == n {
        last
    } else {
        &links[i + 1].ty
    };
    let ghost srcs = tail_types(link_views(links@).skip(i as int + 1), last@);
    let ghost fam = many_conversions(links@[i as int].ty@, links@[i as int].variant@, srcs);
    proof {
        assert(srcs[0] == payload@);
    }
    for j in i + 1..n
        invariant
            n == links.len(),
            i < n,
            srcs == tail_types(link_views(links@).skip(i as int + 1), last@),
            fam == many_conversions(links@[i as int].ty@, links@[i as int].variant@, srcs),
            srcs[0] == payload@,
            to@ == links@[i as int].ty@,
            variant@ == links@[i as int].variant@,
            out@.len() == j - i - 1,
            conv_views(out@) =~= fam.take(j - i - 1),
    {
        out.push(wrap_conversion(to, variant, payload, &links[j].ty));
        proof {
            assert(srcs[j - i - 1] == links@[j as int].ty@);
            assert(conv_views(out@) =~= fam.take(j - i));
        }
    }
    let ghost before_last = conv_views(out@);
    out.push(wrap_conversion(to, variant, payload, last));
    proof {
        assert(srcs.len() == n - i);
        assert(srcs[n - i - 1] == last@);
        assert(conv_views(out@).len() == fam.len());
        assert forall|k: int| 0 <= k < fam.len() implies conv_views(out@)[k] == fam[k] by {
            if k < fam.len() - 1 {
                assert(conv_views(out@)[k] == before_last[k]);
                assert(before_last[k] == fam.take(n - i - 1)[k]);
            }
        }
        assert(conv_views(out@) =~= fam);
    }
    let mut rest = chain_items(links, i + 1, last);
    let ghost rest_view = conv_views(rest@);
    out.append(&mut rest);
    proof {
        assert(conv_views(out@) =~= fam + rest_view);
        let s = link_views(links@).skip(i as int);
        assert(s[0] == links@[i as int]@);
        assert(s.drop_first() =~= link_views(links@).skip(i as int + 1));
        assert(tail_types(s.drop_first(), last@) == srcs);
        assert(chain_conversions(s, last@) == fam + rest_view);
    }
    out
}

impl Registry {
    /// Register the conversions of a whole linear chain: at every level,
    /// each type below it wraps upward through the variant chain; refuse
    /// the whole family on any clash, leaving the registry unchanged.
    pub fn from_chain(&mut self, links: &Vec<ChainLink>, last: &String) -> (r: Result<
        (),
        EmitError,
    >)
        requires
            old(self).wf(),
            links@.len() >= 1,
        ensures
            final(self).wf(),
            r is Ok <==> fresh_batch(old(self)@, chain_conversions(link_views(links@), last@)),
            r is Ok ==> final(self)@ == old(self)@ + chain_conversions(link_views(links@), last@),
            r is Err ==> final(self)@ == old(self)@,
    {
        let items = chain_items(links, 0, last);
        proof {
            assert(link_views(links@).skip(0) =~= link_views(links@));
        }
        self.register_all(items)
    }
}

impl Registry {
    /// Register the wrapping conversion from `from` into variant
    /// `variant` of `to`, whose declared payload type is `payload`.
    pub fn from_wrap(
        &mut self,
        to: &String,
        variant: &String,
        payload: &String,
        from: &String,
    ) -> (r: Result<(), EmitError>)
        requires
            old(self).wf(),
        ensures
            final(self).wf(),
            r is Ok <==> !has_pair(old(self)@, from@, to@),
            r is Ok ==> final(self)@ == old(self)@.push(
                SpecConversion {
                    from: from@,
                    to: to@,
                    rule: SpecConvRule::Wrap { variant: variant@, payload: payload@ },
                },
            ),
            r is Err ==> final(self)@ == old(self)@,
    {
        self.register(wrap_conversion(to, variant, payload, from))
    }

    /// Register the chaining conversion from `from` into `to` through the
    /// intermediate type `middle`.
    pub fn from_via(&mut self, to: &String, from: &String, middle: &String) -> (r: Result<
        (),
        EmitError,
    >)
        requires
            old(self).wf(),
        ensures
            final(self).wf(),
            r is Ok <==> !has_pair(old(self)@, from@, to@),
            r is Ok ==> final(self)@ == old(self)@.push(
                SpecConversion { from: from@, to: to@, rule: SpecConvRule::Via { middle: middle@ } },
            ),
            r is Err ==> final(self)@ == old(self)@,
    {
        self.register(via_conversion(to, from, middle))
    }

    /// Register one wrapping conversion into `variant` of `to` for every
    /// source type, the first source being the variant's payload type;
    /// refuse the whole family on any clash, leaving the registry
    /// unchanged.
    pub fn from_many(&mut self, to: &String, variant: &String, sources: &Vec<String>) -> (r: Result<
        (),
        EmitError,
    >)
        requires
            old(self).wf(),
            sources@.len() >= 1,
        ensures
            final(self).wf(),
            r is Ok <==> fresh_batch(
                old(self)@,
                many_conversions(to@, variant@, name_views(sources@)),
            ),
            r is Ok ==> final(self)@ == old(self)@ + many_conversions(
                to@,
                variant@,
                name_views(sources@),
            ),
            r is Err ==> final(self)@ == old(self)@,
    {
        let ghost family = many_conversions(to@, variant@, name_views(sources@));
        let mut items: Vec<Conversion> = Vec::new();
        let n = sources.len();
        for i in 0..n
            invariant
                n == sources.len(),
                items@.len() == i,
                conv_views(items@) =~= family.take(i as int),
                family == many_conversions(to@, variant@, name_views(sources@)),
                n >= 1,
        {
            items.push(wrap_conversion(to, variant, &sources[0], &sources[i]));
            proof {
                assert(conv_views(items@) =~= family.take(i + 1));
            }
        }
        proof {
            assert(conv_views(items@) =~= family);
        }
        self.register_all(items)
    }
}


/// A successful conversion yields a value of the requested type.
pub proof fn lemma_convert_type(s: Seq<SpecConversion>, v: Val, to: Seq<char>, fuel: nat)
    requires
        spec_convert(s, v, to, fuel) is Some,
    ensures
        spec_convert(s, v, to, fuel)->Some_0.type_of() == to,
    decreases fuel,
{
    if fuel > 0 {
        match lookup(s, v.type_of(), to) {
            None => {},
            Some(c) => match c.rule {
                SpecConvRule::Wrap { variant, payload } => {},
                SpecConvRule::Via { middle } => {
                    let w = spec_convert(s, v, middle, (fuel - 1) as nat)->Some_0;
                    lemma_convert_type(s, w, to, (fuel - 1) as nat);
                },
            },
        }
    }
}

} // verus!
