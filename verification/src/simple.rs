//! The single-hop conversion primitive.
//!
//! A [`Conversion`] is one emitted conversion function, keyed by the
//! ordered pair of a source type and a destination type. Its rule says how
//! the destination value is built: by wrapping the source in a named
//! variant (converting the payload first when the variant's declared
//! payload type differs from the source type), or by chaining through an
//! intermediate type whose conversions are registered separately.
//!
//! A [`Registry`] collects the emitted conversions. Registering the same
//! (source, destination) pair twice is a conflict and is refused.

use vstd::prelude::*;

verus! {

/// How a registered conversion builds its destination value.
#[derive(Debug, PartialEq, Eq)]
pub enum ConvRule {
    /// Wrap the source in the destination variant `variant`, whose
    /// declared payload type is `payload`. When the source type is not
    /// `payload` itself, the source is first converted into `payload`.
    Wrap { variant: String, payload: String },
    /// Convert the source into `middle` first, then convert that result
    /// into the destination.
    Via { middle: String },
}

/// One emitted single-hop conversion function, from type `from` to type
/// `to`.
#[derive(Debug, PartialEq, Eq)]
pub struct Conversion {
    pub from: String,
    pub to: String,
    pub rule: ConvRule,
}

/// The mathematical model of a [`ConvRule`].
pub enum SpecConvRule {
    Wrap { variant: Seq<char>, payload: Seq<char> },
    Via { middle: Seq<char> },
}

/// The mathematical model of a [`Conversion`].
pub struct SpecConversion {
    pub from: Seq<char>,
    pub to: Seq<char>,
    pub rule: SpecConvRule,
}

impl View for ConvRule {
    type V = SpecConvRule;

    open spec fn view(&self) -> SpecConvRule {
        match self {
            ConvRule::Wrap { variant, payload } => SpecConvRule::Wrap {
                variant: variant@,
                payload: payload@,
            },
            ConvRule::Via { middle } => SpecConvRule::Via { middle: middle@ },
        }
    }
}

impl View for Conversion {
    type V = SpecConversion;

    open spec fn view(&self) -> SpecConversion {
        SpecConversion { from: self.from@, to: self.to@, rule: self.rule@ }
    }
}

/// The models of a sequence of conversions, element by element.
pub open spec fn conv_views(s: Seq<Conversion>) -> Seq<SpecConversion> {
    Seq::new(s.len(), |i: int| s[i]@)
}

/// Whether some conversion for the ordered pair (`from`, `to`) is present.
pub open spec fn has_pair(s: Seq<SpecConversion>, from: Seq<char>, to: Seq<char>) -> bool {
    exists|i: int| 0 <= i < s.len() && s[i].from == from && s[i].to == to
}

/// The first conversion registered for the pair (`from`, `to`), if any.
pub open spec fn lookup(s: Seq<SpecConversion>, from: Seq<char>, to: Seq<char>) -> Option<
    SpecConversion,
>
    decreases s.len(),
{
    if s.len() == 0 {
        None
    } else if s[0].from == from && s[0].to == to {
        Some(s[0])
    } else {
        lookup(s.drop_first(), from, to)
    }
}

/// No two conversions share their (source, destination) pair.
pub open spec fn distinct_pairs(s: Seq<SpecConversion>) -> bool {
    forall|i: int, j: int|
        0 <= i < j < s.len() ==> !(s[i].from == s[j].from && s[i].to == s[j].to)
}

/// `lookup` succeeds exactly on registered pairs.
pub proof fn lemma_lookup_some(s: Seq<SpecConversion>, from: Seq<char>, to: Seq<char>)
    ensures
        has_pair(s, from, to) <==> lookup(s, from, to) is Some,
        lookup(s, from, to) matches Some(c) ==> c.from == from && c.to == to && s.contains(c),
    decreases s.len(),
{
    if s.len() > 0 {
        lemma_lookup_some(s.drop_first(), from, to);
        if s[0].from == from && s[0].to == to {
        } else {
            assert(has_pair(s, from, to) ==> has_pair(s.drop_first(), from, to)) by {
                if has_pair(s, from, to) {
                    let i = choose|i: int|
                        0 <= i < s.len() && s[i].from == from && s[i].to == to;
                    assert(s.drop_first()[i - 1] == s[i]);
                }
            }
            assert(lookup(s.drop_first(), from, to) matches Some(c) ==> s.contains(c)) by {
                if let Some(c) = lookup(s.drop_first(), from, to) {
                    let i = choose|i: int| 0 <= i < s.drop_first().len() && s.drop_first()[i] == c;
                    assert(s[i + 1] == c);
                }
            }
        }
    }
}

/// When a matching conversion stands at index `i` and no earlier entry
/// matches, `lookup` returns exactly that conversion.
pub proof fn lemma_lookup_at(s: Seq<SpecConversion>, from: Seq<char>, to: Seq<char>, i: int)
    requires
        0 <= i < s.len(),
        s[i].from == from,
        s[i].to == to,
        forall|j: int| 0 <= j < i ==> !(s[j].from == from && s[j].to == to),
    ensures
        lookup(s, from, to) == Some(s[i]),
    decreases s.len(),
{
    if i > 0 {
        lemma_lookup_at(s.drop_first(), from, to, i - 1);
    }
}

/// A batch is fresh for a registry when none of its pairs is registered
/// yet and no two of its own entries share a pair.
pub open spec fn fresh_batch(s: Seq<SpecConversion>, items: Seq<SpecConversion>) -> bool {
    &&& forall|i: int| 0 <= i < items.len() ==> !has_pair(s, #[trigger] items[i].from, items[i].to)
    &&& distinct_pairs(items)
}

/// The conflict reported when a conversion for an already-registered
/// (source, destination) pair is emitted again.
#[derive(Debug, PartialEq, Eq)]
pub enum EmitError {
    Duplicate { from: String, to: String },
}

/// The collection of every conversion emitted so far.
#[derive(Debug, PartialEq, Eq)]
pub struct Registry {
    pub conversions: Vec<Conversion>,
}

impl View for Registry {
    type V = Seq<SpecConversion>;

    open spec fn view(&self) -> Seq<SpecConversion> {
        conv_views(self.conversions@)
    }
}

impl Registry {
    /// A registry never holds two conversions for one pair.
    pub open spec fn wf(&self) -> bool {
        distinct_pairs(self@)
    }

    /// An empty registry.
    pub fn new() -> (r: Registry)
        ensures
            r@ == Seq::<SpecConversion>::empty(),
            r.wf(),
    {
        let r = Registry { conversions: Vec::new() };
        proof {
            assert(r@ =~= Seq::<SpecConversion>::empty());
        }
        r
    }

    /// The index of the conversion registered for (`from`, `to`), if any.
    pub fn find(&self, from: &String, to: &String) -> (r: Option<usize>)
        ensures
            match r {
                Some(i) => 0 <= i < self@.len() && lookup(self@, from@, to@) == Some(self@[i as int]),
                None => lookup(self@, from@, to@) is None,
            },
    {
        let n = self.conversions.len();
        for i in 0..n
            invariant
                n == self.conversions.len(),
                forall|j: int|
                    0 <= j < i ==> !(self@[j].from == from@ && #[trigger] self@[j].to == to@),
        {
            if self.conversions[i].from.eq(from) && self.conversions[i].to.eq(to) {
                proof {
                    lemma_lookup_at(self@, from@, to@, i as int);
                }
                return Some(i);
            }
        }
        proof {
            lemma_lookup_some(self@, from@, to@);
        }
        None
    }

    /// Register one conversion; refuse a pair registered before, leaving
    /// the registry unchanged.
    pub fn register(&mut self, c: Conversion) -> (r: Result<(), EmitError>)
        requires
            old(self).wf(),
        ensures
            final(self).wf(),
            r is Ok <==> !has_pair(old(self)@, c.from@, c.to@),
            r is Ok ==> final(self)@ == old(self)@.push(c@),
            r matches Err(e) ==> {
                &&& final(self)@ == old(self)@
                &&& e matches EmitError::Duplicate { from, to } && from@ == c.from@ && to@
                    == c.to@
            },
    {
        match self.find(&c.from, &c.to) {
            Some(_) => {
                proof {
                    lemma_lookup_some(self@, c.from@, c.to@);
                }
                Err(EmitError::Duplicate { from: c.from, to: c.to })
            },
            None => {
                proof {
                    lemma_lookup_some(self@, c.from@, c.to@);
                }
                let ghost before = self@;
                self.conversions.push(c);
                proof {
                    assert(self@ =~= before.push(c@));
                }
                Ok(())
            },
        }
    }

    /// Register a whole batch, or refuse it entirely: when any entry's
    /// pair is already registered, or two entries share a pair, the
    /// registry is left unchanged and the clashing pair is reported.
    pub fn register_all(&mut self, items: Vec<Conversion>) -> (r: Result<(), EmitError>)
        requires
            old(self).wf(),
        ensures
            final(self).wf(),
            r is Ok <==> fresh_batch(old(self)@, conv_views(items@)),
            r is Ok ==> final(self)@ == old(self)@ + conv_views(items@),
            r matches Err(e) ==> {
                &&& final(self)@ == old(self)@
                &&& e matches EmitError::Duplicate { from, to } && has_pair(
                    old(self)@ + conv_views(items@),
                    from@,
                    to@,
                ) && has_pair(conv_views(items@), from@, to@)
            },
    {
        let ghost old_view = self@;
        let ghost batch = conv_views(items@);
        let n = items.len();
        for i in 0..n
            invariant
                self@ == old_view,
                self.wf(),
                n == items.len(),
                batch == conv_views(items@),
                forall|k: int|
                    0 <= k < i ==> !has_pair(old_view, #[trigger] batch[k].from, batch[k].to),
                forall|k: int, w: int|
                    #![trigger batch[k].from, batch[w].from]
                    0 <= k < i && k < w < n ==> !(batch[k].from == batch[w].from && batch[k].to
                        == batch[w].to),
        {
            let found = self.find(&items[i].from, &items[i].to);
            if found.is_some() {
                proof {
                    lemma_lookup_some(self@, items@[i as int].from@, items@[i as int].to@);
                    assert(has_pair(old_view, batch[i as int].from, batch[i as int].to));
                    assert(!fresh_batch(old_view, batch));
                    assert((old_view + batch)[old_view.len() + i as int] == batch[i as int]);
                    assert(has_pair(old_view + batch, batch[i as int].from, batch[i as int].to));
                    assert(has_pair(batch, batch[i as int].from, batch[i as int].to));
                }
                let c = &items[i];
                return Err(EmitError::Duplicate { from: c.from.clone(), to: c.to.clone() });
            }
            proof {
                lemma_lookup_some(self@, items@[i as int].from@, items@[i as int].to@);
            }
            for j in i + 1..n
                invariant
                    self@ == old_view,
                    self.wf(),
                    n == items.len(),
                    batch == conv_views(items@),
                    i < n,
                    forall|w: int|
                        i < w < j ==> !(batch[i as int].from == #[trigger] batch[w].from && batch[
                            i as int
                        ].to == batch[w].to),
                    forall|k: int, w: int|
                        #![trigger batch[k].from, batch[w].from]
                        0 <= k < i && k < w < n ==> !(batch[k].from == batch[w].from && batch[k].to
                            == batch[w].to),
            {
                if items[j].from.eq(&items[i].from) && items[j].to.eq(&items[i].to) {
                    proof {
                        assert(batch[i as int].from == batch[j as int].from && batch[i as int].to
                            == batch[j as int].to);
                        assert(!distinct_pairs(batch));
                        assert((old_view + batch)[old_view.len() + i as int] == batch[i as int]);
                        assert(has_pair(old_view + batch, batch[i as int].from, batch[
                            i as int
                        ].to));
                        assert(has_pair(batch, batch[i as int].from, batch[i as int].to));
                    }
                    let c = &items[i];
                    return Err(EmitError::Duplicate { from: c.from.clone(), to: c.to.clone() });
                }
            }
        }
        let mut moved = items;
        self.conversions.append(&mut moved);
        proof {
            assert(self@ =~= old_view + batch);
            assert(fresh_batch(old_view, batch));
            assert(distinct_pairs(self@)) by {
                assert forall|a: int, b: int| 0 <= a < b < self@.len() implies !(self@[a].from
                    == self@[b].from && self@[a].to == self@[b].to) by {
                    if a < old_view.len() && b >= old_view.len() {
                        assert(!has_pair(old_view, batch[b - old_view.len()].from, batch[b
                            - old_view.len()].to));
                    }
                }
            }
        }
        Ok(())
    }
}

} // verus!
