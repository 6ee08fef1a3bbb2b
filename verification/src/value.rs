//! Runtime model of the values of generated types.
//!
//! The compilers in this crate emit declarations and conversion functions
//! as data. A [`Value`] stands for one runtime value of such a generated
//! type: a unit marker, a sum-type variant applied to its payload fields,
//! or a primitive payload (an integer or a piece of text) carried by a
//! pre-existing type. The mathematical model of a `Value` is a [`Val`],
//! in which every name is a `Seq<char>` and every field list a `Seq`.

use vstd::prelude::*;
use vstd::string::StringExecFns;

verus! {

/// A value of a generated (or pre-existing) type.
#[derive(Debug, PartialEq, Eq)]
pub enum Value {
    /// A value of an empty marker type.
    Marker { ty: String },
    /// A sum-type value: one variant holding its payload fields in order.
    Sum { ty: String, variant: String, fields: Vec<Value> },
    /// An integer carried by a pre-existing numeric type.
    Int { ty: String, value: i128 },
    /// A piece of text carried by a pre-existing string-like type.
    Text { ty: String, text: String },
}

/// The views of a sequence of names, element by element.
pub open spec fn name_views(s: Seq<String>) -> Seq<Seq<char>> {
    Seq::new(s.len(), |i: int| s[i]@)
}

/// The mathematical model of a [`Value`].
pub enum Val {
    Marker { ty: Seq<char> },
    Sum { ty: Seq<char>, variant: Seq<char>, fields: Seq<Val> },
    Int { ty: Seq<char>, value: int },
    Text { ty: Seq<char>, text: Seq<char> },
}

/// The mathematical model of one value.
pub open spec fn value_view(v: Value) -> Val
    decreases v,
{
    match v {
        Value::Marker { ty } => Val::Marker { ty: ty@ },
        Value::Sum { ty, variant, fields } => Val::Sum {
            ty: ty@,
            variant: variant@,
            fields: value_views(fields@),
        },
        Value::Int { ty, value } => Val::Int { ty: ty@, value: value as int },
        Value::Text { ty, text } => Val::Text { ty: ty@, text: text@ },
    }
}

/// The models of a sequence of values, element by element.
pub open spec fn value_views(vs: Seq<Value>) -> Seq<Val>
    decreases vs,
{
    if vs.len() == 0 {
        Seq::empty()
    } else {
        seq![value_view(vs[0])] + value_views(vs.drop_first())
    }
}

/// `value_views` maps `value_view` over the sequence element by element.
pub proof fn lemma_value_views(vs: Seq<Value>)
    ensures
        value_views(vs).len() == vs.len(),
        forall|i: int| 0 <= i < vs.len() ==> value_views(vs)[i] == value_view(vs[i]),
    decreases vs.len(),
{
    if vs.len() > 0 {
        lemma_value_views(vs.drop_first());
    }
}

impl View for Value {
    type V = Val;

    open spec fn view(&self) -> Val {
        value_view(*self)
    }
}

impl Val {
    /// The name of the type that a modelled value belongs to.
    pub open spec fn type_of(self) -> Seq<char> {
        match self {
            Val::Marker { ty } => ty,
            Val::Sum { ty, .. } => ty,
            Val::Int { ty, .. } => ty,
            Val::Text { ty, .. } => ty,
        }
    }
}

impl Value {
    /// The name of the type this value belongs to.
    pub fn ty_name(&self) -> (r: &String)
        ensures
            r@ == self@.type_of(),
    {
        match self {
            Value::Marker { ty } => ty,
            Value::Sum { ty, .. } => ty,
            Value::Int { ty, .. } => ty,
            Value::Text { ty, .. } => ty,
        }
    }
}

/// The character of one decimal digit.
pub open spec fn digit_char(d: nat) -> char {
    if d == 0 {
        '0'
    } else if d == 1 {
        '1'
    } else if d == 2 {
        '2'
    } else if d == 3 {
        '3'
    } else if d == 4 {
        '4'
    } else if d == 5 {
        '5'
    } else if d == 6 {
        '6'
    } else if d == 7 {
        '7'
    } else if d == 8 {
        '8'
    } else {
        '9'
    }
}

/// The decimal digits of a natural number, most significant first.
pub open spec fn dec_nat(n: nat) -> Seq<char>
    decreases n,
{
    if n < 10 {
        seq![digit_char(n)]
    } else {
        dec_nat(n / 10).push(digit_char(n % 10))
    }
}

/// The decimal rendering of an integer, with a leading minus sign when
/// it is negative.
pub open spec fn dec_int(v: int) -> Seq<char> {
    if v >= 0 {
        dec_nat(v as nat)
    } else {
        seq!['-'] + dec_nat((-v) as nat)
    }
}

/// How a modelled value prints: a marker by its type name, a sum value
/// by its variant over its rendered fields, an integer in decimal, and
/// text between straight quotes (kept verbatim, without escaping).
pub open spec fn spec_render(v: Val) -> Seq<char>
    decreases v, 1int,
{
    match v {
        Val::Marker { ty } => ty,
        Val::Sum { ty, variant, fields } => if fields.len() == 0 {
            variant
        } else {
            variant + seq!['('] + spec_render_fields(fields) + seq![')']
        },
        Val::Int { ty, value } => dec_int(value),
        Val::Text { ty, text } => seq!['"'] + text + seq!['"'],
    }
}

/// Rendered fields, separated by a comma and a space.
pub open spec fn spec_render_fields(fs: Seq<Val>) -> Seq<char>
    decreases fs, 0int,
{
    if fs.len() == 0 {
        Seq::empty()
    } else if fs.len() == 1 {
        spec_render(fs[0])
    } else {
        spec_render(fs[0]) + seq![',', ' '] + spec_render_fields(fs.drop_first())
    }
}

/// One decimal digit as text.
fn digit_str(d: u128) -> (r: &'static str)
    requires
        d < 10,
    ensures
        r@ == seq![digit_char(d as nat)],
{
    let r = match d {
        0 => "0",
        1 => "1",
        2 => "2",
        3 => "3",
        4 => "4",
        5 => "5",
        6 => "6",
        7 => "7",
        8 => "8",
        _ => "9",
    };
    proof {
        reveal_strlit("0");
        reveal_strlit("1");
        reveal_strlit("2");
        reveal_strlit("3");
        reveal_strlit("4");
        reveal_strlit("5");
        reveal_strlit("6");
        reveal_strlit("7");
        reveal_strlit("8");
        reveal_strlit("9");
        assert(r@ =~= seq![digit_char(d as nat)]);
    }
    r
}

/// The decimal digits of a natural number.
fn dec_u128(n: u128) -> (r: String)
    ensures
        r@ == dec_nat(n as nat),
    decreases n,
{
    if n < 10 {
        String::from_str(digit_str(n))
    } else {
        let mut s = dec_u128(n / 10);
        s.append(digit_str(n % 10));
        proof {
            assert(s@ =~= dec_nat(n as nat));
        }
        s
    }
}

impl Value {
    /// Print this value the way the host language's derived debugging
    /// output would.
    pub fn render(&self) -> (r: String)
        ensures
            r@ == spec_render(self@),
        decreases *self, 1int,
    {
        match self {
            Value::Marker { ty } => ty.clone(),
            Value::Sum { ty, variant, fields } => {
                if fields.len() == 0 {
                    proof {
                        lemma_value_views(fields@);
                    }
                    variant.clone()
                } else {
                    proof {
                        broadcast use vstd::std_specs::vec::group_vec_axioms;

                        assert(decreases_to!(*self => *fields));
                        assert(decreases_to!(*fields => fields@));
                        assert(fields@.skip(0) =~= fields@);
                        lemma_value_views(fields@);
                    }
                    let mut s = variant.clone();
                    s.append("(");
                    let inner = render_fields(fields, 0);
                    s.append(inner.as_str());
                    s.append(")");
                    proof {
                        reveal_strlit("(");
                        reveal_strlit(")");
                        assert(value_views(fields@).skip(0) =~= value_views(fields@));
                        assert(s@ =~= spec_render(self@));
                    }
                    s
                }
            },
            Value::Int { ty, value } => {
                let v = *value;
                if v >= 0 {
                    let r = dec_u128(v as u128);
                    proof {
                        assert(v as u128 as nat == (v as int) as nat);
                    }
                    r
                } else {
                    let m: u128 = if v == i128::MIN {
                        170141183460469231731687303715884105728u128
                    } else {
                        (-v) as u128
                    };
                    proof {
                        assert(m as int == -(v as int));
                    }
                    let mut s = String::from_str("-");
                    let digits = dec_u128(m);
                    s.append(digits.as_str());
                    proof {
                        reveal_strlit("-");
                        assert(s@ =~= spec_render(self@));
                    }
                    s
                }
            },
            Value::Text { ty, text } => {
                let mut s = String::from_str("\"");
                s.append(text.as_str());
                s.append("\"");
                proof {
                    reveal_strlit("\"");
                    assert(s@ =~= spec_render(self@));
                }
                s
            },
        }
    }
}

/// Render the fields from position `i` on, separated by a comma and a
/// space.
fn render_fields(fields: &Vec<Value>, i: usize) -> (r: String)
    requires
        i <= fields@.len(),
    ensures
        r@ == spec_render_fields(value_views(fields@).skip(i as int)),
    decreases fields@.skip(i as int), 0int,
{
    proof {
        lemma_value_views(fields@);
    }
    if i == fields.len() {
        let r = String::new();
        proof {
            assert(value_views(fields@).skip(i as int) =~= Seq::<Val>::empty());
        }
        return r;
    }
    proof {
        let s = fields@.skip(i as int);
        assert(s[0] == fields@[i as int]);
        assert(decreases_to!(s => s[0]));
    }
    let mut s = fields[i].render();
    if i + 1 == fields.len() {
        proof {
            let sv = value_views(fields@).skip(i as int);
            assert(sv.len() == 1);
            assert(sv[0] == value_views(fields@)[i as int]);
            assert(s@ =~= spec_render_fields(sv));
        }
        return s;
    }
    s.append(", ");
    proof {
        let fs = fields@.skip(i as int);
        assert(fields@.skip(i as int + 1) =~= fs.subrange(1, fs.len() as int));
        assert(decreases_to!(fs => fs.subrange(1, fs.len() as int)));
    }
    let rest = render_fields(fields, i + 1);
    s.append(rest.as_str());
    proof {
        reveal_strlit(", ");
        let sv = value_views(fields@).skip(i as int);
        assert(sv[0] == value_views(fields@)[i as int]);
        assert(sv.drop_first() =~= value_views(fields@).skip(i as int + 1));
        assert(s@ =~= spec_render_fields(sv));
    }
    s
}

} // verus!
