//! The values that the UI state holds and that widgets display.
use vstd::prelude::*;
use crate::ui_state::UIState;

verus! {

/// A list of values.
#[derive(Debug)]
pub struct Array {
    pub data: Vec<Var>,
}

/// A value of the UI state.
#[derive(Debug)]
pub enum Var {
    /// A real number, held as the bits of an `f32`.
    Real(u32),
    Integer(i32),
    String(String),
    Array(Array),
}

/// A value that a widget shows: the value bound to a name in the UI state,
/// or a constant.
#[derive(Debug)]
pub enum Value {
    Binding(String),
    Const(Var),
}

/// The character of the decimal digit `d`.
pub open spec fn digit_char(d: nat) -> char {
    (('0' as nat) + d) as char
}

/// The decimal digits of `n`, most significant first, without leading zeros.
pub open spec fn decimal_digits(n: nat) -> Seq<char>
    decreases n,
{
    if n < 10 {
        seq![digit_char(n)]
    } else {
        decimal_digits(n / 10) + seq![digit_char(n % 10)]
    }
}

/// The decimal text of `v`: a minus sign for a negative number, then its digits.
pub open spec fn decimal_text(v: int) -> Seq<char> {
    if v < 0 {
        seq!['-'] + decimal_digits((-v) as nat)
    } else {
        decimal_digits(v as nat)
    }
}

/// The text of an array of `len` items.
pub open spec fn array_text(len: nat) -> Seq<char> {
    "Array["@ + decimal_digits(len) + "]"@
}

/// The text of a value; a real number has none here (it is formatted as a
/// float by the caller).
pub open spec fn var_text(v: Var) -> Option<Seq<char>> {
    match v {
        Var::Real(_) => None,
        Var::Integer(i) => Some(decimal_text(i as int)),
        Var::String(s) => Some(s@),
        Var::Array(a) => Some(array_text(a.data@.len())),
    }
}

/// The decimal text of an `i32`: `ToString::to_string` on `i32` from std,
/// whose documented `Display` writes the number in base ten with a leading
/// minus sign when it is negative.
#[verifier::external_body]
fn i32_text(v: i32) -> (s: String)
    ensures
        s@ == decimal_text(v as int),
{
    v.to_string()
}

/// The decimal text of a `usize`: `ToString::to_string` on `usize` from std,
/// whose documented `Display` writes the number in base ten.
#[verifier::external_body]
fn usize_text(v: usize) -> (s: String)
    ensures
        s@ == decimal_digits(v as nat),
{
    v.to_string()
}

impl Array {
    /// The text of the array: `Array[` and its length and `]`.
    pub fn to_string(&self) -> (s: String)
        ensures
            s@ == array_text(self.data@.len()),
    {
        let mut s = String::from_str("Array[");
        let n = usize_text(self.data.len());
        s.append(n.as_str());
        s.append("]");
        s
    }
}

impl From<Vec<Var>> for Array {
    fn from(value: Vec<Var>) -> (a: Self) {
        Array { data: value }
    }
}

impl vstd::std_specs::convert::FromSpecImpl<Vec<Var>> for Array {
    open spec fn obeys_from_spec() -> bool {
        true
    }

    open spec fn from_spec(v: Vec<Var>) -> Self {
        Array { data: v }
    }
}

impl From<i32> for Var {
    fn from(v: i32) -> (r: Self) {
        Var::Integer(v)
    }
}

impl vstd::std_specs::convert::FromSpecImpl<i32> for Var {
    open spec fn obeys_from_spec() -> bool {
        true
    }

    open spec fn from_spec(v: i32) -> Self {
        Var::Integer(v)
    }
}

impl From<String> for Var {
    fn from(v: String) -> (r: Self) {
        Var::String(v)
    }
}

impl vstd::std_specs::convert::FromSpecImpl<String> for Var {
    open spec fn obeys_from_spec() -> bool {
        true
    }

    open spec fn from_spec(v: String) -> Self {
        Var::String(v)
    }
}

/// A value of the UI state as mathematics: its number, its text or the
/// models of its items.
pub enum VarModel {
    Real(u32),
    Integer(i32),
    String(Seq<char>),
    Array(Seq<VarModel>),
}

/// The model of `v`.
pub open spec fn var_model(v: Var) -> VarModel
    decreases v,
{
    match v {
        Var::Real(b) => VarModel::Real(b),
        Var::Integer(i) => VarModel::Integer(i),
        Var::String(s) => VarModel::String(s@),
        Var::Array(a) => VarModel::Array(
            Seq::new(a.data@.len(), |i: int| {
                if 0 <= i < a.data@.len() {
                    proof {
                        assert(decreases_to!(v => a.data@[i]));
                    }
                    var_model(a.data@[i])
                } else {
                    VarModel::Integer(0)
                }
            }),
        ),
    }
}

impl Clone for Var {
    fn clone(&self) -> (r: Self)
        ensures
            var_model(r) == var_model(*self),
        decreases self,
    {
        match self {
            Var::Real(b) => Var::Real(*b),
            Var::Integer(v) => Var::Integer(*v),
            Var::String(v) => Var::String(v.clone()),
            Var::Array(a) => {
                let mut data: Vec<Var> = Vec::new();
                let mut i: usize = 0;
                while i < a.data.len()
                    invariant
                        *self == Var::Array(*a),
                        i <= a.data@.len(),
                        data@.len() == i,
                        forall|j: int| 0 <= j < i ==> var_model(#[trigger] data@[j]) == var_model(a.data@[j]),
                    decreases a.data@.len() - i,
                {
                    proof {
                        let sv = *self;
                        if let Var::Array(aa) = sv {
                            assert(aa == *a);
                            assert(decreases_to!(sv => aa.data@[i as int]));
                        }
                    }
                    let v = a.data[i].clone();
                    data.push(v);
                    i += 1;
                }
                let r = Var::Array(Array { data });
                proof {
                    assert(var_model(r) == var_model(*self)) by {
                        if let VarModel::Array(s1) = var_model(r) {
                            if let VarModel::Array(s2) = var_model(*self) {
                                assert(s1 =~= s2);
                            }
                        }
                    }
                }
                r
            },
        }
    }
}

impl Clone for Array {
    fn clone(&self) -> (r: Self)
        ensures
            var_model(Var::Array(r)) == var_model(Var::Array(*self)),
    {
        let mut data: Vec<Var> = Vec::new();
        let mut i: usize = 0;
        while i < self.data.len()
            invariant
                i <= self.data@.len(),
                data@.len() == i,
                forall|j: int| 0 <= j < i ==> var_model(#[trigger] data@[j]) == var_model(self.data@[j]),
            decreases self.data@.len() - i,
        {
            let v = self.data[i].clone();
            data.push(v);
            i += 1;
        }
        let r = Array { data };
        proof {
            if let VarModel::Array(s1) = var_model(Var::Array(r)) {
                if let VarModel::Array(s2) = var_model(Var::Array(*self)) {
                    assert(s1 =~= s2);
                }
            }
        }
        r
    }
}

impl Clone for Value {
    fn clone(&self) -> (r: Self)
        ensures
            self is Binding ==> r is Binding && r->Binding_0@ == self->Binding_0@,
            self is Const ==> r is Const && var_model(r->Const_0) == var_model(self->Const_0),
    {
        match self {
            Value::Binding(name) => Value::Binding(name.clone()),
            Value::Const(v) => Value::Const(v.clone()),
        }
    }
}

impl From<Array> for Var {
    fn from(v: Array) -> (r: Self) {
        Var::Array(v)
    }
}

impl vstd::std_specs::convert::FromSpecImpl<Array> for Var {
    open spec fn obeys_from_spec() -> bool {
        true
    }

    open spec fn from_spec(v: Array) -> Self {
        Var::Array(v)
    }
}

impl From<Var> for Value {
    fn from(v: Var) -> (r: Self) {
        Value::Const(v)
    }
}

impl vstd::std_specs::convert::FromSpecImpl<Var> for Value {
    open spec fn obeys_from_spec() -> bool {
        true
    }

    open spec fn from_spec(v: Var) -> Self {
        Value::Const(v)
    }
}

impl Var {
    /// A string value with the text of `s`.
    pub fn from_str(s: &str) -> (r: Var)
        ensures
            r is String && r->String_0@ == s@,
    {
        Var::String(s.to_owned())
    }

    /// The bits of the real number, when the value is one.
    pub fn as_real_bits(&self) -> (r: Option<u32>)
        ensures
            r == (match *self {
                Var::Real(b) => Some(b),
                _ => None::<u32>,
            }),
    {
        match self {
            Var::Real(b) => Some(*b),
            _ => None,
        }
    }

    /// The integer, when the value is one.
    pub fn as_integer(&self) -> (r: Option<i32>)
        ensures
            r == (match *self {
                Var::Integer(v) => Some(v),
                _ => None::<i32>,
            }),
    {
        match self {
            Var::Integer(v) => Some(*v),
            _ => None,
        }
    }

    /// The string, when the value is one.
    pub fn as_string(&self) -> (r: Option<&String>)
        ensures
            r is Some <==> *self is String,
            r is Some ==> *r->0 == self->String_0,
    {
        match self {
            Var::String(v) => Some(v),
            _ => None,
        }
    }

    /// The array, when the value is one.
    pub fn as_array(&self) -> (r: Option<&Array>)
        ensures
            r is Some <==> *self is Array,
            r is Some ==> *r->0 == self->Array_0,
    {
        match self {
            Var::Array(v) => Some(v),
            _ => None,
        }
    }

    /// The text of the value; none for a real number.
    pub fn text(&self) -> (s: Option<String>)
        ensures
            s is Some <==> var_text(*self) is Some,
            s is Some ==> s->0@ == var_text(*self)->0,
    {
        match self {
            Var::Real(_) => None,
            Var::Integer(v) => Some(i32_text(*v)),
            Var::String(v) => Some(v.clone()),
            Var::Array(a) => Some(a.to_string()),
        }
    }
}

impl Value {
    /// The value shown: the one bound to the name in `ui_state`, or the constant.
    pub fn var<'a>(&'a self, ui_state: &'a UIState) -> (v: &'a Var)
        requires
            *self is Binding ==> ui_state.values().contains_key(self->Binding_0@),
        ensures
            *self is Binding ==> *v == ui_state.values()[self->Binding_0@],
            *self is Const ==> *v == self->Const_0,
    {
        match self {
            Value::Binding(binding) => ui_state.value(binding.as_str()),
            Value::Const(var) => var,
        }
    }
}

} // verus!
