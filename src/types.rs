use std::rc::Rc;
use vstd::prelude::*;

verus! {

/// Identity of a host-implemented operation bound in the root environment.
#[derive(Clone, Copy, PartialEq, Eq, Debug)]
pub enum Builtin {
    Add,
    Sub,
    Mul,
    Div,
}

/// A first-class value of the language.
pub enum MalValue {
    Nil,
    True,
    False,
    String(String),
    Symbol(String),
    Int(i32),
    List(Rc<Vec<MalValue>>),
    Vector(Rc<Vec<MalValue>>),
    Function(Builtin),
}

/// Mathematical model of a value.
pub enum Form {
    Nil,
    True,
    False,
    Str(Seq<char>),
    Sym(Seq<char>),
    Int(i32),
    List(Seq<Form>),
    Vector(Seq<Form>),
    Func(Builtin),
}

/// The kind of a failure, which decides how a caller may react to it.
#[derive(Clone, Copy, PartialEq, Eq, Debug)]
pub enum ErrorKind {
    /// The input ended inside a form or a string literal.
    Eof,
    /// A token that is no atom and holds special characters.
    InvalidToken,
    /// A backslash before a character other than `n`, `\\` or `"`.
    InvalidEscape,
    /// A symbol that no frame binds.
    UnknownSymbol,
    /// A value of the wrong shape: not an integer, symbol or function where one is needed.
    TypeMismatch,
    /// A wrong number of arguments.
    ArityMismatch,
    /// An integer operation that overflows or divides by zero.
    Arithmetic,
}

/// A failure: its kind, and a message for people.
pub struct MalError {
    pub kind: ErrorKind,
    pub s: String,
}

pub open spec fn forms_of(s: Seq<MalValue>) -> Seq<Form>
    decreases s, 0nat,
{
    if s.len() == 0 {
        Seq::empty()
    } else {
        forms_of(s.drop_last()).push(s.last().view())
    }
}

pub proof fn lemma_forms_of_push(v: Seq<MalValue>, x: MalValue)
    ensures
        forms_of(v.push(x)) == forms_of(v).push(x@),
{
    assert(v.push(x).drop_last() =~= v);
}

pub proof fn lemma_forms_of_index(s: Seq<MalValue>, i: int)
    requires
        0 <= i < s.len(),
    ensures
        forms_of(s).len() == s.len(),
        forms_of(s)[i] == s[i]@,
    decreases s.len(),
{
    lemma_forms_of_len(s);
    if i < s.len() - 1 {
        lemma_forms_of_index(s.drop_last(), i);
    }
}

pub proof fn lemma_forms_of_len(s: Seq<MalValue>)
    ensures
        forms_of(s).len() == s.len(),
    decreases s.len(),
{
    if s.len() > 0 {
        lemma_forms_of_len(s.drop_last());
    }
}

pub proof fn lemma_forms_of_subrange(s: Seq<MalValue>, a: int, b: int)
    requires
        0 <= a <= b <= s.len(),
    ensures
        forms_of(s.subrange(a, b)) == forms_of(s).subrange(a, b),
{
    lemma_forms_of_len(s);
    lemma_forms_of_len(s.subrange(a, b));
    assert forall|i: int| 0 <= i < b - a implies forms_of(s.subrange(a, b))[i] == forms_of(s).subrange(a, b)[i] by {
        lemma_forms_of_index(s.subrange(a, b), i);
        lemma_forms_of_index(s, a + i);
    }
    assert(forms_of(s.subrange(a, b)) =~= forms_of(s).subrange(a, b));
}

impl MalValue {
    pub open spec fn view(self) -> Form
        decreases self, 1nat,
    {
        match self {
            MalValue::Nil => Form::Nil,
            MalValue::True => Form::True,
            MalValue::False => Form::False,
            MalValue::String(s) => Form::Str(s@),
            MalValue::Symbol(s) => Form::Sym(s@),
            MalValue::Int(i) => Form::Int(i),
            MalValue::List(l) => Form::List(forms_of(l@)),
            MalValue::Vector(l) => Form::Vector(forms_of(l@)),
            MalValue::Function(b) => Form::Func(b),
        }
    }
}

} // verus!

verus! {

impl MalError {
    /// An error of the given kind with the message `s`.
    pub fn new(kind: ErrorKind, s: &str) -> (r: MalError)
        ensures
            r.kind == kind,
            r.s@ == s@,
    {
        MalError { kind, s: s.to_string() }
    }
}

/// Relies on `Rc::clone`: the new pointer refers to the same sequence.
#[verifier::external_body]
fn share(l: &Rc<Vec<MalValue>>) -> (r: Rc<Vec<MalValue>>)
    ensures
        r == *l,
{
    Rc::clone(l)
}

impl MalValue {
    /// A value equal to this one; sequences are shared, not copied.
    pub fn duplicate(&self) -> (r: MalValue)
        ensures
            r@ == self@,
    {
        match self {
            MalValue::Nil => MalValue::Nil,
            MalValue::True => MalValue::True,
            MalValue::False => MalValue::False,
            MalValue::String(s) => MalValue::String(s.clone()),
            MalValue::Symbol(s) => MalValue::Symbol(s.clone()),
            MalValue::Int(i) => MalValue::Int(*i),
            MalValue::List(l) => MalValue::List(share(l)),
            MalValue::Vector(l) => MalValue::Vector(share(l)),
            MalValue::Function(b) => MalValue::Function(*b),
        }
    }

    /// The integer this value holds.
    pub fn as_int(&self) -> (r: Result<i32, MalError>)
        ensures
            match self@ {
                Form::Int(i) => r == Ok::<i32, MalError>(i),
                _ => r is Err && r->Err_0.kind == ErrorKind::TypeMismatch,
            },
    {
        if let MalValue::Int(i) = self {
            Ok(*i)
        } else {
            Err(MalError::new(ErrorKind::TypeMismatch, "Expected integer"))
        }
    }
}

} // verus!
