use std::rc::Rc;
use vstd::prelude::*;
use crate::env::{env_lookup, env_set, MalEnv};
use crate::printer::{pr_str, print_form};
use crate::reader::{read_spec, read_str};
use crate::types::{forms_of, Builtin, ErrorKind, Form, MalError, MalValue};

verus! {

/// The bindings of a chain of frames, innermost first.
pub type Frames = Seq<Map<Seq<char>, Form>>;

/// The integer that `b` makes of `x` and `y`; `None` on overflow or division by zero.
pub open spec fn combine(b: Builtin, x: i32, y: i32) -> Option<i32> {
    match b {
        Builtin::Add => x.checked_add(y),
        Builtin::Sub => x.checked_sub(y),
        Builtin::Mul => x.checked_mul(y),
        Builtin::Div => x.checked_div(y),
    }
}

/// Folds `args` into `acc` from the left with `b`.
pub open spec fn fold_ints(b: Builtin, acc: i32, args: Seq<Form>) -> Result<i32, ErrorKind>
    decreases args.len(),
{
    if args.len() == 0 {
        Ok(acc)
    } else {
        match args[0] {
            Form::Int(x) => match combine(b, acc, x) {
                Some(n) => fold_ints(b, n, args.drop_first()),
                None => Err(ErrorKind::Arithmetic),
            },
            _ => Err(ErrorKind::TypeMismatch),
        }
    }
}

/// The result of applying the native operation `b` to `args`.
pub open spec fn apply(b: Builtin, args: Seq<Form>) -> Result<Form, ErrorKind> {
    if args.len() == 0 {
        Err(ErrorKind::ArityMismatch)
    } else {
        match args[0] {
            Form::Int(x) => match fold_ints(b, x, args.drop_first()) {
                Ok(n) => Ok(Form::Int(n)),
                Err(e) => Err(e),
            },
            _ => Err(ErrorKind::TypeMismatch),
        }
    }
}

pub open spec fn def_symbol() -> Seq<char> {
    seq!['d', 'e', 'f', '!']
}

/// Evaluates `items` from left to right, each in the frames that the one before left.
pub open spec fn eval_items(items: Seq<Form>, e: Frames) -> (Result<Seq<Form>, ErrorKind>, Frames)
    decreases items, 0nat,
{
    if items.len() == 0 {
        (Ok(Seq::empty()), e)
    } else {
        let (r, e1) = eval_items(items.drop_last(), e);
        match r {
            Err(x) => (Err(x), e1),
            Ok(vs) => {
                let (r2, e2) = eval_form(items.last(), e1);
                match r2 {
                    Err(x) => (Err(x), e2),
                    Ok(v) => (Ok(vs.push(v)), e2),
                }
            },
        }
    }
}

/// The result of evaluating `f` in the frames `e`, and the frames afterwards.
pub open spec fn eval_form(f: Form, e: Frames) -> (Result<Form, ErrorKind>, Frames)
    decreases f, 1nat,
{
    match f {
        Form::Sym(k) => (
            match env_lookup(e, k) {
                Some(v) => Ok(v),
                None => Err(ErrorKind::UnknownSymbol),
            },
            e,
        ),
        Form::List(items) => if items.len() == 0 {
            (Ok(f), e)
        } else if items[0] == Form::Sym(def_symbol()) {
            if items.len() != 3 {
                (Err(ErrorKind::ArityMismatch), e)
            } else {
                match items[1] {
                    Form::Sym(k) => {
                        let (r, e1) = eval_form(items[2], e);
                        match r {
                            Ok(v) => (Ok(Form::Nil), env_set(e1, k, v)),
                            Err(x) => (Err(x), e1),
                        }
                    },
                    _ => (Err(ErrorKind::TypeMismatch), e),
                }
            }
        } else {
            let (r, e1) = eval_items(items, e);
            match r {
                Err(x) => (Err(x), e1),
                Ok(vs) => (
                    match vs[0] {
                        Form::Func(b) => apply(b, vs.drop_first()),
                        _ => Err(ErrorKind::TypeMismatch),
                    },
                    e1,
                ),
            }
        },
        Form::Vector(items) => {
            let (r, e1) = eval_items(items, e);
            match r {
                Err(x) => (Err(x), e1),
                Ok(vs) => (Ok(Form::Vector(vs)), e1),
            }
        },
        _ => (Ok(f), e),
    }
}

fn op_of(b: Builtin, x: i32, y: i32) -> (r: Option<i32>)
    ensures
        r == combine(b, x, y),
{
    match b {
        Builtin::Add => x.checked_add(y),
        Builtin::Sub => x.checked_sub(y),
        Builtin::Mul => x.checked_mul(y),
        Builtin::Div => x.checked_div(y),
    }
}

/// Folds the integer arguments `args` from the left with the operation `b`.
pub fn arith(args: &[MalValue], b: Builtin) -> (r: Result<MalValue, MalError>)
    ensures
        match apply(b, forms_of(args@)) {
            Ok(f) => r is Ok && r->Ok_0@ == f,
            Err(e) => r is Err && r->Err_0.kind == e,
        },
{
    let ghost fs = forms_of(args@);
    proof {
        crate::types::lemma_forms_of_len(args@);
    }
    if args.len() < 1 {
        return Err(MalError::new(ErrorKind::ArityMismatch, "Not enough arguments"));
    }
    proof {
        crate::types::lemma_forms_of_index(args@, 0);
    }
    let mut acc = match args[0].as_int() {
        Ok(i) => i,
        Err(e) => return Err(e),
    };
    let mut i: usize = 1;
    while i < args.len()
        invariant
            1 <= i <= args@.len(),
            fs == forms_of(args@),
            fs.len() == args@.len(),
            fs[0] is Int,
            fold_ints(b, fs[0]->Int_0, fs.drop_first()) == fold_ints(b, acc, fs.subrange(i as int, fs.len() as int)),
        decreases args.len() - i,
    {
        proof {
            crate::types::lemma_forms_of_index(args@, i as int);
            assert(fs.subrange(i as int, fs.len() as int).drop_first() =~= fs.subrange(i + 1, fs.len() as int));
            assert(fs.subrange(i as int, fs.len() as int)[0] == fs[i as int]);
        }
        let x = match args[i].as_int() {
            Ok(x) => x,
            Err(e) => return Err(e),
        };
        acc = match op_of(b, acc, x) {
            Some(n) => n,
            None => return Err(MalError::new(ErrorKind::Arithmetic, "Arithmetic overflow or division by zero")),
        };
        i = i + 1;
    }
    assert(fs.drop_first() =~= fs.subrange(1, fs.len() as int));
    Ok(MalValue::Int(acc))
}

/// Adds its integer arguments, from the left.
pub fn add(args: &[MalValue]) -> (r: Result<MalValue, MalError>)
    ensures
        match apply(Builtin::Add, forms_of(args@)) {
            Ok(f) => r is Ok && r->Ok_0@ == f,
            Err(e) => r is Err && r->Err_0.kind == e,
        },
{
    arith(args, Builtin::Add)
}

/// Subtracts the later integer arguments from the first.
pub fn sub(args: &[MalValue]) -> (r: Result<MalValue, MalError>)
    ensures
        match apply(Builtin::Sub, forms_of(args@)) {
            Ok(f) => r is Ok && r->Ok_0@ == f,
            Err(e) => r is Err && r->Err_0.kind == e,
        },
{
    arith(args, Builtin::Sub)
}

/// Multiplies its integer arguments, from the left.
pub fn mul(args: &[MalValue]) -> (r: Result<MalValue, MalError>)
    ensures
        match apply(Builtin::Mul, forms_of(args@)) {
            Ok(f) => r is Ok && r->Ok_0@ == f,
            Err(e) => r is Err && r->Err_0.kind == e,
        },
{
    arith(args, Builtin::Mul)
}

/// Divides the first integer argument by the later ones in turn, rounding toward zero.
pub fn div(args: &[MalValue]) -> (r: Result<MalValue, MalError>)
    ensures
        match apply(Builtin::Div, forms_of(args@)) {
            Ok(f) => r is Ok && r->Ok_0@ == f,
            Err(e) => r is Err && r->Err_0.kind == e,
        },
{
    arith(args, Builtin::Div)
}


/// What a call that returns `r` did, in terms of the model.
pub open spec fn outcome(r: Result<MalValue, MalError>) -> Result<Form, ErrorKind> {
    match r {
        Ok(v) => Ok(v@),
        Err(e) => Err(e.kind),
    }
}

pub open spec fn outcome_items(r: Result<Vec<MalValue>, MalError>) -> Result<Seq<Form>, ErrorKind> {
    match r {
        Ok(v) => Ok(forms_of(v@)),
        Err(e) => Err(e.kind),
    }
}

proof fn lemma_eval_items_err(items: Seq<Form>, e: Frames, i: int)
    requires
        0 <= i <= items.len(),
        eval_items(items.take(i), e).0 is Err,
    ensures
        eval_items(items, e) == eval_items(items.take(i), e),
    decreases items.len(),
{
    if i == items.len() {
        assert(items.take(i) =~= items);
    } else {
        assert(items.drop_last().take(i) =~= items.take(i));
        lemma_eval_items_err(items.drop_last(), e, i);
    }
}

/// Applies the native operation `b` to `args`.
fn call_builtin(b: Builtin, args: &[MalValue]) -> (r: Result<MalValue, MalError>)
    ensures
        outcome(r) == apply(b, forms_of(args@)),
{
    match b {
        Builtin::Add => crate::eval::add(args),
        Builtin::Sub => crate::eval::sub(args),
        Builtin::Mul => crate::eval::mul(args),
        Builtin::Div => crate::eval::div(args),
    }
}

/// Evaluates each of `items` in turn, from left to right.
fn eval_seq(items: &Vec<MalValue>, env: &mut MalEnv) -> (r: Result<Vec<MalValue>, MalError>)
    ensures
        (outcome_items(r), final(env)@) == eval_items(forms_of(items@), old(env)@),
        r is Ok ==> r->Ok_0@.len() == items@.len(),
    decreases items, 0nat,
{
    let ghost fs = forms_of(items@);
    let ghost e0 = env@;
    proof {
        crate::types::lemma_forms_of_len(items@);
        assert(fs.take(0) =~= Seq::<Form>::empty());
    }
    let mut out: Vec<MalValue> = Vec::new();
    let mut i: usize = 0;
    while i < items.len()
        invariant
            i <= items@.len(),
            fs == forms_of(items@),
            fs.len() == items@.len(),
            e0 == old(env)@,
            out@.len() == i,
            eval_items(fs.take(i as int), e0) == (Ok::<Seq<Form>, ErrorKind>(forms_of(out@)), env@),
        decreases items.len() - i,
    {
        proof {
            crate::types::lemma_forms_of_index(items@, i as int);
            assert(fs.take(i + 1).drop_last() =~= fs.take(i as int));
            assert(fs.take(i + 1).last() == fs[i as int]);
        }
        let x = eval(&items[i], env);
        match x {
            Ok(v) => {
                proof {
                    crate::types::lemma_forms_of_push(out@, v);
                }
                out.push(v);
            },
            Err(e) => {
                proof {
                    assert(eval_items(fs.take(i + 1), e0) == (Err::<Seq<Form>, ErrorKind>(e.kind), env@));
                    lemma_eval_items_err(fs, e0, i + 1);
                    assert(eval_items(fs, e0) == (Err::<Seq<Form>, ErrorKind>(e.kind), env@));
                }
                return Err(e);
            },
        }
        i = i + 1;
    }
    assert(fs.take(i as int) =~= fs);
    Ok(out)
}

/// Evaluates `v` as a container: a symbol is looked up, a list or vector is evaluated item by
/// item, anything else stands for itself.
pub fn eval_ast(v: &MalValue, env: &mut MalEnv) -> (r: Result<MalValue, MalError>)
    ensures
        v@ is List ==> (outcome(r), final(env)@) == (match eval_items(v@->List_0, old(env)@) {
            (Ok(vs), e1) => (Ok(Form::List(vs)), e1),
            (Err(x), e1) => (Err(x), e1),
        }),
        !(v@ is List) ==> (outcome(r), final(env)@) == eval_form(v@, old(env)@),
    decreases v, 2nat,
{
    match v {
        MalValue::Symbol(s) => match env.get(s.as_str()) {
            Some(x) => Ok(x),
            None => Err(MalError::new(ErrorKind::UnknownSymbol, "Unknown symbol")),
        },
        MalValue::List(l) => match eval_seq(l, env) {
            Ok(r) => Ok(MalValue::List(Rc::new(r))),
            Err(e) => Err(e),
        },
        MalValue::Vector(l) => match {
            eval_seq(l, env)
        } {
            Ok(r) => Ok(MalValue::Vector(Rc::new(r))),
            Err(e) => Err(e),
        },
        _ => Ok(v.duplicate()),
    }
}

/// Whether `s` is the name of the special form that binds a symbol.
fn is_def(s: &String) -> (r: bool)
    ensures
        r == (s@ == def_symbol()),
{
    let d = "def!".to_string();
    proof {
        reveal_strlit("def!");
        assert(d@ == "def!"@);
        assert("def!"@ =~= def_symbol());
    }
    *s == d
}

/// The special form `(def! name expr)`, given as the whole list.
fn def(env: &mut MalEnv, list: &Vec<MalValue>) -> (r: Result<MalValue, MalError>)
    requires
        list@.len() >= 1,
        forms_of(list@)[0] == Form::Sym(def_symbol()),
    ensures
        (outcome(r), final(env)@) == eval_form(Form::List(forms_of(list@)), old(env)@),
    decreases list, 1nat,
{
    proof {
        crate::types::lemma_forms_of_len(list@);
    }
    if list.len() != 3 {
        return Err(MalError::new(ErrorKind::ArityMismatch, "Expected 2 arguments to def!"));
    }
    proof {
        crate::types::lemma_forms_of_index(list@, 1);
        crate::types::lemma_forms_of_index(list@, 2);
    }
    let symbol = match &list[1] {
        MalValue::Symbol(s) => s,
        _ => return Err(MalError::new(ErrorKind::TypeMismatch, "Expected symbol")),
    };
    assert(forms_of(list@)[2] == list@[2]@);
    let value = match eval(&list[2], env) {
        Ok(x) => x,
        Err(e) => return Err(e),
    };
    env.set(symbol.as_str(), value);
    Ok(MalValue::Nil)
}

/// Evaluates `v` in `env`; `def!` binds in `env` itself.
pub fn eval(v: &MalValue, env: &mut MalEnv) -> (r: Result<MalValue, MalError>)
    ensures
        (outcome(r), final(env)@) == eval_form(v@, old(env)@),
    decreases v, 3nat,
{
    let list = match v {
        MalValue::List(l) => l,
        _ => return eval_ast(v, env),
    };
    if list.len() == 0 {
        proof {
            crate::types::lemma_forms_of_len(list@);
        }
        return Ok(v.duplicate());
    }
    proof {
        crate::types::lemma_forms_of_index(list@, 0);
    }
    if let MalValue::Symbol(s) = &list[0] {
        if is_def(s) {
            return def(env, list);
        }
    }
    let mut evaluated = match eval_seq(list, env) {
        Ok(x) => x,
        Err(e) => return Err(e),
    };
    let ghost before = evaluated@;
    proof {
        crate::types::lemma_forms_of_index(before, 0);
        crate::types::lemma_forms_of_len(before);
        crate::types::lemma_forms_of_subrange(before, 1, before.len() as int);
        assert(forms_of(before).drop_first() =~= forms_of(before).subrange(1, before.len() as int));
    }
    let head = evaluated.remove(0);
    proof {
        assert(evaluated@ =~= before.subrange(1, before.len() as int));
    }
    match head {
        MalValue::Function(b) => call_builtin(b, evaluated.as_slice()),
        _ => Err(MalError::new(ErrorKind::TypeMismatch, "Not callable")),
    }
}


/// The bindings of the root frame: the four arithmetic operations.
pub open spec fn root_bindings() -> Map<Seq<char>, Form> {
    Map::<Seq<char>, Form>::empty().insert(seq!['+'], Form::Func(Builtin::Add)).insert(
        seq!['-'],
        Form::Func(Builtin::Sub),
    ).insert(seq!['*'], Form::Func(Builtin::Mul)).insert(seq!['/'], Form::Func(Builtin::Div))
}

/// A root frame with the arithmetic operations bound.
pub fn make_env() -> (r: MalEnv)
    ensures
        r@ == seq![root_bindings()],
{
    proof {
        reveal_strlit("+");
        reveal_strlit("-");
        reveal_strlit("*");
        reveal_strlit("/");
        assert("+"@ =~= seq!['+']);
        assert("-"@ =~= seq!['-']);
        assert("*"@ =~= seq!['*']);
        assert("/"@ =~= seq!['/']);
    }
    let mut e = MalEnv::new(None);
    assert(e@ =~= seq![Map::<Seq<char>, Form>::empty()]);
    e.set("+", MalValue::Function(Builtin::Add));
    e.set("-", MalValue::Function(Builtin::Sub));
    e.set("*", MalValue::Function(Builtin::Mul));
    e.set("/", MalValue::Function(Builtin::Div));
    assert(e@.len() == 1);
    assert(e@[0] =~= root_bindings());
    assert(e@ =~= seq![root_bindings()]);
    e
}

/// What reading and then evaluating the text `s` in the frames `e` gives, and the frames after.
pub open spec fn read_eval(s: Seq<char>, e: Frames) -> (Result<Form, ErrorKind>, Frames) {
    match read_spec(s) {
        Err(x) => (Err(x), e),
        Ok(f) => eval_form(f, e),
    }
}

/// Reads the text `s` and evaluates it in `env`.
pub fn read_eval_str(s: &str, env: &mut MalEnv) -> (r: Result<MalValue, MalError>)
    ensures
        (outcome(r), final(env)@) == read_eval(s@, old(env)@),
{
    let v = match read_str(s) {
        Ok(v) => v,
        Err(e) => return Err(e),
    };
    eval(&v, env)
}

/// Reads, evaluates and prints one line of input.
pub fn rep(s: &str, env: &mut MalEnv) -> (r: Result<String, MalError>)
    ensures
        final(env)@ == read_eval(s@, old(env)@).1,
        match read_eval(s@, old(env)@).0 {
            Ok(f) => r is Ok && r->Ok_0@ == print_form(f, true),
            Err(x) => r is Err && r->Err_0.kind == x,
        },
{
    match read_eval_str(s, env) {
        Ok(v) => Ok(pr_str(&v, true)),
        Err(e) => Err(e),
    }
}

} // verus!
