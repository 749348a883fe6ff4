use std::rc::Rc;

use nlisp::env::MalEnv;
use nlisp::eval::{make_env, read_eval_str, rep};
use nlisp::printer::pr_str;
use nlisp::reader::read_str;
use nlisp::types::{Builtin, ErrorKind, MalValue};

fn read_ok(s: &str) -> MalValue {
    match read_str(s) {
        Ok(v) => v,
        Err(e) => panic!("read of {:?} failed: {}", s, e.s),
    }
}

fn read_kind(s: &str) -> ErrorKind {
    match read_str(s) {
        Ok(_) => panic!("read of {:?} succeeded", s),
        Err(e) => e.kind,
    }
}

fn eval_text(s: &str, env: &mut MalEnv) -> Result<String, ErrorKind> {
    rep(s, env).map_err(|e| e.kind)
}

fn round_trip(s: &str) {
    let v = read_ok(s);
    let printed = pr_str(&v, true);
    let again = read_ok(&printed);
    assert_eq!(pr_str(&again, true), printed);
    assert_eq!(printed, s);
}

#[test]
fn balanced_brackets() {
    let v = read_ok("(1 2 (3 4) [5 6])");
    match v {
        MalValue::List(items) => {
            assert_eq!(items.len(), 4);
            assert!(matches!(items[0], MalValue::Int(1)));
            assert!(matches!(items[1], MalValue::Int(2)));
            match &items[2] {
                MalValue::List(inner) => assert_eq!(inner.len(), 2),
                _ => panic!("third element is not a list"),
            }
            match &items[3] {
                MalValue::Vector(inner) => {
                    assert_eq!(inner.len(), 2);
                    assert!(matches!(inner[1], MalValue::Int(6)));
                }
                _ => panic!("fourth element is not a vector"),
            }
        }
        _ => panic!("not a list"),
    }
}

#[test]
fn unterminated_input_fails_with_eof() {
    assert_eq!(read_kind("(1 2"), ErrorKind::Eof);
    assert_eq!(read_kind("\"abc"), ErrorKind::Eof);
    assert_eq!(read_kind("[1 2"), ErrorKind::Eof);
    assert_eq!(read_kind(""), ErrorKind::Eof);
    assert_eq!(read_kind("   , "), ErrorKind::Eof);
    assert_eq!(read_kind("\"ab\\"), ErrorKind::Eof);
}

#[test]
fn string_escaping() {
    let v = read_ok("\"a\\nb\"");
    match &v {
        MalValue::String(s) => assert_eq!(s, "a\nb"),
        _ => panic!("not a string"),
    }
    assert_eq!(pr_str(&v, true), "\"a\\nb\"");
    assert_eq!(pr_str(&v, false), "a\nb");
    let w = read_ok("\"q\\\"x\\\\y\"");
    match &w {
        MalValue::String(s) => assert_eq!(s, "q\"x\\y"),
        _ => panic!("not a string"),
    }
    assert_eq!(pr_str(&w, true), "\"q\\\"x\\\\y\"");
}

#[test]
fn invalid_escape_is_reported() {
    assert_eq!(read_kind("\"a\\tb\""), ErrorKind::InvalidEscape);
}

#[test]
fn invalid_token_is_reported() {
    assert_eq!(read_kind(")"), ErrorKind::InvalidToken);
    assert_eq!(read_kind("~@"), ErrorKind::InvalidToken);
    assert_eq!(read_kind("(1 ]"), ErrorKind::InvalidToken);
}

#[test]
fn atoms_are_read() {
    assert!(matches!(read_ok("nil"), MalValue::Nil));
    assert!(matches!(read_ok("true"), MalValue::True));
    assert!(matches!(read_ok("false"), MalValue::False));
    assert!(matches!(read_ok("  -17 "), MalValue::Int(-17)));
    assert!(matches!(read_ok("2147483647"), MalValue::Int(2147483647)));
    assert!(matches!(read_ok("-2147483648"), MalValue::Int(-2147483648)));
    match read_ok("2147483648") {
        MalValue::Symbol(s) => assert_eq!(s, "2147483648"),
        _ => panic!("an out-of-range literal is a symbol"),
    }
    match read_ok("-foo") {
        MalValue::Symbol(s) => assert_eq!(s, "-foo"),
        _ => panic!("not a symbol"),
    }
    match read_ok("-") {
        MalValue::Symbol(s) => assert_eq!(s, "-"),
        _ => panic!("not a symbol"),
    }
    match read_ok("abc,def") {
        MalValue::Symbol(s) => assert_eq!(s, "abc"),
        _ => panic!("not a symbol"),
    }
}

#[test]
fn comment_runs_to_end_of_text() {
    match read_ok("; note") {
        MalValue::Symbol(s) => assert_eq!(s, "; note"),
        _ => panic!("not a symbol"),
    }
    assert!(matches!(read_ok("7 ; trailing"), MalValue::Int(7)));
}

#[test]
fn printing_round_trips() {
    round_trip("(1 -2 (nil true false) [abc [] ()] x)");
    round_trip("[(+ 1 2) -2147483648 2147483647 0]");
    round_trip("()");
    assert_eq!(pr_str(&read_ok("( 1   2 )"), true), "(1 2)");
    assert_eq!(pr_str(&read_ok("[1,2,,3]"), true), "[1 2 3]");
}

#[test]
fn scoping() {
    let mut e0 = MalEnv::new(None);
    e0.set("x", MalValue::Int(1));
    let e0 = Rc::new(e0);
    let mut e1 = MalEnv::new(Some(Rc::clone(&e0)));
    e1.set("x", MalValue::Int(2));
    assert!(matches!(e1.get("x"), Some(MalValue::Int(2))));
    assert!(matches!(e0.get("x"), Some(MalValue::Int(1))));
    let parent = e1.outer().unwrap();
    assert!(matches!(parent.get("x"), Some(MalValue::Int(1))));
    assert!(e1.get("y").is_none());
    assert!(e1.find("y").is_none());
    assert!(matches!(e1.find("x").unwrap().get("x"), Some(MalValue::Int(2))));
}

#[test]
fn lookup_reaches_enclosing_frame() {
    let mut e0 = MalEnv::new(None);
    e0.set("y", MalValue::Int(5));
    let e0 = Rc::new(e0);
    let e1 = MalEnv::new(Some(Rc::clone(&e0)));
    let mut sibling = MalEnv::new(Some(Rc::clone(&e0)));
    sibling.set("y", MalValue::Int(6));
    assert!(matches!(e1.get("y"), Some(MalValue::Int(5))));
    assert!(matches!(sibling.get("y"), Some(MalValue::Int(6))));
    let owner = e1.find("y").unwrap();
    assert!(owner.outer().is_none());
}

#[test]
fn end_to_end() {
    let mut env = make_env();
    assert_eq!(eval_text("(def! x (+ 1 2))", &mut env), Ok("nil".to_string()));
    assert_eq!(eval_text("x", &mut env), Ok("3".to_string()));
    assert_eq!(eval_text("(+ 1 2 3)", &mut env), Ok("6".to_string()));
    assert_eq!(eval_text("(- 10 3 2)", &mut env), Ok("5".to_string()));
    assert_eq!(eval_text("(foo 1)", &mut env), Err(ErrorKind::UnknownSymbol));
    assert_eq!(eval_text("(1 2 3)", &mut env), Err(ErrorKind::TypeMismatch));
}

#[test]
fn arithmetic() {
    let mut env = make_env();
    assert_eq!(eval_text("(* 2 3 4)", &mut env), Ok("24".to_string()));
    assert_eq!(eval_text("(/ 20 3)", &mut env), Ok("6".to_string()));
    assert_eq!(eval_text("(/ -7 2)", &mut env), Ok("-3".to_string()));
    assert_eq!(eval_text("(- 5)", &mut env), Ok("5".to_string()));
    assert_eq!(eval_text("(+ 1 (* 2 3))", &mut env), Ok("7".to_string()));
    assert_eq!(eval_text("(+)", &mut env), Err(ErrorKind::ArityMismatch));
    assert_eq!(eval_text("(+ 1 nil)", &mut env), Err(ErrorKind::TypeMismatch));
    assert_eq!(eval_text("(/ 1 0)", &mut env), Err(ErrorKind::Arithmetic));
    assert_eq!(eval_text("(+ 2147483647 1)", &mut env), Err(ErrorKind::Arithmetic));
}

#[test]
fn def_errors_and_persistence() {
    let mut env = make_env();
    assert_eq!(eval_text("(def! x)", &mut env), Err(ErrorKind::ArityMismatch));
    assert_eq!(eval_text("(def! 1 2)", &mut env), Err(ErrorKind::TypeMismatch));
    assert_eq!(eval_text("(def! y (foo))", &mut env), Err(ErrorKind::UnknownSymbol));
    assert_eq!(eval_text("y", &mut env), Err(ErrorKind::UnknownSymbol));
    assert_eq!(eval_text("(def! y 4)", &mut env), Ok("nil".to_string()));
    assert_eq!(eval_text("(def! y (* y y))", &mut env), Ok("nil".to_string()));
    assert_eq!(eval_text("y", &mut env), Ok("16".to_string()));
    assert_eq!(eval_text("(1", &mut env), Err(ErrorKind::Eof));
    assert_eq!(eval_text("y", &mut env), Ok("16".to_string()));
}

#[test]
fn containers_and_atoms_evaluate() {
    let mut env = make_env();
    assert_eq!(eval_text("()", &mut env), Ok("()".to_string()));
    assert_eq!(eval_text("[1 (+ 1 1) [x]]", &mut env), Err(ErrorKind::UnknownSymbol));
    assert_eq!(eval_text("[1 (+ 1 1) []]", &mut env), Ok("[1 2 []]".to_string()));
    assert_eq!(eval_text("\"hi\"", &mut env), Ok("\"hi\"".to_string()));
    assert_eq!(eval_text("+", &mut env), Ok("<function>".to_string()));
    let v = read_eval_str("(- 1 4)", &mut env);
    assert!(matches!(v, Ok(MalValue::Int(-3))));
}

#[test]
fn values_and_errors() {
    assert!(matches!(MalValue::Int(4).as_int(), Ok(4)));
    assert_eq!(MalValue::Nil.as_int().map_err(|e| e.kind), Err(ErrorKind::TypeMismatch));
    let e = nlisp::types::MalError::new(ErrorKind::Eof, "EOF");
    assert_eq!(e.s, "EOF");
    let f = MalValue::Function(Builtin::Mul);
    assert_eq!(pr_str(&f.duplicate(), true), "<function>");
}
