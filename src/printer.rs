use vstd::prelude::*;
use crate::chars::push_char;
use crate::types::{forms_of, Form, MalValue};

verus! {

pub open spec fn digit_char(d: int) -> char {
    if d == 0 { '0' } else if d == 1 { '1' } else if d == 2 { '2' } else if d == 3 { '3' }
    else if d == 4 { '4' } else if d == 5 { '5' } else if d == 6 { '6' } else if d == 7 { '7' }
    else if d == 8 { '8' } else { '9' }
}

/// Decimal digits of `n`, most significant first, without leading zeros.
pub open spec fn nat_digits(n: nat) -> Seq<char>
    decreases n,
{
    if n < 10 {
        seq![digit_char(n as int)]
    } else {
        nat_digits(n / 10).push(digit_char((n % 10) as int))
    }
}

/// Decimal text of `i`, with a leading `-` when negative.
pub open spec fn decimal(i: int) -> Seq<char> {
    if i < 0 {
        seq!['-'] + nat_digits((-i) as nat)
    } else {
        nat_digits(i as nat)
    }
}

/// How a character of a string is written inside quotes.
pub open spec fn escape_char(c: char) -> Seq<char> {
    if c == '\n' {
        seq!['\\', 'n']
    } else if c == '\\' {
        seq!['\\', '\\']
    } else if c == '"' {
        seq!['\\', '"']
    } else {
        seq![c]
    }
}

pub open spec fn escaped(s: Seq<char>) -> Seq<char>
    decreases s.len(),
{
    if s.len() == 0 {
        Seq::empty()
    } else {
        escaped(s.drop_last()) + escape_char(s.last())
    }
}

/// Text of a string: quoted and escaped when `readably`, else as it is.
pub open spec fn string_text(s: Seq<char>, readably: bool) -> Seq<char> {
    if readably {
        seq!['"'] + escaped(s) + seq!['"']
    } else {
        s
    }
}

/// Text of `f`.
pub open spec fn print_form(f: Form, readably: bool) -> Seq<char>
    decreases f, 1nat,
{
    match f {
        Form::Nil => seq!['n', 'i', 'l'],
        Form::True => seq!['t', 'r', 'u', 'e'],
        Form::False => seq!['f', 'a', 'l', 's', 'e'],
        Form::Int(i) => decimal(i as int),
        Form::Sym(s) => s,
        Form::Str(s) => string_text(s, readably),
        Form::List(items) => seq!['('] + print_items(items, readably) + seq![')'],
        Form::Vector(items) => seq!['['] + print_items(items, readably) + seq![']'],
        Form::Func(_) => seq!['<', 'f', 'u', 'n', 'c', 't', 'i', 'o', 'n', '>'],
    }
}

/// Texts of `items`, separated by single spaces.
pub open spec fn print_items(items: Seq<Form>, readably: bool) -> Seq<char>
    decreases items, 0nat,
{
    if items.len() == 0 {
        Seq::empty()
    } else if items.len() == 1 {
        print_form(items[0], readably)
    } else {
        print_items(items.drop_last(), readably) + seq![' '] + print_form(items.last(), readably)
    }
}

fn digit(d: u32) -> (r: char)
    requires
        d < 10,
    ensures
        r == digit_char(d as int),
{
    match d {
        0 => '0',
        1 => '1',
        2 => '2',
        3 => '3',
        4 => '4',
        5 => '5',
        6 => '6',
        7 => '7',
        8 => '8',
        _ => '9',
    }
}

fn push_digits(s: &mut String, n: u32)
    ensures
        final(s)@ == old(s)@ + nat_digits(n as nat),
    decreases n,
{
    if n >= 10 {
        push_digits(s, n / 10);
    }
    push_char(s, digit(n % 10));
    assert(final(s)@ =~= old(s)@ + nat_digits(n as nat));
}

fn push_str(s: &mut String, t: &str)
    ensures
        final(s)@ == old(s)@ + t@,
{
    s.append(t);
}

fn int_text(i: i32) -> (r: String)
    ensures
        r@ == decimal(i as int),
{
    let mut r = String::new();
    if i < 0 {
        push_char(&mut r, '-');
        let n = (-(i as i64)) as u32;
        push_digits(&mut r, n);
    } else {
        push_digits(&mut r, i as u32);
    }
    assert(r@ =~= decimal(i as int));
    r
}

fn pr_string(s: &str, print_readably: bool) -> (r: String)
    ensures
        r@ == string_text(s@, print_readably),
{
    let mut r = String::new();
    if !print_readably {
        push_str(&mut r, s);
        assert(r@ =~= s@);
        return r;
    }
    let chars = crate::chars::chars_of(s);
    push_char(&mut r, '"');
    let mut i: usize = 0;
    while i < chars.len()
        invariant
            i <= chars@.len(),
            chars@ == s@,
            r@ == seq!['"'] + escaped(chars@.take(i as int)),
        decreases chars.len() - i,
    {
        let c = chars[i];
        assert(chars@.take(i + 1).drop_last() =~= chars@.take(i as int));
        if c == '\n' {
            push_char(&mut r, '\\');
            push_char(&mut r, 'n');
        } else if c == '\\' {
            push_char(&mut r, '\\');
            push_char(&mut r, '\\');
        } else if c == '"' {
            push_char(&mut r, '\\');
            push_char(&mut r, '"');
        } else {
            push_char(&mut r, c);
        }
        i = i + 1;
        assert(r@ =~= seq!['"'] + escaped(chars@.take(i as int)));
    }
    push_char(&mut r, '"');
    assert(chars@.take(i as int) =~= s@);
    assert(r@ =~= string_text(s@, true));
    r
}

/// Text of the items of `list` between `open` and `close`.
fn pr_seq(list: &Vec<MalValue>, print_readably: bool, open: char, close: char) -> (r: String)
    ensures
        r@ == seq![open] + print_items(forms_of(list@), print_readably) + seq![close],
    decreases list, 0nat,
{
    let ghost fs = forms_of(list@);
    proof {
        crate::types::lemma_forms_of_len(list@);
    }
    let mut s = String::new();
    push_char(&mut s, open);
    let mut i: usize = 0;
    while i < list.len()
        invariant
            i <= list@.len(),
            fs == forms_of(list@),
            fs.len() == list@.len(),
            s@ == seq![open] + print_items(fs.take(i as int), print_readably),
        decreases list.len() - i,
    {
        proof {
            crate::types::lemma_forms_of_index(list@, i as int);
            assert(fs.take(i + 1).drop_last() =~= fs.take(i as int));
            assert(fs.take(i + 1).last() == fs[i as int]);
        }
        if i > 0 {
            push_char(&mut s, ' ');
        }
        let t = pr_str(&list[i], print_readably);
        push_str(&mut s, t.as_str());
        i = i + 1;
        proof {
            if i == 1 {
                assert(fs.take(1)[0] == fs[0]);
            }
        }
        assert(s@ =~= seq![open] + print_items(fs.take(i as int), print_readably));
    }
    push_char(&mut s, close);
    assert(fs.take(i as int) =~= fs);
    assert(s@ =~= seq![open] + print_items(fs, print_readably) + seq![close]);
    s
}

fn pr_list(list: &Vec<MalValue>, print_readably: bool) -> (r: String)
    ensures
        r@ == print_form(Form::List(forms_of(list@)), print_readably),
    decreases list, 1nat,
{
    pr_seq(list, print_readably, '(', ')')
}

fn pr_vector(list: &Vec<MalValue>, print_readably: bool) -> (r: String)
    ensures
        r@ == print_form(Form::Vector(forms_of(list@)), print_readably),
    decreases list, 1nat,
{
    pr_seq(list, print_readably, '[', ']')
}

fn literal(s: &str) -> (r: String)
    ensures
        r@ == s@,
{
    s.to_string()
}

/// Text of `value`; strings are quoted and escaped when `print_readably`.
pub fn pr_str(value: &MalValue, print_readably: bool) -> (r: String)
    ensures
        r@ == print_form(value@, print_readably),
    decreases value, 2nat,
{
    match value {
        MalValue::Nil => {
            let r = literal("nil");
            proof { reveal_strlit("nil"); }
            assert(r@ =~= seq!['n', 'i', 'l']);
            r
        },
        MalValue::True => {
            let r = literal("true");
            proof { reveal_strlit("true"); }
            assert(r@ =~= seq!['t', 'r', 'u', 'e']);
            r
        },
        MalValue::False => {
            let r = literal("false");
            proof { reveal_strlit("false"); }
            assert(r@ =~= seq!['f', 'a', 'l', 's', 'e']);
            r
        },
        MalValue::Int(i) => int_text(*i),
        MalValue::Symbol(s) => s.clone(),
        MalValue::List(list) => pr_list(list, print_readably),
        MalValue::Vector(list) => pr_vector(list, print_readably),
        MalValue::String(s) => pr_string(s.as_str(), print_readably),
        MalValue::Function(_) => {
            let r = literal("<function>");
            proof { reveal_strlit("<function>"); }
            assert(r@ =~= seq!['<', 'f', 'u', 'n', 'c', 't', 'i', 'o', 'n', '>']);
            r
        },
    }
}

} // verus!
