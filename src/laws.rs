use vstd::prelude::*;
use crate::printer::{decimal, digit_char, nat_digits, print_form, print_items};
use crate::reader::{
    all_digits, atom, digits_value, int_literal, is_digit, is_separator, is_special, parse_form,
    parse_items, plain_end, read_spec, skip_separators, spans_from, string_end, token_end,
    token_text,
};
use crate::env::{env_lookup, env_set};
use crate::types::Form;

verus! {

proof fn lemma_digit_char(d: int)
    requires
        0 <= d < 10,
    ensures
        is_digit(digit_char(d)),
        (digit_char(d) as u32) as int - ('0' as u32) as int == d,
{
}

proof fn lemma_nat_digits(n: nat)
    ensures
        nat_digits(n).len() > 0,
        all_digits(nat_digits(n)),
        digits_value(nat_digits(n)) == n,
    decreases n,
{
    if n >= 10 {
        lemma_nat_digits(n / 10);
        lemma_digit_char((n % 10) as int);
        let d = nat_digits(n);
        assert(d.drop_last() =~= nat_digits(n / 10));
        assert(d.last() == digit_char((n % 10) as int));
        assert((n / 10) * 10 + n % 10 == n) by (nonlinear_arith);
        assert forall|i: int| 0 <= i < d.len() implies is_digit(#[trigger] d[i]) by {
            if i < d.len() - 1 {
                assert(d[i] == nat_digits(n / 10)[i]);
            }
        }
        assert(digits_value(d) == digits_value(d.drop_last()) * 10 + ((d.last() as u32) as int - ('0' as u32) as int));
    } else {
        lemma_digit_char(n as int);
        let d = nat_digits(n);
        assert(d.drop_last() =~= Seq::<char>::empty());
        assert(digits_value(d) == digits_value(d.drop_last()) * 10 + ((d.last() as u32) as int - ('0' as u32) as int));
    }
}

/// The decimal text of an `i32` reads back as that integer.
pub proof fn lemma_decimal_reads_back(i: i32)
    ensures
        int_literal(decimal(i as int)) == Some(i),
        atom(decimal(i as int)) == Ok::<Form, crate::types::ErrorKind>(Form::Int(i)),
{
    let w = decimal(i as int);
    if i < 0 {
        lemma_nat_digits((-i) as nat);
        assert(w.drop_first() =~= nat_digits((-i) as nat));
    } else {
        lemma_nat_digits(i as nat);
        let d = nat_digits(i as nat);
        assert(is_digit(d[0]));
    }
    assert(w != seq!['n', 'i', 'l']) by {
        if w == seq!['n', 'i', 'l'] {
            assert(w[0] == 'n');
        }
    }
    assert(w != seq!['t', 'r', 'u', 'e']) by {
        if w == seq!['t', 'r', 'u', 'e'] {
            assert(w[0] == 't');
        }
    }
    assert(w != seq!['f', 'a', 'l', 's', 'e']) by {
        if w == seq!['f', 'a', 'l', 's', 'e'] {
            assert(w[0] == 'f');
        }
    }
}


/// A symbol name that the reader gives back as that symbol when it stands as a token of its own.
pub open spec fn symbol_reads_back(s: Seq<char>) -> bool {
    &&& s.len() > 0
    &&& s[0] != '"'
    &&& s[0] != ';'
    &&& forall|k: int| 0 <= k < s.len() ==> !is_separator(#[trigger] s[k])
    &&& atom(s) == Ok::<Form, crate::types::ErrorKind>(Form::Sym(s))
}

/// Values made of `nil`, booleans, integers, symbols that read back, lists and vectors.
pub open spec fn plain(f: Form) -> bool
    decreases f, 1nat,
{
    match f {
        Form::Nil | Form::True | Form::False | Form::Int(_) => true,
        Form::Sym(s) => symbol_reads_back(s),
        Form::List(items) => plain_items(items),
        Form::Vector(items) => plain_items(items),
        _ => false,
    }
}

pub open spec fn plain_items(items: Seq<Form>) -> bool
    decreases items, 0nat,
{
    items.len() == 0 || (plain(items[0]) && plain_items(items.drop_first()))
}

/// The texts of the tokens that printing `f` yields.
pub open spec fn words(f: Form) -> Seq<Seq<char>>
    decreases f, 1nat,
{
    match f {
        Form::List(items) => seq![seq!['(']] + words_items(items) + seq![seq![')']],
        Form::Vector(items) => seq![seq!['[']] + words_items(items) + seq![seq![']']],
        _ => seq![print_form(f, true)],
    }
}

pub open spec fn words_items(items: Seq<Form>) -> Seq<Seq<char>>
    decreases items, 0nat,
{
    if items.len() == 0 {
        Seq::empty()
    } else {
        words(items[0]) + words_items(items.drop_first())
    }
}

proof fn lemma_plain_atom_text(f: Form)
    requires
        plain(f),
        !(f is List),
        !(f is Vector),
    ensures
        atom(print_form(f, true)) == Ok::<Form, crate::types::ErrorKind>(f),
        print_form(f, true).len() > 0,
        forall|k: int| 0 <= k < print_form(f, true).len() ==>
            !is_separator(#[trigger] print_form(f, true)[k]) && !is_special(print_form(f, true)[k]),
        print_form(f, true)[0] != '"' && print_form(f, true)[0] != ';',
{
    match f {
        Form::Int(i) => {
            lemma_decimal_reads_back(i);
            let w = decimal(i as int);
            assert forall|k: int| 0 <= k < w.len() implies !is_separator(#[trigger] w[k]) && !is_special(w[k]) by {
                if i < 0 {
                    lemma_nat_digits((-i) as nat);
                    if k > 0 {
                        assert(w[k] == nat_digits((-i) as nat)[k - 1]);
                        assert(is_digit(nat_digits((-i) as nat)[k - 1]));
                    }
                } else {
                    lemma_nat_digits(i as nat);
                    assert(is_digit(nat_digits(i as nat)[k]));
                }
            }
            if i < 0 {
            } else {
                lemma_nat_digits(i as nat);
                assert(is_digit(w[0]));
            }
        },
        Form::Sym(s) => {
            assert(forall|k: int| 0 <= k < s.len() ==> !is_special(#[trigger] s[k]));
        },
        _ => {},
    }
}

proof fn lemma_first_word(f: Form, close: char)
    requires
        plain(f),
        close == ')' || close == ']',
    ensures
        words(f).len() > 0,
        words(f)[0] != seq![close],
{
    if f is List || f is Vector {
        assert(words(f)[0] == seq!['('] || words(f)[0] == seq!['[']);
        if words(f)[0] == seq![close] {
            assert(words(f)[0][0] == close);
        }
    } else {
        lemma_plain_atom_text(f);
        assert(words(f)[0] == print_form(f, true));
        if print_form(f, true) == seq![close] {
            assert(is_special(print_form(f, true)[0]));
        }
    }
}

proof fn lemma_parse_plain(s: Seq<char>, t: Seq<(int, int)>, p: int, f: Form)
    requires
        plain(f),
        0 <= p,
        p + words(f).len() <= t.len(),
        forall|k: int| 0 <= k < words(f).len() ==> token_text(s, #[trigger] t[p + k]) == words(f)[k],
    ensures
        parse_form(s, t, p) == Ok::<(Form, int), crate::types::ErrorKind>((f, p + words(f).len())),
    decreases f, 1nat,
{
    match f {
        Form::List(items) => {
            let n = words_items(items).len();
            assert(token_text(s, t[p + 0]) == words(f)[0]);
            assert forall|k: int| 0 <= k < n + 1 implies token_text(s, #[trigger] t[(p + 1) + k])
                == (words_items(items) + seq![seq![')']])[k] by {
                assert(token_text(s, t[p + (k + 1)]) == words(f)[k + 1]);
                assert(p + (k + 1) == (p + 1) + k);
            }
            lemma_parse_items(s, t, p + 1, items, ')');
        },
        Form::Vector(items) => {
            let n = words_items(items).len();
            assert(token_text(s, t[p + 0]) == words(f)[0]);
            assert forall|k: int| 0 <= k < n + 1 implies token_text(s, #[trigger] t[(p + 1) + k])
                == (words_items(items) + seq![seq![']']])[k] by {
                assert(token_text(s, t[p + (k + 1)]) == words(f)[k + 1]);
                assert(p + (k + 1) == (p + 1) + k);
            }
            lemma_parse_items(s, t, p + 1, items, ']');
        },
        _ => {
            lemma_plain_atom_text(f);
            assert(token_text(s, t[p + 0]) == words(f)[0]);
            assert(words(f)[0] == print_form(f, true));
            assert(print_form(f, true) != seq!['(']) by {
                if print_form(f, true) == seq!['('] {
                    assert(is_special(print_form(f, true)[0]));
                }
            }
            assert(print_form(f, true) != seq!['[']) by {
                if print_form(f, true) == seq!['['] {
                    assert(is_special(print_form(f, true)[0]));
                }
            }
        },
    }
}

proof fn lemma_parse_items(s: Seq<char>, t: Seq<(int, int)>, p: int, items: Seq<Form>, close: char)
    requires
        plain_items(items),
        close == ')' || close == ']',
        0 <= p,
        p + words_items(items).len() + 1 <= t.len(),
        forall|k: int| 0 <= k < words_items(items).len() + 1 ==> token_text(s, #[trigger] t[p + k])
            == (words_items(items) + seq![seq![close]])[k],
    ensures
        parse_items(s, t, p, close) == Ok::<(Seq<Form>, int), crate::types::ErrorKind>(
            (items, p + words_items(items).len() + 1),
        ),
    decreases items, 0nat,
{
    if items.len() == 0 {
        assert(token_text(s, t[p + 0]) == seq![close]);
        assert(items =~= Seq::<Form>::empty());
    } else {
        let f = items[0];
        let rest = items.drop_first();
        lemma_first_word(f, close);
        let m = words(f).len();
        assert(words_items(items) == words(f) + words_items(rest));
        assert(token_text(s, t[p + 0]) == words(f)[0]);
        assert forall|k: int| 0 <= k < m implies token_text(s, #[trigger] t[p + k]) == words(f)[k] by {
            assert((words_items(items) + seq![seq![close]])[k] == words(f)[k]);
        }
        lemma_parse_plain(s, t, p, f);
        assert forall|k: int| 0 <= k < words_items(rest).len() + 1 implies token_text(s, #[trigger] t[(p + m) + k])
            == (words_items(rest) + seq![seq![close]])[k] by {
            assert(token_text(s, t[p + (m + k)]) == (words_items(items) + seq![seq![close]])[m + k]);
            assert(p + (m + k) == (p + m) + k);
        }
        lemma_parse_items(s, t, p + m, rest, close);
        assert(seq![f] + rest =~= items);
    }
}


/// Position `e` ends a token that runs up to it.
pub open spec fn boundary(s: Seq<char>, e: int) -> bool {
    e == s.len() || is_separator(s[e]) || is_special(s[e])
}

/// The tokens `a` are those with the texts `ws`, followed by the tokens `b`.
pub open spec fn tokens_then(
    s: Seq<char>,
    a: Option<Seq<(int, int)>>,
    ws: Seq<Seq<char>>,
    b: Option<Seq<(int, int)>>,
) -> bool {
    &&& (a is Some <==> b is Some)
    &&& a is Some ==> {
        let x = a->Some_0;
        let y = b->Some_0;
        &&& x.len() == ws.len() + y.len()
        &&& x.subrange(ws.len() as int, x.len() as int) == y
        &&& forall|k: int| 0 <= k < ws.len() ==> token_text(s, #[trigger] x[k]) == ws[k]
    }
}

proof fn lemma_tokens_then_trans(
    s: Seq<char>,
    a: Option<Seq<(int, int)>>,
    w1: Seq<Seq<char>>,
    b: Option<Seq<(int, int)>>,
    w2: Seq<Seq<char>>,
    c: Option<Seq<(int, int)>>,
)
    requires
        tokens_then(s, a, w1, b),
        tokens_then(s, b, w2, c),
    ensures
        tokens_then(s, a, w1 + w2, c),
{
    if a is Some {
        let x = a->Some_0;
        let y = b->Some_0;
        let z = c->Some_0;
        let n1 = w1.len() as int;
        assert(x.subrange((w1 + w2).len() as int, x.len() as int) =~= y.subrange(w2.len() as int, y.len() as int));
        assert forall|k: int| 0 <= k < (w1 + w2).len() implies token_text(s, #[trigger] x[k]) == (w1 + w2)[k] by {
            if k >= n1 {
                assert(x[k] == y[k - n1]);
            }
        }
    }
}

proof fn lemma_skip_ge(s: Seq<char>, i: int)
    ensures
        skip_separators(s, i) >= i,
    decreases s.len() - i,
{
    if 0 <= i < s.len() && is_separator(s[i]) {
        lemma_skip_ge(s, i + 1);
    }
}

proof fn lemma_string_end_gt(s: Seq<char>, i: int, esc: bool)
    ensures
        string_end(s, i, esc) matches Some(x) ==> x > i,
    decreases s.len() - i,
{
    if 0 <= i < s.len() {
        lemma_string_end_gt(s, i + 1, false);
        lemma_string_end_gt(s, i + 1, true);
    }
}

proof fn lemma_plain_end_ge(s: Seq<char>, i: int)
    ensures
        plain_end(s, i) >= i,
    decreases s.len() - i,
{
    if 0 <= i < s.len() && !is_separator(s[i]) && !is_special(s[i]) {
        lemma_plain_end_ge(s, i + 1);
    }
}

proof fn lemma_plain_end(s: Seq<char>, x: int, y: int)
    requires
        0 <= x <= y <= s.len(),
        forall|k: int| x <= k < y ==> !is_separator(#[trigger] s[k]) && !is_special(s[k]),
        boundary(s, y),
    ensures
        plain_end(s, x) == y,
    decreases y - x,
{
    if x < y {
        lemma_plain_end(s, x + 1, y);
    }
}

proof fn lemma_separator(s: Seq<char>, k: int)
    requires
        0 <= k < s.len(),
        is_separator(s[k]),
    ensures
        spans_from(s, k) == spans_from(s, k + 1),
{
    let j = skip_separators(s, k + 1);
    lemma_skip_ge(s, k + 1);
    if j < s.len() {
        lemma_string_end_gt(s, j + 1, false);
        lemma_plain_end_ge(s, j + 1);
    }
}

proof fn lemma_single_token(s: Seq<char>, i: int, e: int)
    requires
        0 <= i < e <= s.len(),
        !is_separator(s[i]),
        token_end(s, i) == Some(e),
    ensures
        tokens_then(s, spans_from(s, i), seq![s.subrange(i, e)], spans_from(s, e)),
{
    let a = spans_from(s, i);
    if a is Some {
        let x = a->Some_0;
        assert(x.subrange(1, x.len() as int) =~= spans_from(s, e)->Some_0);
        assert(token_text(s, x[0]) == s.subrange(i, e));
    }
}

proof fn lemma_print_items_last(items: Seq<Form>)
    requires
        items.len() >= 2,
    ensures
        print_items(items, true) == print_items(items.drop_last(), true) + seq![' '] + print_form(
            items.last(),
            true,
        ),
{
}

proof fn lemma_items_last(items: Seq<Form>)
    requires
        items.len() >= 1,
    ensures
        words_items(items) == words_items(items.drop_last()) + words(items.last()),
        plain_items(items) ==> plain_items(items.drop_last()) && plain(items.last()),
    decreases items.len(),
{
    if items.len() == 1 {
        assert(items.drop_first() =~= Seq::<Form>::empty());
        assert(items.drop_last() =~= Seq::<Form>::empty());
        assert(words(items[0]) + Seq::<Seq<char>>::empty() =~= words(items[0]));
    } else {
        let r = items.drop_first();
        lemma_items_last(r);
        assert(r.drop_last() =~= items.drop_last().drop_first());
        assert(r.last() == items.last());
        assert(items.drop_last()[0] == items[0]);
        assert(words_items(items) =~= words_items(items.drop_last()) + words(items.last()));
    }
}


proof fn lemma_spans_plain(s: Seq<char>, i: int, f: Form)
    requires
        plain(f),
        0 <= i,
        i + print_form(f, true).len() <= s.len(),
        s.subrange(i, i + print_form(f, true).len()) == print_form(f, true),
        boundary(s, i + print_form(f, true).len()),
    ensures
        tokens_then(s, spans_from(s, i), words(f), spans_from(s, i + print_form(f, true).len())),
    decreases f, 1nat,
{
    let p = print_form(f, true);
    let e = i + p.len();
    match f {
        Form::List(items) => {
            let q = print_items(items, true);
            let m = i + 1 + q.len();
            assert(s[i] == p[0]);
            assert(s.subrange(i, i + 1) =~= seq!['(']);
            lemma_single_token(s, i, i + 1);
            assert forall|k: int| 0 <= k < q.len() implies #[trigger] s.subrange(i + 1, m)[k] == q[k] by {
                assert(s[i + 1 + k] == s.subrange(i, e)[1 + k]);
                assert(p[1 + k] == q[k]);
            }
            assert(s.subrange(i + 1, m) =~= q);
            assert(s[m] == p[p.len() - 1]);
            lemma_spans_items(s, i + 1, items);
            assert(s.subrange(m, m + 1) =~= seq![')']);
            lemma_single_token(s, m, m + 1);
            lemma_tokens_then_trans(s, spans_from(s, i), seq![seq!['(']], spans_from(s, i + 1), words_items(items), spans_from(s, m));
            lemma_tokens_then_trans(s, spans_from(s, i), seq![seq!['(']] + words_items(items), spans_from(s, m), seq![seq![')']], spans_from(s, m + 1));
        },
        Form::Vector(items) => {
            let q = print_items(items, true);
            let m = i + 1 + q.len();
            assert(s[i] == p[0]);
            assert(s.subrange(i, i + 1) =~= seq!['[']);
            lemma_single_token(s, i, i + 1);
            assert forall|k: int| 0 <= k < q.len() implies #[trigger] s.subrange(i + 1, m)[k] == q[k] by {
                assert(s[i + 1 + k] == s.subrange(i, e)[1 + k]);
                assert(p[1 + k] == q[k]);
            }
            assert(s.subrange(i + 1, m) =~= q);
            assert(s[m] == p[p.len() - 1]);
            lemma_spans_items(s, i + 1, items);
            assert(s.subrange(m, m + 1) =~= seq![']']);
            lemma_single_token(s, m, m + 1);
            lemma_tokens_then_trans(s, spans_from(s, i), seq![seq!['[']], spans_from(s, i + 1), words_items(items), spans_from(s, m));
            lemma_tokens_then_trans(s, spans_from(s, i), seq![seq!['[']] + words_items(items), spans_from(s, m), seq![seq![']']], spans_from(s, m + 1));
        },
        _ => {
            lemma_plain_atom_text(f);
            assert(s[i] == p[0]);
            assert forall|k: int| i + 1 <= k < e implies !is_separator(#[trigger] s[k]) && !is_special(s[k]) by {
                assert(s[k] == p[k - i]);
            }
            lemma_plain_end(s, i + 1, e);
            assert(token_end(s, i) == Some(e));
            lemma_single_token(s, i, e);
        },
    }
}

proof fn lemma_spans_items(s: Seq<char>, j: int, items: Seq<Form>)
    requires
        plain_items(items),
        0 <= j,
        j + print_items(items, true).len() <= s.len(),
        s.subrange(j, j + print_items(items, true).len()) == print_items(items, true),
        boundary(s, j + print_items(items, true).len()),
    ensures
        tokens_then(s, spans_from(s, j), words_items(items), spans_from(s, j + print_items(items, true).len())),
    decreases items, 0nat,
{
    let q = print_items(items, true);
    if items.len() == 0 {
        let a = spans_from(s, j);
        if a is Some {
            assert(a->Some_0.subrange(0, a->Some_0.len() as int) =~= a->Some_0);
        }
    } else if items.len() == 1 {
        assert(items.drop_first() =~= Seq::<Form>::empty());
        assert(words_items(items.drop_first()) == Seq::<Seq<char>>::empty());
        assert(words_items(items) =~= words(items[0]));
        lemma_spans_plain(s, j, items[0]);
    } else {
        let init = items.drop_last();
        let last = items.last();
        lemma_items_last(items);
        lemma_print_items_last(items);
        let q1 = print_items(init, true);
        let q2 = print_form(last, true);
        let k = j + q1.len();
        assert(s.subrange(j, k) =~= q1);
        assert(s[k] == q[q1.len() as int]);
        assert(is_separator(s[k]));
        lemma_spans_items(s, j, init);
        lemma_separator(s, k);
        assert forall|n: int| 0 <= n < q2.len() implies #[trigger] s.subrange(k + 1, k + 1 + q2.len())[n] == q2[n] by {
            assert(s[k + 1 + n] == s.subrange(j, j + q.len())[q1.len() + 1 + n]);
            assert(q[q1.len() + 1 + n] == q2[n]);
        }
        assert(s.subrange(k + 1, k + 1 + q2.len()) =~= q2);
        lemma_spans_plain(s, k + 1, last);
        lemma_tokens_then_trans(s, spans_from(s, j), words_items(init), spans_from(s, k + 1), words(last), spans_from(s, k + 1 + q2.len()));
    }
}

/// Printing a value made of `nil`, booleans, integers, symbols that read back as themselves,
/// lists and vectors, and reading the text again, gives the same value.
pub proof fn lemma_round_trip(f: Form)
    requires
        plain(f),
    ensures
        read_spec(print_form(f, true)) == Ok::<Form, crate::types::ErrorKind>(f),
{
    let s = print_form(f, true);
    assert(s.subrange(0, s.len() as int) =~= s);
    lemma_spans_plain(s, 0, f);
    assert(spans_from(s, s.len() as int) == Some(Seq::<(int, int)>::empty()));
    let x = spans_from(s, 0)->Some_0;
    assert forall|k: int| 0 <= k < words(f).len() implies token_text(s, #[trigger] x[0 + k]) == words(f)[k] by {
        assert(x[0 + k] == x[k]);
    }
    lemma_parse_plain(s, x, 0, f);
}


/// After `k` is bound to `v` in the first frame, looking `k` up gives `v`, and every
/// enclosing frame is as it was.
pub proof fn lemma_set_shadows(e: Seq<Map<Seq<char>, Form>>, k: Seq<char>, v: Form)
    requires
        e.len() > 0,
    ensures
        env_lookup(env_set(e, k, v), k) == Some(v),
        env_set(e, k, v).drop_first() == e.drop_first(),
        env_set(e, k, v).len() == e.len(),
{
    assert(env_set(e, k, v).drop_first() =~= e.drop_first());
}

/// Binding a name in the first frame changes no lookup of another name.
pub proof fn lemma_set_keeps_other_names(
    e: Seq<Map<Seq<char>, Form>>,
    k: Seq<char>,
    v: Form,
    q: Seq<char>,
)
    requires
        e.len() > 0,
        q != k,
    ensures
        env_lookup(env_set(e, k, v), q) == env_lookup(e, q),
{
    assert(env_set(e, k, v).drop_first() =~= e.drop_first());
}

} // verus!
