use vstd::prelude::*;
use std::rc::Rc;
use crate::chars::{push_char, string_of};
use crate::types::{forms_of, ErrorKind, Form, MalError, MalValue};

verus! {

/// Characters that always form a token of their own.
pub open spec fn is_special(c: char) -> bool {
    c == '[' || c == ']' || c == '{' || c == '}' || c == '(' || c == ')' || c == '\''
        || c == '`' || c == '~' || c == '^' || c == '@'
}

/// Unicode `White_Space` characters.
pub open spec fn is_space(c: char) -> bool {
    ('\u{9}' <= c && c <= '\u{d}') || c == ' ' || c == '\u{85}' || c == '\u{a0}'
        || c == '\u{1680}' || ('\u{2000}' <= c && c <= '\u{200a}') || c == '\u{2028}'
        || c == '\u{2029}' || c == '\u{202f}' || c == '\u{205f}' || c == '\u{3000}'
}

/// Characters skipped between tokens.
pub open spec fn is_separator(c: char) -> bool {
    is_space(c) || c == ','
}

/// First position at or after `i` that holds no separator.
pub open spec fn skip_separators(s: Seq<char>, i: int) -> int
    decreases s.len() - i,
{
    if 0 <= i < s.len() && is_separator(s[i]) {
        skip_separators(s, i + 1)
    } else {
        i
    }
}

/// Position just past the closing quote of a string literal whose body is scanned from `i`,
/// where `esc` says that the character at `i` is escaped.
pub open spec fn string_end(s: Seq<char>, i: int, esc: bool) -> Option<int>
    decreases s.len() - i,
{
    if i < 0 || i >= s.len() {
        None
    } else if esc {
        string_end(s, i + 1, false)
    } else if s[i] == '\\' {
        string_end(s, i + 1, true)
    } else if s[i] == '"' {
        Some(i + 1)
    } else {
        string_end(s, i + 1, false)
    }
}

/// First position at or after `i` that holds a separator or a special character, or the end.
pub open spec fn plain_end(s: Seq<char>, i: int) -> int
    decreases s.len() - i,
{
    if 0 <= i < s.len() && !is_separator(s[i]) && !is_special(s[i]) {
        plain_end(s, i + 1)
    } else {
        i
    }
}

/// End of the token that starts at `i`; `None` for a string literal left open.
pub open spec fn token_end(s: Seq<char>, i: int) -> Option<int> {
    let c = s[i];
    if c == '~' {
        if i + 1 < s.len() && s[i + 1] == '@' {
            Some(i + 2)
        } else {
            Some(i + 1)
        }
    } else if is_special(c) {
        Some(i + 1)
    } else if c == '"' {
        string_end(s, i + 1, false)
    } else if c == ';' {
        Some(s.len() as int)
    } else {
        Some(plain_end(s, i + 1))
    }
}

/// The tokens of `s` from position `i` on, each as the span of positions it covers.
pub open spec fn spans_from(s: Seq<char>, i: int) -> Option<Seq<(int, int)>>
    decreases s.len() - i,
{
    let j = skip_separators(s, i);
    if i < 0 || i >= s.len() || j >= s.len() {
        Some(Seq::empty())
    } else {
        let e = token_end(s, j);
        if e is None || e->Some_0 <= i || e->Some_0 > s.len() {
            None
        } else {
            let k = e->Some_0;
            let rest = spans_from(s, k);
            if rest is None {
                None
            } else {
                Some(seq![(j, k)] + rest->Some_0)
            }
        }
    }
}

pub open spec fn span_model(v: Seq<(usize, usize)>) -> Seq<(int, int)> {
    v.map_values(|p: (usize, usize)| (p.0 as int, p.1 as int))
}

pub open spec fn eof_error(r: MalError) -> bool {
    r.kind == ErrorKind::Eof
}

fn is_special_char(c: char) -> (r: bool)
    ensures
        r == is_special(c),
{
    c == '[' || c == ']' || c == '{' || c == '}' || c == '(' || c == ')' || c == '\''
        || c == '`' || c == '~' || c == '^' || c == '@'
}

fn is_whitespace(c: char) -> (r: bool)
    ensures
        r == is_separator(c),
{
    ('\u{9}' <= c && c <= '\u{d}') || c == ' ' || c == '\u{85}' || c == '\u{a0}'
        || c == '\u{1680}' || ('\u{2000}' <= c && c <= '\u{200a}') || c == '\u{2028}'
        || c == '\u{2029}' || c == '\u{202f}' || c == '\u{205f}' || c == '\u{3000}' || c == ','
}

fn strip_whitespace(s: &Vec<char>, i: usize) -> (r: usize)
    requires
        i <= s.len(),
    ensures
        r == skip_separators(s@, i as int),
        i <= r <= s.len(),
{
    let mut j = i;
    while j < s.len() && is_whitespace(s[j])
        invariant
            i <= j <= s.len(),
            skip_separators(s@, i as int) == skip_separators(s@, j as int),
        decreases s.len() - j,
    {
        j = j + 1;
    }
    j
}

/// End of the token that starts at `i`, or `None` where a string literal is left open.
fn next_token(s: &Vec<char>, i: usize) -> (r: Option<usize>)
    requires
        i < s.len(),
    ensures
        r == (match token_end(s@, i as int) {
            Some(k) => Some(k as usize),
            None => None::<usize>,
        }),
        token_end(s@, i as int) matches Some(k) ==> i < k <= s.len(),
{
    let c = s[i];
    if c == '~' {
        if i + 1 < s.len() && s[i + 1] == '@' {
            return Some(i + 2);
        }
        return Some(i + 1);
    }
    if is_special_char(c) {
        return Some(i + 1);
    }
    if c == '"' {
        let mut j = i + 1;
        let mut esc = false;
        while j < s.len()
            invariant
                i < j <= s.len(),
                string_end(s@, i + 1, false) == string_end(s@, j as int, esc),
                s@[i as int] == '"',
            decreases s.len() - j,
        {
            let d = s[j];
            if esc {
                esc = false;
            } else if d == '\\' {
                esc = true;
            } else if d == '"' {
                return Some(j + 1);
            }
            j = j + 1;
        }
        return None;
    }
    if c == ';' {
        return Some(s.len());
    }
    let mut j = i + 1;
    while j < s.len() && !is_whitespace(s[j]) && !is_special_char(s[j])
        invariant
            i < j <= s.len(),
            plain_end(s@, i + 1) == plain_end(s@, j as int),
        decreases s.len() - j,
    {
        j = j + 1;
    }
    Some(j)
}

/// Splits `s` into the spans of its tokens.
fn tokenize(s: &Vec<char>) -> (r: Result<Vec<(usize, usize)>, MalError>)
    ensures
        match spans_from(s@, 0) {
            Some(t) => r is Ok && span_model(r->Ok_0@) == t,
            None => r is Err && eof_error(r->Err_0),
        },
        r is Ok ==> forall|k: int|
            0 <= k < r->Ok_0@.len() ==> #[trigger] r->Ok_0@[k].0 < r->Ok_0@[k].1 <= s.len(),
{
    let mut v: Vec<(usize, usize)> = Vec::new();
    let mut i: usize = 0;
    loop
        invariant
            i <= s.len(),
            spans_from(s@, 0) == (match spans_from(s@, i as int) {
                Some(t) => Some(span_model(v@) + t),
                None => None,
            }),
            forall|k: int| 0 <= k < v@.len() ==> #[trigger] v@[k].0 < v@[k].1 <= s.len(),
        decreases s.len() - i,
    {
        let j = strip_whitespace(s, i);
        if j >= s.len() {
            proof {
                assert(span_model(v@) + Seq::<(int, int)>::empty() =~= span_model(v@));
            }
            return Ok(v);
        }
        match next_token(s, j) {
            None => {
                return Err(MalError::new(ErrorKind::Eof, "EOF"));
            },
            Some(k) => {
                proof {
                    let rest = spans_from(s@, k as int);
                    if rest is Some {
                        assert(span_model(v@.push((j, k))) =~= span_model(v@).push((j as int, k as int)));
                        assert(span_model(v@) + (seq![(j as int, k as int)] + rest->Some_0)
                            =~= span_model(v@.push((j, k))) + rest->Some_0);
                    }
                }
                v.push((j, k));
                i = k;
            },
        }
    }
}


pub open spec fn token_text(s: Seq<char>, sp: (int, int)) -> Seq<char> {
    s.subrange(sp.0, sp.1)
}

pub open spec fn is_digit(c: char) -> bool {
    '0' <= c && c <= '9'
}

pub open spec fn all_digits(d: Seq<char>) -> bool {
    forall|i: int| 0 <= i < d.len() ==> is_digit(#[trigger] d[i])
}

/// Value of a string of decimal digits.
pub open spec fn digits_value(d: Seq<char>) -> int
    decreases d.len(),
{
    if d.len() == 0 {
        0
    } else {
        digits_value(d.drop_last()) * 10 + ((d.last() as u32) as int - ('0' as u32) as int)
    }
}

/// The integer that `w` denotes as an `i32` literal: an optional sign, then one or more
/// decimal digits, within the range of `i32`.
pub open spec fn int_literal(w: Seq<char>) -> Option<i32> {
    let signed = w.len() > 0 && (w[0] == '-' || w[0] == '+');
    let d = if signed { w.drop_first() } else { w };
    let v = if signed && w[0] == '-' { -digits_value(d) } else { digits_value(d) };
    if d.len() == 0 || !all_digits(d) || v < i32::MIN || v > i32::MAX {
        None
    } else {
        Some(v as i32)
    }
}

/// What an escaped character in a string literal stands for.
pub open spec fn unescape(c: char) -> Option<char> {
    if c == 'n' {
        Some('\n')
    } else if c == '\\' {
        Some('\\')
    } else if c == '"' {
        Some('"')
    } else {
        None
    }
}

/// The contents of a string literal from position `i` of `w` up to its closing quote.
pub open spec fn decode_from(w: Seq<char>, i: int) -> Result<Seq<char>, ErrorKind>
    decreases w.len() - i,
{
    if i < 0 || i >= w.len() {
        Err(ErrorKind::Eof)
    } else if w[i] == '\\' {
        if i + 1 >= w.len() {
            Err(ErrorKind::Eof)
        } else {
            match unescape(w[i + 1]) {
                None => Err(ErrorKind::InvalidEscape),
                Some(c) => match decode_from(w, i + 2) {
                    Ok(r) => Ok(seq![c] + r),
                    Err(e) => Err(e),
                },
            }
        }
    } else if w[i] == '"' {
        Ok(Seq::empty())
    } else {
        match decode_from(w, i + 1) {
            Ok(r) => Ok(seq![w[i]] + r),
            Err(e) => Err(e),
        }
    }
}

/// The value of a token that opens no bracketed form.
pub open spec fn atom(w: Seq<char>) -> Result<Form, ErrorKind> {
    if w == seq!['n', 'i', 'l'] {
        Ok(Form::Nil)
    } else if w == seq!['t', 'r', 'u', 'e'] {
        Ok(Form::True)
    } else if w == seq!['f', 'a', 'l', 's', 'e'] {
        Ok(Form::False)
    } else if w.len() > 0 && w[0] == '"' {
        match decode_from(w, 1) {
            Ok(t) => Ok(Form::Str(t)),
            Err(e) => Err(e),
        }
    } else if w.len() > 0 && (is_digit(w[0]) || w[0] == '-') && int_literal(w) is Some {
        Ok(Form::Int(int_literal(w)->Some_0))
    } else if forall|i: int| 0 <= i < w.len() ==> !is_special(#[trigger] w[i]) {
        Ok(Form::Sym(w))
    } else {
        Err(ErrorKind::InvalidToken)
    }
}

/// The form that starts at token `p`, and the position of the token after it.
pub open spec fn parse_form(s: Seq<char>, t: Seq<(int, int)>, p: int) -> Result<
    (Form, int),
    ErrorKind,
>
    decreases t.len() - p, 0nat,
{
    if p < 0 || p >= t.len() {
        Err(ErrorKind::Eof)
    } else {
        let w = token_text(s, t[p]);
        if w == seq!['('] {
            match parse_items(s, t, p + 1, ')') {
                Ok((fs, q)) => Ok((Form::List(fs), q)),
                Err(e) => Err(e),
            }
        } else if w == seq!['['] {
            match parse_items(s, t, p + 1, ']') {
                Ok((fs, q)) => Ok((Form::Vector(fs), q)),
                Err(e) => Err(e),
            }
        } else {
            match atom(w) {
                Ok(f) => Ok((f, p + 1)),
                Err(e) => Err(e),
            }
        }
    }
}

/// The forms from token `p` up to the token `close`, and the position after `close`.
pub open spec fn parse_items(s: Seq<char>, t: Seq<(int, int)>, p: int, close: char) -> Result<
    (Seq<Form>, int),
    ErrorKind,
>
    decreases t.len() - p, 1nat,
{
    if p < 0 || p >= t.len() {
        Err(ErrorKind::Eof)
    } else if token_text(s, t[p]) == seq![close] {
        Ok((Seq::empty(), p + 1))
    } else {
        match parse_form(s, t, p) {
            Err(e) => Err(e),
            Ok((f, q)) => if q <= p || q > t.len() {
                Err(ErrorKind::Eof)
            } else {
                match parse_items(s, t, q, close) {
                    Ok((fs, r)) => Ok((seq![f] + fs, r)),
                    Err(e) => Err(e),
                }
            },
        }
    }
}

/// The value that reading the text `s` gives.
pub open spec fn read_spec(s: Seq<char>) -> Result<Form, ErrorKind> {
    match spans_from(s, 0) {
        None => Err(ErrorKind::Eof),
        Some(t) => match parse_form(s, t, 0) {
            Ok((f, _)) => Ok(f),
            Err(e) => Err(e),
        },
    }
}


proof fn lemma_digits_value_prefix(d: Seq<char>, k: int)
    requires
        all_digits(d),
        0 <= k <= d.len(),
    ensures
        0 <= digits_value(d.subrange(0, k)) <= digits_value(d),
    decreases d.len(),
{
    if d.len() > 0 {
        let e = d.drop_last();
        assert(all_digits(e)) by {
            assert forall|i: int| 0 <= i < e.len() implies is_digit(#[trigger] e[i]) by {
                assert(e[i] == d[i]);
            }
        }
        assert(is_digit(d[d.len() - 1]));
        if k == d.len() {
            assert(d.subrange(0, k) =~= d);
            lemma_digits_value_prefix(e, k - 1);
            assert(e.subrange(0, k - 1) =~= e);
        } else {
            lemma_digits_value_prefix(e, k);
            assert(e.subrange(0, k) =~= d.subrange(0, k));
            lemma_digits_value_prefix(e, e.len() as int);
            assert(e.subrange(0, e.len() as int) =~= e);
        }
    } else {
        assert(d.subrange(0, k) =~= d);
    }
}

/// Reads the characters of `s` from `a` up to `b` as an `i32` literal.
fn parse_int(s: &Vec<char>, a: usize, b: usize) -> (r: Option<i32>)
    requires
        a <= b <= s.len(),
    ensures
        r == int_literal(s@.subrange(a as int, b as int)),
{
    let ghost w = s@.subrange(a as int, b as int);
    let mut i = a;
    let mut neg = false;
    if i < b && (s[i] == '-' || s[i] == '+') {
        neg = s[i] == '-';
        i = i + 1;
    }
    let start = i;
    let ghost d = s@.subrange(start as int, b as int);
    let ghost signed = w.len() > 0 && (w[0] == '-' || w[0] == '+');
    assert(d =~= (if signed { w.drop_first() } else { w }));
    assert(signed <==> start > a);
    assert(neg <==> signed && w[0] == '-');
    if i == b {
        return None;
    }
    let mut v: i64 = 0;
    while i < b
        invariant
            a <= start <= i <= b <= s.len(),
            d == s@.subrange(start as int, b as int),
            w == s@.subrange(a as int, b as int),
            signed == (w.len() > 0 && (w[0] == '-' || w[0] == '+')),
            d == (if signed { w.drop_first() } else { w }),
            neg <==> signed && w[0] == '-',
            d.len() > 0,
            v == digits_value(s@.subrange(start as int, i as int)),
            0 <= v <= 2147483648,
            all_digits(s@.subrange(start as int, i as int)),
        decreases b - i,
    {
        let c = s[i];
        let ghost before = s@.subrange(start as int, i as int);
        let ghost after = s@.subrange(start as int, i + 1);
        assert(after =~= before.push(c));
        assert(after.drop_last() =~= before);
        if !('0' <= c && c <= '9') {
            assert(d[i - start] == c);
            assert(!all_digits(d));
            assert(int_literal(w) is None);
            return None;
        }
        let code = c as u32;
        assert('0' as u32 <= code <= '9' as u32);
        let digit = (code - 48) as i64;
        v = v * 10 + digit;
        i = i + 1;
        assert(all_digits(after));
        if v > 2147483648 {
            proof {
                if all_digits(d) {
                    lemma_digits_value_prefix(d, i - start);
                    assert(d.subrange(0, i - start) =~= after);
                }
                assert(int_literal(w) is None);
            }
            return None;
        }
    }
    assert(s@.subrange(start as int, i as int) =~= d);
    if neg {
        Some((-v) as i32)
    } else if v > 2147483647 {
        None
    } else {
        Some(v as i32)
    }
}


pub open spec fn prefixed(acc: Seq<char>, r: Result<Seq<char>, ErrorKind>) -> Result<
    Seq<char>,
    ErrorKind,
> {
    match r {
        Ok(x) => Ok(acc + x),
        Err(e) => Err(e),
    }
}

fn err_of(kind: ErrorKind) -> (r: MalError)
    ensures
        r.kind == kind,
{
    match kind {
        ErrorKind::Eof => MalError::new(kind, "EOF"),
        ErrorKind::InvalidToken => MalError::new(kind, "Invalid token"),
        ErrorKind::InvalidEscape => MalError::new(kind, "Invalid char"),
        _ => MalError::new(kind, "Read error"),
    }
}

/// Decodes the string literal whose token covers positions `a` up to `b` of `s`.
fn parse_string(s: &Vec<char>, a: usize, b: usize) -> (r: Result<String, MalError>)
    requires
        a < b <= s.len(),
        s@[a as int] == '"',
    ensures
        match decode_from(s@.subrange(a as int, b as int), 1) {
            Ok(t) => r is Ok && r->Ok_0@ == t,
            Err(e) => r is Err && r->Err_0.kind == e,
        },
{
    let ghost w = s@.subrange(a as int, b as int);
    let mut r = String::new();
    let mut j = a + 1;
    loop
        invariant
            a < j <= b + 1,
            b <= s.len(),
            w == s@.subrange(a as int, b as int),
            decode_from(w, 1) == prefixed(r@, decode_from(w, j - a)),
        decreases b + 1 - j,
    {
        if j >= b {
            return Err(err_of(ErrorKind::Eof));
        }
        let c = s[j];
        assert(w[j - a] == c);
        if c == '\\' {
            if j + 1 >= b {
                return Err(err_of(ErrorKind::Eof));
            }
            let d = s[j + 1];
            assert(w[j + 1 - a] == d);
            let e = if d == 'n' {
                '\n'
            } else if d == '\\' {
                '\\'
            } else if d == '"' {
                '"'
            } else {
                return Err(err_of(ErrorKind::InvalidEscape));
            };
            proof {
                match decode_from(w, j + 2 - a) {
                    Ok(x) => assert(r@ + (seq![e] + x) =~= r@.push(e) + x),
                    Err(_) => {},
                }
            }
            push_char(&mut r, e);
            j = j + 2;
        } else if c == '"' {
            assert(r@ + Seq::<char>::empty() =~= r@);
            return Ok(r);
        } else {
            proof {
                match decode_from(w, j + 1 - a) {
                    Ok(x) => assert(r@ + (seq![c] + x) =~= r@.push(c) + x),
                    Err(_) => {},
                }
            }
            push_char(&mut r, c);
            j = j + 1;
        }
    }
}

/// Whether some character of `s` from `a` up to `b` is special.
fn has_special(s: &Vec<char>, a: usize, b: usize) -> (r: bool)
    requires
        a <= b <= s.len(),
    ensures
        r == !(forall|i: int| 0 <= i < b - a ==> !is_special(#[trigger] s@.subrange(a as int, b as int)[i])),
{
    let mut j = a;
    while j < b
        invariant
            a <= j <= b <= s.len(),
            forall|i: int| a <= i < j ==> !is_special(#[trigger] s@[i]),
        decreases b - j,
    {
        if is_special_char(s[j]) {
            assert(s@.subrange(a as int, b as int)[j - a] == s@[j as int]);
            return true;
        }
        j = j + 1;
    }
    assert forall|i: int| 0 <= i < b - a implies !is_special(#[trigger] s@.subrange(a as int, b as int)[i]) by {
        assert(s@.subrange(a as int, b as int)[i] == s@[a + i]);
    }
    false
}

/// Whether the characters of `s` from `a` up to `b` are exactly `w`.
fn span_is(s: &Vec<char>, a: usize, b: usize, w: &[char]) -> (r: bool)
    requires
        a <= b <= s.len(),
    ensures
        r == (s@.subrange(a as int, b as int) == w@),
{
    if b - a != w.len() {
        return false;
    }
    let mut k: usize = 0;
    while k < w.len()
        invariant
            a <= b <= s.len(),
            b - a == w@.len(),
            k <= w@.len(),
            forall|i: int| 0 <= i < k ==> s@[a + i] == w@[i],
        decreases w.len() - k,
    {
        if s[a + k] != w[k] {
            assert(s@.subrange(a as int, b as int)[k as int] != w@[k as int]);
            return false;
        }
        k = k + 1;
    }
    assert(s@.subrange(a as int, b as int) =~= w@);
    true
}


/// A cursor over the tokens of one input text.
struct Reader {
    chars: Vec<char>,
    spans: Vec<(usize, usize)>,
    offset: usize,
}

impl Reader {
    spec fn wf(&self) -> bool {
        &&& self.offset <= self.spans.len()
        &&& forall|k: int|
            0 <= k < self.spans@.len() ==> #[trigger] self.spans@[k].0 < self.spans@[k].1
                <= self.chars.len()
    }

    spec fn tokens(&self) -> Seq<(int, int)> {
        span_model(self.spans@)
    }

    fn new(chars: Vec<char>, spans: Vec<(usize, usize)>) -> (r: Reader)
        ensures
            r.chars == chars,
            r.spans == spans,
            r.offset == 0,
    {
        Reader { chars, spans, offset: 0 }
    }

    /// The span of the current token, which stays current.
    fn peek(&self) -> (r: Result<(usize, usize), MalError>)
        ensures
            self.offset < self.spans.len() ==> r == Ok::<(usize, usize), MalError>(
                self.spans@[self.offset as int],
            ),
            self.offset >= self.spans.len() ==> r is Err && r->Err_0.kind == ErrorKind::Eof,
    {
        if self.offset >= self.spans.len() {
            return Err(err_of(ErrorKind::Eof));
        }
        Ok(self.spans[self.offset])
    }

    /// The span of the current token, after which the cursor moves.
    fn next(&mut self) -> (r: Result<(usize, usize), MalError>)
        ensures
            final(self).chars == old(self).chars,
            final(self).spans == old(self).spans,
            old(self).offset < old(self).spans.len() ==> r == Ok::<(usize, usize), MalError>(
                old(self).spans@[old(self).offset as int],
            ) && final(self).offset == old(self).offset + 1,
            old(self).offset >= old(self).spans.len() ==> r is Err && r->Err_0.kind
                == ErrorKind::Eof && final(self).offset == old(self).offset,
    {
        if self.offset >= self.spans.len() {
            return Err(err_of(ErrorKind::Eof));
        }
        let r = self.spans[self.offset];
        self.offset = self.offset + 1;
        Ok(r)
    }
}

fn read_atom(r: &mut Reader) -> (res: Result<MalValue, MalError>)
    requires
        old(r).wf(),
    ensures
        final(r).chars == old(r).chars,
        final(r).spans == old(r).spans,
        final(r).wf(),
        old(r).offset >= old(r).spans.len() ==> res is Err && res->Err_0.kind == ErrorKind::Eof,
        old(r).offset < old(r).spans.len() ==> final(r).offset == old(r).offset + 1 && match atom(
            token_text(old(r).chars@, old(r).tokens()[old(r).offset as int]),
        ) {
            Ok(f) => res is Ok && res->Ok_0@ == f,
            Err(e) => res is Err && res->Err_0.kind == e,
        },
{
    let (a, b) = r.next()?;
    proof {
        assert(old(r).tokens()[old(r).offset as int] == (a as int, b as int));
    }
    let ghost w = r.chars@.subrange(a as int, b as int);
    let s = &r.chars;
    if span_is(s, a, b, &['n', 'i', 'l']) {
        return Ok(MalValue::Nil);
    }
    if span_is(s, a, b, &['t', 'r', 'u', 'e']) {
        return Ok(MalValue::True);
    }
    if span_is(s, a, b, &['f', 'a', 'l', 's', 'e']) {
        return Ok(MalValue::False);
    }
    assert(w.len() > 0 ==> w[0] == s@[a as int]);
    if s[a] == '"' {
        return match parse_string(s, a, b) {
            Ok(t) => Ok(MalValue::String(t)),
            Err(e) => Err(e),
        };
    }
    if ('0' <= s[a] && s[a] <= '9') || s[a] == '-' {
        if let Some(i) = parse_int(s, a, b) {
            return Ok(MalValue::Int(i));
        }
    }
    if !has_special(s, a, b) {
        return Ok(MalValue::Symbol(string_of(s, a, b)));
    }
    Err(err_of(ErrorKind::InvalidToken))
}

pub open spec fn items_after(acc: Seq<Form>, r: Result<(Seq<Form>, int), ErrorKind>) -> Result<
    (Seq<Form>, int),
    ErrorKind,
> {
    match r {
        Ok((fs, q)) => Ok((acc + fs, q)),
        Err(e) => Err(e),
    }
}

/// Reads the forms after an opening bracket up to the token `close`, which is consumed.
fn read_items(r: &mut Reader, close: char) -> (res: Result<Vec<MalValue>, MalError>)
    requires
        old(r).wf(),
        old(r).offset < old(r).spans.len(),
    ensures
        final(r).chars == old(r).chars,
        final(r).spans == old(r).spans,
        final(r).wf(),
        match parse_items(old(r).chars@, old(r).tokens(), old(r).offset + 1, close) {
            Ok((fs, q)) => res is Ok && forms_of(res->Ok_0@) == fs && final(r).offset == q,
            Err(e) => res is Err && res->Err_0.kind == e,
        },
        res is Ok ==> final(r).offset > old(r).offset,
    decreases old(r).spans.len() - old(r).offset, 0nat,
{
    let ghost s = r.chars@;
    let ghost t = r.tokens();
    let ghost p = r.offset + 1;
    let mut v: Vec<MalValue> = Vec::new();
    let _ = r.next();
    loop
        invariant
            r.wf(),
            r.chars@ == s,
            r.tokens() == t,
            t.len() == r.spans.len(),
            p <= r.offset,
            r.chars == old(r).chars,
            r.spans == old(r).spans,
            p == old(r).offset + 1,
            parse_items(s, t, p, close) == items_after(forms_of(v@), parse_items(s, t, r.offset as int, close)),
        decreases r.spans.len() - r.offset,
    {
        let (a, b) = r.peek()?;
        proof {
            assert(t[r.offset as int] == (a as int, b as int));
            assert([close].view() == seq![close]);
        }
        if span_is(&r.chars, a, b, &[close]) {
            r.next()?;
            assert(forms_of(v@) + Seq::<Form>::empty() =~= forms_of(v@));
            return Ok(v);
        }
        let ghost cur = r.offset as int;
        let x = match read_form(r) {
            Ok(x) => x,
            Err(e) => return Err(e),
        };
        proof {
            assert(token_text(s, t[cur]) != seq![close]);
            crate::types::lemma_forms_of_push(v@, x);
            match parse_items(s, t, r.offset as int, close) {
                Ok((fs, q)) => {
                    assert(forms_of(v@) + (seq![x@] + fs) =~= forms_of(v@).push(x@) + fs);
                },
                Err(_) => {},
            }
        }
        v.push(x);
    }
}

fn read_list(r: &mut Reader) -> (res: Result<MalValue, MalError>)
    requires
        old(r).wf(),
        old(r).offset < old(r).spans.len(),
    ensures
        final(r).chars == old(r).chars,
        final(r).spans == old(r).spans,
        final(r).wf(),
        match parse_items(old(r).chars@, old(r).tokens(), old(r).offset + 1, ')') {
            Ok((fs, q)) => res is Ok && res->Ok_0@ == Form::List(fs) && final(r).offset == q,
            Err(e) => res is Err && res->Err_0.kind == e,
        },
        res is Ok ==> final(r).offset > old(r).offset,
    decreases old(r).spans.len() - old(r).offset, 1nat,
{
    let v = read_items(r, ')')?;
    Ok(MalValue::List(Rc::new(v)))
}

fn read_vec(r: &mut Reader) -> (res: Result<MalValue, MalError>)
    requires
        old(r).wf(),
        old(r).offset < old(r).spans.len(),
    ensures
        final(r).chars == old(r).chars,
        final(r).spans == old(r).spans,
        final(r).wf(),
        match parse_items(old(r).chars@, old(r).tokens(), old(r).offset + 1, ']') {
            Ok((fs, q)) => res is Ok && res->Ok_0@ == Form::Vector(fs) && final(r).offset == q,
            Err(e) => res is Err && res->Err_0.kind == e,
        },
        res is Ok ==> final(r).offset > old(r).offset,
    decreases old(r).spans.len() - old(r).offset, 1nat,
{
    let v = read_items(r, ']')?;
    Ok(MalValue::Vector(Rc::new(v)))
}

fn read_form(r: &mut Reader) -> (res: Result<MalValue, MalError>)
    requires
        old(r).wf(),
    ensures
        final(r).chars == old(r).chars,
        final(r).spans == old(r).spans,
        final(r).wf(),
        match parse_form(old(r).chars@, old(r).tokens(), old(r).offset as int) {
            Ok((f, q)) => res is Ok && res->Ok_0@ == f && final(r).offset == q,
            Err(e) => res is Err && res->Err_0.kind == e,
        },
        res is Ok ==> final(r).offset > old(r).offset,
    decreases old(r).spans.len() - old(r).offset, 2nat,
{
    let (a, b) = match r.peek() {
        Ok(sp) => sp,
        Err(e) => return Err(e),
    };
    proof {
        assert(r.tokens()[r.offset as int] == (a as int, b as int));
        assert(token_text(r.chars@, (a as int, b as int)) == r.chars@.subrange(a as int, b as int));
        assert(['('].view() == seq!['(']);
        assert(['['].view() == seq!['[']);
    }
    if span_is(&r.chars, a, b, &['(']) {
        read_list(r)
    } else if span_is(&r.chars, a, b, &['[']) {
        read_vec(r)
    } else {
        read_atom(r)
    }
}

/// Reads the first form of the text `s`.
pub fn read_str(s: &str) -> (res: Result<MalValue, MalError>)
    ensures
        match read_spec(s@) {
            Ok(f) => res is Ok && res->Ok_0@ == f,
            Err(e) => res is Err && res->Err_0.kind == e,
        },
{
    let chars = crate::chars::chars_of(s);
    let tokens = tokenize(&chars)?;
    let mut r = Reader::new(chars, tokens);
    read_form(&mut r)
}

} // verus!
