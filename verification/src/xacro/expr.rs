//! Numeric expressions: `expr := term (('+'|'-') term)*`,
//! `term := factor (('*'|'/') factor)*`, `factor := '-' factor | number | name |
//! '(' expr ')'`.

use vstd::prelude::*;

use crate::scalar::decimal::parse_number;
#[allow(unused_imports)]
use crate::scalar::decimal::{digits_end, number_of};
#[allow(unused_imports)]
use crate::scalar::number::{fadd, fdiv, fmul, fneg, fsub};
#[allow(unused_imports)]
use crate::scalar::show::shown;
use crate::scalar::show::show_number;
use crate::scalar::Scalar;
use crate::text::{
    chars_of, is_alpha_char, is_digit_char, is_text, part, push_lit, push_text, skip_spaces,
    string_of, trim,
};
#[allow(unused_imports)]
use crate::text::{is_alpha, is_digit, lemma_skip_space, skip_space, trimmed};
use crate::xacro::env::{lookup_prop, Scope};
#[allow(unused_imports)]
use crate::xacro::env::{lookup, scopes_view, ScopeV};
use crate::xacro::error::{join3, XacroError};
#[allow(unused_imports)]
use crate::xacro::error::Fault;

verus! {

/// Bits of the number nearest to pi.
pub const PI_BITS: u64 = 0x4009_21FB_5444_2D18;

pub open spec fn is_ident_char(c: char) -> bool {
    is_alpha(c) || is_digit(c) || c == '_'
}

/// A letter or underscore, then letters, digits and underscores.
pub open spec fn ident_text(s: Seq<char>) -> bool {
    &&& s.len() > 0
    &&& (is_alpha(s[0]) || s[0] == '_')
    &&& forall|i: int| 0 <= i < s.len() ==> is_ident_char(#[trigger] s[i])
}

/// First position from `pos` on that does not belong to an identifier.
pub open spec fn ident_end(s: Seq<char>, pos: int) -> int
    decreases s.len() - pos,
{
    if 0 <= pos < s.len() && is_ident_char(s[pos]) {
        ident_end(s, pos + 1)
    } else {
        pos
    }
}

/// First position from `pos` on that is neither a digit nor a point.
pub open spec fn mantissa_end(s: Seq<char>, pos: int) -> int
    decreases s.len() - pos,
{
    if 0 <= pos < s.len() && (is_digit(s[pos]) || s[pos] == '.') {
        mantissa_end(s, pos + 1)
    } else {
        pos
    }
}

/// End of a number literal: the mantissa, and an exponent if it has digits.
pub open spec fn literal_end(s: Seq<char>, pos: int) -> int {
    let a = mantissa_end(s, pos);
    if a < s.len() && (s[a] == 'e' || s[a] == 'E') {
        let b = if a + 1 < s.len() && (s[a + 1] == '+' || s[a + 1] == '-') {
            a + 2
        } else {
            a + 1
        };
        if digits_end(s, b) > b {
            digits_end(s, b)
        } else {
            a
        }
    } else {
        a
    }
}

pub open spec fn unexpected(what: Seq<char>) -> Seq<char> {
    "unexpected `"@ + what
        + "` (supported: numbers, properties, pi, + - * / and parentheses)"@
}

/// A number literal at `pos`.
pub open spec fn num_literal(s: Seq<char>, pos: int) -> Result<(Scalar, int), Seq<char>> {
    let tok = s.subrange(pos, literal_end(s, pos));
    match number_of(tok) {
        Some(v) => Ok((v, literal_end(s, pos))),
        None => Err("malformed number `"@ + tok + "`"@),
    }
}

/// A property or `pi` at `pos`.
pub open spec fn num_name(s: Seq<char>, pos: int, scopes: Seq<ScopeV>) -> Result<
    (Scalar, int),
    Seq<char>,
> {
    let end = ident_end(s, pos);
    let name = s.subrange(pos, end);
    match lookup(scopes, name) {
        Some(val) => match number_of(trimmed(val)) {
            Some(v) => Ok((v, end)),
            None => Err("property `"@ + name + "` = `"@ + val + "` is not numeric"@),
        },
        None => if name == "pi"@ {
            Ok((Scalar { bits: PI_BITS }, end))
        } else {
            Err("undefined property `"@ + name + "`"@)
        },
    }
}

pub open spec fn num_factor(s: Seq<char>, pos: int, scopes: Seq<ScopeV>) -> Result<
    (Scalar, int),
    Seq<char>,
>
    decreases s.len() - pos, 0nat,
    when 0 <= pos <= s.len()
    via num_factor_decreases
{
    let p = skip_space(s, pos);
    if p >= s.len() {
        Err("unexpected end of expression"@)
    } else if s[p] == '-' {
        match num_factor(s, p + 1, scopes) {
            Ok((v, q)) => Ok((fneg(v), q)),
            Err(m) => Err(m),
        }
    } else if s[p] == '(' {
        match num_expr(s, p + 1, scopes) {
            Ok((v, q)) => {
                let r = skip_space(s, q);
                if r < s.len() && s[r] == ')' {
                    Ok((v, r + 1))
                } else {
                    Err("missing `)`"@)
                }
            },
            Err(m) => Err(m),
        }
    } else if is_digit(s[p]) || s[p] == '.' {
        num_literal(s, p)
    } else if is_alpha(s[p]) || s[p] == '_' {
        num_name(s, p, scopes)
    } else {
        Err(unexpected(seq![s[p]]))
    }
}

pub open spec fn num_term(s: Seq<char>, pos: int, scopes: Seq<ScopeV>) -> Result<
    (Scalar, int),
    Seq<char>,
>
    decreases s.len() - pos, 2nat,
    when 0 <= pos <= s.len()
{
    match num_factor(s, pos, scopes) {
        Err(m) => Err(m),
        Ok((v, q)) => if pos < q <= s.len() {
            num_term_tail(s, q, v, scopes)
        } else {
            Err(Seq::empty())
        },
    }
}

/// More factors, joined to `v` from left to right.
pub open spec fn num_term_tail(s: Seq<char>, pos: int, v: Scalar, scopes: Seq<ScopeV>) -> Result<
    (Scalar, int),
    Seq<char>,
>
    decreases s.len() - pos, 1nat,
    when 0 <= pos <= s.len()
    via num_term_tail_decreases
{
    let p = skip_space(s, pos);
    if p < s.len() && (s[p] == '*' || s[p] == '/') {
        match num_factor(s, p + 1, scopes) {
            Err(m) => Err(m),
            Ok((w, q)) => if p < q <= s.len() {
                num_term_tail(
                    s,
                    q,
                    if s[p] == '*' {
                        fmul(v, w)
                    } else {
                        fdiv(v, w)
                    },
                    scopes,
                )
            } else {
                Err(Seq::empty())
            },
        }
    } else {
        Ok((v, p))
    }
}

pub open spec fn num_expr(s: Seq<char>, pos: int, scopes: Seq<ScopeV>) -> Result<
    (Scalar, int),
    Seq<char>,
>
    decreases s.len() - pos, 4nat,
    when 0 <= pos <= s.len()
{
    match num_term(s, pos, scopes) {
        Err(m) => Err(m),
        Ok((v, q)) => if pos < q <= s.len() {
            num_expr_tail(s, q, v, scopes)
        } else {
            Err(Seq::empty())
        },
    }
}

/// More terms, joined to `v` from left to right.
pub open spec fn num_expr_tail(s: Seq<char>, pos: int, v: Scalar, scopes: Seq<ScopeV>) -> Result<
    (Scalar, int),
    Seq<char>,
>
    decreases s.len() - pos, 3nat,
    when 0 <= pos <= s.len()
    via num_expr_tail_decreases
{
    let p = skip_space(s, pos);
    if p < s.len() && (s[p] == '+' || s[p] == '-') {
        match num_term(s, p + 1, scopes) {
            Err(m) => Err(m),
            Ok((w, q)) => if p < q <= s.len() {
                num_expr_tail(
                    s,
                    q,
                    if s[p] == '+' {
                        fadd(v, w)
                    } else {
                        fsub(v, w)
                    },
                    scopes,
                )
            } else {
                Err(Seq::empty())
            },
        }
    } else {
        Ok((v, p))
    }
}

#[via_fn]
proof fn num_factor_decreases(s: Seq<char>, pos: int, scopes: Seq<ScopeV>) {
    lemma_skip_space(s, pos);
}

#[via_fn]
proof fn num_term_tail_decreases(s: Seq<char>, pos: int, v: Scalar, scopes: Seq<ScopeV>) {
    lemma_skip_space(s, pos);
}

#[via_fn]
proof fn num_expr_tail_decreases(s: Seq<char>, pos: int, v: Scalar, scopes: Seq<ScopeV>) {
    lemma_skip_space(s, pos);
}

/// The value of a whole expression.
pub open spec fn num_value(s: Seq<char>, scopes: Seq<ScopeV>) -> Result<Scalar, Seq<char>> {
    match num_expr(s, 0, scopes) {
        Err(m) => Err(m),
        Ok((v, q)) => {
            let p = skip_space(s, q);
            if p < s.len() {
                Err(unexpected(s.subrange(p, s.len() as int)))
            } else {
                Ok(v)
            }
        },
    }
}

/// The text that the inside of `${..}` stands for: a property's text, or the
/// value of a numeric expression.
pub open spec fn eval_text(raw: Seq<char>, scopes: Seq<ScopeV>) -> Result<Seq<char>, Fault> {
    let e = trimmed(raw);
    if e.len() == 0 {
        Err(Fault::Expression(raw, "empty expression"@))
    } else if ident_text(e) {
        match lookup(scopes, e) {
            Some(v) => Ok(v),
            None => if e == "pi"@ {
                Ok(shown(Scalar { bits: PI_BITS }))
            } else {
                Err(Fault::UndefinedProperty(e))
            },
        }
    } else {
        match num_value(e, scopes) {
            Err(m) => Err(Fault::Expression(e, m)),
            Ok(v) => if !v.finite() {
                Err(Fault::Expression(e, "non-finite result"@))
            } else {
                Ok(shown(v))
            },
        }
    }
}

/// Whether a text is an identifier.
pub fn is_ident(s: &Vec<char>) -> (r: bool)
    ensures
        r == ident_text(s@),
{
    if s.len() == 0 || !(is_alpha_char(s[0]) || s[0] == '_') {
        return false;
    }
    let mut i: usize = 0;
    while i < s.len()
        invariant
            i <= s.len(),
            forall|k: int| 0 <= k < i ==> is_ident_char(#[trigger] s@[k]),
        decreases s.len() - i,
    {
        if !ident_char(s[i]) {
            return false;
        }
        i = i + 1;
    }
    true
}

fn ident_char(c: char) -> (r: bool)
    ensures
        r == is_ident_char(c),
{
    is_alpha_char(c) || is_digit_char(c) || c == '_'
}

/// Cursor over an expression, and the properties it may name.
pub struct NumParser<'a> {
    pub s: &'a Vec<char>,
    pub pos: usize,
    pub scopes: &'a Vec<Scope>,
}

impl<'a> NumParser<'a> {
    pub open spec fn wf(self) -> bool {
        self.pos <= self.s.len()
    }

    /// `other` is `self` moved on over the same text.
    pub open spec fn moved(self, other: Self) -> bool {
        &&& other.wf()
        &&& other.s == self.s
        &&& other.scopes == self.scopes
    }

    fn skip_ws(&mut self)
        requires
            old(self).wf(),
        ensures
            old(self).moved(*final(self)),
            final(self).pos >= old(self).pos,
            final(self).pos == skip_space(old(self).s@, old(self).pos as int),
    {
        self.pos = skip_spaces(self.s, self.pos);
    }

    fn eat(&mut self, c: char) -> (r: bool)
        requires
            old(self).wf(),
        ensures
            old(self).moved(*final(self)),
            r == (old(self).pos < old(self).s.len() && old(self).s@[old(self).pos as int] == c),
            final(self).pos == (if r {
                old(self).pos + 1
            } else {
                old(self).pos as int
            }),
    {
        if self.pos < self.s.len() && self.s[self.pos] == c {
            self.pos = self.pos + 1;
            true
        } else {
            false
        }
    }

    /// The value of the whole text.
    pub fn parse(&mut self) -> (r: Result<Scalar, Vec<char>>)
        requires
            old(self).pos == 0,
        ensures
            match r {
                Ok(v) => num_value(old(self).s@, scopes_view(old(self).scopes@)) == Ok::<
                    Scalar,
                    Seq<char>,
                >(v),
                Err(m) => num_value(old(self).s@, scopes_view(old(self).scopes@)) == Err::<
                    Scalar,
                    Seq<char>,
                >(m@),
            },
    {
        let v = match self.expr() {
            Ok(v) => v,
            Err(m) => {
                return Err(m);
            },
        };
        self.skip_ws();
        if self.pos < self.s.len() {
            let rest = part(self.s, self.pos, self.s.len());
            return Err(unexpected_text(&rest));
        }
        Ok(v)
    }

    fn expr(&mut self) -> (r: Result<Scalar, Vec<char>>)
        requires
            old(self).wf(),
        ensures
            old(self).moved(*final(self)),
            match r {
                Ok(v) => num_expr(
                    old(self).s@,
                    old(self).pos as int,
                    scopes_view(old(self).scopes@),
                ) == Ok::<_, Seq<char>>((v, final(self).pos as int)) && final(self).pos > old(
                    self,
                ).pos,
                Err(m) => num_expr(
                    old(self).s@,
                    old(self).pos as int,
                    scopes_view(old(self).scopes@),
                ) == Err::<(Scalar, int), Seq<char>>(m@),
            },
        decreases old(self).s.len() - old(self).pos, 4nat,
    {
        let ghost sc = scopes_view(self.scopes@);
        let ghost start = self.pos as int;
        let mut v = match self.term() {
            Ok(v) => v,
            Err(m) => {
                return Err(m);
            },
        };
        loop
            invariant
                old(self).moved(*self),
                self.pos > old(self).pos,
                old(self).pos == start,
                sc == scopes_view(self.scopes@),
                num_expr(self.s@, start, sc) == num_expr_tail(self.s@, self.pos as int, v, sc),
            decreases self.s.len() - self.pos,
        {
            let ghost at = self.pos as int;
            self.skip_ws();
            let ghost p = self.pos as int;
            if self.eat('+') {
                match self.term() {
                    Ok(w) => {
                        v = v.add(w);
                    },
                    Err(m) => {
                        return Err(m);
                    },
                }
            } else if self.eat('-') {
                match self.term() {
                    Ok(w) => {
                        v = v.sub(w);
                    },
                    Err(m) => {
                        return Err(m);
                    },
                }
            } else {
                return Ok(v);
            }
        }
    }

    fn term(&mut self) -> (r: Result<Scalar, Vec<char>>)
        requires
            old(self).wf(),
        ensures
            old(self).moved(*final(self)),
            match r {
                Ok(v) => num_term(
                    old(self).s@,
                    old(self).pos as int,
                    scopes_view(old(self).scopes@),
                ) == Ok::<_, Seq<char>>((v, final(self).pos as int)) && final(self).pos > old(
                    self,
                ).pos,
                Err(m) => num_term(
                    old(self).s@,
                    old(self).pos as int,
                    scopes_view(old(self).scopes@),
                ) == Err::<(Scalar, int), Seq<char>>(m@),
            },
        decreases old(self).s.len() - old(self).pos, 2nat,
    {
        let ghost sc = scopes_view(self.scopes@);
        let ghost start = self.pos as int;
        let mut v = match self.factor() {
            Ok(v) => v,
            Err(m) => {
                return Err(m);
            },
        };
        loop
            invariant
                old(self).moved(*self),
                self.pos > old(self).pos,
                old(self).pos == start,
                sc == scopes_view(self.scopes@),
                num_term(self.s@, start, sc) == num_term_tail(self.s@, self.pos as int, v, sc),
            decreases self.s.len() - self.pos,
        {
            self.skip_ws();
            if self.eat('*') {
                match self.factor() {
                    Ok(w) => {
                        v = v.mul(w);
                    },
                    Err(m) => {
                        return Err(m);
                    },
                }
            } else if self.eat('/') {
                match self.factor() {
                    Ok(w) => {
                        v = v.div(w);
                    },
                    Err(m) => {
                        return Err(m);
                    },
                }
            } else {
                return Ok(v);
            }
        }
    }

    fn factor(&mut self) -> (r: Result<Scalar, Vec<char>>)
        requires
            old(self).wf(),
        ensures
            old(self).moved(*final(self)),
            match r {
                Ok(v) => num_factor(
                    old(self).s@,
                    old(self).pos as int,
                    scopes_view(old(self).scopes@),
                ) == Ok::<_, Seq<char>>((v, final(self).pos as int)) && final(self).pos > old(
                    self,
                ).pos,
                Err(m) => num_factor(
                    old(self).s@,
                    old(self).pos as int,
                    scopes_view(old(self).scopes@),
                ) == Err::<(Scalar, int), Seq<char>>(m@),
            },
        decreases old(self).s.len() - old(self).pos, 0nat,
    {
        self.skip_ws();
        if self.pos >= self.s.len() {
            return Err(chars_of("unexpected end of expression"));
        }
        if self.eat('-') {
            return match self.factor() {
                Ok(v) => Ok(v.neg()),
                Err(m) => Err(m),
            };
        }
        if self.eat('(') {
            return match self.expr() {
                Ok(v) => {
                    self.skip_ws();
                    if self.eat(')') {
                        Ok(v)
                    } else {
                        Err(chars_of("missing `)`"))
                    }
                },
                Err(m) => Err(m),
            };
        }
        let c = self.s[self.pos];
        if is_digit_char(c) || c == '.' {
            return self.number();
        }
        if is_alpha_char(c) || c == '_' {
            return self.ident();
        }
        let mut what: Vec<char> = Vec::new();
        what.push(c);
        assert(what@ =~= seq![c]);
        Err(unexpected_text(&what))
    }

    fn number(&mut self) -> (r: Result<Scalar, Vec<char>>)
        requires
            old(self).pos < old(self).s.len(),
            is_digit(old(self).s@[old(self).pos as int]) || old(self).s@[old(self).pos as int]
                == '.',
        ensures
            old(self).moved(*final(self)),
            match r {
                Ok(v) => num_literal(old(self).s@, old(self).pos as int) == Ok::<_, Seq<char>>(
                    (v, final(self).pos as int),
                ) && final(self).pos > old(self).pos,
                Err(m) => num_literal(old(self).s@, old(self).pos as int) == Err::<
                    (Scalar, int),
                    Seq<char>,
                >(m@),
            },
    {
        let s = self.s;
        let start: usize = self.pos;
        let mut end: usize = start;
        while end < s.len() && (is_digit_char(s[end]) || s[end] == '.')
            invariant
                start <= end <= s.len(),
                start < s.len(),
                is_digit(s@[start as int]) || s@[start as int] == '.',
                mantissa_end(s@, start as int) == mantissa_end(s@, end as int),
            decreases s.len() - end,
        {
            end = end + 1;
        }
        assert(end > start);
        if end < s.len() && (s[end] == 'e' || s[end] == 'E') {
            let b: usize = if end + 1 < s.len() && (s[end + 1] == '+' || s[end + 1] == '-') {
                end + 2
            } else {
                end + 1
            };
            let mut j: usize = b;
            while j < s.len() && is_digit_char(s[j])
                invariant
                    b <= j <= s.len(),
                    digits_end(s@, b as int) == digits_end(s@, j as int),
                decreases s.len() - j,
            {
                j = j + 1;
            }
            if j > b {
                end = j;
            }
        }
        let tok = part(s, start, end);
        match parse_number(&tok) {
            Some(v) => {
                self.pos = end;
                Ok(v)
            },
            None => Err(join3("malformed number `", &tok, "`")),
        }
    }

    fn ident(&mut self) -> (r: Result<Scalar, Vec<char>>)
        requires
            old(self).pos < old(self).s.len(),
            is_ident_char(old(self).s@[old(self).pos as int]),
        ensures
            old(self).moved(*final(self)),
            match r {
                Ok(v) => num_name(
                    old(self).s@,
                    old(self).pos as int,
                    scopes_view(old(self).scopes@),
                ) == Ok::<_, Seq<char>>((v, final(self).pos as int)) && final(self).pos > old(
                    self,
                ).pos,
                Err(m) => num_name(
                    old(self).s@,
                    old(self).pos as int,
                    scopes_view(old(self).scopes@),
                ) == Err::<(Scalar, int), Seq<char>>(m@),
            },
    {
        let s = self.s;
        let start: usize = self.pos;
        let mut end: usize = start;
        while end < s.len() && ident_char(s[end])
            invariant
                start <= end <= s.len(),
                start < s.len(),
                is_ident_char(s@[start as int]),
                ident_end(s@, start as int) == ident_end(s@, end as int),
            decreases s.len() - end,
        {
            end = end + 1;
        }
        assert(end > start);
        let name = part(s, start, end);
        match lookup_prop(self.scopes, &name) {
            Some(val) => {
                let t = trim(val);
                match parse_number(&t) {
                    Some(v) => {
                        self.pos = end;
                        Ok(v)
                    },
                    None => {
                        let mut m = join3("property `", &name, "` = `");
                        push_text(&mut m, val);
                        push_lit(&mut m, "` is not numeric");
                        Err(m)
                    },
                }
            },
            None => {
                if is_text(&name, "pi") {
                    self.pos = end;
                    Ok(Scalar { bits: PI_BITS })
                } else {
                    Err(join3("undefined property `", &name, "`"))
                }
            },
        }
    }
}

fn unexpected_text(what: &Vec<char>) -> (r: Vec<char>)
    ensures
        r@ == unexpected(what@),
{
    join3(
        "unexpected `",
        what,
        "` (supported: numbers, properties, pi, + - * / and parentheses)",
    )
}

/// The text that the inside of `${..}` stands for.
pub fn eval(raw: &Vec<char>, scopes: &Vec<Scope>) -> (r: Result<Vec<char>, XacroError>)
    ensures
        match r {
            Ok(t) => eval_text(raw@, scopes_view(scopes@)) == Ok::<Seq<char>, Fault>(t@),
            Err(e) => eval_text(raw@, scopes_view(scopes@)) == Err::<Seq<char>, Fault>(e@),
        },
{
    let e = trim(raw);
    if e.len() == 0 {
        return Err(XacroError::Expression(string_of(raw), string_of(&chars_of("empty expression"))));
    }
    if is_ident(&e) {
        return match lookup_prop(scopes, &e) {
            Some(v) => Ok(crate::text::copy_text(v)),
            None => {
                if is_text(&e, "pi") {
                    Ok(show_number(Scalar { bits: PI_BITS }))
                } else {
                    Err(XacroError::UndefinedProperty(string_of(&e)))
                }
            },
        };
    }
    let mut p = NumParser { s: &e, pos: 0, scopes };
    match p.parse() {
        Err(m) => Err(XacroError::Expression(string_of(&e), string_of(&m))),
        Ok(v) => {
            if !v.is_finite() {
                Err(
                    XacroError::Expression(
                        string_of(&e),
                        string_of(&chars_of("non-finite result")),
                    ),
                )
            } else {
                Ok(show_number(v))
            }
        },
    }
}

} // verus!
