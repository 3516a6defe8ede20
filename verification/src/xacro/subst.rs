//! `${..}`, `$(find ..)` and `$$` inside attribute values and text.

use vstd::prelude::*;

use crate::text::{
    chars_of, find_text, is_text, part, push_text, split_words, starts_at, string_of,
};
#[allow(unused_imports)]
use crate::text::{find_from, lemma_find_from, looking_at, words};
use crate::xacro::env::Scope;
#[allow(unused_imports)]
use crate::xacro::env::{opt_text, scopes_view, ScopeV};
use crate::xacro::error::{join3, XacroError};
#[allow(unused_imports)]
use crate::xacro::error::Fault;
use crate::xacro::expr::eval;
#[allow(unused_imports)]
use crate::xacro::expr::eval_text;
use crate::xacro::world::{find_package_text, Halt, World};
#[allow(unused_imports)]
use crate::xacro::world::{find_text_value, HaltV, WorldV};
use crate::xacro::xml::has_char;

verus! {

/// What the inside of `$(..)` stands for.
pub open spec fn dollar_paren_text(
    inner: Seq<char>,
    dir: Option<Seq<char>>,
    w: WorldV,
) -> Result<Seq<char>, HaltV> {
    let t = words(inner);
    if t.len() == 0 {
        Err(HaltV::Fault(Fault::Expression(inner, "empty `$(..)`"@)))
    } else if t[0] == "find"@ && t.len() == 2 {
        find_text_value(t[1], dir, w)
    } else {
        Err(
            HaltV::Fault(
                Fault::Unsupported {
                    construct: "$("@ + t[0] + " ..)"@,
                    detail: "only $(find <pkg>) is supported"@,
                },
            ),
        )
    }
}

/// `s` from `pos` on with every substitution made, behind `acc`.
pub open spec fn subst_from(
    s: Seq<char>,
    pos: int,
    acc: Seq<char>,
    dir: Option<Seq<char>>,
    scopes: Seq<ScopeV>,
    w: WorldV,
) -> Result<Seq<char>, HaltV>
    decreases s.len() - pos,
    when 0 <= pos <= s.len()
    via subst_from_decreases
{
    match find_from(s, pos, "$"@) {
        None => Ok(acc + s.subrange(pos, s.len() as int)),
        Some(i) => {
            let head = acc + s.subrange(pos, i);
            if looking_at(s, i, "$$"@) {
                subst_from(s, i + 2, head.push('$'), dir, scopes, w)
            } else if looking_at(s, i, "${"@) {
                match find_from(s, i + 2, "}"@) {
                    None => Err(
                        HaltV::Fault(
                            Fault::Expression(
                                s.subrange(i + 2, s.len() as int),
                                "unterminated `${`"@,
                            ),
                        ),
                    ),
                    Some(end) => {
                        let inner = s.subrange(i + 2, end);
                        if inner.contains('{') {
                            Err(
                                HaltV::Fault(
                                    Fault::Expression(
                                        inner,
                                        "nested braces are not supported"@,
                                    ),
                                ),
                            )
                        } else {
                            match eval_text(inner, scopes) {
                                Err(f) => Err(HaltV::Fault(f)),
                                Ok(t) => subst_from(s, end + 1, head + t, dir, scopes, w),
                            }
                        }
                    },
                }
            } else if looking_at(s, i, "$("@) {
                match find_from(s, i + 2, ")"@) {
                    None => Err(
                        HaltV::Fault(
                            Fault::Expression(
                                s.subrange(i + 2, s.len() as int),
                                "unterminated `$(`"@,
                            ),
                        ),
                    ),
                    Some(end) => match dollar_paren_text(s.subrange(i + 2, end), dir, w) {
                        Err(h) => Err(h),
                        Ok(t) => subst_from(s, end + 1, head + t, dir, scopes, w),
                    },
                }
            } else {
                subst_from(s, i + 1, head.push('$'), dir, scopes, w)
            }
        },
    }
}

#[via_fn]
proof fn subst_from_decreases(
    s: Seq<char>,
    pos: int,
    acc: Seq<char>,
    dir: Option<Seq<char>>,
    scopes: Seq<ScopeV>,
    w: WorldV,
) {
    lemma_dollar(s, pos);
}

/// Where the pieces of a substitution lie.
proof fn lemma_dollar(s: Seq<char>, pos: int)
    requires
        0 <= pos <= s.len(),
    ensures
        "$"@.len() == 1,
        "$$"@.len() == 2,
        "${"@.len() == 2,
        "$("@.len() == 2,
        match find_from(s, pos, "$"@) {
            Some(i) => {
                &&& pos <= i < s.len()
                &&& match find_from(s, i + 2, "}"@) {
                    Some(e) => i + 2 <= e < s.len(),
                    None => true,
                }
                &&& match find_from(s, i + 2, ")"@) {
                    Some(e) => i + 2 <= e < s.len(),
                    None => true,
                }
            },
            None => true,
        },
{
    reveal_strlit("$");
    reveal_strlit("$$");
    reveal_strlit("${");
    reveal_strlit("$(");
    reveal_strlit("}");
    reveal_strlit(")");
    lemma_find_from(s, pos, "$"@);
    match find_from(s, pos, "$"@) {
        Some(i) => {
            lemma_find_from(s, i + 2, "}"@);
            lemma_find_from(s, i + 2, ")"@);
        },
        None => {},
    }
}

/// `s` with every substitution made.
pub open spec fn subst_text(
    s: Seq<char>,
    dir: Option<Seq<char>>,
    scopes: Seq<ScopeV>,
    w: WorldV,
) -> Result<Seq<char>, HaltV> {
    subst_from(s, 0, Seq::empty(), dir, scopes, w)
}

/// A text without `$` is left as it is.
pub proof fn law_plain_text_unchanged(
    s: Seq<char>,
    dir: Option<Seq<char>>,
    scopes: Seq<ScopeV>,
    w: WorldV,
)
    requires
        !s.contains('$'),
    ensures
        subst_text(s, dir, scopes, w) == Ok::<Seq<char>, HaltV>(s),
{
    reveal_strlit("$");
    lemma_find_from(s, 0, "$"@);
    match find_from(s, 0, "$"@) {
        Some(i) => {
            assert(s.subrange(i, i + 1)[0] == "$"@[0]);
            assert(s[i] == '$');
        },
        None => {},
    }
    assert(Seq::<char>::empty() + s.subrange(0, s.len() as int) =~= s);
}

/// `s` with each `$` doubled.
pub open spec fn dollars_doubled(s: Seq<char>) -> Seq<char>
    decreases s.len(),
{
    if s.len() == 0 {
        Seq::empty()
    } else if s[0] == '$' {
        seq!['$', '$'] + dollars_doubled(s.subrange(1, s.len() as int))
    } else {
        seq![s[0]] + dollars_doubled(s.subrange(1, s.len() as int))
    }
}

/// Doubling every `$` escapes a text: substitution gives the text back,
/// whatever is in scope.
pub proof fn law_doubled_dollars_escape(
    s: Seq<char>,
    dir: Option<Seq<char>>,
    scopes: Seq<ScopeV>,
    w: WorldV,
)
    ensures
        subst_text(dollars_doubled(s), dir, scopes, w) == Ok::<Seq<char>, HaltV>(s),
{
    let d = dollars_doubled(s);
    assert(d.subrange(0, d.len() as int) =~= d);
    lemma_escape_from(d, 0, Seq::empty(), s, dir, scopes, w);
    assert(Seq::<char>::empty() + s =~= s);
}

/// The first `$` of a text, when the first `k` characters are none.
proof fn lemma_first_dollar(s: Seq<char>, pos: int, k: int)
    requires
        0 <= pos <= k <= s.len(),
        forall|i: int| pos <= i < k ==> s[i] != '$',
    ensures
        k < s.len() && s[k] == '$' ==> find_from(s, pos, "$"@) == Some(k),
        k == s.len() ==> find_from(s, pos, "$"@) is None,
    decreases k - pos,
{
    reveal_strlit("$");
    if pos < k {
        assert(!looking_at(s, pos, "$"@)) by {
            if looking_at(s, pos, "$"@) {
                assert(s.subrange(pos, pos + 1)[0] == "$"@[0]);
            }
        }
        lemma_first_dollar(s, pos + 1, k);
    } else if k < s.len() && s[k] == '$' {
        assert(s.subrange(k, k + 1) =~= "$"@);
    }
}

proof fn lemma_escape_from(
    d: Seq<char>,
    pos: int,
    acc: Seq<char>,
    t: Seq<char>,
    dir: Option<Seq<char>>,
    scopes: Seq<ScopeV>,
    w: WorldV,
)
    requires
        0 <= pos <= d.len(),
        d.subrange(pos, d.len() as int) == dollars_doubled(t),
    ensures
        subst_from(d, pos, acc, dir, scopes, w) == Ok::<Seq<char>, HaltV>(acc + t),
    decreases t.len(),
{
    // The plain prefix of `t`, up to its first `$`.
    let k = lemma_plain_prefix(d, pos, t);
    lemma_first_dollar(d, pos, pos + k);
    lemma_dollar(d, pos);
    let rest = t.subrange(k, t.len() as int);
    if k == t.len() {
        assert(d.subrange(pos, d.len() as int) =~= t);
    } else {
        let i = pos + k;
        reveal_strlit("$$");
        assert(d.subrange(i, i + 2) =~= "$$"@);
        let tail = t.subrange(k + 1, t.len() as int);
        let head = acc + d.subrange(pos, i);
        lemma_escape_from(d, i + 2, head.push('$'), tail, dir, scopes, w);
        assert(d.subrange(pos, i) =~= t.subrange(0, k));
        assert(head.push('$') + tail =~= acc + t);
    }
}

/// How far `t` runs without a `$`; `d` holds that run and, where `t` goes on,
/// a doubled `$` and the rest behind it.
proof fn lemma_plain_prefix(d: Seq<char>, pos: int, t: Seq<char>) -> (k: int)
    requires
        0 <= pos <= d.len(),
        d.subrange(pos, d.len() as int) == dollars_doubled(t),
    ensures
        0 <= k <= t.len(),
        pos + k <= d.len(),
        forall|i: int| 0 <= i < k ==> d[pos + i] == t[i],
        forall|i: int| pos <= i < pos + k ==> d[i] != '$',
        k == t.len() ==> pos + k == d.len(),
        k < t.len() ==> {
            &&& t[k] == '$'
            &&& pos + k + 2 <= d.len()
            &&& d[pos + k] == '$'
            &&& d[pos + k + 1] == '$'
            &&& d.subrange(pos + k + 2, d.len() as int) == dollars_doubled(
                t.subrange(k + 1, t.len() as int),
            )
        },
    decreases t.len(),
{
    let r = d.subrange(pos, d.len() as int);
    if t.len() == 0 {
        0
    } else {
        let u = t.subrange(1, t.len() as int);
        let more = dollars_doubled(u);
        if t[0] == '$' {
            assert(r =~= seq!['$', '$'] + more);
            assert(r[0] == '$' && r[1] == '$');
            assert(d.subrange(pos + 2, d.len() as int) =~= r.subrange(2, r.len() as int));
            assert(r.subrange(2, r.len() as int) =~= more);
            0
        } else {
            assert(r =~= seq![t[0]] + more);
            assert(r[0] == t[0]);
            assert(d.subrange(pos + 1, d.len() as int) =~= r.subrange(1, r.len() as int));
            assert(r.subrange(1, r.len() as int) =~= more);
            let k = lemma_plain_prefix(d, pos + 1, u);
            assert forall|i: int| 0 <= i < k + 1 implies d[pos + i] == t[i] by {
                if i > 0 {
                    assert(d[pos + 1 + (i - 1)] == u[i - 1]);
                }
            }
            if k < u.len() {
                assert(u.subrange(k + 1, u.len() as int) =~= t.subrange(k + 2, t.len() as int));
                assert(t[k + 1] == u[k]);
            }
            k + 1
        }
    }
}

/// What the inside of `$(..)` stands for.
pub fn dollar_paren(inner: &Vec<char>, dir: &Option<Vec<char>>, w: &World) -> (r: Result<
    Vec<char>,
    Halt,
>)
    ensures
        match r {
            Ok(t) => dollar_paren_text(inner@, opt_text(*dir), w@) == Ok::<Seq<char>, HaltV>(t@),
            Err(h) => dollar_paren_text(inner@, opt_text(*dir), w@) == Err::<Seq<char>, HaltV>(
                h@,
            ),
        },
{
    let t = split_words(inner);
    proof {
        assert(words(inner@).len() == t.len());
        if t.len() > 0 {
            assert(words(inner@)[0] == t@[0]@);
        }
        if t.len() > 1 {
            assert(words(inner@)[1] == t@[1]@);
        }
    }
    if t.len() == 0 {
        return Err(
            Halt::Fault(
                XacroError::Expression(string_of(inner), string_of(&chars_of("empty `$(..)`"))),
            ),
        );
    }
    if is_text(&t[0], "find") && t.len() == 2 {
        return find_package_text(&t[1], dir, w);
    }
    Err(
        Halt::Fault(
            XacroError::Unsupported {
                construct: string_of(&join3("$(", &t[0], " ..)")),
                detail: string_of(&chars_of("only $(find <pkg>) is supported")),
            },
        ),
    )
}

/// `s` with every substitution made.
pub fn substitute(
    s: &Vec<char>,
    dir: &Option<Vec<char>>,
    scopes: &Vec<Scope>,
    w: &World,
) -> (r: Result<Vec<char>, Halt>)
    ensures
        match r {
            Ok(t) => subst_text(s@, opt_text(*dir), scopes_view(scopes@), w@) == Ok::<
                Seq<char>,
                HaltV,
            >(t@),
            Err(h) => subst_text(s@, opt_text(*dir), scopes_view(scopes@), w@) == Err::<
                Seq<char>,
                HaltV,
            >(h@),
        },
{
    let ghost dv = opt_text(*dir);
    let ghost sv = scopes_view(scopes@);
    let mut out: Vec<char> = Vec::new();
    let mut pos: usize = 0;
    loop
        invariant
            pos <= s.len(),
            dv == opt_text(*dir),
            sv == scopes_view(scopes@),
            subst_text(s@, dv, sv, w@) == subst_from(s@, pos as int, out@, dv, sv, w@),
        decreases s.len() - pos,
    {
        proof {
            lemma_dollar(s@, pos as int);
        }
        let i: usize = match find_text(s, pos, "$") {
            None => {
                push_text(&mut out, &part(s, pos, s.len()));
                return Ok(out);
            },
            Some(i) => i,
        };
        push_text(&mut out, &part(s, pos, i));
        if starts_at(s, i, "$$") {
            out.push('$');
            pos = i + 2;
        } else if starts_at(s, i, "${") {
            match find_text(s, i + 2, "}") {
                None => {
                    return Err(
                        Halt::Fault(
                            XacroError::Expression(
                                string_of(&part(s, i + 2, s.len())),
                                string_of(&chars_of("unterminated `${`")),
                            ),
                        ),
                    );
                },
                Some(end) => {
                    let inner = part(s, i + 2, end);
                    if has_char(&inner, '{') {
                        return Err(
                            Halt::Fault(
                                XacroError::Expression(
                                    string_of(&inner),
                                    string_of(&chars_of("nested braces are not supported")),
                                ),
                            ),
                        );
                    }
                    match eval(&inner, scopes) {
                        Err(e) => {
                            return Err(Halt::Fault(e));
                        },
                        Ok(t) => {
                            push_text(&mut out, &t);
                        },
                    }
                    pos = end + 1;
                },
            }
        } else if starts_at(s, i, "$(") {
            match find_text(s, i + 2, ")") {
                None => {
                    return Err(
                        Halt::Fault(
                            XacroError::Expression(
                                string_of(&part(s, i + 2, s.len())),
                                string_of(&chars_of("unterminated `$(`")),
                            ),
                        ),
                    );
                },
                Some(end) => {
                    match dollar_paren(&part(s, i + 2, end), dir, w) {
                        Err(h) => {
                            return Err(h);
                        },
                        Ok(t) => {
                            push_text(&mut out, &t);
                        },
                    }
                    pos = end + 1;
                },
            }
        } else {
            out.push('$');
            pos = i + 1;
        }
    }
}

} // verus!
