//! What the signs in an expression do to its numbers.

use vstd::prelude::*;

#[allow(unused_imports)]
use crate::scalar::formula::{
    is_difference, is_quotient, is_sum, is_times, lemma_is_difference, lemma_is_quotient,
    lemma_is_times, on_scale,
};
#[allow(unused_imports)]
use crate::scalar::number::{fadd, fdiv, fmul, fsub};
#[allow(unused_imports)]
use crate::scalar::order::{law_sum_is_near, lemma_negated};
#[allow(unused_imports)]
use crate::scalar::rounding::INF_MAG;
#[allow(unused_imports)]
use crate::scalar::Scalar;
#[allow(unused_imports)]
use crate::text::{lemma_skip_space, skip_space};
#[allow(unused_imports)]
use crate::xacro::env::ScopeV;
#[allow(unused_imports)]
use crate::xacro::expr::{num_expr, num_expr_tail, num_factor, num_term, num_term_tail};

verus! {

/// After a number, a plus takes the sum with the term behind it, and a minus the difference,
/// before what follows is looked at.
pub proof fn law_terms_are_added_from_the_left(
    s: Seq<char>,
    pos: int,
    v: Scalar,
    scopes: Seq<ScopeV>,
) -> (x: Scalar)
    requires
        0 <= pos <= s.len(),
        ({
            let p = skip_space(s, pos);
            &&& p < s.len() && (s[p] == '+' || s[p] == '-')
            &&& num_term(s, p + 1, scopes) is Ok
            &&& p < num_term(s, p + 1, scopes)->Ok_0.1 <= s.len()
            &&& v.finite() && num_term(s, p + 1, scopes)->Ok_0.0.finite()
            &&& fadd(v, num_term(s, p + 1, scopes)->Ok_0.0).finite()
            &&& fsub(v, num_term(s, p + 1, scopes)->Ok_0.0).finite()
        }),
    ensures
        ({
            let p = skip_space(s, pos);
            let (w, q) = num_term(s, p + 1, scopes)->Ok_0;
            &&& s[p] == '+' ==> is_sum(x, v, w)
            &&& s[p] == '-' ==> is_difference(x, v, w)
            &&& num_expr_tail(s, pos, v, scopes) == num_expr_tail(s, q, x, scopes)
        }),
{
    let p = skip_space(s, pos);
    lemma_skip_space(s, pos);
    let (w, q) = num_term(s, p + 1, scopes)->Ok_0;
    law_sum_is_near(v, w);
    lemma_is_difference(v, w);
    if s[p] == '+' {
        fadd(v, w)
    } else {
        fsub(v, w)
    }
}

/// After a number, a star takes the product with the factor behind it, and a slash the
/// quotient, before what follows is looked at.
pub proof fn law_factors_are_taken_from_the_left(
    s: Seq<char>,
    pos: int,
    v: Scalar,
    scopes: Seq<ScopeV>,
) -> (x: Scalar)
    requires
        0 <= pos <= s.len(),
        ({
            let p = skip_space(s, pos);
            &&& p < s.len() && (s[p] == '*' || s[p] == '/')
            &&& num_factor(s, p + 1, scopes) is Ok
            &&& p < num_factor(s, p + 1, scopes)->Ok_0.1 <= s.len()
            &&& s[p] == '*' ==> on_scale(v, num_factor(s, p + 1, scopes)->Ok_0.0)
            &&& s[p] == '/' ==> v.finite() && num_factor(s, p + 1, scopes)->Ok_0.0.finite()
                && num_factor(s, p + 1, scopes)->Ok_0.0.mag() > 0 && fdiv(
                v,
                num_factor(s, p + 1, scopes)->Ok_0.0,
            ).mag() + 1 < INF_MAG
        }),
    ensures
        ({
            let p = skip_space(s, pos);
            let (w, q) = num_factor(s, p + 1, scopes)->Ok_0;
            &&& s[p] == '*' ==> is_times(x, v, w)
            &&& s[p] == '/' ==> is_quotient(x, v, w)
            &&& num_term_tail(s, pos, v, scopes) == num_term_tail(s, q, x, scopes)
        }),
{
    let p = skip_space(s, pos);
    lemma_skip_space(s, pos);
    let (w, q) = num_factor(s, p + 1, scopes)->Ok_0;
    if s[p] == '*' {
        lemma_is_times(v, w);
        fmul(v, w)
    } else {
        lemma_is_quotient(v, w);
        fdiv(v, w)
    }
}

/// A minus in front of a factor turns its sign.
pub proof fn law_minus_turns_the_sign(s: Seq<char>, pos: int, scopes: Seq<ScopeV>)
    requires
        0 <= pos <= s.len(),
        skip_space(s, pos) < s.len(),
        s[skip_space(s, pos)] == '-',
    ensures
        ({
            let p = skip_space(s, pos);
            let inner = num_factor(s, p + 1, scopes);
            let outer = num_factor(s, pos, scopes);
            &&& outer is Ok <==> inner is Ok
            &&& inner is Ok ==> outer->Ok_0.0.units() == -inner->Ok_0.0.units() && outer->Ok_0.1
                == inner->Ok_0.1
        }),
{
    let p = skip_space(s, pos);
    lemma_skip_space(s, pos);
    let inner = num_factor(s, p + 1, scopes);
    if inner is Ok {
        lemma_negated(inner->Ok_0.0);
    }
}

/// What stands in parentheses counts as the number that it comes to.
pub proof fn law_parentheses_come_first(s: Seq<char>, pos: int, scopes: Seq<ScopeV>)
    requires
        0 <= pos <= s.len(),
        skip_space(s, pos) < s.len(),
        s[skip_space(s, pos)] == '(',
        num_expr(s, skip_space(s, pos) + 1, scopes) is Ok,
        ({
            let r = skip_space(s, num_expr(s, skip_space(s, pos) + 1, scopes)->Ok_0.1);
            r < s.len() && s[r] == ')'
        }),
    ensures
        num_factor(s, pos, scopes) is Ok,
        num_factor(s, pos, scopes)->Ok_0.0 == num_expr(s, skip_space(s, pos) + 1, scopes)->Ok_0.0,
{
    lemma_skip_space(s, pos);
}

} // verus!
