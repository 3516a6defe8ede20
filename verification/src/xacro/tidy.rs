//! Trees without substitutions: what a parser gives of a text without `$`, and what
//! expansion makes of it.

use vstd::prelude::*;

#[allow(unused_imports)]
use crate::text::{find_from, is_space, lemma_find_from, lemma_skip_space, looking_at, skip_space};
#[allow(unused_imports)]
use crate::xacro::env::{lookup_block, Env, MacroV, ScopeV};
#[allow(unused_imports)]
use crate::xacro::laws::{
    law_calls_leave_scopes_alone,
};
#[allow(unused_imports)]
use crate::xacro::rules::{
    bind_block, bind_params, bind_value, block_rule, call_rule, expand_element,
    expand_node, expand_nodes, inside_call, macro_rule, property_rule, solid, subst_attrs, Ctx,
    MAX_DEPTH,
};
#[allow(unused_imports)]
use crate::xacro::subst::law_plain_text_unchanged;
#[allow(unused_imports)]
use crate::xacro::world::HaltV;
#[allow(unused_imports)]
use crate::xacro::xml::{
    is_name_char, name_end, parse_attr, parse_attrs, parse_children, parse_document,
    parse_element, parse_misc, parse_name, parse_piece, parse_until, root_start, ElementV, NodeV,
    Piece,
};

verus! {

// ---- trees as a parser gives them ----

/// A name: some name characters.
pub open spec fn is_name(s: Seq<char>) -> bool {
    s.len() > 0 && forall|i: int| 0 <= i < s.len() ==> is_name_char(#[trigger] s[i])
}

/// A value without `$` that does not hold both kinds of quotes.
pub open spec fn tidy_value(v: Seq<char>) -> bool {
    !v.contains('$') && (!v.contains('"') || !v.contains('\''))
}

pub open spec fn tidy_attrs(a: Seq<(Seq<char>, Seq<char>)>) -> bool {
    forall|i: int| 0 <= i < a.len() ==> is_name((#[trigger] a[i]).0) && tidy_value(a[i].1)
}

/// A text that stands between tags, without `$`.
pub open spec fn tidy_text(t: Seq<char>) -> bool {
    t.len() > 0 && !t.contains('<') && !t.contains('$')
}

/// Nodes that were written without `$` and without includes.
pub open spec fn tidy_nodes(nodes: Seq<NodeV>) -> bool
    decreases nodes,
{
    forall|i: int| 0 <= i < nodes.len() ==> tidy_node(#[trigger] nodes[i])
}

pub open spec fn tidy_node(n: NodeV) -> bool
    decreases n,
{
    match n {
        NodeV::Text(t) => tidy_text(t),
        NodeV::Element(e) => is_name(e.name) && e.name != "xacro:include"@ && tidy_attrs(e.attrs)
            && tidy_nodes(e.children),
    }
}

pub open spec fn tidy_element(e: ElementV) -> bool {
    is_name(e.name) && e.name != "xacro:include"@ && tidy_attrs(e.attrs) && tidy_nodes(e.children)
}

// ---- where things stand ----

/// `part` stands in `s` from `pos` on.
#[verifier::opaque]
pub open spec fn stands(s: Seq<char>, pos: int, part: Seq<char>) -> bool {
    0 <= pos && pos + part.len() <= s.len() && forall|i: int|
        0 <= i < part.len() ==> #[trigger] s[pos + i] == part[i]
}

pub proof fn lemma_looking(s: Seq<char>, pos: int, lit: Seq<char>)
    requires
        0 <= pos,
    ensures
        looking_at(s, pos, lit) <==> stands(s, pos, lit),
{
    reveal(stands);
    if looking_at(s, pos, lit) {
        assert forall|i: int| 0 <= i < lit.len() implies #[trigger] s[pos + i] == lit[i] by {
            assert(s.subrange(pos, pos + lit.len())[i] == lit[i]);
        }
    }
    if stands(s, pos, lit) {
        let part = s.subrange(pos, pos + lit.len());
        assert forall|i: int| 0 <= i < lit.len() implies #[trigger] part[i] == lit[i] by {
            assert(s[pos + i] == lit[i]);
        }
        assert(part =~= lit);
    }
}

pub proof fn lemma_stands_parts(s: Seq<char>, pos: int, a: Seq<char>, b: Seq<char>)
    ensures
        stands(s, pos, a + b) <==> stands(s, pos, a) && stands(s, pos + a.len(), b),
{
    reveal(stands);
    let c = a + b;
    if stands(s, pos, c) {
        assert forall|i: int| 0 <= i < a.len() implies #[trigger] s[pos + i] == a[i] by {
            assert(c[i] == a[i]);
        }
        assert forall|i: int| 0 <= i < b.len() implies #[trigger] s[pos + a.len() + i] == b[i] by {
            assert(c[a.len() + i] == b[i]);
            assert(s[pos + (a.len() + i)] == c[a.len() + i]);
        }
    }
    if stands(s, pos, a) && stands(s, pos + a.len(), b) {
        assert forall|i: int| 0 <= i < c.len() implies #[trigger] s[pos + i] == c[i] by {
            if i >= a.len() {
                assert(s[pos + a.len() + (i - a.len())] == b[i - a.len()]);
            }
        }
    }
}

/// A place where something stands is found, if nothing like it stands before.
pub proof fn lemma_find_first(s: Seq<char>, from: int, end: int, lit: Seq<char>)
    requires
        0 <= from <= end,
        looking_at(s, end, lit),
        forall|i: int| from <= i < end ==> !#[trigger] looking_at(s, i, lit),
    ensures
        find_from(s, from, lit) == Some(end),
    decreases end - from,
{
    if from < end {
        assert(!looking_at(s, from, lit));
        lemma_find_first(s, from + 1, end, lit);
    }
}

/// Before what is found, nothing like it stands.
proof fn lemma_found_first(s: Seq<char>, from: int, lit: Seq<char>, k: int)
    requires
        0 <= from <= k,
        k + lit.len() <= s.len(),
        match find_from(s, from, lit) {
            Some(i) => k < i,
            None => true,
        },
    ensures
        !looking_at(s, k, lit),
    decreases k - from,
{
    if from < k {
        if !looking_at(s, from, lit) {
            lemma_found_first(s, from + 1, lit, k);
        }
    }
}

pub proof fn lemma_one(s: Seq<char>, pos: int, c: char)
    requires
        0 <= pos,
    ensures
        looking_at(s, pos, seq![c]) <==> pos < s.len() && s[pos] == c,
{
    reveal(stands);
    lemma_looking(s, pos, seq![c]);
    if pos < s.len() && s[pos] == c {
        assert forall|i: int| 0 <= i < 1 implies #[trigger] s[pos + i] == seq![c][i] by {}
    }
    if stands(s, pos, seq![c]) {
        assert(s[pos + 0] == seq![c][0]);
    }
}

pub proof fn lemma_first(s: Seq<char>, pos: int, lit: Seq<char>)
    requires
        0 <= pos < s.len(),
        lit.len() >= 1,
        s[pos] != lit[0],
    ensures
        !looking_at(s, pos, lit),
{
    reveal(stands);
    lemma_looking(s, pos, lit);
    if stands(s, pos, lit) {
        assert(s[pos + 0] == lit[0]);
    }
}

proof fn lemma_second(s: Seq<char>, pos: int, lit: Seq<char>)
    requires
        0 <= pos,
        pos + 1 < s.len(),
        lit.len() >= 2,
        s[pos + 1] != lit[1],
    ensures
        !looking_at(s, pos, lit),
{
    reveal(stands);
    lemma_looking(s, pos, lit);
    if stands(s, pos, lit) {
        assert(s[pos + 1] == lit[1]);
    }
}

/// Where a start tag begins, nothing else does.
pub proof fn lemma_start_tag(s: Seq<char>, pos: int)
    requires
        0 <= pos,
        pos + 1 < s.len(),
        s[pos] == '<',
        is_name_char(s[pos + 1]),
    ensures
        looking_at(s, pos, "<"@),
        !looking_at(s, pos, "</"@),
        !looking_at(s, pos, "<!--"@),
        !looking_at(s, pos, "<![CDATA["@),
        !looking_at(s, pos, "<?"@),
        !looking_at(s, pos, "<!"@),
        !looking_at(s, pos + 1, "$"@),
{
    reveal_strlit("<");
    reveal_strlit("</");
    reveal_strlit("<!--");
    reveal_strlit("<![CDATA[");
    reveal_strlit("<?");
    reveal_strlit("<!");
    reveal_strlit("$");
    assert("<"@ =~= seq!['<']);
    assert("$"@ =~= seq!['$']);
    lemma_one(s, pos, '<');
    lemma_one(s, pos + 1, '$');
    lemma_second(s, pos, "</"@);
    lemma_second(s, pos, "<!--"@);
    lemma_second(s, pos, "<![CDATA["@);
    lemma_second(s, pos, "<?"@);
    lemma_second(s, pos, "<!"@);
}

/// A name ends where its characters end.
pub proof fn lemma_name_ends(s: Seq<char>, pos: int, n: int)
    requires
        0 <= pos <= n <= s.len(),
        forall|i: int| pos <= i < n ==> is_name_char(#[trigger] s[i]),
        n < s.len() ==> !is_name_char(s[n]),
    ensures
        name_end(s, pos) == n,
    decreases n - pos,
{
    if pos < n {
        assert(is_name_char(s[pos]));
        lemma_name_ends(s, pos + 1, n);
    }
}

/// What a name holds.
proof fn lemma_name_holds(s: Seq<char>, pos: int)
    requires
        0 <= pos <= s.len(),
    ensures
        pos <= name_end(s, pos) <= s.len(),
        forall|i: int| pos <= i < name_end(s, pos) ==> is_name_char(#[trigger] s[i]),
    decreases s.len() - pos,
{
    if pos < s.len() && is_name_char(s[pos]) {
        lemma_name_holds(s, pos + 1);
    }
}

pub proof fn lemma_no_space(s: Seq<char>, pos: int)
    requires
        pos < s.len() ==> !is_space(s[pos]),
    ensures
        skip_space(s, pos) == pos,
{
}

// ---- what a parser gives is tidy ----

/// No `$`, and no include.
pub open spec fn without_dollars_or_includes(s: Seq<char>) -> bool {
    !s.contains('$') && find_from(s, 0, "xacro:include"@) is None
}

proof fn lemma_part_has_no(s: Seq<char>, a: int, b: int, c: char)
    requires
        0 <= a <= b <= s.len(),
        !s.contains(c),
    ensures
        !s.subrange(a, b).contains(c),
{
    let p = s.subrange(a, b);
    if p.contains(c) {
        let i = choose|i: int| 0 <= i < p.len() && p[i] == c;
        assert(s[a + i] == c);
    }
}

proof fn lemma_no_include(s: Seq<char>, a: int, b: int)
    requires
        without_dollars_or_includes(s),
        0 <= a <= b <= s.len(),
    ensures
        s.subrange(a, b) != "xacro:include"@,
{
    let lit = "xacro:include"@;
    if s.subrange(a, b) == lit {
        assert(looking_at(s, a, lit)) by {
            assert(s.subrange(a, a + lit.len()) =~= s.subrange(a, b));
        }
        lemma_found_first(s, 0, lit, a);
    }
}

proof fn lemma_attr_tidy(s: Seq<char>, p: int)
    requires
        without_dollars_or_includes(s),
        0 <= p <= s.len(),
    ensures
        match parse_attr(s, p) {
            Ok((k, v, q)) => is_name(k) && tidy_value(v) && p < q <= s.len(),
            Err(_) => true,
        },
{
    reveal_strlit("=");
    lemma_name_holds(s, p);
    match parse_name(s, p) {
        Ok(ke) => {
            let key = s.subrange(p, ke);
            assert forall|i: int| 0 <= i < key.len() implies is_name_char(#[trigger] key[i]) by {
                assert(key[i] == s[p + i]);
            }
            lemma_skip_space(s, ke);
            let eq = skip_space(s, ke);
            if looking_at(s, eq, "="@) {
                lemma_skip_space(s, eq + 1);
                let q = skip_space(s, eq + 1);
                if q < s.len() && (s[q] == '"' || s[q] == '\'') {
                    lemma_find_from(s, q + 1, seq![s[q]]);
                    match find_from(s, q + 1, seq![s[q]]) {
                        Some(end) => {
                            lemma_one(s, end, s[q]);
                            let v = s.subrange(q + 1, end);
                            lemma_part_has_no(s, q + 1, end, '$');
                            assert(!v.contains(s[q])) by {
                                if v.contains(s[q]) {
                                    let i = choose|i: int| 0 <= i < v.len() && v[i] == s[q];
                                    lemma_one(s, q + 1 + i, s[q]);
                                    lemma_found_first(s, q + 1, seq![s[q]], q + 1 + i);
                                }
                            }
                        },
                        None => {},
                    }
                }
            }
        },
        Err(_) => {},
    }
}

proof fn lemma_attrs_tidy(s: Seq<char>, pos: int, acc: Seq<(Seq<char>, Seq<char>)>)
    requires
        without_dollars_or_includes(s),
        0 <= pos <= s.len(),
        tidy_attrs(acc),
    ensures
        match parse_attrs(s, pos, acc) {
            Ok((a, _, q)) => tidy_attrs(a) && pos < q <= s.len(),
            Err(_) => true,
        },
    decreases s.len() - pos,
{
    reveal_strlit("/>");
    reveal_strlit(">");
    lemma_skip_space(s, pos);
    let p = skip_space(s, pos);
    if !looking_at(s, p, "/>"@) && !looking_at(s, p, ">"@) {
        lemma_attr_tidy(s, p);
        match parse_attr(s, p) {
            Ok((k, v, q)) => {
                let more = acc.push((k, v));
                assert forall|i: int| 0 <= i < more.len() implies is_name((#[trigger] more[i]).0)
                    && tidy_value(more[i].1) by {
                    if i < acc.len() {
                        assert(more[i] == acc[i]);
                    }
                }
                if pos < q <= s.len() {
                    lemma_attrs_tidy(s, q, more);
                }
            },
            Err(_) => {},
        }
    }
}

proof fn lemma_element_tidy(s: Seq<char>, pos: int)
    requires
        without_dollars_or_includes(s),
        0 <= pos <= s.len(),
    ensures
        match parse_element(s, pos) {
            Ok((e, q)) => tidy_element(e) && pos < q <= s.len(),
            Err(_) => true,
        },
    decreases s.len() - pos, 0nat,
{
    reveal_strlit("<");
    reveal_strlit("$");
    if looking_at(s, pos, "<"@) && !looking_at(s, pos + 1, "$"@) {
        lemma_name_holds(s, pos + 1);
        match parse_name(s, pos + 1) {
            Ok(ne) => {
                let name = s.subrange(pos + 1, ne);
                assert forall|i: int| 0 <= i < name.len() implies is_name_char(
                    #[trigger] name[i],
                ) by {
                    assert(name[i] == s[pos + 1 + i]);
                }
                lemma_no_include(s, pos + 1, ne);
                lemma_attrs_tidy(s, ne, Seq::empty());
                match parse_attrs(s, ne, Seq::empty()) {
                    Ok((attrs, closed, p)) => {
                        if !closed && pos < p <= s.len() {
                            lemma_children_tidy(s, p, name, Seq::empty());
                        }
                    },
                    Err(_) => {},
                }
            },
            Err(_) => {},
        }
    }
}

proof fn lemma_piece_tidy(s: Seq<char>, pos: int, name: Seq<char>)
    requires
        without_dollars_or_includes(s),
        0 <= pos <= s.len(),
    ensures
        match parse_piece(s, pos, name) {
            Ok(Piece::Child(n, q)) => tidy_node(n),
            Ok(Piece::Close(q)) => pos < q <= s.len(),
            _ => true,
        },
    decreases s.len() - pos, 1nat,
{
    reveal_strlit("</");
    reveal_strlit("<");
    reveal_strlit(">");
    if pos < s.len() {
        if looking_at(s, pos, "</"@) {
            lemma_name_holds(s, pos + 2);
            lemma_skip_space(s, name_end(s, pos + 2));
        } else if looking_at(s, pos, "<!--"@) || looking_at(s, pos, "<![CDATA["@) || looking_at(
            s,
            pos,
            "<?"@,
        ) {
        } else if looking_at(s, pos, "<"@) {
            lemma_element_tidy(s, pos);
        } else {
            assert("<"@ =~= seq!['<']);
            lemma_find_from(s, pos, "<"@);
            let end = match find_from(s, pos, "<"@) {
                Some(i) => i,
                None => s.len() as int,
            };
            let t = s.subrange(pos, end);
            assert(end > pos);
            lemma_part_has_no(s, pos, end, '$');
            assert(!t.contains('<')) by {
                if t.contains('<') {
                    let i = choose|i: int| 0 <= i < t.len() && t[i] == '<';
                    lemma_one(s, pos + i, '<');
                    lemma_found_first(s, pos, "<"@, pos + i);
                }
            }
        }
    }
}

proof fn lemma_children_tidy(s: Seq<char>, pos: int, name: Seq<char>, acc: Seq<NodeV>)
    requires
        without_dollars_or_includes(s),
        0 <= pos <= s.len(),
        tidy_nodes(acc),
    ensures
        match parse_children(s, pos, name, acc) {
            Ok((c, q)) => tidy_nodes(c) && pos < q <= s.len(),
            Err(_) => true,
        },
    decreases s.len() - pos, 2nat,
{
    lemma_piece_tidy(s, pos, name);
    match parse_piece(s, pos, name) {
        Ok(Piece::Dropped(p)) => {
            if pos < p <= s.len() {
                lemma_children_tidy(s, p, name, acc);
            }
        },
        Ok(Piece::Child(n, p)) => {
            let more = acc.push(n);
            assert forall|i: int| 0 <= i < more.len() implies tidy_node(#[trigger] more[i]) by {
                if i < acc.len() {
                    assert(more[i] == acc[i]);
                }
            }
            if pos < p <= s.len() {
                lemma_children_tidy(s, p, name, more);
            }
        },
        _ => {},
    }
}

proof fn lemma_misc_within(s: Seq<char>, pos: int)
    requires
        0 <= pos <= s.len(),
    ensures
        match parse_misc(s, pos) {
            Ok(p) => 0 <= p <= s.len(),
            Err(_) => true,
        },
    decreases s.len() - pos,
{
    lemma_skip_space(s, pos);
    let p = skip_space(s, pos);
    let next = if looking_at(s, p, "<!--"@) {
        parse_until(s, p + "<!--"@.len(), "-->"@)
    } else if looking_at(s, p, "<?"@) {
        parse_until(s, p, "?>"@)
    } else if looking_at(s, p, "<!"@) {
        match find_from(s, p, ">"@) {
            None => Err(crate::xacro::xml::stuck()),
            Some(end) => Ok(end + 1),
        }
    } else {
        Ok(p)
    };
    match next {
        Ok(q) => {
            if pos < q <= s.len() && p < q {
                lemma_misc_within(s, q);
            }
        },
        Err(_) => {},
    }
}

pub proof fn lemma_document_tidy(s: Seq<char>)
    requires
        without_dollars_or_includes(s),
    ensures
        match parse_document(s) {
            Ok(e) => tidy_element(e),
            Err(_) => true,
        },
{
    reveal_strlit("\u{feff}");
    let start: int = if looking_at(s, 0, "\u{feff}"@) {
        "\u{feff}"@.len() as int
    } else {
        0
    };
    lemma_misc_within(s, start);
    match root_start(s) {
        Ok(p) => {
            lemma_element_tidy(s, p);
        },
        Err(_) => {},
    }
}

// ---- expansion keeps trees tidy ----

/// Every block argument and every macro body in scope is tidy.
pub open spec fn tidy_scope(s: ScopeV) -> bool {
    forall|name: Seq<char>| #[trigger]
        s.blocks.dom().contains(name) ==> tidy_nodes(s.blocks[name])
}

#[verifier::opaque]
pub open spec fn tidy_env(env: Env) -> bool {
    &&& env.scopes.len() >= 1
    &&& forall|i: int| 0 <= i < env.scopes.len() ==> tidy_scope(#[trigger] env.scopes[i])
    &&& forall|name: Seq<char>| #[trigger]
        env.macros.dom().contains(name) ==> tidy_nodes(env.macros[name].body)
}

proof fn lemma_tidy_concat(a: Seq<NodeV>, b: Seq<NodeV>)
    requires
        tidy_nodes(a),
        tidy_nodes(b),
    ensures
        tidy_nodes(a + b),
{
    let c = a + b;
    assert forall|i: int| 0 <= i < c.len() implies tidy_node(#[trigger] c[i]) by {
        if i < a.len() {
            assert(c[i] == a[i]);
        } else {
            assert(c[i] == b[i - a.len()]);
        }
    }
}

pub proof fn lemma_tidy_part(a: Seq<NodeV>, i: int, j: int)
    requires
        tidy_nodes(a),
        0 <= i <= j <= a.len(),
    ensures
        tidy_nodes(a.subrange(i, j)),
{
    let c = a.subrange(i, j);
    assert forall|k: int| 0 <= k < c.len() implies tidy_node(#[trigger] c[k]) by {
        assert(c[k] == a[i + k]);
    }
}

/// Values without `$` stay as they are.
pub proof fn lemma_attrs_stay(
    attrs: Seq<(Seq<char>, Seq<char>)>,
    skip: Option<Seq<char>>,
    cx: Ctx,
    scopes: Seq<ScopeV>,
)
    requires
        tidy_attrs(attrs),
    ensures
        subst_attrs(attrs, skip, cx, scopes) matches Ok(a) && tidy_attrs(a),
        (forall|i: int| 0 <= i < attrs.len() ==> skip != Some((#[trigger] attrs[i]).0))
            ==> subst_attrs(attrs, skip, cx, scopes) == Ok::<_, HaltV>(attrs),
    decreases attrs.len(),
{
    if attrs.len() > 0 {
        let front = attrs.drop_last();
        assert forall|i: int| 0 <= i < front.len() implies is_name((#[trigger] front[i]).0)
            && tidy_value(front[i].1) by {
            assert(front[i] == attrs[i]);
        }
        lemma_attrs_stay(front, skip, cx, scopes);
        let last = attrs[attrs.len() - 1];
        assert(is_name(last.0) && tidy_value(last.1));
        law_plain_text_unchanged(last.1, cx.dir, scopes, cx.w);
        if forall|i: int| 0 <= i < attrs.len() ==> skip != Some((#[trigger] attrs[i]).0) {
            assert forall|i: int| 0 <= i < front.len() implies skip != Some(
                (#[trigger] front[i]).0,
            ) by {
                assert(front[i] == attrs[i]);
            }
            assert(skip != Some(last.0));
            assert(front.push((last.0, last.1)) =~= attrs);
        }
    } else {
        assert(attrs =~= Seq::<(Seq<char>, Seq<char>)>::empty());
    }
}

proof fn lemma_solid_tidy(nodes: Seq<NodeV>)
    requires
        tidy_nodes(nodes),
    ensures
        tidy_nodes(solid(nodes)),
    decreases nodes.len(),
{
    if nodes.len() > 0 {
        let front = nodes.drop_last();
        lemma_tidy_part(nodes, 0, nodes.len() - 1);
        assert(front =~= nodes.subrange(0, nodes.len() - 1));
        lemma_solid_tidy(front);
        assert(tidy_node(nodes[nodes.len() - 1]));
        let s = solid(front).push(nodes.last());
        assert forall|i: int| 0 <= i < s.len() implies tidy_node(#[trigger] s[i]) by {
            if i < solid(front).len() {
                assert(s[i] == solid(front)[i]);
            }
        }
    }
}

proof fn lemma_call_tidy(name: Seq<char>, mac: MacroV, k: nat, call: ElementV, cx: Ctx, env: Env)
    requires
        tidy_nodes(call.children),
        k <= mac.params.len(),
    ensures
        match bind_params(name, mac, k, call, cx, env) {
            Ok(b) => tidy_scope(b.scope),
            Err(_) => true,
        },
    decreases k,
{
    if k > 0 {
        lemma_call_tidy(name, mac, (k - 1) as nat, call, cx, env);
        lemma_solid_tidy(call.children);
        let args = solid(call.children);
        match bind_params(name, mac, (k - 1) as nat, call, cx, env) {
            Ok(b) => {
                let p = mac.params[k - 1];
                if p.block {
                    match bind_block(name, p, args, b) {
                        Ok(c) => {
                            assert(tidy_node(args[b.next as int]));
                            let one = seq![args[b.next as int]];
                            assert(tidy_nodes(one));
                            assert forall|n: Seq<char>| #[trigger]
                                c.scope.blocks.dom().contains(n) implies tidy_nodes(
                                c.scope.blocks[n],
                            ) by {
                                if n != p.name {
                                    assert(b.scope.blocks.dom().contains(n));
                                }
                            }
                        },
                        Err(_) => {},
                    }
                } else {
                    match bind_value(name, p, call, b, cx, env) {
                        Ok(c) => {
                            assert(c.scope.blocks == b.scope.blocks);
                        },
                        Err(_) => {},
                    }
                }
            },
            Err(_) => {},
        }
    }
}

proof fn lemma_block_tidy(scopes: Seq<ScopeV>, name: Seq<char>)
    requires
        forall|i: int| 0 <= i < scopes.len() ==> tidy_scope(#[trigger] scopes[i]),
    ensures
        match lookup_block(scopes, name) {
            Some(nodes) => tidy_nodes(nodes),
            None => true,
        },
    decreases scopes.len(),
{
    if scopes.len() > 0 {
        let front = scopes.drop_last();
        assert forall|i: int| 0 <= i < front.len() implies tidy_scope(#[trigger] front[i]) by {
            assert(front[i] == scopes[i]);
        }
        lemma_block_tidy(front, name);
        assert(tidy_scope(scopes[scopes.len() - 1]));
    }
}

pub proof fn lemma_nodes_stay_tidy(nodes: Seq<NodeV>, cx: Ctx, env: Env)
    requires
        tidy_nodes(nodes),
        tidy_env(env),
    ensures
        match expand_nodes(nodes, cx, env) {
            Ok((out, end)) => tidy_nodes(out) && tidy_env(end),
            Err(_) => true,
        },
    decreases MAX_DEPTH - cx.depth, usize::MAX - cx.blocks, nodes, 0nat,
{
    if nodes.len() > 0 {
        let front = nodes.subrange(0, nodes.len() - 1);
        lemma_tidy_part(nodes, 0, nodes.len() - 1);
        lemma_nodes_stay_tidy(front, cx, env);
        match expand_nodes(front, cx, env) {
            Err(_) => {},
            Ok((head, mid)) => {
                let n = nodes[nodes.len() - 1];
                assert(tidy_node(n));
                lemma_node_stays_tidy(n, cx, mid);
                match expand_node(n, cx, mid) {
                    Err(_) => {},
                    Ok((tail, end)) => {
                        lemma_tidy_concat(head, tail);
                    },
                }
            },
        }
    }
}

proof fn lemma_node_stays_tidy(n: NodeV, cx: Ctx, env: Env)
    requires
        tidy_node(n),
        tidy_env(env),
    ensures
        match expand_node(n, cx, env) {
            Ok((out, end)) => tidy_nodes(out) && tidy_env(end),
            Err(_) => true,
        },
    decreases MAX_DEPTH - cx.depth, usize::MAX - cx.blocks, n, 0nat,
{
    match n {
        NodeV::Text(t) => {
            law_plain_text_unchanged(t, cx.dir, env.scopes, cx.w);
            let one = seq![NodeV::Text(t)];
            assert(tidy_nodes(one)) by {
                assert(tidy_node(one[0]));
            }
        },
        NodeV::Element(e) => {
            lemma_element_stays_tidy(e, cx, env);
        },
    }
}

proof fn lemma_element_stays_tidy(e: ElementV, cx: Ctx, env: Env)
    requires
        tidy_element(e),
        tidy_env(env),
    ensures
        match expand_element(e, cx, env) {
            Ok((out, end)) => tidy_nodes(out) && tidy_env(end),
            Err(_) => true,
        },
    decreases MAX_DEPTH - cx.depth, usize::MAX - cx.blocks, e, 1nat,
{
    reveal(tidy_env);
    if !looking_at(e.name, 0, "xacro:"@) {
        lemma_attrs_stay(e.attrs, None, cx, env.scopes);
        lemma_nodes_stay_tidy(e.children, cx, env);
        match expand_element(e, cx, env) {
            Ok((out, _)) => {
                assert(out.len() == 1);
                assert(tidy_node(out[0]));
            },
            Err(_) => {},
        }
    } else {
        let tag = e.name.subrange(6, e.name.len() as int);
        if tag == "property"@ {
            match property_rule(e, cx, env) {
                Ok(end) => {
                    assert forall|i: int| 0 <= i < end.scopes.len() implies tidy_scope(
                        #[trigger] end.scopes[i],
                    ) by {
                        assert(tidy_scope(env.scopes[i]));
                        assert(end.scopes[i].blocks == env.scopes[i].blocks);
                    }
                },
                Err(_) => {},
            }
        } else if tag == "macro"@ {
            match macro_rule(e, cx, env) {
                Ok(end) => {
                    assert(tidy_env(end));
                },
                Err(_) => {},
            }
        } else if tag == "include"@ {
            lemma_is_include(e.name);
        } else if tag == "if"@ || tag == "unless"@ {
            lemma_nodes_stay_tidy(e.children, cx, env);
        } else if tag == "insert_block"@ {
            match block_rule(e, env) {
                Ok(nodes) => {
                    if cx.blocks + 1 <= usize::MAX {
                        match crate::xacro::xml::attr_value(e.attrs, "name"@) {
                            Some(name) => {
                                lemma_block_tidy(env.scopes, name);
                            },
                            None => {},
                        }
                        lemma_nodes_stay_tidy(nodes, Ctx { blocks: cx.blocks + 1, ..cx }, env);
                    }
                },
                Err(_) => {},
            }
        } else if env.macros.dom().contains(tag) && !(tag == "arg"@ || tag == "element"@ || tag
            == "attribute"@ || tag == "loop"@) {
            let mac = env.macros[tag];
            if cx.depth + 1 <= MAX_DEPTH {
                match call_rule(tag, mac, e, cx, env) {
                    Ok(scope) => {
                        let dir = match mac.dir {
                            Some(d) => Some(d),
                            None => cx.dir,
                        };
                        lemma_call_tidy(tag, mac, mac.params.len(), e, cx, env);
                        let inner = Env { scopes: env.scopes.push(scope), macros: env.macros };
                        assert forall|i: int| 0 <= i < inner.scopes.len() implies tidy_scope(
                            #[trigger] inner.scopes[i],
                        ) by {
                            if i < env.scopes.len() {
                                assert(inner.scopes[i] == env.scopes[i]);
                            }
                        }
                        let at = inside_call(cx, dir);
                        lemma_nodes_stay_tidy(mac.body, at, inner);
                        law_calls_leave_scopes_alone(tag, mac, e, cx, env);
                    },
                    Err(_) => {},
                }
            }
        }
    }
}

proof fn lemma_is_include(name: Seq<char>)
    requires
        looking_at(name, 0, "xacro:"@),
        name.subrange(6, name.len() as int) == "include"@,
    ensures
        name == "xacro:include"@,
{
    reveal_strlit("xacro:");
    reveal_strlit("include");
    reveal_strlit("xacro:include");
    assert(name =~= name.subrange(0, 6) + name.subrange(6, name.len() as int));
    assert("xacro:include"@ =~= "xacro:"@ + "include"@);
}

} // verus!
