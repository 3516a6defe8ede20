//! What holds of every expansion.

use vstd::prelude::*;

#[allow(unused_imports)]
use crate::text::{find_from, looking_at, skip_space};
#[allow(unused_imports)]
use crate::xacro::env::{lookup, Env, MacroV, ScopeV};
#[allow(unused_imports)]
use crate::xacro::error::Fault;
#[allow(unused_imports)]
use crate::xacro::rules::{
    expand_call, expand_element, expand_node, expand_nodes, expand_root, fresh_env, subst_attrs,
    inside_call, with_prop, Ctx, MAX_DEPTH,
};
#[allow(unused_imports)]
use crate::xacro::world::{HaltV, WorldV};
#[allow(unused_imports)]
use crate::xacro::write::{quoted, quotes_escaped};
#[allow(unused_imports)]
use crate::xacro::xml::{is_name_char, name_end, parse_attr, ElementV, NodeV};

verus! {

/// No element of the xacro namespace, at any depth.
pub open spec fn plain_nodes(nodes: Seq<NodeV>) -> bool
    decreases nodes,
{
    forall|i: int| 0 <= i < nodes.len() ==> plain_node(#[trigger] nodes[i])
}

pub open spec fn plain_node(n: NodeV) -> bool
    decreases n,
{
    match n {
        NodeV::Text(_) => true,
        NodeV::Element(e) => !looking_at(e.name, 0, "xacro:"@) && plain_nodes(e.children),
    }
}

proof fn lemma_plain_concat(a: Seq<NodeV>, b: Seq<NodeV>)
    requires
        plain_nodes(a),
        plain_nodes(b),
    ensures
        plain_nodes(a + b),
{
    let c = a + b;
    assert forall|i: int| 0 <= i < c.len() implies plain_node(#[trigger] c[i]) by {
        if i < a.len() {
            assert(c[i] == a[i]);
        } else {
            assert(c[i] == b[i - a.len()]);
        }
    }
}

proof fn lemma_nodes_plain(nodes: Seq<NodeV>, cx: Ctx, env: Env)
    ensures
        match expand_nodes(nodes, cx, env) {
            Ok((out, _)) => plain_nodes(out),
            Err(_) => true,
        },
    decreases MAX_DEPTH - cx.depth, usize::MAX - cx.blocks, nodes, 0nat,
{
    if nodes.len() > 0 {
        let front = nodes.subrange(0, nodes.len() - 1);
        lemma_nodes_plain(front, cx, env);
        match expand_nodes(front, cx, env) {
            Err(_) => {},
            Ok((head, mid)) => {
                let n = nodes[nodes.len() - 1];
                match n {
                    NodeV::Text(t) => {},
                    NodeV::Element(e) => {
                        lemma_element_plain(e, cx, mid);
                    },
                }
                match expand_node(n, cx, mid) {
                    Err(_) => {},
                    Ok((tail, end)) => {
                        assert(plain_nodes(tail)) by {
                            match n {
                                NodeV::Text(t) => {
                                    assert(tail.len() == 1);
                                },
                                NodeV::Element(e) => {},
                            }
                        }
                        lemma_plain_concat(head, tail);
                    },
                }
            },
        }
    }
}

proof fn lemma_element_plain(e: ElementV, cx: Ctx, env: Env)
    ensures
        match expand_element(e, cx, env) {
            Ok((out, _)) => plain_nodes(out),
            Err(_) => true,
        },
    decreases MAX_DEPTH - cx.depth, usize::MAX - cx.blocks, e, 1nat,
{
    if !looking_at(e.name, 0, "xacro:"@) {
        lemma_nodes_plain(e.children, cx, env);
        match expand_element(e, cx, env) {
            Ok((out, _)) => {
                assert(out.len() == 1);
                assert(plain_node(out[0]));
            },
            Err(_) => {},
        }
    } else {
        let tag = e.name.subrange(6, e.name.len() as int);
        if tag == "property"@ || tag == "macro"@ {
        } else if tag == "include"@ {
            match crate::xacro::rules::file_rule(e, cx, env) {
                Ok((f, root, dir)) => {
                    if cx.depth + 1 <= MAX_DEPTH {
                        lemma_nodes_plain(
                            root.children,
                            Ctx { dir, depth: cx.depth + 1, ..cx },
                            env,
                        );
                    }
                },
                Err(_) => {},
            }
        } else if tag == "if"@ || tag == "unless"@ {
            lemma_nodes_plain(e.children, cx, env);
        } else if tag == "insert_block"@ {
            match crate::xacro::rules::block_rule(e, env) {
                Ok(nodes) => {
                    if cx.blocks + 1 <= usize::MAX {
                        lemma_nodes_plain(nodes, Ctx { blocks: cx.blocks + 1, ..cx }, env);
                    }
                },
                Err(_) => {},
            }
        } else if env.macros.dom().contains(tag) && !(tag == "arg"@ || tag == "element"@ || tag
            == "attribute"@ || tag == "loop"@) {
            let mac = env.macros[tag];
            if cx.depth + 1 <= MAX_DEPTH {
                match crate::xacro::rules::call_rule(tag, mac, e, cx, env) {
                    Ok(scope) => {
                        let dir = match mac.dir {
                            Some(d) => Some(d),
                            None => cx.dir,
                        };
                        lemma_nodes_plain(
                            mac.body,
                            inside_call(cx, dir),
                            Env { scopes: env.scopes.push(scope), macros: env.macros },
                        );
                    },
                    Err(_) => {},
                }
            }
        }
    }
}

/// Whatever expands, expands to plain URDF: no xacro element is left below the
/// root, at any depth.
pub proof fn law_output_is_plain(text: Seq<char>, dir: Option<Seq<char>>, w: WorldV)
    ensures
        match expand_root(text, dir, w) {
            Ok(e) => plain_nodes(e.children),
            Err(_) => true,
        },
{
    match crate::xacro::xml::parse_document(text) {
        Ok(root) => {
            lemma_nodes_plain(root.children, Ctx { dir, depth: 0, blocks: 0, w }, fresh_env());
        },
        Err(_) => {},
    }
}

/// The declaration of the xacro namespace does not reach the output.
pub proof fn law_namespace_is_consumed(text: Seq<char>, dir: Option<Seq<char>>, w: WorldV)
    ensures
        match expand_root(text, dir, w) {
            Ok(e) => forall|i: int|
                0 <= i < e.attrs.len() ==> (#[trigger] e.attrs[i]).0 != "xmlns:xacro"@,
            Err(_) => true,
        },
{
    let cx = Ctx { dir, depth: 0, blocks: 0, w };
    match crate::xacro::xml::parse_document(text) {
        Ok(root) => match expand_nodes(root.children, cx, fresh_env()) {
            Ok((_, end)) => {
                lemma_skipped(root.attrs, "xmlns:xacro"@, cx, end.scopes);
            },
            Err(_) => {},
        },
        Err(_) => {},
    }
}

proof fn lemma_skipped(
    attrs: Seq<(Seq<char>, Seq<char>)>,
    skip: Seq<char>,
    cx: Ctx,
    scopes: Seq<ScopeV>,
)
    ensures
        match subst_attrs(attrs, Some(skip), cx, scopes) {
            Ok(a) => forall|i: int| 0 <= i < a.len() ==> (#[trigger] a[i]).0 != skip,
            Err(_) => true,
        },
    decreases attrs.len(),
{
    if attrs.len() > 0 {
        lemma_skipped(attrs.drop_last(), skip, cx, scopes);
    }
}

/// A property is seen from its definition on, until the innermost scope that
/// holds it sets it again; the others keep their values.
pub proof fn law_property_shadows(env: Env, name: Seq<char>, value: Seq<char>, other: Seq<char>)
    requires
        env.scopes.len() >= 1,
    ensures
        lookup(with_prop(env, name, value).scopes, name) == Some(value),
        other != name ==> lookup(with_prop(env, name, value).scopes, other) == lookup(
            env.scopes,
            other,
        ),
{
    let after = with_prop(env, name, value).scopes;
    assert(after.drop_last() =~= env.scopes.drop_last());
}

/// Macro calls nest at most to the cap: a call at the cap is refused, whatever
/// the macro holds.
pub proof fn law_calls_are_capped(name: Seq<char>, mac: MacroV, e: ElementV, cx: Ctx, env: Env)
    requires
        cx.depth >= MAX_DEPTH,
    ensures
        expand_call(name, mac, e, cx, env) == Err::<(Seq<NodeV>, Env), HaltV>(
            HaltV::Fault(Fault::Macro(name, "recursion depth exceeded (64)"@)),
        ),
{
}

/// The outer scopes of two environments are the same.
pub open spec fn same_outside(a: Env, b: Env) -> bool {
    &&& a.scopes.len() >= 1
    &&& b.scopes.len() == a.scopes.len()
    &&& b.scopes.drop_last() == a.scopes.drop_last()
}

proof fn lemma_nodes_outside(nodes: Seq<NodeV>, cx: Ctx, env: Env)
    requires
        env.scopes.len() >= 1,
    ensures
        match expand_nodes(nodes, cx, env) {
            Ok((_, end)) => same_outside(env, end),
            Err(_) => true,
        },
    decreases MAX_DEPTH - cx.depth, usize::MAX - cx.blocks, nodes, 0nat,
{
    if nodes.len() > 0 {
        let front = nodes.subrange(0, nodes.len() - 1);
        lemma_nodes_outside(front, cx, env);
        match expand_nodes(front, cx, env) {
            Err(_) => {},
            Ok((head, mid)) => {
                let n = nodes[nodes.len() - 1];
                match n {
                    NodeV::Text(t) => {},
                    NodeV::Element(e) => {
                        lemma_element_outside(e, cx, mid);
                    },
                }
                match expand_node(n, cx, mid) {
                    Err(_) => {},
                    Ok((tail, end)) => {
                        assert(same_outside(mid, end));
                        assert(same_outside(env, end));
                    },
                }
            },
        }
    }
}

proof fn lemma_element_outside(e: ElementV, cx: Ctx, env: Env)
    requires
        env.scopes.len() >= 1,
    ensures
        match expand_element(e, cx, env) {
            Ok((_, end)) => same_outside(env, end),
            Err(_) => true,
        },
    decreases MAX_DEPTH - cx.depth, usize::MAX - cx.blocks, e, 1nat,
{
    if !looking_at(e.name, 0, "xacro:"@) {
        lemma_nodes_outside(e.children, cx, env);
    } else {
        let tag = e.name.subrange(6, e.name.len() as int);
        if tag == "property"@ {
            match crate::xacro::rules::property_rule(e, cx, env) {
                Ok(end) => {
                    assert(end.scopes.drop_last() =~= env.scopes.drop_last());
                },
                Err(_) => {},
            }
        } else if tag == "macro"@ {
        } else if tag == "include"@ {
            match crate::xacro::rules::file_rule(e, cx, env) {
                Ok((f, root, dir)) => {
                    if cx.depth + 1 <= MAX_DEPTH {
                        lemma_nodes_outside(
                            root.children,
                            Ctx { dir, depth: cx.depth + 1, ..cx },
                            env,
                        );
                    }
                },
                Err(_) => {},
            }
        } else if tag == "if"@ || tag == "unless"@ {
            lemma_nodes_outside(e.children, cx, env);
        } else if tag == "insert_block"@ {
            match crate::xacro::rules::block_rule(e, env) {
                Ok(nodes) => {
                    if cx.blocks + 1 <= usize::MAX {
                        lemma_nodes_outside(nodes, Ctx { blocks: cx.blocks + 1, ..cx }, env);
                    }
                },
                Err(_) => {},
            }
        } else if env.macros.dom().contains(tag) && !(tag == "arg"@ || tag == "element"@ || tag
            == "attribute"@ || tag == "loop"@) {
            let mac = env.macros[tag];
            if cx.depth + 1 <= MAX_DEPTH {
                match crate::xacro::rules::call_rule(tag, mac, e, cx, env) {
                    Ok(scope) => {
                        let dir = match mac.dir {
                            Some(d) => Some(d),
                            None => cx.dir,
                        };
                        let inner = Env { scopes: env.scopes.push(scope), macros: env.macros };
                        lemma_nodes_outside(
                            mac.body,
                            inside_call(cx, dir),
                            inner,
                        );
                        assert(inner.scopes.drop_last() =~= env.scopes);
                    },
                    Err(_) => {},
                }
            }
        }
    }
}

/// A macro call leaves every scope of its caller as it was.
pub proof fn law_calls_leave_scopes_alone(
    name: Seq<char>,
    mac: MacroV,
    e: ElementV,
    cx: Ctx,
    env: Env,
)
    ensures
        match expand_call(name, mac, e, cx, env) {
            Ok((_, end)) => end.scopes == env.scopes,
            Err(_) => true,
        },
{
    if cx.depth + 1 <= MAX_DEPTH {
        match crate::xacro::rules::call_rule(name, mac, e, cx, env) {
            Ok(scope) => {
                let dir = match mac.dir {
                    Some(d) => Some(d),
                    None => cx.dir,
                };
                let inner = Env { scopes: env.scopes.push(scope), macros: env.macros };
                lemma_nodes_outside(mac.body, inside_call(cx, dir), inner);
                assert(inner.scopes.drop_last() =~= env.scopes);
            },
            Err(_) => {},
        }
    }
}

/// What stands in quotes after substitution: the value, with its double quotes
/// as entities where it holds both kinds.
pub open spec fn kept_value(v: Seq<char>) -> Seq<char> {
    if v.contains('"') && v.contains('\'') {
        quotes_escaped(v)
    } else {
        v
    }
}

/// A written attribute reads back: the same key, and the same value unless it
/// holds both kinds of quotes, when its double quotes come back as entities.
pub proof fn law_attribute_reads_back(key: Seq<char>, value: Seq<char>, tail: Seq<char>)
    requires
        key.len() > 0,
        forall|i: int| 0 <= i < key.len() ==> is_name_char(#[trigger] key[i]),
    ensures
        parse_attr(key + seq!['='] + quoted(value) + tail, 0) == Ok::<_, Fault>(
            (
                key,
                kept_value(value),
                (key.len() + 1 + quoted(value).len()) as int,
            ),
        ),
{
    let v = kept_value(value);
    let q = if !value.contains('"') || value.contains('\'') {
        '"'
    } else {
        '\''
    };
    assert(!v.contains(q)) by {
        if value.contains('"') && value.contains('\'') {
            lemma_escaped_has_no_quote(value);
        }
    }
    let s = key + seq!['='] + quoted(value) + tail;
    let n = key.len() as int;
    assert(quoted(value) =~= seq![q] + v + seq![q]);
    assert(s[n] == '=');
    assert(s[n + 1] == q);
    assert forall|i: int| 0 <= i < n implies is_name_char(#[trigger] s[i]) by {
        assert(s[i] == key[i]);
    }
    lemma_name_end(s, 0, n);
    reveal_strlit("=");
    assert(s.subrange(n, n + 1) =~= "="@);
    assert(s.subrange(0, n) =~= key);
    assert(skip_space(s, n) == n);
    assert(skip_space(s, n + 1) == n + 1);
    let end = n + 2 + v.len();
    assert(s[end] == q);
    assert forall|i: int| n + 2 <= i < end implies s[i] != q by {
        assert(s[i] == v[i - n - 2]);
    }
    lemma_find_char(s, n + 2, end, q);
    assert(s.subrange(n + 2, end) =~= v);
}

proof fn lemma_name_end(s: Seq<char>, pos: int, n: int)
    requires
        0 <= pos <= n < s.len(),
        forall|i: int| pos <= i < n ==> is_name_char(#[trigger] s[i]),
        s[n] == '=',
    ensures
        name_end(s, pos) == n,
    decreases n - pos,
{
    if pos < n {
        assert(is_name_char(s[pos]));
        lemma_name_end(s, pos + 1, n);
    }
}

proof fn lemma_find_char(s: Seq<char>, from: int, end: int, c: char)
    requires
        0 <= from <= end < s.len(),
        s[end] == c,
        forall|i: int| from <= i < end ==> s[i] != c,
    ensures
        find_from(s, from, seq![c]) == Some(end),
    decreases end - from,
{
    if from < end {
        assert(!looking_at(s, from, seq![c])) by {
            if looking_at(s, from, seq![c]) {
                assert(s.subrange(from, from + 1)[0] == c);
            }
        }
        lemma_find_char(s, from + 1, end, c);
    } else {
        assert(s.subrange(from, from + 1) =~= seq![c]);
    }
}

proof fn lemma_escaped_has_no_quote(v: Seq<char>)
    ensures
        !quotes_escaped(v).contains('"'),
    decreases v.len(),
{
    if v.len() > 0 {
        lemma_escaped_has_no_quote(v.drop_last());
        let front = quotes_escaped(v.drop_last());
        reveal_strlit("&quot;");
        let all = quotes_escaped(v);
        assert forall|i: int| 0 <= i < all.len() implies all[i] != '"' by {
            if i < front.len() {
                assert(all[i] == front[i]);
                assert(front.contains(front[i]));
            }
        }
    }
}

} // verus!
