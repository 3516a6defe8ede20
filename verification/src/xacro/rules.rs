//! What each xacro construct means.

use vstd::prelude::*;

#[allow(unused_imports)]
use crate::text::{find_from, looking_at, trimmed, words};
#[allow(unused_imports)]
use crate::xacro::env::{lookup_block, Env, MacroV, ParamV, ScopeV};
#[allow(unused_imports)]
use crate::xacro::error::{fault_text, Fault};
#[allow(unused_imports)]
use crate::xacro::subst::subst_text;
#[allow(unused_imports)]
use crate::xacro::world::{FileReplyV, HaltV, WorldV};
#[allow(unused_imports)]
use crate::xacro::write::written_element;
#[allow(unused_imports)]
use crate::xacro::xml::{attr_value, parse_document, ElementV, NodeV};

verus! {

/// Depth cap shared by macro instantiation and file splicing: recursive macros
/// and cycles end in an error.
pub const MAX_DEPTH: usize = 64;

/// Where an expansion stands: the directory of the text, how deep it is nested, how many
/// block arguments are being spliced inside one another since the last call, and what is
/// known of the outside.
pub struct Ctx {
    pub dir: Option<Seq<char>>,
    pub depth: nat,
    pub blocks: nat,
    pub w: WorldV,
}

pub open spec fn unsupported<T>(construct: Seq<char>, detail: Seq<char>) -> Result<T, HaltV> {
    Err(HaltV::Fault(Fault::Unsupported { construct, detail }))
}

pub open spec fn macro_fault<T>(name: Seq<char>, msg: Seq<char>) -> Result<T, HaltV> {
    Err(HaltV::Fault(Fault::Macro(name, msg)))
}

pub open spec fn is_blank(n: NodeV) -> bool {
    match n {
        NodeV::Text(t) => trimmed(t).len() == 0,
        NodeV::Element(_) => false,
    }
}

/// The nodes that are not blank text, in order.
pub open spec fn solid(nodes: Seq<NodeV>) -> Seq<NodeV>
    decreases nodes.len(),
{
    if nodes.len() == 0 {
        Seq::empty()
    } else if is_blank(nodes.last()) {
        solid(nodes.drop_last())
    } else {
        solid(nodes.drop_last()).push(nodes.last())
    }
}

/// `attrs` with their values substituted; `skip` is left out.
pub open spec fn subst_attrs(
    attrs: Seq<(Seq<char>, Seq<char>)>,
    skip: Option<Seq<char>>,
    cx: Ctx,
    scopes: Seq<ScopeV>,
) -> Result<Seq<(Seq<char>, Seq<char>)>, HaltV>
    decreases attrs.len(),
{
    if attrs.len() == 0 {
        Ok(Seq::empty())
    } else {
        match subst_attrs(attrs.drop_last(), skip, cx, scopes) {
            Err(h) => Err(h),
            Ok(head) => if skip == Some(attrs.last().0) {
                Ok(head)
            } else {
                match subst_text(attrs.last().1, cx.dir, scopes, cx.w) {
                    Err(h) => Err(h),
                    Ok(v) => Ok(head.push((attrs.last().0, v))),
                }
            },
        }
    }
}

/// `env` with a property set in the innermost scope.
pub open spec fn with_prop(env: Env, name: Seq<char>, value: Seq<char>) -> Env {
    let top = env.scopes.last();
    Env {
        scopes: env.scopes.update(
            env.scopes.len() - 1,
            ScopeV { props: top.props.insert(name, value), blocks: top.blocks },
        ),
        macros: env.macros,
    }
}

/// `<xacro:property name=.. value=../>`: evaluated where it is defined.
pub open spec fn property_rule(e: ElementV, cx: Ctx, env: Env) -> Result<Env, HaltV> {
    match attr_value(e.attrs, "name"@) {
        None => Err(HaltV::Fault(Fault::Xml("<xacro:property> without name="@))),
        Some(name) => if attr_value(e.attrs, "scope"@) is Some || attr_value(
            e.attrs,
            "default"@,
        ) is Some || solid(e.children).len() > 0 {
            unsupported(
                "<xacro:property>"@,
                "property `"@ + name
                    + "` uses scope=/default=/block form; only `<xacro:property name=.. value=../>` is supported"@,
            )
        } else {
            match attr_value(e.attrs, "value"@) {
                None => Err(
                    HaltV::Fault(
                        Fault::Xml("<xacro:property name=\""@ + name + "\"> without value="@),
                    ),
                ),
                Some(raw) => match subst_text(raw, cx.dir, env.scopes, cx.w) {
                    Err(h) => Err(h),
                    Ok(v) => Ok(with_prop(env, name, v)),
                },
            }
        },
    }
}

/// `d` without single quotes at its ends.
pub open spec fn unquoted(d: Seq<char>) -> Seq<char>
    decreases d.len(),
{
    if d.len() > 0 && d[0] == '\'' {
        unquoted(d.subrange(1, d.len() as int))
    } else if d.len() > 0 && d.last() == '\'' {
        unquoted(d.drop_last())
    } else {
        d
    }
}

/// One word of a parameter list: `*block`, `name:=default` or `name`.
pub open spec fn param_rule(tok: Seq<char>) -> Result<ParamV, HaltV> {
    let named = "macro param `"@ + tok + "`"@;
    let forwarding = "`^` caller-property forwarding is not supported"@;
    if tok.len() > 0 && tok[0] == '*' {
        Ok(ParamV { name: tok.subrange(1, tok.len() as int), default: None, block: true })
    } else {
        match find_from(tok, 0, ":="@) {
            Some(i) => {
                let d = tok.subrange(i + 2, tok.len() as int);
                if d.len() > 0 && d[0] == '^' {
                    unsupported(named, forwarding)
                } else if d.len() > 0 && d[0] == '\'' && (d.len() < 2 || d.last() != '\'') {
                    unsupported(named, "quoted defaults containing spaces are not supported"@)
                } else {
                    Ok(
                        ParamV {
                            name: tok.subrange(0, i),
                            default: Some(unquoted(d)),
                            block: false,
                        },
                    )
                }
            },
            None => if tok.len() > 0 && tok[0] == '^' {
                unsupported(named, forwarding)
            } else {
                Ok(ParamV { name: tok, default: None, block: false })
            },
        }
    }
}

pub open spec fn params_rule(toks: Seq<Seq<char>>) -> Result<Seq<ParamV>, HaltV>
    decreases toks.len(),
{
    if toks.len() == 0 {
        Ok(Seq::empty())
    } else {
        match params_rule(toks.drop_last()) {
            Err(h) => Err(h),
            Ok(head) => match param_rule(toks.last()) {
                Err(h) => Err(h),
                Ok(p) => Ok(head.push(p)),
            },
        }
    }
}

/// `<xacro:macro name=.. params=..>`: the body is kept raw.
pub open spec fn macro_rule(e: ElementV, cx: Ctx, env: Env) -> Result<Env, HaltV> {
    match attr_value(e.attrs, "name"@) {
        None => Err(HaltV::Fault(Fault::Xml("<xacro:macro> without name="@))),
        Some(name) => {
            let list = match attr_value(e.attrs, "params"@) {
                Some(p) => p,
                None => ""@,
            };
            match params_rule(words(list)) {
                Err(h) => Err(h),
                Ok(params) => Ok(
                    Env {
                        scopes: env.scopes,
                        macros: env.macros.insert(
                            name,
                            MacroV { params, body: e.children, dir: cx.dir },
                        ),
                    },
                ),
            }
        },
    }
}

/// The substituted value of a condition, as a truth value: exactly one of four words.
pub open spec fn truth(v: Seq<char>) -> Result<bool, HaltV> {
    if v == "true"@ || v == "1"@ {
        Ok(true)
    } else if v == "false"@ || v == "0"@ {
        Ok(false)
    } else {
        Err(HaltV::Fault(Fault::Condition(v)))
    }
}

/// The condition of an `if` or `unless`.
pub open spec fn condition_rule(e: ElementV, cx: Ctx, env: Env) -> Result<bool, HaltV> {
    match attr_value(e.attrs, "value"@) {
        None => Err(HaltV::Fault(Fault::Xml("<xacro:if>/<xacro:unless> without value="@))),
        Some(raw) => match subst_text(raw, cx.dir, env.scopes, cx.w) {
            Err(h) => Err(h),
            Ok(v) => truth(v),
        },
    }
}

/// The block that an `insert_block` names.
pub open spec fn block_rule(e: ElementV, env: Env) -> Result<Seq<NodeV>, HaltV> {
    match attr_value(e.attrs, "name"@) {
        None => Err(HaltV::Fault(Fault::Xml("<xacro:insert_block> without name="@))),
        Some(name) => match lookup_block(env.scopes, name) {
            Some(nodes) => Ok(nodes),
            None => macro_fault(
                name,
                "<xacro:insert_block>: no such block parameter in scope"@,
            ),
        },
    }
}

/// The file that an include names: its root element and its directory.
pub open spec fn file_rule(e: ElementV, cx: Ctx, env: Env) -> Result<
    (Seq<char>, ElementV, Option<Seq<char>>),
    HaltV,
> {
    if attr_value(e.attrs, "ns"@) is Some {
        unsupported("<xacro:include ns=..>"@, "namespaced includes are not supported"@)
    } else {
        match attr_value(e.attrs, "filename"@) {
            None => Err(HaltV::Fault(Fault::Xml("<xacro:include> without filename="@))),
            Some(raw) => match subst_text(raw, cx.dir, env.scopes, cx.w) {
                Err(h) => Err(h),
                Ok(f) => if !cx.w.files.dom().contains((f, cx.dir)) {
                    Err(HaltV::NeedFile { name: f, dir: cx.dir })
                } else {
                    match cx.w.files[(f, cx.dir)] {
                        FileReplyV::Failed(m) => Err(HaltV::Fault(Fault::Include(f, m))),
                        FileReplyV::Text { text, dir } => match parse_document(text) {
                            Err(p) => Err(HaltV::Fault(Fault::Include(f, fault_text(p)))),
                            Ok(root) => Ok((f, root, dir)),
                        },
                    }
                },
            },
        }
    }
}

/// Position of the first attribute named `key`, from `from` on.
pub open spec fn attr_position(
    attrs: Seq<(Seq<char>, Seq<char>)>,
    key: Seq<char>,
    from: int,
) -> Option<int>
    decreases attrs.len() - from,
{
    if from < 0 || from >= attrs.len() {
        None
    } else if attrs[from].0 == key {
        Some(from)
    } else {
        attr_position(attrs, key, from + 1)
    }
}

/// What a call has bound so far: the new scope, the attributes used, and how
/// many block arguments.
pub struct Binding {
    pub scope: ScopeV,
    pub used: Seq<bool>,
    pub next: nat,
}

pub open spec fn bind_block(
    name: Seq<char>,
    p: ParamV,
    args: Seq<NodeV>,
    b: Binding,
) -> Result<Binding, HaltV> {
    if b.next >= args.len() {
        macro_fault(name, "missing block argument `*"@ + p.name + "`"@)
    } else {
        match args[b.next as int] {
            NodeV::Text(_) => macro_fault(
                name,
                "block argument `*"@ + p.name + "` must be an element, not text"@,
            ),
            NodeV::Element(e) => Ok(
                Binding {
                    scope: ScopeV {
                        props: b.scope.props,
                        blocks: b.scope.blocks.insert(p.name, seq![NodeV::Element(e)]),
                    },
                    used: b.used,
                    next: b.next + 1,
                },
            ),
        }
    }
}

pub open spec fn bind_value(
    name: Seq<char>,
    p: ParamV,
    call: ElementV,
    b: Binding,
    cx: Ctx,
    env: Env,
) -> Result<Binding, HaltV> {
    let at = attr_position(call.attrs, p.name, 0);
    let raw = match at {
        Some(i) => Some(call.attrs[i].1),
        None => p.default,
    };
    match raw {
        None => macro_fault(name, "missing required parameter `"@ + p.name + "`"@),
        Some(r) => match subst_text(r, cx.dir, env.scopes, cx.w) {
            Err(h) => Err(h),
            Ok(v) => Ok(
                Binding {
                    scope: ScopeV {
                        props: b.scope.props.insert(p.name, v),
                        blocks: b.scope.blocks,
                    },
                    used: match at {
                        Some(i) => b.used.update(i, true),
                        None => b.used,
                    },
                    next: b.next,
                },
            ),
        },
    }
}

/// The first `k` parameters, bound in order.
pub open spec fn bind_params(
    name: Seq<char>,
    mac: MacroV,
    k: nat,
    call: ElementV,
    cx: Ctx,
    env: Env,
) -> Result<Binding, HaltV>
    decreases k,
{
    if k == 0 {
        Ok(
            Binding {
                scope: ScopeV { props: Map::empty(), blocks: Map::empty() },
                used: Seq::new(call.attrs.len(), |i: int| false),
                next: 0,
            },
        )
    } else {
        match bind_params(name, mac, (k - 1) as nat, call, cx, env) {
            Err(h) => Err(h),
            Ok(b) => if mac.params[k - 1].block {
                bind_block(name, mac.params[k - 1], solid(call.children), b)
            } else {
                bind_value(name, mac.params[k - 1], call, b, cx, env)
            },
        }
    }
}

/// First position from `from` on that holds `false`.
pub open spec fn first_unused(used: Seq<bool>, from: int) -> Option<int>
    decreases used.len() - from,
{
    if from < 0 || from >= used.len() {
        None
    } else if !used[from] {
        Some(from)
    } else {
        first_unused(used, from + 1)
    }
}

/// The scope of a macro call, evaluated in the caller's scopes.
pub open spec fn call_rule(
    name: Seq<char>,
    mac: MacroV,
    call: ElementV,
    cx: Ctx,
    env: Env,
) -> Result<ScopeV, HaltV> {
    match bind_params(name, mac, mac.params.len(), call, cx, env) {
        Err(h) => Err(h),
        Ok(b) => match first_unused(b.used, 0) {
            Some(i) => macro_fault(name, "unexpected attribute `"@ + call.attrs[i].0 + "`"@),
            None => if b.next < solid(call.children).len() {
                macro_fault(name, "more child elements than `*` block parameters"@)
            } else {
                Ok(b.scope)
            },
        },
    }
}

/// The expansion of some nodes, left to right, and the environment behind them.
pub open spec fn expand_nodes(nodes: Seq<NodeV>, cx: Ctx, env: Env) -> Result<
    (Seq<NodeV>, Env),
    HaltV,
>
    decreases MAX_DEPTH - cx.depth, usize::MAX - cx.blocks, nodes, 0nat,
{
    if nodes.len() == 0 {
        Ok((Seq::empty(), env))
    } else {
        match expand_nodes(nodes.subrange(0, nodes.len() - 1), cx, env) {
            Err(h) => Err(h),
            Ok((head, mid)) => match expand_node(nodes[nodes.len() - 1], cx, mid) {
                Err(h) => Err(h),
                Ok((tail, end)) => Ok((head + tail, end)),
            },
        }
    }
}

pub open spec fn expand_node(n: NodeV, cx: Ctx, env: Env) -> Result<(Seq<NodeV>, Env), HaltV>
    decreases MAX_DEPTH - cx.depth, usize::MAX - cx.blocks, n, 0nat,
{
    match n {
        NodeV::Text(t) => match subst_text(t, cx.dir, env.scopes, cx.w) {
            Err(h) => Err(h),
            Ok(v) => Ok((seq![NodeV::Text(v)], env)),
        },
        NodeV::Element(e) => expand_element(e, cx, env),
    }
}

/// An element: a plain one keeps its name, a xacro one follows its rule.
pub open spec fn expand_element(e: ElementV, cx: Ctx, env: Env) -> Result<(Seq<NodeV>, Env), HaltV>
    decreases MAX_DEPTH - cx.depth, usize::MAX - cx.blocks, e, 1nat,
{
    if !looking_at(e.name, 0, "xacro:"@) {
        match subst_attrs(e.attrs, None, cx, env.scopes) {
            Err(h) => Err(h),
            Ok(attrs) => match expand_nodes(e.children, cx, env) {
                Err(h) => Err(h),
                Ok((children, end)) => Ok(
                    (seq![NodeV::Element(ElementV { name: e.name, attrs, children })], end),
                ),
            },
        }
    } else {
        let tag = e.name.subrange(6, e.name.len() as int);
        if tag == "property"@ {
            match property_rule(e, cx, env) {
                Err(h) => Err(h),
                Ok(end) => Ok((Seq::empty(), end)),
            }
        } else if tag == "macro"@ {
            match macro_rule(e, cx, env) {
                Err(h) => Err(h),
                Ok(end) => Ok((Seq::empty(), end)),
            }
        } else if tag == "include"@ {
            match file_rule(e, cx, env) {
                Err(h) => Err(h),
                Ok((f, root, dir)) => if cx.depth + 1 > MAX_DEPTH {
                    Err(
                        HaltV::Fault(Fault::Include(f, "include depth exceeded (cycle?)"@)),
                    )
                } else {
                    expand_nodes(root.children, Ctx { dir, depth: cx.depth + 1, ..cx }, env)
                },
            }
        } else if tag == "if"@ {
            expand_if(e, cx, env, true)
        } else if tag == "unless"@ {
            expand_if(e, cx, env, false)
        } else if tag == "insert_block"@ {
            match block_rule(e, env) {
                Err(h) => Err(h),
                // As many splices inside one another as can be counted.
                Ok(nodes) => if cx.blocks + 1 > usize::MAX {
                    macro_fault(tag, "block recursion depth exceeded"@)
                } else {
                    expand_nodes(nodes, Ctx { blocks: cx.blocks + 1, ..cx }, env)
                },
            }
        } else if tag == "arg"@ || tag == "element"@ || tag == "attribute"@ || tag == "loop"@ {
            unsupported(
                "<xacro:"@ + tag + ">"@,
                "not implemented by the vendored minimal expander"@,
            )
        } else if !env.macros.dom().contains(tag) {
            unsupported(
                "<xacro:"@ + tag + ">"@,
                "not a defined <xacro:macro> and not a supported xacro construct"@,
            )
        } else {
            expand_call(tag, env.macros[tag], e, cx, env)
        }
    }
}

/// The children, where the condition is as wanted.
pub open spec fn expand_if(e: ElementV, cx: Ctx, env: Env, want: bool) -> Result<
    (Seq<NodeV>, Env),
    HaltV,
>
    decreases MAX_DEPTH - cx.depth, usize::MAX - cx.blocks, e, 0nat,
{
    match condition_rule(e, cx, env) {
        Err(h) => Err(h),
        Ok(b) => if b == want {
            expand_nodes(e.children, cx, env)
        } else {
            Ok((Seq::empty(), env))
        },
    }
}

/// Where the expansion of a macro's body stands.
pub open spec fn inside_call(cx: Ctx, dir: Option<Seq<char>>) -> Ctx {
    Ctx { dir, depth: cx.depth + 1, blocks: 0, w: cx.w }
}

/// The body of a macro, under the scope of its call.
pub open spec fn expand_call(name: Seq<char>, mac: MacroV, e: ElementV, cx: Ctx, env: Env) -> Result<
    (Seq<NodeV>, Env),
    HaltV,
>
    decreases MAX_DEPTH - cx.depth, usize::MAX - cx.blocks, e, 0nat,
{
    if cx.depth + 1 > MAX_DEPTH {
        macro_fault(name, "recursion depth exceeded (64)"@)
    } else {
        match call_rule(name, mac, e, cx, env) {
            Err(h) => Err(h),
            Ok(scope) => {
                let dir = match mac.dir {
                    Some(d) => Some(d),
                    None => cx.dir,
                };
                match expand_nodes(
                    mac.body,
                    inside_call(cx, dir),
                    Env { scopes: env.scopes.push(scope), macros: env.macros },
                ) {
                    Err(h) => Err(h),
                    Ok((nodes, end)) => Ok(
                        (nodes, Env { scopes: end.scopes.drop_last(), macros: end.macros }),
                    ),
                }
            },
        }
    }
}

/// One empty global scope.
pub open spec fn fresh_env() -> Env {
    Env {
        scopes: seq![ScopeV { props: Map::empty(), blocks: Map::empty() }],
        macros: Map::empty(),
    }
}

/// The document that a text expands to: the children first, then the attributes
/// of the root, which may use the properties of the body.
pub open spec fn expand_root(text: Seq<char>, dir: Option<Seq<char>>, w: WorldV) -> Result<
    ElementV,
    HaltV,
> {
    let cx = Ctx { dir, depth: 0, blocks: 0, w };
    match parse_document(text) {
        Err(f) => Err(HaltV::Fault(f)),
        Ok(root) => match expand_nodes(root.children, cx, fresh_env()) {
            Err(h) => Err(h),
            Ok((children, end)) => match subst_attrs(
                root.attrs,
                Some("xmlns:xacro"@),
                cx,
                end.scopes,
            ) {
                Err(h) => Err(h),
                Ok(attrs) => Ok(ElementV { name: root.name, attrs, children }),
            },
        },
    }
}

/// The text that a text expands to.
pub open spec fn expand_text(text: Seq<char>, dir: Option<Seq<char>>, w: WorldV) -> Result<
    Seq<char>,
    HaltV,
> {
    match expand_root(text, dir, w) {
        Err(h) => Err(h),
        Ok(e) => Ok("<?xml version=\"1.0\"?>\n"@ + written_element(e)),
    }
}

} // verus!
