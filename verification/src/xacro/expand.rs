//! The expander.

use vstd::prelude::*;

use crate::text::{
    chars_of, copy_text, find_text, is_text, part, same_text, split_words, starts_at, string_of,
    trim,
};
#[allow(unused_imports)]
use crate::text::texts;
use crate::xacro::env::{
    copy_element, copy_macro, copy_nodes, copy_opt, find_macro, lookup_block_nodes, Block, Macro,
    MacroDef, Param, Prop, Scope,
};
#[allow(unused_imports)]
use crate::xacro::env::{
    blocks_view, macro_view, macros_view, opt_text, params_view, props_view, scope_view,
    scopes_view, Env, MacroV, ParamV, ScopeV,
};
use crate::xacro::error::{join3, XacroError};
#[allow(unused_imports)]
use crate::xacro::error::Fault;
use crate::xacro::rules::MAX_DEPTH;
#[allow(unused_imports)]
use crate::xacro::rules::{
    attr_position, bind_params, block_rule, call_rule, condition_rule, expand_call,
    expand_element, expand_if, expand_node, expand_nodes, expand_root, expand_text, file_rule,
    first_unused, fresh_env, is_blank, macro_fault, macro_rule, param_rule, params_rule,
    property_rule, solid, subst_attrs, truth, unquoted, with_prop, Binding, Ctx,
};
use crate::xacro::subst::substitute;
#[allow(unused_imports)]
use crate::xacro::subst::subst_text;
use crate::xacro::world::{find_file, FileReply, Halt, Request, World};
#[allow(unused_imports)]
use crate::xacro::world::{request_view, HaltV};
use crate::xacro::write::write_element;
use crate::xacro::xml::{attr, parse_xml, Attr, Element, Node};
#[allow(unused_imports)]
use crate::xacro::xml::{
    attrs_view, lemma_nodes_push, lemma_nodes_view, node_view, nodes_view, ElementV, NodeV,
};

verus! {

/// How an expansion ended: with the plain text, or with something it must know.
#[derive(Debug)]
pub enum Expansion {
    Done(String),
    Needs(Request),
}

fn halt_unsupported(construct: &Vec<char>, detail: &str) -> (r: Halt)
    ensures
        r@ == HaltV::Fault(Fault::Unsupported { construct: construct@, detail: detail@ }),
{
    Halt::Fault(
        XacroError::Unsupported {
            construct: string_of(construct),
            detail: string_of(&chars_of(detail)),
        },
    )
}

fn halt_macro(name: &Vec<char>, msg: &Vec<char>) -> (r: Halt)
    ensures
        r@ == HaltV::Fault(Fault::Macro(name@, msg@)),
{
    Halt::Fault(XacroError::Macro(string_of(name), string_of(msg)))
}

fn halt_xml(msg: &str) -> (r: Halt)
    ensures
        r@ == HaltV::Fault(Fault::Xml(msg@)),
{
    Halt::Fault(XacroError::Xml(string_of(&chars_of(msg))))
}

/// Whether a node is blank text.
pub fn is_blank_text(n: &Node) -> (r: bool)
    ensures
        r == is_blank(n@),
{
    match n {
        Node::Text(t) => trim(t).len() == 0,
        Node::Element(_) => false,
    }
}

/// Positions of the nodes that are not blank text.
fn solid_positions(nodes: &Vec<Node>) -> (r: Vec<usize>)
    ensures
        r.len() == solid(nodes_view(nodes@)).len(),
        forall|i: int|
            0 <= i < r.len() ==> #[trigger] r@[i] < nodes.len() && solid(nodes_view(nodes@))[i]
                == node_view(nodes@[r@[i] as int]),
{
    let ghost all = nodes_view(nodes@);
    proof {
        lemma_nodes_view(nodes@);
    }
    let mut r: Vec<usize> = Vec::new();
    let mut i: usize = 0;
    while i < nodes.len()
        invariant
            i <= nodes.len(),
            all == nodes_view(nodes@),
            all.len() == nodes.len(),
            forall|k: int| 0 <= k < nodes.len() ==> all[k] == node_view(#[trigger] nodes@[k]),
            r.len() == solid(all.take(i as int)).len(),
            forall|k: int|
                0 <= k < r.len() ==> #[trigger] r@[k] < nodes.len() && solid(all.take(i as int))[k]
                    == node_view(nodes@[r@[k] as int]),
        decreases nodes.len() - i,
    {
        proof {
            assert(all.take(i + 1).drop_last() =~= all.take(i as int));
            assert(all.take(i + 1).last() == node_view(nodes@[i as int]));
        }
        if !is_blank_text(&nodes[i]) {
            r.push(i);
        }
        i = i + 1;
    }
    assert(all.take(all.len() as int) =~= all);
    r
}

/// `d` without single quotes at its ends.
fn unquote(d: &Vec<char>, a: usize, b: usize) -> (r: Vec<char>)
    requires
        a <= b <= d.len(),
    ensures
        r@ == unquoted(d@.subrange(a as int, b as int)),
{
    let mut i: usize = a;
    let mut j: usize = b;
    while i < j && d[i] == '\''
        invariant
            a <= i <= j <= b <= d.len(),
            j == b,
            unquoted(d@.subrange(a as int, b as int)) == unquoted(d@.subrange(i as int, j as int)),
        decreases j - i,
    {
        proof {
            let u = d@.subrange(i as int, j as int);
            assert(u[0] == d@[i as int]);
            assert(u.subrange(1, u.len() as int) =~= d@.subrange(i + 1, j as int));
        }
        i = i + 1;
    }
    while i < j && d[j - 1] == '\''
        invariant
            a <= i <= j <= b <= d.len(),
            i < j ==> d@[i as int] != '\'',
            unquoted(d@.subrange(a as int, b as int)) == unquoted(d@.subrange(i as int, j as int)),
        decreases j - i,
    {
        proof {
            let u = d@.subrange(i as int, j as int);
            assert(u[0] == d@[i as int]);
            assert(u.last() == d@[j - 1]);
            assert(u.drop_last() =~= d@.subrange(i as int, j - 1));
        }
        j = j - 1;
    }
    proof {
        let u = d@.subrange(i as int, j as int);
        if i < j {
            assert(u[0] == d@[i as int]);
            assert(u.last() == d@[j - 1]);
        }
    }
    part(d, i, j)
}

pub open spec fn param_view(p: Param) -> ParamV {
    ParamV { name: p.name@, default: opt_text(p.default), block: p.block }
}

/// One word of a parameter list.
fn parse_param(tok: &Vec<char>) -> (r: Result<Param, Halt>)
    ensures
        match r {
            Ok(p) => param_rule(tok@) == Ok::<ParamV, HaltV>(param_view(p)),
            Err(h) => param_rule(tok@) == Err::<ParamV, HaltV>(h@),
        },
{
    if tok.len() > 0 && tok[0] == '*' {
        return Ok(Param { name: part(tok, 1, tok.len()), default: None, block: true });
    }
    proof {
        reveal_strlit(":=");
    }
    match find_text(tok, 0, ":=") {
        Some(i) => {
            let a: usize = i + 2;
            let b: usize = tok.len();
            let ghost d = tok@.subrange(a as int, b as int);
            if a < b && tok[a] == '^' {
                return Err(
                    halt_unsupported(
                        &join3("macro param `", tok, "`"),
                        "`^` caller-property forwarding is not supported",
                    ),
                );
            }
            if a < b && tok[a] == '\'' && (b - a < 2 || tok[b - 1] != '\'') {
                return Err(
                    halt_unsupported(
                        &join3("macro param `", tok, "`"),
                        "quoted defaults containing spaces are not supported",
                    ),
                );
            }
            Ok(Param { name: part(tok, 0, i), default: Some(unquote(tok, a, b)), block: false })
        },
        None => {
            if tok.len() > 0 && tok[0] == '^' {
                return Err(
                    halt_unsupported(
                        &join3("macro param `", tok, "`"),
                        "`^` caller-property forwarding is not supported",
                    ),
                );
            }
            Ok(Param { name: copy_text(tok), default: None, block: false })
        },
    }
}

/// A parameter list.
fn parse_params(toks: &Vec<Vec<char>>) -> (r: Result<Vec<Param>, Halt>)
    ensures
        match r {
            Ok(p) => params_rule(texts(toks@)) == Ok::<Seq<ParamV>, HaltV>(params_view(p@)),
            Err(h) => params_rule(texts(toks@)) == Err::<Seq<ParamV>, HaltV>(h@),
        },
{
    let ghost all = texts(toks@);
    let mut params: Vec<Param> = Vec::new();
    let mut i: usize = 0;
    assert(params_view(params@) =~= Seq::empty());
    while i < toks.len()
        invariant
            i <= toks.len(),
            all == texts(toks@),
            params_rule(all.take(i as int)) == Ok::<Seq<ParamV>, HaltV>(params_view(params@)),
        decreases toks.len() - i,
    {
        proof {
            assert(all.take(i + 1).drop_last() =~= all.take(i as int));
            assert(all.take(i + 1).last() == toks@[i as int]@);
        }
        match parse_param(&toks[i]) {
            Ok(p) => {
                let ghost before = params@;
                params.push(p);
                assert(params_view(params@) =~= params_view(before).push(param_view(p)));
            },
            Err(h) => {
                proof {
                    lemma_params_prefix(all, i + 1);
                }
                return Err(h);
            },
        }
        i = i + 1;
    }
    assert(all.take(all.len() as int) =~= all);
    Ok(params)
}

/// The first bad word of a parameter list decides.
proof fn lemma_params_prefix(toks: Seq<Seq<char>>, k: int)
    requires
        0 <= k <= toks.len(),
        params_rule(toks.take(k)) is Err,
    ensures
        params_rule(toks) == params_rule(toks.take(k)),
    decreases toks.len() - k,
{
    if k == toks.len() {
        assert(toks.take(k) =~= toks);
    } else {
        assert(toks.take(k + 1).drop_last() =~= toks.take(k));
        lemma_params_prefix(toks, k + 1);
    }
}

/// `attrs` with their values substituted; `skip` is left out.
fn substitute_attrs(
    attrs: &Vec<Attr>,
    skip: &Option<Vec<char>>,
    dir: &Option<Vec<char>>,
    scopes: &Vec<Scope>,
    w: &World,
    cx: Ghost<Ctx>,
) -> (r: Result<Vec<Attr>, Halt>)
    requires
        cx@.dir == opt_text(*dir),
        cx@.w == w@,
    ensures
        match r {
            Ok(a) => subst_attrs(
                attrs_view(attrs@),
                opt_text(*skip),
                cx@,
                scopes_view(scopes@),
            ) == Ok::<_, HaltV>(attrs_view(a@)),
            Err(h) => subst_attrs(
                attrs_view(attrs@),
                opt_text(*skip),
                cx@,
                scopes_view(scopes@),
            ) == Err::<Seq<(Seq<char>, Seq<char>)>, HaltV>(h@),
        },
{
    let ghost all = attrs_view(attrs@);
    let ghost sv = scopes_view(scopes@);
    let ghost sk = opt_text(*skip);
    let mut out: Vec<Attr> = Vec::new();
    let mut i: usize = 0;
    assert(attrs_view(out@) =~= Seq::empty());
    while i < attrs.len()
        invariant
            i <= attrs.len(),
            all == attrs_view(attrs@),
            sv == scopes_view(scopes@),
            sk == opt_text(*skip),
            cx@.dir == opt_text(*dir),
            cx@.w == w@,
            subst_attrs(all.take(i as int), sk, cx@, sv) == Ok::<_, HaltV>(attrs_view(out@)),
        decreases attrs.len() - i,
    {
        let ghost upto = all.take(i + 1);
        proof {
            assert(upto.drop_last() =~= all.take(i as int));
            assert(upto.last() == (attrs@[i as int].key@, attrs@[i as int].value@));
        }
        let left_out = match skip {
            Some(k) => same_text(k, &attrs[i].key),
            None => false,
        };
        if !left_out {
            match substitute(&attrs[i].value, dir, scopes, w) {
                Ok(v) => {
                    let ghost before = out@;
                    let a = Attr { key: copy_text(&attrs[i].key), value: v };
                    out.push(a);
                    assert(attrs_view(out@) =~= attrs_view(before).push((a.key@, a.value@)));
                },
                Err(h) => {
                    proof {
                        lemma_attrs_prefix(all, i + 1, sk, cx@, sv);
                    }
                    return Err(h);
                },
            }
        }
        i = i + 1;
    }
    assert(all.take(all.len() as int) =~= all);
    Ok(out)
}

/// The first bad attribute decides.
proof fn lemma_attrs_prefix(
    attrs: Seq<(Seq<char>, Seq<char>)>,
    k: int,
    skip: Option<Seq<char>>,
    cx: Ctx,
    scopes: Seq<ScopeV>,
)
    requires
        0 <= k <= attrs.len(),
        subst_attrs(attrs.take(k), skip, cx, scopes) is Err,
    ensures
        subst_attrs(attrs, skip, cx, scopes) == subst_attrs(attrs.take(k), skip, cx, scopes),
    decreases attrs.len() - k,
{
    if k == attrs.len() {
        assert(attrs.take(k) =~= attrs);
    } else {
        assert(attrs.take(k + 1).drop_last() =~= attrs.take(k));
        lemma_attrs_prefix(attrs, k + 1, skip, cx, scopes);
    }
}

/// The first bad node decides.
proof fn lemma_nodes_prefix(nodes: Seq<NodeV>, k: int, cx: Ctx, env: Env)
    requires
        0 <= k <= nodes.len(),
        expand_nodes(nodes.subrange(0, k), cx, env) is Err,
    ensures
        expand_nodes(nodes, cx, env) == expand_nodes(nodes.subrange(0, k), cx, env),
    decreases nodes.len() - k,
{
    if k == nodes.len() {
        assert(nodes.subrange(0, k) =~= nodes);
    } else {
        let next = nodes.subrange(0, k + 1);
        assert(next.subrange(0, k) =~= nodes.subrange(0, k));
        lemma_nodes_prefix(nodes, k + 1, cx, env);
    }
}

/// One more node: it extends the expansion, or decides it.
proof fn lemma_next_node(all: Seq<NodeV>, i: int, cx: Ctx, env: Env, head: Seq<NodeV>, mid: Env)
    requires
        0 <= i < all.len(),
        expand_nodes(all.subrange(0, i), cx, env) == Ok::<_, HaltV>((head, mid)),
    ensures
        match expand_node(all[i], cx, mid) {
            Err(h) => expand_nodes(all, cx, env) == Err::<(Seq<NodeV>, Env), HaltV>(h),
            Ok((tail, end)) => expand_nodes(all.subrange(0, i + 1), cx, env) == Ok::<_, HaltV>(
                (head + tail, end),
            ),
        },
        match all[i] {
            NodeV::Text(t) => match subst_text(t, cx.dir, mid.scopes, cx.w) {
                Err(h) => expand_node(all[i], cx, mid) == Err::<(Seq<NodeV>, Env), HaltV>(h),
                Ok(v) => expand_node(all[i], cx, mid) == Ok::<_, HaltV>(
                    (seq![NodeV::Text(v)], mid),
                ),
            },
            NodeV::Element(e) => expand_node(all[i], cx, mid) == expand_element(e, cx, mid),
        },
{
    let upto = all.subrange(0, i + 1);
    assert(upto.subrange(0, i) =~= all.subrange(0, i));
    assert(upto[i] == all[i]);
    if expand_node(all[i], cx, mid) is Err {
        lemma_nodes_prefix(all, i + 1, cx, env);
    }
}

/// The first bad parameter decides.
proof fn lemma_bind_prefix(name: Seq<char>, mac: MacroV, k: nat, n: nat, call: ElementV, cx: Ctx, env: Env)
    requires
        k <= n,
        bind_params(name, mac, k, call, cx, env) is Err,
    ensures
        bind_params(name, mac, n, call, cx, env) == bind_params(name, mac, k, call, cx, env),
    decreases n - k,
{
    if k < n {
        lemma_bind_prefix(name, mac, k, (n - 1) as nat, call, cx, env);
    }
}

/// The scope stack (global frame first), the macros, and how deep it is nested.
pub struct Expander {
    pub scopes: Vec<Scope>,
    pub macros: Vec<MacroDef>,
    pub depth: usize,
    pub blocks: usize,
}

impl Expander {
    pub open spec fn env(self) -> Env {
        Env { scopes: scopes_view(self.scopes@), macros: macros_view(self.macros@) }
    }

    pub open spec fn wf(self) -> bool {
        &&& self.scopes@.len() >= 1
        &&& self.depth <= MAX_DEPTH
    }

    pub open spec fn ctx(self, dir: Option<Vec<char>>, w: World) -> Ctx {
        Ctx {
            dir: opt_text(dir),
            depth: self.depth as nat,
            blocks: self.blocks as nat,
            w: w@,
        }
    }

    /// `other` is as deeply nested as `self`.
    pub open spec fn level(self, other: Self) -> bool {
        &&& other.wf()
        &&& other.depth == self.depth
        &&& other.blocks == self.blocks
        &&& other.scopes@.len() == self.scopes@.len()
    }

    pub fn new() -> (r: Expander)
        ensures
            r.wf(),
            r.depth == 0,
            r.blocks == 0,
            r.env() == fresh_env(),
    {
        let mut scopes: Vec<Scope> = Vec::new();
        scopes.push(Scope { props: Vec::new(), blocks: Vec::new() });
        let macros: Vec<MacroDef> = Vec::new();
        let r = Expander { scopes, macros, depth: 0, blocks: 0 };
        assert(r.env().scopes =~= fresh_env().scopes);
        r
    }

    /// Sets a property in the innermost scope.
    fn set_prop(&mut self, name: Vec<char>, value: Vec<char>)
        requires
            old(self).wf(),
        ensures
            old(self).level(*final(self)),
            final(self).env() == with_prop(old(self).env(), name@, value@),
    {
        let ghost before = self.env();
        let ghost nv = name@;
        let ghost vv = value@;
        let mut top = self.scopes.pop().unwrap();
        let ghost tv = scope_view(top);
        let p = Prop { name, value };
        let ghost old_props = top.props@;
        top.props.push(p);
        assert(top.props@.drop_last() =~= old_props);
        self.scopes.push(top);
        assert(self.env().scopes =~= with_prop(before, nv, vv).scopes);
    }

    fn define_property(&mut self, e: &Element, dir: &Option<Vec<char>>, w: &World) -> (r: Result<
        (),
        Halt,
    >)
        requires
            old(self).wf(),
        ensures
            match r {
                Ok(_) => old(self).level(*final(self)) && property_rule(
                    e@,
                    old(self).ctx(*dir, *w),
                    old(self).env(),
                ) == Ok::<Env, HaltV>(final(self).env()),
                Err(h) => *final(self) == *old(self) && property_rule(
                    e@,
                    old(self).ctx(*dir, *w),
                    old(self).env(),
                ) == Err::<Env, HaltV>(h@),
            },
    {
        let name = match attr(e, "name") {
            Some(n) => copy_text(n),
            None => {
                return Err(halt_xml("<xacro:property> without name="));
            },
        };
        let solid_children = solid_positions(&e.children);
        if attr(e, "scope").is_some() || attr(e, "default").is_some() || solid_children.len() > 0 {
            let d = join3(
                "property `",
                &name,
                "` uses scope=/default=/block form; only `<xacro:property name=.. value=../>` is supported",
            );
            return Err(
                Halt::Fault(
                    XacroError::Unsupported {
                        construct: string_of(&chars_of("<xacro:property>")),
                        detail: string_of(&d),
                    },
                ),
            );
        }
        match attr(e, "value") {
            None => {
                let m = join3("<xacro:property name=\"", &name, "\"> without value=");
                Err(Halt::Fault(XacroError::Xml(string_of(&m))))
            },
            Some(raw) => match substitute(raw, dir, &self.scopes, w) {
                Ok(v) => {
                    self.set_prop(name, v);
                    Ok(())
                },
                Err(h) => Err(h),
            },
        }
    }

    fn define_macro(&mut self, e: &Element, dir: &Option<Vec<char>>, w: &World) -> (r: Result<
        (),
        Halt,
    >)
        requires
            old(self).wf(),
        ensures
            match r {
                Ok(_) => old(self).level(*final(self)) && macro_rule(
                    e@,
                    old(self).ctx(*dir, *w),
                    old(self).env(),
                ) == Ok::<Env, HaltV>(final(self).env()),
                Err(h) => *final(self) == *old(self) && macro_rule(
                    e@,
                    old(self).ctx(*dir, *w),
                    old(self).env(),
                ) == Err::<Env, HaltV>(h@),
            },
    {
        let name = match attr(e, "name") {
            Some(n) => copy_text(n),
            None => {
                return Err(halt_xml("<xacro:macro> without name="));
            },
        };
        let list = match attr(e, "params") {
            Some(p) => copy_text(p),
            None => chars_of(""),
        };
        let toks = split_words(&list);
        match parse_params(&toks) {
            Err(h) => Err(h),
            Ok(params) => {
                let def = Macro { params, body: copy_nodes(&e.children), dir: copy_opt(dir) };
                let ghost before = self.macros@;
                self.macros.push(MacroDef { name, def });
                assert(self.macros@.drop_last() =~= before);
                Ok(())
            },
        }
    }

    /// The truth value of an `if` or `unless`.
    fn condition(&self, e: &Element, dir: &Option<Vec<char>>, w: &World) -> (r: Result<bool, Halt>)
        ensures
            match r {
                Ok(b) => condition_rule(e@, self.ctx(*dir, *w), self.env()) == Ok::<bool, HaltV>(
                    b,
                ),
                Err(h) => condition_rule(e@, self.ctx(*dir, *w), self.env()) == Err::<
                    bool,
                    HaltV,
                >(h@),
            },
    {
        let raw = match attr(e, "value") {
            Some(v) => v,
            None => {
                return Err(halt_xml("<xacro:if>/<xacro:unless> without value="));
            },
        };
        let v = match substitute(raw, dir, &self.scopes, w) {
            Ok(v) => v,
            Err(h) => {
                return Err(h);
            },
        };
        if is_text(&v, "true") || is_text(&v, "1") {
            Ok(true)
        } else if is_text(&v, "false") || is_text(&v, "0") {
            Ok(false)
        } else {
            Err(Halt::Fault(XacroError::Condition(string_of(&v))))
        }
    }

    /// The file that an include names.
    fn included_file(&self, e: &Element, dir: &Option<Vec<char>>, w: &World) -> (r: Result<
        (Vec<char>, Element, Option<Vec<char>>),
        Halt,
    >)
        ensures
            match r {
                Ok((f, root, d)) => file_rule(e@, self.ctx(*dir, *w), self.env()) == Ok::<
                    _,
                    HaltV,
                >((f@, root@, opt_text(d))),
                Err(h) => file_rule(e@, self.ctx(*dir, *w), self.env()) == Err::<
                    (Seq<char>, ElementV, Option<Seq<char>>),
                    HaltV,
                >(h@),
            },
    {
        if attr(e, "ns").is_some() {
            return Err(
                halt_unsupported(
                    &chars_of("<xacro:include ns=..>"),
                    "namespaced includes are not supported",
                ),
            );
        }
        let raw = match attr(e, "filename") {
            Some(f) => f,
            None => {
                return Err(halt_xml("<xacro:include> without filename="));
            },
        };
        let f = match substitute(raw, dir, &self.scopes, w) {
            Ok(f) => f,
            Err(h) => {
                return Err(h);
            },
        };
        match find_file(w, &f, dir) {
            None => Err(Halt::Need(Request::File { name: f, dir: copy_opt(dir) })),
            Some(FileReply::Failed(m)) => Err(
                Halt::Fault(XacroError::Include(string_of(&f), string_of(m))),
            ),
            Some(FileReply::Text { text, dir: d }) => match parse_xml(text) {
                Err(p) => Err(Halt::Fault(XacroError::Include(string_of(&f), p.to_string()))),
                Ok(root) => Ok((f, root, copy_opt(d))),
            },
        }
    }

    /// The scope of a macro call.
    fn bind_call(
        &self,
        name: &Vec<char>,
        mac: &Macro,
        call: &Element,
        dir: &Option<Vec<char>>,
        w: &World,
    ) -> (r: Result<Scope, Halt>)
        ensures
            match r {
                Ok(s) => call_rule(
                    name@,
                    macro_view(*mac),
                    call@,
                    self.ctx(*dir, *w),
                    self.env(),
                ) == Ok::<ScopeV, HaltV>(scope_view(s)),
                Err(h) => call_rule(
                    name@,
                    macro_view(*mac),
                    call@,
                    self.ctx(*dir, *w),
                    self.env(),
                ) == Err::<ScopeV, HaltV>(h@),
            },
    {
        let ghost cx = self.ctx(*dir, *w);
        let ghost env = self.env();
        let ghost mv = macro_view(*mac);
        let ghost cv = call@;
        let mut props: Vec<Prop> = Vec::new();
        let mut blocks: Vec<Block> = Vec::new();
        let mut used: Vec<bool> = Vec::new();
        let n: usize = call.attrs.len();
        while used.len() < n
            invariant
                used.len() <= n,
                forall|k: int| 0 <= k < used.len() ==> !used@[k],
            decreases n - used.len(),
        {
            used.push(false);
        }
        let args = solid_positions(&call.children);
        let mut next: usize = 0;
        let mut k: usize = 0;
        assert(used@ =~= Seq::new(cv.attrs.len(), |i: int| false));
        while k < mac.params.len()
            invariant
                k <= mac.params.len(),
                cx == self.ctx(*dir, *w),
                env == self.env(),
                mv == macro_view(*mac),
                cv == call@,
                used.len() == call.attrs.len(),
                next <= args.len(),
                args.len() == solid(cv.children).len(),
                forall|i: int|
                    0 <= i < args.len() ==> #[trigger] args@[i] < call.children.len() && solid(
                        cv.children,
                    )[i] == node_view(call.children@[args@[i] as int]),
                bind_params(name@, mv, k as nat, cv, cx, env) == Ok::<Binding, HaltV>(
                    Binding {
                        scope: ScopeV { props: props_view(props@), blocks: blocks_view(blocks@) },
                        used: used@,
                        next: next as nat,
                    },
                ),
            decreases mac.params.len() - k,
        {
            let p = &mac.params[k];
            assert(mv.params[k as int] == param_view(*p));
            proof {
                // Where this parameter fails, the call fails.
                if bind_params(name@, mv, (k + 1) as nat, cv, cx, env) is Err {
                    lemma_bind_prefix(
                        name@,
                        mv,
                        (k + 1) as nat,
                        mv.params.len(),
                        cv,
                        cx,
                        env,
                    );
                }
            }
            if p.block {
                if next >= args.len() {
                    return Err(
                        halt_macro(name, &join3("missing block argument `*", &p.name, "`")),
                    );
                }
                let at: usize = args[next];
                match &call.children[at] {
                    Node::Text(_) => {
                        return Err(
                            halt_macro(
                                name,
                                &join3(
                                    "block argument `*",
                                    &p.name,
                                    "` must be an element, not text",
                                ),
                            ),
                        );
                    },
                    Node::Element(be) => {
                        let copy = Node::Element(copy_element(be));
                        let mut nodes: Vec<Node> = Vec::new();
                        proof {
                            lemma_nodes_push(nodes@, copy);
                            assert(nodes_view(nodes@).push(copy@) =~= seq![copy@]);
                        }
                        nodes.push(copy);
                        let ghost before = blocks@;
                        blocks.push(Block { name: copy_text(&p.name), nodes });
                        assert(blocks@.drop_last() =~= before);
                    },
                }
                next = next + 1;
            } else {
                let at = find_attr(&call.attrs, &p.name);
                let raw = match at {
                    Some(i) => copy_text(&call.attrs[i].value),
                    None => match &p.default {
                        Some(d) => copy_text(d),
                        None => {
                            return Err(
                                halt_macro(
                                    name,
                                    &join3("missing required parameter `", &p.name, "`"),
                                ),
                            );
                        },
                    },
                };
                match substitute(&raw, dir, &self.scopes, w) {
                    Err(h) => {
                        return Err(h);
                    },
                    Ok(v) => {
                        match at {
                            Some(i) => {
                                used.set(i, true);
                            },
                            None => {},
                        }
                        let ghost before = props@;
                        props.push(Prop { name: copy_text(&p.name), value: v });
                        assert(props@.drop_last() =~= before);
                    },
                }
            }
            k = k + 1;
        }
        let mut i: usize = 0;
        while i < used.len()
            invariant
                i <= used.len(),
                used.len() == call.attrs.len(),
                cv == call@,
                first_unused(used@, 0) == first_unused(used@, i as int),
                call_rule(name@, mv, cv, cx, env) == (match first_unused(used@, 0) {
                    Some(i) => macro_fault(
                        name@,
                        "unexpected attribute `"@ + cv.attrs[i].0 + "`"@,
                    ),
                    None => if next < args.len() {
                        macro_fault(name@, "more child elements than `*` block parameters"@)
                    } else {
                        Ok(ScopeV { props: props_view(props@), blocks: blocks_view(blocks@) })
                    },
                }),
                cx == self.ctx(*dir, *w),
                env == self.env(),
                mv == macro_view(*mac),
            decreases used.len() - i,
        {
            if !used[i] {
                return Err(
                    halt_macro(name, &join3("unexpected attribute `", &call.attrs[i].key, "`")),
                );
            }
            i = i + 1;
        }
        if next < args.len() {
            return Err(
                halt_macro(name, &chars_of("more child elements than `*` block parameters")),
            );
        }
        Ok(Scope { props, blocks })
    }

    /// Expands some nodes.
    pub fn process_children(
        &mut self,
        nodes: &Vec<Node>,
        dir: &Option<Vec<char>>,
        w: &World,
    ) -> (r: Result<Vec<Node>, Halt>)
        requires
            old(self).wf(),
        ensures
            match r {
                Ok(out) => old(self).level(*final(self)) && expand_nodes(
                    nodes_view(nodes@),
                    old(self).ctx(*dir, *w),
                    old(self).env(),
                ) == Ok::<_, HaltV>((nodes_view(out@), final(self).env())),
                Err(h) => expand_nodes(
                    nodes_view(nodes@),
                    old(self).ctx(*dir, *w),
                    old(self).env(),
                ) == Err::<(Seq<NodeV>, Env), HaltV>(h@),
            },
        decreases MAX_DEPTH - old(self).depth, usize::MAX - old(self).blocks, nodes, 0nat,
    {
        let ghost cx = self.ctx(*dir, *w);
        let ghost env = self.env();
        let ghost all = nodes_view(nodes@);
        let mut out: Vec<Node> = Vec::new();
        let mut i: usize = 0;
        proof {
            lemma_nodes_view(nodes@);
        }
        while i < nodes.len()
            invariant
                i <= nodes.len(),
                old(self).wf(),
                old(self).level(*self),
                cx == old(self).ctx(*dir, *w),
                env == old(self).env(),
                all == nodes_view(nodes@),
                all.len() == nodes.len(),
                forall|k: int| 0 <= k < nodes.len() ==> all[k] == node_view(#[trigger] nodes@[k]),
                expand_nodes(all.subrange(0, i as int), cx, env) == Ok::<_, HaltV>(
                    (nodes_view(out@), self.env()),
                ),
            decreases nodes.len() - i,
        {
            let ghost head = nodes_view(out@);
            proof {
                lemma_next_node(all, i as int, cx, env, head, self.env());
                assert(all[i as int] == node_view(nodes@[i as int]));
            }
            match &nodes[i] {
                Node::Text(t) => match substitute(t, dir, &self.scopes, w) {
                    Err(h) => {
                        return Err(h);
                    },
                    Ok(v) => {
                        let n = Node::Text(v);
                        proof {
                            lemma_nodes_push(out@, n);
                            assert(head + seq![n@] =~= head.push(n@));
                        }
                        out.push(n);
                    },
                },
                Node::Element(e) => match self.process_element(e, dir, w, &mut out) {
                    Err(h) => {
                        return Err(h);
                    },
                    Ok(_) => {},
                },
            }
            i = i + 1;
        }
        assert(all.subrange(0, all.len() as int) =~= all);
        Ok(out)
    }

    /// Expands one element behind `out`.
    fn process_element(
        &mut self,
        e: &Element,
        dir: &Option<Vec<char>>,
        w: &World,
        out: &mut Vec<Node>,
    ) -> (r: Result<(), Halt>)
        requires
            old(self).wf(),
        ensures
            match r {
                Ok(_) => old(self).level(*final(self)) && match expand_element(
                    e@,
                    old(self).ctx(*dir, *w),
                    old(self).env(),
                ) {
                    Ok((nodes, end)) => nodes_view(final(out)@) == nodes_view(old(out)@) + nodes
                        && end == final(self).env(),
                    Err(_) => false,
                },
                Err(h) => expand_element(e@, old(self).ctx(*dir, *w), old(self).env()) == Err::<
                    (Seq<NodeV>, Env),
                    HaltV,
                >(h@),
            },
        decreases MAX_DEPTH - old(self).depth, usize::MAX - old(self).blocks, e, 1nat,
    {
        let ghost cx = self.ctx(*dir, *w);
        let ghost env = self.env();
        let ghost before = out@;
        proof {
            reveal_strlit("xacro:");
            assert(nodes_view(out@) + Seq::empty() =~= nodes_view(out@));
        }
        if !starts_at(&e.name, 0, "xacro:") {
            let none: Option<Vec<char>> = None;
            let attrs = match substitute_attrs(
                &e.attrs,
                &none,
                dir,
                &self.scopes,
                w,
                Ghost(cx),
            ) {
                Ok(a) => a,
                Err(h) => {
                    return Err(h);
                },
            };
            let children = match self.process_children(&e.children, dir, w) {
                Ok(c) => c,
                Err(h) => {
                    return Err(h);
                },
            };
            let n = Node::Element(Element { name: copy_text(&e.name), attrs, children });
            proof {
                lemma_nodes_push(before, n);
                assert(nodes_view(before) + seq![n@] =~= nodes_view(before).push(n@));
            }
            out.push(n);
            return Ok(());
        }
        let tag = part(&e.name, 6, e.name.len());
        if is_text(&tag, "property") {
            return self.define_property(e, dir, w);
        }
        if is_text(&tag, "macro") {
            return self.define_macro(e, dir, w);
        }
        if is_text(&tag, "include") {
            let (f, root, d) = match self.included_file(e, dir, w) {
                Ok(x) => x,
                Err(h) => {
                    return Err(h);
                },
            };
            if self.depth + 1 > MAX_DEPTH {
                return Err(
                    Halt::Fault(
                        XacroError::Include(
                            string_of(&f),
                            string_of(&chars_of("include depth exceeded (cycle?)")),
                        ),
                    ),
                );
            }
            self.depth = self.depth + 1;
            let nodes = match self.process_children(&root.children, &d, w) {
                Ok(n) => n,
                Err(h) => {
                    return Err(h);
                },
            };
            self.depth = self.depth - 1;
            append_nodes(out, nodes);
            return Ok(());
        }
        if is_text(&tag, "if") {
            return self.conditional(e, dir, w, out, true);
        }
        if is_text(&tag, "unless") {
            return self.conditional(e, dir, w, out, false);
        }
        if is_text(&tag, "insert_block") {
            return self.insert_block(e, &tag, dir, w, out);
        }
        if is_text(&tag, "arg") || is_text(&tag, "element") || is_text(&tag, "attribute")
            || is_text(&tag, "loop") {
            return Err(
                halt_unsupported(
                    &join3("<xacro:", &tag, ">"),
                    "not implemented by the vendored minimal expander",
                ),
            );
        }
        let mac = match find_macro(&self.macros, &tag) {
            Some(m) => copy_macro(m),
            None => {
                return Err(
                    halt_unsupported(
                        &join3("<xacro:", &tag, ">"),
                        "not a defined <xacro:macro> and not a supported xacro construct",
                    ),
                );
            },
        };
        self.instantiate(&tag, &mac, e, dir, w, out)
    }

    /// Splices the block that an `insert_block` names.
    fn insert_block(
        &mut self,
        e: &Element,
        tag: &Vec<char>,
        dir: &Option<Vec<char>>,
        w: &World,
        out: &mut Vec<Node>,
    ) -> (r: Result<(), Halt>)
        requires
            old(self).wf(),
        ensures
            ({
                let cx = old(self).ctx(*dir, *w);
                let env = old(self).env();
                let want = match block_rule(e@, env) {
                    Err(h) => Err(h),
                    Ok(nodes) => if cx.blocks + 1 > usize::MAX {
                        macro_fault(tag@, "block recursion depth exceeded"@)
                    } else {
                        expand_nodes(nodes, (Ctx { blocks: cx.blocks + 1, ..cx }), env)
                    },
                };
                match r {
                    Ok(_) => old(self).level(*final(self)) && match want {
                        Ok((nodes, end)) => nodes_view(final(out)@) == nodes_view(old(out)@)
                            + nodes && end == final(self).env(),
                        Err(_) => false,
                    },
                    Err(h) => want == Err::<(Seq<NodeV>, Env), HaltV>(h@),
                }
            }),
        decreases MAX_DEPTH - old(self).depth, usize::MAX - old(self).blocks, e, 0nat,
    {
        let name = match attr(e, "name") {
            Some(n) => n,
            None => {
                return Err(halt_xml("<xacro:insert_block> without name="));
            },
        };
        let nodes = match lookup_block_nodes(&self.scopes, name) {
            Some(n) => copy_nodes(n),
            None => {
                return Err(
                    halt_macro(
                        name,
                        &chars_of("<xacro:insert_block>: no such block parameter in scope"),
                    ),
                );
            },
        };
        if self.blocks == usize::MAX {
            return Err(halt_macro(tag, &chars_of("block recursion depth exceeded")));
        }
        self.blocks = self.blocks + 1;
        match self.process_children(&nodes, dir, w) {
            Ok(n) => {
                self.blocks = self.blocks - 1;
                append_nodes(out, n);
                Ok(())
            },
            Err(h) => Err(h),
        }
    }

    /// Expands the children of an `if` or `unless`, where the condition is as wanted.
    fn conditional(
        &mut self,
        e: &Element,
        dir: &Option<Vec<char>>,
        w: &World,
        out: &mut Vec<Node>,
        want: bool,
    ) -> (r: Result<(), Halt>)
        requires
            old(self).wf(),
        ensures
            match r {
                Ok(_) => old(self).level(*final(self)) && match expand_if(
                    e@,
                    old(self).ctx(*dir, *w),
                    old(self).env(),
                    want,
                ) {
                    Ok((nodes, end)) => nodes_view(final(out)@) == nodes_view(old(out)@) + nodes
                        && end == final(self).env(),
                    Err(_) => false,
                },
                Err(h) => expand_if(e@, old(self).ctx(*dir, *w), old(self).env(), want) == Err::<
                    (Seq<NodeV>, Env),
                    HaltV,
                >(h@),
            },
        decreases MAX_DEPTH - old(self).depth, usize::MAX - old(self).blocks, e, 0nat,
    {
        assert(nodes_view(out@) + Seq::empty() =~= nodes_view(out@));
        let b = match self.condition(e, dir, w) {
            Ok(b) => b,
            Err(h) => {
                return Err(h);
            },
        };
        if b == want {
            match self.process_children(&e.children, dir, w) {
                Ok(n) => {
                    append_nodes(out, n);
                },
                Err(h) => {
                    return Err(h);
                },
            }
        }
        Ok(())
    }

    /// Expands a macro call.
    fn instantiate(
        &mut self,
        name: &Vec<char>,
        mac: &Macro,
        call: &Element,
        dir: &Option<Vec<char>>,
        w: &World,
        out: &mut Vec<Node>,
    ) -> (r: Result<(), Halt>)
        requires
            old(self).wf(),
        ensures
            match r {
                Ok(_) => old(self).level(*final(self)) && match expand_call(
                    name@,
                    macro_view(*mac),
                    call@,
                    old(self).ctx(*dir, *w),
                    old(self).env(),
                ) {
                    Ok((nodes, end)) => nodes_view(final(out)@) == nodes_view(old(out)@) + nodes
                        && end == final(self).env(),
                    Err(_) => false,
                },
                Err(h) => expand_call(
                    name@,
                    macro_view(*mac),
                    call@,
                    old(self).ctx(*dir, *w),
                    old(self).env(),
                ) == Err::<(Seq<NodeV>, Env), HaltV>(h@),
            },
        decreases MAX_DEPTH - old(self).depth, usize::MAX - old(self).blocks, call, 0nat,
    {
        if self.depth + 1 > MAX_DEPTH {
            return Err(halt_macro(name, &chars_of("recursion depth exceeded (64)")));
        }
        let scope = match self.bind_call(name, mac, call, dir, w) {
            Ok(s) => s,
            Err(h) => {
                return Err(h);
            },
        };
        let body_dir = match &mac.dir {
            Some(d) => Some(copy_text(d)),
            None => copy_opt(dir),
        };
        let ghost before = self.env();
        let ghost sv = scope_view(scope);
        let blocks: usize = self.blocks;
        self.depth = self.depth + 1;
        self.blocks = 0;
        self.scopes.push(scope);
        assert(self.env().scopes =~= before.scopes.push(sv));
        match self.process_children(&mac.body, &body_dir, w) {
            Err(h) => Err(h),
            Ok(nodes) => {
                let ghost end = self.env();
                let _frame = self.scopes.pop();
                self.depth = self.depth - 1;
                self.blocks = blocks;
                assert(self.env().scopes =~= end.scopes.drop_last());
                append_nodes(out, nodes);
                Ok(())
            },
        }
    }
}

/// Position of the first attribute named `key`.
fn find_attr(attrs: &Vec<Attr>, key: &Vec<char>) -> (r: Option<usize>)
    ensures
        match r {
            Some(i) => i < attrs.len() && attr_position(attrs_view(attrs@), key@, 0) == Some(
                i as int,
            ),
            None => attr_position(attrs_view(attrs@), key@, 0) is None,
        },
{
    let mut i: usize = 0;
    while i < attrs.len()
        invariant
            i <= attrs.len(),
            attr_position(attrs_view(attrs@), key@, 0) == attr_position(
                attrs_view(attrs@),
                key@,
                i as int,
            ),
        decreases attrs.len() - i,
    {
        if same_text(&attrs[i].key, key) {
            return Some(i);
        }
        i = i + 1;
    }
    None
}

/// Appends some nodes.
fn append_nodes(out: &mut Vec<Node>, nodes: Vec<Node>)
    ensures
        nodes_view(final(out)@) == nodes_view(old(out)@) + nodes_view(nodes@),
{
    let mut rest = nodes;
    let ghost a = out@;
    let ghost b = rest@;
    out.append(&mut rest);
    proof {
        assert(out@ =~= a + b);
        lemma_nodes_view(a);
        lemma_nodes_view(b);
        lemma_nodes_view(out@);
        assert forall|i: int| 0 <= i < out@.len() implies nodes_view(out@)[i] == (nodes_view(a)
            + nodes_view(b))[i] by {
            assert(nodes_view(out@)[i] == node_view(out@[i]));
            if i < a.len() {
                assert(nodes_view(a)[i] == node_view(a[i]));
            } else {
                assert(nodes_view(b)[i - a.len()] == node_view(b[i - a.len()]));
            }
        }
        assert(nodes_view(out@) =~= nodes_view(a) + nodes_view(b));
    }
}

/// Expands a document to its tree.
fn expand_tree(text: &Vec<char>, dir: &Option<Vec<char>>, w: &World) -> (r: Result<Element, Halt>)
    ensures
        match r {
            Ok(e) => expand_root(text@, opt_text(*dir), w@) == Ok::<ElementV, HaltV>(e@),
            Err(h) => expand_root(text@, opt_text(*dir), w@) == Err::<ElementV, HaltV>(h@),
        },
{
    let root = match parse_xml(text) {
        Ok(e) => e,
        Err(e) => {
            return Err(Halt::Fault(e));
        },
    };
    let mut ex = Expander::new();
    let ghost cx = ex.ctx(*dir, *w);
    let children = match ex.process_children(&root.children, dir, w) {
        Ok(c) => c,
        Err(h) => {
            return Err(h);
        },
    };
    let skip = Some(chars_of("xmlns:xacro"));
    match substitute_attrs(&root.attrs, &skip, dir, &ex.scopes, w, Ghost(cx)) {
        Ok(attrs) => Ok(Element { name: root.name, attrs, children }),
        Err(h) => Err(h),
    }
}

/// A directory as a text.
fn dir_text(dir: Option<&str>) -> (r: Option<Vec<char>>)
    ensures
        opt_text(r) == (match dir {
            Some(d) => Some(d@),
            None => None,
        }),
{
    match dir {
        Some(d) => Some(chars_of(d)),
        None => None,
    }
}

/// Expands a xacro text to plain URDF. `dir` is the directory of its file. Where
/// a package or a file is wanted that `world` does not hold, the result names it;
/// expanding again with the reply in `world` goes on.
pub fn expand(text: &str, dir: Option<&str>, world: &World) -> (r: Result<Expansion, XacroError>)
    ensures
        ({
            let d = match dir {
                Some(d) => Some(d@),
                None => None,
            };
            match r {
                Ok(Expansion::Done(t)) => expand_text(text@, d, world@) == Ok::<Seq<char>, HaltV>(
                    t@,
                ),
                Ok(Expansion::Needs(q)) => expand_text(text@, d, world@) == Err::<
                    Seq<char>,
                    HaltV,
                >(request_view(q)),
                Err(e) => expand_text(text@, d, world@) == Err::<Seq<char>, HaltV>(
                    HaltV::Fault(e@),
                ),
            }
        }),
{
    let t = chars_of(text);
    let d = dir_text(dir);
    match expand_tree(&t, &d, world) {
        Ok(e) => {
            let mut out = chars_of("<?xml version=\"1.0\"?>\n");
            write_element(&mut out, &e);
            Ok(Expansion::Done(string_of(&out)))
        },
        Err(Halt::Fault(e)) => Err(e),
        Err(Halt::Need(q)) => Ok(Expansion::Needs(q)),
    }
}

} // verus!
