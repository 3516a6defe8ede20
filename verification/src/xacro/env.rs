//! What is in scope while a document expands: properties, block arguments, macros.

use vstd::prelude::*;

use crate::text::{copy_text, same_text};
use crate::xacro::xml::{Attr, Element, Node};
#[allow(unused_imports)]
use crate::xacro::xml::{attrs_view, lemma_nodes_push, lemma_nodes_view, nodes_view, NodeV};

verus! {

/// A named text.
pub struct Prop {
    pub name: Vec<char>,
    pub value: Vec<char>,
}

/// A named block argument.
pub struct Block {
    pub name: Vec<char>,
    pub nodes: Vec<Node>,
}

/// One frame of the scope stack. A later entry shadows an earlier one.
pub struct Scope {
    pub props: Vec<Prop>,
    pub blocks: Vec<Block>,
}

/// A macro parameter.
pub struct Param {
    pub name: Vec<char>,
    pub default: Option<Vec<char>>,
    pub block: bool,
}

/// A macro: its parameters, its raw body, and the directory it was written in.
pub struct Macro {
    pub params: Vec<Param>,
    pub body: Vec<Node>,
    pub dir: Option<Vec<char>>,
}

/// A named macro.
pub struct MacroDef {
    pub name: Vec<char>,
    pub def: Macro,
}

/// `Scope` over character sequences.
pub struct ScopeV {
    pub props: Map<Seq<char>, Seq<char>>,
    pub blocks: Map<Seq<char>, Seq<NodeV>>,
}

/// `Param` over character sequences.
pub struct ParamV {
    pub name: Seq<char>,
    pub default: Option<Seq<char>>,
    pub block: bool,
}

/// `Macro` over character sequences.
pub struct MacroV {
    pub params: Seq<ParamV>,
    pub body: Seq<NodeV>,
    pub dir: Option<Seq<char>>,
}

/// The scope stack, global frame first, and the macros.
pub struct Env {
    pub scopes: Seq<ScopeV>,
    pub macros: Map<Seq<char>, MacroV>,
}

pub open spec fn opt_text(d: Option<Vec<char>>) -> Option<Seq<char>> {
    match d {
        Some(t) => Some(t@),
        None => None,
    }
}

pub open spec fn props_view(s: Seq<Prop>) -> Map<Seq<char>, Seq<char>>
    decreases s.len(),
{
    if s.len() == 0 {
        Map::empty()
    } else {
        props_view(s.drop_last()).insert(s.last().name@, s.last().value@)
    }
}

pub open spec fn blocks_view(s: Seq<Block>) -> Map<Seq<char>, Seq<NodeV>>
    decreases s.len(),
{
    if s.len() == 0 {
        Map::empty()
    } else {
        blocks_view(s.drop_last()).insert(s.last().name@, nodes_view(s.last().nodes@))
    }
}

pub open spec fn scope_view(s: Scope) -> ScopeV {
    ScopeV { props: props_view(s.props@), blocks: blocks_view(s.blocks@) }
}

pub open spec fn scopes_view(s: Seq<Scope>) -> Seq<ScopeV> {
    Seq::new(s.len(), |i: int| scope_view(s[i]))
}

pub open spec fn params_view(s: Seq<Param>) -> Seq<ParamV> {
    Seq::new(
        s.len(),
        |i: int|
            ParamV { name: s[i].name@, default: opt_text(s[i].default), block: s[i].block },
    )
}

pub open spec fn macro_view(m: Macro) -> MacroV {
    MacroV {
        params: params_view(m.params@),
        body: nodes_view(m.body@),
        dir: opt_text(m.dir),
    }
}

pub open spec fn macros_view(s: Seq<MacroDef>) -> Map<Seq<char>, MacroV>
    decreases s.len(),
{
    if s.len() == 0 {
        Map::empty()
    } else {
        macros_view(s.drop_last()).insert(s.last().name@, macro_view(s.last().def))
    }
}

/// The value of a property: the innermost scope that has it decides.
pub open spec fn lookup(scopes: Seq<ScopeV>, name: Seq<char>) -> Option<Seq<char>>
    decreases scopes.len(),
{
    if scopes.len() == 0 {
        None
    } else if scopes.last().props.dom().contains(name) {
        Some(scopes.last().props[name])
    } else {
        lookup(scopes.drop_last(), name)
    }
}

/// The nodes of a block argument: the innermost scope that has it decides.
pub open spec fn lookup_block(scopes: Seq<ScopeV>, name: Seq<char>) -> Option<Seq<NodeV>>
    decreases scopes.len(),
{
    if scopes.len() == 0 {
        None
    } else if scopes.last().blocks.dom().contains(name) {
        Some(scopes.last().blocks[name])
    } else {
        lookup_block(scopes.drop_last(), name)
    }
}

fn find_prop<'a>(props: &'a Vec<Prop>, name: &Vec<char>) -> (r: Option<&'a Vec<char>>)
    ensures
        match r {
            Some(v) => props_view(props@).dom().contains(name@) && props_view(props@)[name@] == v@,
            None => !props_view(props@).dom().contains(name@),
        },
{
    let mut i: usize = props.len();
    assert(props@.take(i as int) =~= props@);
    while i > 0
        invariant
            i <= props.len(),
            props_view(props@).dom().contains(name@) == props_view(
                props@.take(i as int),
            ).dom().contains(name@),
            props_view(props@).dom().contains(name@) ==> props_view(props@)[name@] == props_view(
                props@.take(i as int),
            )[name@],
        decreases i,
    {
        i = i - 1;
        assert(props@.take(i + 1).drop_last() =~= props@.take(i as int));
        assert(props@.take(i + 1).last() == props@[i as int]);
        if same_text(&props[i].name, name) {
            return Some(&props[i].value);
        }
    }
    None
}

fn find_block<'a>(blocks: &'a Vec<Block>, name: &Vec<char>) -> (r: Option<&'a Vec<Node>>)
    ensures
        match r {
            Some(v) => blocks_view(blocks@).dom().contains(name@) && blocks_view(blocks@)[name@]
                == nodes_view(v@),
            None => !blocks_view(blocks@).dom().contains(name@),
        },
{
    let mut i: usize = blocks.len();
    assert(blocks@.take(i as int) =~= blocks@);
    while i > 0
        invariant
            i <= blocks.len(),
            blocks_view(blocks@).dom().contains(name@) == blocks_view(
                blocks@.take(i as int),
            ).dom().contains(name@),
            blocks_view(blocks@).dom().contains(name@) ==> blocks_view(blocks@)[name@]
                == blocks_view(blocks@.take(i as int))[name@],
        decreases i,
    {
        i = i - 1;
        assert(blocks@.take(i + 1).drop_last() =~= blocks@.take(i as int));
        assert(blocks@.take(i + 1).last() == blocks@[i as int]);
        if same_text(&blocks[i].name, name) {
            return Some(&blocks[i].nodes);
        }
    }
    None
}

/// The macro of that name.
pub fn find_macro<'a>(macros: &'a Vec<MacroDef>, name: &Vec<char>) -> (r: Option<&'a Macro>)
    ensures
        match r {
            Some(m) => macros_view(macros@).dom().contains(name@) && macros_view(macros@)[name@]
                == macro_view(*m),
            None => !macros_view(macros@).dom().contains(name@),
        },
{
    let mut i: usize = macros.len();
    assert(macros@.take(i as int) =~= macros@);
    while i > 0
        invariant
            i <= macros.len(),
            macros_view(macros@).dom().contains(name@) == macros_view(
                macros@.take(i as int),
            ).dom().contains(name@),
            macros_view(macros@).dom().contains(name@) ==> macros_view(macros@)[name@]
                == macros_view(macros@.take(i as int))[name@],
        decreases i,
    {
        i = i - 1;
        assert(macros@.take(i + 1).drop_last() =~= macros@.take(i as int));
        assert(macros@.take(i + 1).last() == macros@[i as int]);
        if same_text(&macros[i].name, name) {
            return Some(&macros[i].def);
        }
    }
    None
}

/// The value of a property in the scope stack.
pub fn lookup_prop<'a>(scopes: &'a Vec<Scope>, name: &Vec<char>) -> (r: Option<&'a Vec<char>>)
    ensures
        match r {
            Some(v) => lookup(scopes_view(scopes@), name@) == Some(v@),
            None => lookup(scopes_view(scopes@), name@) is None,
        },
{
    let ghost all = scopes_view(scopes@);
    let mut i: usize = scopes.len();
    assert(all.take(i as int) =~= all);
    while i > 0
        invariant
            i <= scopes.len(),
            all == scopes_view(scopes@),
            lookup(all, name@) == lookup(all.take(i as int), name@),
        decreases i,
    {
        i = i - 1;
        assert(all.take(i + 1).drop_last() =~= all.take(i as int));
        match find_prop(&scopes[i].props, name) {
            Some(v) => {
                return Some(v);
            },
            None => {},
        }
    }
    None
}

/// The nodes of a block argument in the scope stack.
pub fn lookup_block_nodes<'a>(scopes: &'a Vec<Scope>, name: &Vec<char>) -> (r: Option<
    &'a Vec<Node>,
>)
    ensures
        match r {
            Some(v) => lookup_block(scopes_view(scopes@), name@) == Some(nodes_view(v@)),
            None => lookup_block(scopes_view(scopes@), name@) is None,
        },
{
    let ghost all = scopes_view(scopes@);
    let mut i: usize = scopes.len();
    assert(all.take(i as int) =~= all);
    while i > 0
        invariant
            i <= scopes.len(),
            all == scopes_view(scopes@),
            lookup_block(all, name@) == lookup_block(all.take(i as int), name@),
        decreases i,
    {
        i = i - 1;
        assert(all.take(i + 1).drop_last() =~= all.take(i as int));
        match find_block(&scopes[i].blocks, name) {
            Some(v) => {
                return Some(v);
            },
            None => {},
        }
    }
    None
}

fn copy_attrs(a: &Vec<Attr>) -> (r: Vec<Attr>)
    ensures
        attrs_view(r@) == attrs_view(a@),
{
    let mut r: Vec<Attr> = Vec::new();
    let mut i: usize = 0;
    while i < a.len()
        invariant
            i <= a.len(),
            r.len() == i,
            forall|k: int|
                0 <= k < i ==> (#[trigger] r@[k]).key@ == a@[k].key@ && r@[k].value@
                    == a@[k].value@,
        decreases a.len() - i,
    {
        r.push(Attr { key: copy_text(&a[i].key), value: copy_text(&a[i].value) });
        i = i + 1;
    }
    assert(attrs_view(r@) =~= attrs_view(a@));
    r
}

/// A copy of a node.
pub fn copy_node(n: &Node) -> (r: Node)
    ensures
        r@ == n@,
    decreases n,
{
    match n {
        Node::Text(t) => Node::Text(copy_text(t)),
        Node::Element(e) => Node::Element(copy_element(e)),
    }
}

/// A copy of an element.
pub fn copy_element(e: &Element) -> (r: Element)
    ensures
        r@ == e@,
    decreases e,
{
    Element {
        name: copy_text(&e.name),
        attrs: copy_attrs(&e.attrs),
        children: copy_nodes(&e.children),
    }
}

/// A copy of some nodes.
pub fn copy_nodes(nodes: &Vec<Node>) -> (r: Vec<Node>)
    ensures
        nodes_view(r@) == nodes_view(nodes@),
    decreases nodes,
{
    let mut r: Vec<Node> = Vec::new();
    let mut i: usize = 0;
    let ghost all = nodes_view(nodes@);
    while i < nodes.len()
        invariant
            i <= nodes.len(),
            all == nodes_view(nodes@),
            nodes_view(r@) == all.take(i as int),
        decreases nodes.len() - i,
    {
        let ghost before = r@;
        let c = copy_node(&nodes[i]);
        proof {
            lemma_nodes_push(before, c);
            lemma_nodes_view(nodes@);
            assert(all.take(i + 1) =~= all.take(i as int).push(all[i as int]));
        }
        r.push(c);
        i = i + 1;
    }
    proof {
        lemma_nodes_view(nodes@);
        assert(all.take(all.len() as int) =~= all);
    }
    r
}

/// A copy of an optional text.
pub fn copy_opt(d: &Option<Vec<char>>) -> (r: Option<Vec<char>>)
    ensures
        opt_text(r) == opt_text(*d),
{
    match d {
        Some(t) => Some(copy_text(t)),
        None => None,
    }
}

/// A copy of a macro.
pub fn copy_macro(m: &Macro) -> (r: Macro)
    ensures
        macro_view(r) == macro_view(*m),
{
    let mut params: Vec<Param> = Vec::new();
    let mut i: usize = 0;
    while i < m.params.len()
        invariant
            i <= m.params.len(),
            params.len() == i,
            forall|k: int| 0 <= k < i ==> params_view(params@)[k] == params_view(m.params@)[k],
        decreases m.params.len() - i,
    {
        let ghost before = params@;
        let p = &m.params[i];
        params.push(
            Param { name: copy_text(&p.name), default: copy_opt(&p.default), block: p.block },
        );
        assert forall|k: int| 0 <= k < i + 1 implies params_view(params@)[k] == params_view(
            m.params@,
        )[k] by {
            if k < i {
                assert(params_view(before)[k] == params_view(m.params@)[k]);
            }
        }
        i = i + 1;
    }
    assert(params_view(params@) =~= params_view(m.params@));
    Macro { params, body: copy_nodes(&m.body), dir: copy_opt(&m.dir) }
}

} // verus!
