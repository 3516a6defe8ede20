//! Serialising a document tree.

use vstd::prelude::*;

use crate::text::{push_lit, push_text};
use crate::xacro::xml::{has_char, Attr, Element, Node};
#[allow(unused_imports)]
use crate::xacro::xml::{attrs_view, lemma_nodes_view, node_view, nodes_view, ElementV, NodeV};

verus! {

/// `v` with every double quote written as an entity.
pub open spec fn quotes_escaped(v: Seq<char>) -> Seq<char>
    decreases v.len(),
{
    if v.len() == 0 {
        Seq::empty()
    } else if v.last() == '"' {
        quotes_escaped(v.drop_last()) + "&quot;"@
    } else {
        quotes_escaped(v.drop_last()).push(v.last())
    }
}

/// An attribute value in a quote style that stays valid.
pub open spec fn quoted(v: Seq<char>) -> Seq<char> {
    if !v.contains('"') {
        seq!['"'] + v + seq!['"']
    } else if !v.contains('\'') {
        seq!['\''] + v + seq!['\'']
    } else {
        seq!['"'] + quotes_escaped(v) + seq!['"']
    }
}

pub open spec fn written_attrs(a: Seq<(Seq<char>, Seq<char>)>) -> Seq<char>
    decreases a.len(),
{
    if a.len() == 0 {
        Seq::empty()
    } else {
        written_attrs(a.drop_last()) + seq![' '] + a.last().0 + seq!['='] + quoted(a.last().1)
    }
}

pub open spec fn written_node(n: NodeV) -> Seq<char>
    decreases n,
{
    match n {
        NodeV::Text(t) => t,
        NodeV::Element(e) => written_element(e),
    }
}

pub open spec fn written_element(e: ElementV) -> Seq<char>
    decreases e,
{
    let head = seq!['<'] + e.name + written_attrs(e.attrs);
    if e.children.len() == 0 {
        head + "/>"@
    } else {
        head + seq!['>'] + written_nodes(e.children) + "</"@ + e.name + seq!['>']
    }
}

pub open spec fn written_nodes(s: Seq<NodeV>) -> Seq<char>
    decreases s,
{
    if s.len() == 0 {
        Seq::empty()
    } else {
        written_nodes(s.subrange(0, s.len() - 1)) + written_node(s[s.len() - 1])
    }
}

fn push_escaped(out: &mut Vec<char>, v: &Vec<char>)
    ensures
        final(out)@ == old(out)@ + quotes_escaped(v@),
{
    let ghost start = out@;
    let mut i: usize = 0;
    while i < v.len()
        invariant
            i <= v.len(),
            out@ == start + quotes_escaped(v@.take(i as int)),
        decreases v.len() - i,
    {
        proof {
            assert(v@.take(i + 1).drop_last() =~= v@.take(i as int));
            assert(v@.take(i + 1).last() == v@[i as int]);
        }
        if v[i] == '"' {
            push_lit(out, "&quot;");
        } else {
            out.push(v[i]);
        }
        i = i + 1;
    }
    assert(v@.take(v@.len() as int) =~= v@);
}

fn push_quoted(out: &mut Vec<char>, v: &Vec<char>)
    ensures
        final(out)@ == old(out)@ + quoted(v@),
{
    let ghost start = out@;
    if !has_char(v, '"') {
        out.push('"');
        push_text(out, v);
        out.push('"');
        assert(out@ =~= start + (seq!['"'] + v@ + seq!['"']));
    } else if !has_char(v, '\'') {
        out.push('\'');
        push_text(out, v);
        out.push('\'');
        assert(out@ =~= start + (seq!['\''] + v@ + seq!['\'']));
    } else {
        out.push('"');
        push_escaped(out, v);
        out.push('"');
        assert(out@ =~= start + (seq!['"'] + quotes_escaped(v@) + seq!['"']));
    }
}

fn push_attrs(out: &mut Vec<char>, attrs: &Vec<Attr>)
    ensures
        final(out)@ == old(out)@ + written_attrs(attrs_view(attrs@)),
{
    let ghost start = out@;
    let ghost all = attrs_view(attrs@);
    let mut i: usize = 0;
    while i < attrs.len()
        invariant
            i <= attrs.len(),
            all == attrs_view(attrs@),
            out@ == start + written_attrs(all.take(i as int)),
        decreases attrs.len() - i,
    {
        let ghost before = out@;
        out.push(' ');
        push_text(out, &attrs[i].key);
        out.push('=');
        push_quoted(out, &attrs[i].value);
        proof {
            let a = all.take(i + 1);
            assert(a.drop_last() =~= all.take(i as int));
            assert(a.last() == (attrs@[i as int].key@, attrs@[i as int].value@));
            assert(out@ =~= start + (written_attrs(a.drop_last()) + seq![' '] + a.last().0 + seq![
                '=',
            ] + quoted(a.last().1)));
        }
        i = i + 1;
    }
    assert(all.take(all.len() as int) =~= all);
}

/// Appends a node.
pub fn write_node(out: &mut Vec<char>, n: &Node)
    ensures
        final(out)@ == old(out)@ + written_node(n@),
    decreases n,
{
    match n {
        Node::Text(t) => push_text(out, t),
        Node::Element(e) => write_element(out, e),
    }
}

/// Appends an element.
pub fn write_element(out: &mut Vec<char>, e: &Element)
    ensures
        final(out)@ == old(out)@ + written_element(e@),
    decreases e,
{
    let ghost start = out@;
    let ghost ev = e@;
    out.push('<');
    push_text(out, &e.name);
    push_attrs(out, &e.attrs);
    let ghost head = seq!['<'] + ev.name + written_attrs(ev.attrs);
    assert(out@ =~= start + head);
    proof {
        lemma_nodes_view(e.children@);
    }
    if e.children.len() == 0 {
        push_lit(out, "/>");
        assert(out@ =~= start + (head + "/>"@));
    } else {
        out.push('>');
        let mut i: usize = 0;
        assert(out@ =~= start + head + seq!['>'] + written_nodes(ev.children.take(0)));
        while i < e.children.len()
            invariant
                i <= e.children.len(),
                ev == e@,
                ev.children.len() == e.children.len(),
                ev.children == nodes_view(e.children@),
                out@ == start + head + seq!['>'] + written_nodes(ev.children.take(i as int)),
            decreases e.children.len() - i,
        {
            let ghost before = out@;
            write_node(out, &e.children[i]);
            proof {
                lemma_nodes_view(e.children@);
                let c = ev.children.take(i + 1);
                assert(c.subrange(0, c.len() - 1) =~= ev.children.take(i as int));
                assert(c[c.len() - 1] == node_view(e.children@[i as int]));
                assert(out@ =~= start + head + seq!['>'] + (written_nodes(
                    ev.children.take(i as int),
                ) + written_node(c[c.len() - 1])));
            }
            i = i + 1;
        }
        assert(ev.children.take(ev.children.len() as int) =~= ev.children);
        push_lit(out, "</");
        push_text(out, &e.name);
        out.push('>');
        assert(out@ =~= start + (head + seq!['>'] + written_nodes(ev.children) + "</"@ + ev.name
            + seq!['>']));
    }
}

} // verus!
