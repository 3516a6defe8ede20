//! Reading a written tree back.

use vstd::prelude::*;

#[allow(unused_imports)]
use crate::text::{looking_at, skip_space};
#[allow(unused_imports)]
use crate::xacro::error::Fault;
#[allow(unused_imports)]
use crate::xacro::laws::{plain_node, plain_nodes};
#[allow(unused_imports)]
use crate::xacro::tidy::{
    is_name, lemma_find_first, lemma_first, lemma_looking, lemma_name_ends, lemma_no_space,
    lemma_one, lemma_stands_parts, lemma_start_tag, lemma_tidy_part, stands, tidy_attrs,
    tidy_element, tidy_node, tidy_nodes, tidy_text, tidy_value,
};
#[allow(unused_imports)]
use crate::xacro::write::{
    quoted, written_attrs, written_element, written_node, written_nodes,
};
#[allow(unused_imports)]
use crate::xacro::xml::{
    is_name_char, parse_attr, parse_attrs, parse_children, parse_element, parse_name, parse_piece,
    ElementV, NodeV, Piece,
};

verus! {

// ---- attributes ----

/// One attribute as it is written.
pub open spec fn written_attr(a: (Seq<char>, Seq<char>)) -> Seq<char> {
    seq![' '] + a.0 + seq!['='] + quoted(a.1)
}

proof fn lemma_attrs_from_front(a: Seq<(Seq<char>, Seq<char>)>)
    requires
        a.len() > 0,
    ensures
        written_attrs(a) == written_attr(a[0]) + written_attrs(a.subrange(1, a.len() as int)),
    decreases a.len(),
{
    let rest = a.subrange(1, a.len() as int);
    if a.len() == 1 {
        assert(written_attrs(a.drop_last()) =~= Seq::<char>::empty());
        assert(written_attrs(rest) =~= Seq::<char>::empty());
        assert(written_attrs(a) =~= written_attr(a[0]) + written_attrs(rest));
    } else {
        let front = a.drop_last();
        lemma_attrs_from_front(front);
        assert(front.subrange(1, front.len() as int) =~= rest.drop_last());
        assert(written_attrs(a) =~= written_attr(a[0]) + written_attrs(rest));
    }
}

/// An attribute that is written at a place is read there.
proof fn lemma_attr_reread(s: Seq<char>, p: int, key: Seq<char>, value: Seq<char>)
    requires
        is_name(key),
        tidy_value(value),
        stands(s, p, key + seq!['='] + quoted(value)),
    ensures
        parse_attr(s, p) == Ok::<_, Fault>(
            (key, value, p + key.len() + 1 + quoted(value).len()),
        ),
{
    reveal(stands);
    reveal_strlit("=");
    let q = if !value.contains('"') {
        '"'
    } else {
        '\''
    };
    assert(quoted(value) == seq![q] + value + seq![q]);
    lemma_stands_parts(s, p, key + seq!['='], quoted(value));
    lemma_stands_parts(s, p, key, seq!['=']);
    let ke = p + key.len();
    lemma_stands_parts(s, ke + 1, seq![q] + value, seq![q]);
    lemma_stands_parts(s, ke + 1, seq![q], value);
    let end = ke + 2 + value.len();
    assert(s[ke] == '=') by {
        assert(s[ke + 0] == seq!['='][0]);
    }
    assert(s[ke + 1] == q) by {
        assert(s[ke + 1 + 0] == seq![q][0]);
    }
    assert(s[end] == q) by {
        assert(s[end + 0] == seq![q][0]);
    }
    assert forall|i: int| p <= i < ke implies is_name_char(#[trigger] s[i]) by {
        assert(s[p + (i - p)] == key[i - p]);
    }
    lemma_name_ends(s, p, ke);
    lemma_no_space(s, ke);
    lemma_no_space(s, ke + 1);
    assert("="@ =~= seq!['=']);
    lemma_one(s, ke, '=');
    assert forall|i: int| ke + 2 <= i < end implies !#[trigger] looking_at(s, i, seq![q]) by {
        lemma_one(s, i, q);
        assert(s[ke + 2 + (i - ke - 2)] == value[i - ke - 2]);
    }
    lemma_one(s, end, q);
    lemma_find_first(s, ke + 2, end, seq![q]);
    assert(s.subrange(p, ke) =~= key) by {
        assert forall|i: int| 0 <= i < key.len() implies s.subrange(p, ke)[i] == key[i] by {
            assert(s[p + i] == key[i]);
        }
    }
    assert(s.subrange(ke + 2, end) =~= value) by {
        assert forall|i: int| 0 <= i < value.len() implies s.subrange(ke + 2, end)[i]
            == value[i] by {
            assert(s[ke + 2 + i] == value[i]);
        }
    }
}

/// How a start tag ends.
pub open spec fn tag_end(closed: bool) -> Seq<char> {
    if closed {
        "/>"@
    } else {
        ">"@
    }
}

proof fn lemma_attrs_reread(
    s: Seq<char>,
    pos: int,
    attrs: Seq<(Seq<char>, Seq<char>)>,
    closed: bool,
    acc: Seq<(Seq<char>, Seq<char>)>,
)
    requires
        tidy_attrs(attrs),
        stands(s, pos, written_attrs(attrs) + tag_end(closed)),
    ensures
        parse_attrs(s, pos, acc) == Ok::<_, Fault>(
            (acc + attrs, closed, pos + written_attrs(attrs).len() + tag_end(closed).len()),
        ),
    decreases attrs.len(),
{
    reveal(stands);
    reveal_strlit("/>");
    reveal_strlit(">");
    lemma_stands_parts(s, pos, written_attrs(attrs), tag_end(closed));
    if attrs.len() == 0 {
        assert(written_attrs(attrs) =~= Seq::<char>::empty());
        assert(s[pos + 0] == tag_end(closed)[0]);
        lemma_no_space(s, pos);
        lemma_looking(s, pos, "/>"@);
        lemma_looking(s, pos, ">"@);
        if !closed {
            assert(s[pos] == '>');
            assert(!stands(s, pos, "/>"@)) by {
                if stands(s, pos, "/>"@) {
                    assert(s[pos + 0] == "/>"@[0]);
                }
            }
        }
        assert(acc + attrs =~= acc);
    } else {
        let a = attrs[0];
        let rest = attrs.subrange(1, attrs.len() as int);
        lemma_attrs_from_front(attrs);
        assert(is_name(a.0) && tidy_value(a.1));
        assert(tidy_attrs(rest)) by {
            assert forall|i: int| 0 <= i < rest.len() implies is_name((#[trigger] rest[i]).0)
                && tidy_value(rest[i].1) by {
                assert(rest[i] == attrs[i + 1]);
            }
        }
        let one = a.0 + seq!['='] + quoted(a.1);
        assert(written_attr(a) =~= seq![' '] + one);
        lemma_stands_parts(s, pos, written_attr(a), written_attrs(rest));
        lemma_stands_parts(s, pos, seq![' '], one);
        let next = pos + written_attr(a).len();
        lemma_stands_parts(s, next, written_attrs(rest), tag_end(closed));
        assert(s[pos] == ' ') by {
            assert(s[pos + 0] == seq![' '][0]);
        }
        let c = a.0[0];
        assert(s[pos + 1] == c) by {
            assert(s[pos + 1 + 0] == one[0]);
        }
        assert(is_name_char(c));
        lemma_no_space(s, pos + 1);
        assert(skip_space(s, pos) == pos + 1);
        lemma_looking(s, pos + 1, "/>"@);
        lemma_looking(s, pos + 1, ">"@);
        assert(!stands(s, pos + 1, "/>"@)) by {
            if stands(s, pos + 1, "/>"@) {
                assert(s[pos + 1 + 0] == "/>"@[0]);
            }
        }
        assert(!stands(s, pos + 1, ">"@)) by {
            if stands(s, pos + 1, ">"@) {
                assert(s[pos + 1 + 0] == ">"@[0]);
            }
        }
        lemma_attr_reread(s, pos + 1, a.0, a.1);
        lemma_attrs_reread(s, next, rest, closed, acc.push((a.0, a.1)));
        assert(acc.push((a.0, a.1)) + rest =~= acc + attrs);
    }
}

// ---- nodes ----

/// The nodes before a place are written before those behind it.
proof fn lemma_written_split(nodes: Seq<NodeV>, k: int)
    requires
        0 <= k <= nodes.len(),
    ensures
        written_nodes(nodes) == written_nodes(nodes.subrange(0, k)) + written_nodes(
            nodes.subrange(k, nodes.len() as int),
        ),
    decreases nodes.len(),
{
    let a = nodes.subrange(0, k);
    let b = nodes.subrange(k, nodes.len() as int);
    if k == nodes.len() {
        assert(a =~= nodes);
        assert(written_nodes(b) =~= Seq::<char>::empty());
        assert(written_nodes(nodes) =~= written_nodes(a) + written_nodes(b));
    } else {
        let front = nodes.subrange(0, nodes.len() - 1);
        lemma_written_split(front, k);
        assert(front.subrange(0, k) =~= a);
        assert(front.subrange(k, front.len() as int) =~= b.subrange(0, b.len() - 1));
        assert(written_nodes(nodes) =~= written_nodes(a) + written_nodes(b));
    }
}

/// How many texts stand at the front.
pub open spec fn lead(nodes: Seq<NodeV>) -> nat
    decreases nodes.len(),
{
    if nodes.len() == 0 {
        0
    } else {
        match nodes[0] {
            NodeV::Text(_) => 1 + lead(nodes.subrange(1, nodes.len() as int)),
            NodeV::Element(_) => 0,
        }
    }
}

proof fn lemma_lead(nodes: Seq<NodeV>)
    ensures
        lead(nodes) <= nodes.len(),
        forall|i: int| 0 <= i < lead(nodes) ==> (#[trigger] nodes[i]) is Text,
        lead(nodes) < nodes.len() ==> nodes[lead(nodes) as int] is Element,
    decreases nodes.len(),
{
    if nodes.len() > 0 && nodes[0] is Text {
        let rest = nodes.subrange(1, nodes.len() as int);
        lemma_lead(rest);
        assert forall|i: int| 0 <= i < lead(nodes) implies (#[trigger] nodes[i]) is Text by {
            if i > 0 {
                assert(nodes[i] == rest[i - 1]);
            }
        }
        if lead(nodes) < nodes.len() {
            assert(nodes[lead(nodes) as int] == rest[lead(rest) as int]);
        }
    }
}

/// Texts in a row are written as one text.
proof fn lemma_texts(nodes: Seq<NodeV>)
    requires
        tidy_nodes(nodes),
        forall|i: int| 0 <= i < nodes.len() ==> (#[trigger] nodes[i]) is Text,
        nodes.len() > 0,
    ensures
        tidy_text(written_nodes(nodes)),
    decreases nodes.len(),
{
    let front = nodes.subrange(0, nodes.len() - 1);
    let n = nodes[nodes.len() - 1];
    assert(tidy_node(n));
    match n {
        NodeV::Text(t) => {
            let w = written_nodes(front) + t;
            assert(written_node(n) == t);
            assert(written_nodes(nodes) == w);
            if front.len() > 0 {
                lemma_tidy_part(nodes, 0, nodes.len() - 1);
                assert forall|i: int| 0 <= i < front.len() implies (#[trigger] front[i]) is Text by {
                    assert(front[i] == nodes[i]);
                }
                lemma_texts(front);
            } else {
                assert(written_nodes(front) =~= Seq::<char>::empty());
            }
            lemma_has_not(written_nodes(front), t, '<');
            lemma_has_not(written_nodes(front), t, '$');
        },
        NodeV::Element(_) => {},
    }
}

proof fn lemma_has_not(a: Seq<char>, b: Seq<char>, c: char)
    requires
        !a.contains(c),
        !b.contains(c),
    ensures
        !(a + b).contains(c),
{
    if (a + b).contains(c) {
        let i = choose|i: int| 0 <= i < (a + b).len() && (a + b)[i] == c;
        if i < a.len() {
            assert(a[i] == c);
        } else {
            assert(b[i - a.len()] == c);
        }
    }
}

/// The end tag of an element.
pub open spec fn end_tag(name: Seq<char>) -> Seq<char> {
    "</"@ + name + seq!['>']
}

/// How an element is written begins with its name behind `<`.
pub proof fn lemma_written_head(e: ElementV)
    requires
        is_name(e.name),
    ensures
        written_element(e).len() >= 2,
        written_element(e)[0] == '<',
        written_element(e)[1] == e.name[0],
{
    let head = seq!['<'] + e.name + written_attrs(e.attrs);
    assert(head[0] == '<' && head[1] == e.name[0]);
    if e.children.len() == 0 {
        assert(written_element(e) == head + "/>"@);
    } else {
        let w = head + seq!['>'] + written_nodes(e.children) + "</"@ + e.name + seq!['>'];
        assert(written_element(e) == w);
        assert(w[0] == head[0] && w[1] == head[1]);
    }
}

/// A start tag up to its end.
pub open spec fn start_tag(e: ElementV) -> Seq<char> {
    seq!['<'] + e.name + written_attrs(e.attrs)
}

/// A start tag that is written at a place is read there.
proof fn lemma_start_reread(s: Seq<char>, pos: int, e: ElementV, closed: bool)
    requires
        is_name(e.name),
        tidy_attrs(e.attrs),
        stands(s, pos, start_tag(e) + tag_end(closed)),
    ensures
        looking_at(s, pos, "<"@),
        !looking_at(s, pos + 1, "$"@),
        parse_name(s, pos + 1) == Ok::<_, Fault>(pos + 1 + e.name.len()),
        s.subrange(pos + 1, pos + 1 + e.name.len()) == e.name,
        parse_attrs(s, pos + 1 + e.name.len(), Seq::empty()) == Ok::<_, Fault>(
            (e.attrs, closed, pos + start_tag(e).len() + tag_end(closed).len()),
        ),
{
    reveal(stands);
    reveal_strlit("/>");
    reveal_strlit(">");
    let ne = pos + 1 + e.name.len();
    lemma_stands_parts(s, pos, start_tag(e), tag_end(closed));
    lemma_stands_parts(s, pos, seq!['<'] + e.name, written_attrs(e.attrs));
    lemma_stands_parts(s, pos, seq!['<'], e.name);
    lemma_stands_parts(s, ne, written_attrs(e.attrs), tag_end(closed));
    assert(s[pos + 0] == seq!['<'][0]);
    assert(s[pos + 1 + 0] == e.name[0]);
    lemma_start_tag(s, pos);
    let after = written_attrs(e.attrs) + tag_end(closed);
    assert(!is_name_char(after[0])) by {
        if e.attrs.len() > 0 {
            lemma_attrs_from_front(e.attrs);
            assert(written_attr(e.attrs[0])[0] == ' ');
            assert(after[0] == ' ');
        } else {
            assert(written_attrs(e.attrs) =~= Seq::<char>::empty());
            assert(after[0] == tag_end(closed)[0]);
        }
    }
    assert(s[ne + 0] == after[0]);
    assert forall|i: int| pos + 1 <= i < ne implies is_name_char(#[trigger] s[i]) by {
        assert(s[pos + 1 + (i - pos - 1)] == e.name[i - pos - 1]);
    }
    lemma_name_ends(s, pos + 1, ne);
    let name = s.subrange(pos + 1, ne);
    assert(name =~= e.name) by {
        assert forall|i: int| 0 <= i < e.name.len() implies name[i] == e.name[i] by {
            assert(s[pos + 1 + i] == e.name[i]);
        }
    }
    lemma_attrs_reread(s, ne, e.attrs, closed, Seq::empty());
    assert(Seq::<(Seq<char>, Seq<char>)>::empty() + e.attrs =~= e.attrs);
}

/// A start tag and what is read behind it make an element.
proof fn lemma_tag_and_children(
    s: Seq<char>,
    pos: int,
    e: ElementV,
    closed: bool,
    p: int,
    c: Seq<NodeV>,
    q: int,
)
    requires
        looking_at(s, pos, "<"@),
        !looking_at(s, pos + 1, "$"@),
        parse_name(s, pos + 1) == Ok::<_, Fault>(pos + 1 + e.name.len()),
        s.subrange(pos + 1, pos + 1 + e.name.len()) == e.name,
        parse_attrs(s, pos + 1 + e.name.len(), Seq::empty()) == Ok::<_, Fault>(
            (e.attrs, closed, p),
        ),
        closed ==> c == Seq::<NodeV>::empty() && q == p,
        !closed ==> pos < p <= s.len() && parse_children(s, p, e.name, Seq::empty()) == Ok::<
            _,
            Fault,
        >((c, q)),
    ensures
        parse_element(s, pos) == Ok::<_, Fault>(
            (ElementV { name: e.name, attrs: e.attrs, children: c }, q),
        ),
{
    reveal_strlit("<");
}

/// An element with other children that are alike.
#[verifier::opaque]
pub open spec fn alike_element(f: ElementV, e: ElementV) -> bool {
    &&& f.name == e.name
    &&& f.attrs == e.attrs
    &&& tidy_element(f)
    &&& written_element(f) == written_element(e)
    &&& plain_nodes(e.children) ==> plain_nodes(f.children)
}

/// An element is written by its name, its attributes and how its children are written.
proof fn lemma_written_alike(e: ElementV, c: Seq<NodeV>)
    requires
        tidy_element(e),
        alike(c, e.children),
    ensures
        alike_element(ElementV { name: e.name, attrs: e.attrs, children: c }, e),
{
    reveal(alike);
    reveal(alike_element);
}

/// How an element without children is written.
proof fn lemma_written_closed(e: ElementV)
    requires
        e.children.len() == 0,
    ensures
        written_element(e) == start_tag(e) + tag_end(true),
        alike(Seq::empty(), e.children),
{
    reveal(alike);
    assert(e.children =~= Seq::<NodeV>::empty());
}

/// How an element with children is written.
proof fn lemma_written_open(e: ElementV)
    requires
        e.children.len() > 0,
    ensures
        written_element(e) == start_tag(e) + tag_end(false) + (written_nodes(e.children) + end_tag(
            e.name,
        )),
{
    reveal_strlit(">");
    assert(written_element(e) =~= start_tag(e) + tag_end(false) + (written_nodes(e.children)
        + end_tag(e.name)));
}

/// An element that is written at a place is read there: the same name and attributes,
/// and children that are written in the same way.
#[verifier::spinoff_prover]
#[verifier::rlimit(60)]
pub proof fn lemma_element_reread(s: Seq<char>, pos: int, e: ElementV) -> (f: ElementV)
    requires
        tidy_element(e),
        stands(s, pos, written_element(e)),
    ensures
        parse_element(s, pos) == Ok::<_, Fault>((f, pos + written_element(e).len())),
        alike_element(f, e),
    decreases e, 0nat,
{
    let closed = e.children.len() == 0;
    let p = pos + start_tag(e).len() + tag_end(closed).len();
    if closed {
        lemma_written_closed(e);
        lemma_start_reread(s, pos, e, closed);
        let c = Seq::<NodeV>::empty();
        lemma_tag_and_children(s, pos, e, closed, p, c, p);
        lemma_written_alike(e, c);
        ElementV { name: e.name, attrs: e.attrs, children: c }
    } else {
        let inner = written_nodes(e.children) + end_tag(e.name);
        lemma_written_open(e);
        lemma_stands_parts(s, pos, start_tag(e) + tag_end(closed), inner);
        lemma_start_reread(s, pos, e, closed);
        let c = lemma_children_reread(s, p, e.name, e.children, Seq::empty());
        assert(Seq::<NodeV>::empty() + c =~= c);
        lemma_inside(s, p, inner);
        assert(p > pos);
        lemma_tag_and_children(s, pos, e, closed, p, c, p + inner.len());
        lemma_written_alike(e, c);
        ElementV { name: e.name, attrs: e.attrs, children: c }
    }
}

proof fn lemma_inside(s: Seq<char>, p: int, part: Seq<char>)
    requires
        stands(s, p, part),
    ensures
        0 <= p <= s.len(),
{
    reveal(stands);
}

/// Nodes that are written like others, and as tidy and plain as they are.
#[verifier::opaque]
pub open spec fn alike(c: Seq<NodeV>, nodes: Seq<NodeV>) -> bool {
    &&& tidy_nodes(c)
    &&& written_nodes(c) == written_nodes(nodes)
    &&& plain_nodes(nodes) ==> plain_nodes(c)
    &&& c.len() == 0 <==> nodes.len() == 0
}

/// An element before other nodes.
proof fn lemma_first_element(nodes: Seq<NodeV>, e: ElementV)
    requires
        tidy_nodes(nodes),
        nodes.len() > 0,
        nodes[0] == NodeV::Element(e),
    ensures
        tidy_element(e),
        tidy_nodes(nodes.subrange(1, nodes.len() as int)),
        written_nodes(nodes.subrange(0, 1)) == written_element(e),
        written_nodes(nodes) == written_element(e) + written_nodes(
            nodes.subrange(1, nodes.len() as int),
        ),
{
    lemma_written_split(nodes, 1);
    let one = nodes.subrange(0, 1);
    assert(one.subrange(0, 0) =~= Seq::<NodeV>::empty());
    assert(written_nodes(one.subrange(0, 0)) =~= Seq::<char>::empty());
    assert(written_node(nodes[0]) == written_element(e));
    assert(written_nodes(one) =~= written_node(nodes[0]));
    lemma_tidy_part(nodes, 1, nodes.len() as int);
    assert(tidy_node(nodes[0]));
}

/// Texts before other nodes.
proof fn lemma_leading_texts(nodes: Seq<NodeV>)
    requires
        tidy_nodes(nodes),
        lead(nodes) > 0,
    ensures
        ({
            let k = lead(nodes) as int;
            let rest = nodes.subrange(k, nodes.len() as int);
            let t = written_nodes(nodes.subrange(0, k));
            &&& 0 < k <= nodes.len()
            &&& tidy_text(t)
            &&& tidy_nodes(rest)
            &&& rest.len() > 0 ==> rest[0] is Element
            &&& written_nodes(nodes) == t + written_nodes(rest)
        }),
{
    lemma_lead(nodes);
    let k = lead(nodes) as int;
    lemma_written_split(nodes, k);
    let texts = nodes.subrange(0, k);
    lemma_tidy_part(nodes, 0, k);
    lemma_tidy_part(nodes, k, nodes.len() as int);
    assert forall|i: int| 0 <= i < texts.len() implies (#[trigger] texts[i]) is Text by {
        assert(texts[i] == nodes[i]);
    }
    lemma_texts(texts);
}

#[verifier::spinoff_prover]
#[verifier::rlimit(60)]
proof fn lemma_children_reread(
    s: Seq<char>,
    pos: int,
    name: Seq<char>,
    nodes: Seq<NodeV>,
    acc: Seq<NodeV>,
) -> (c: Seq<NodeV>)
    requires
        is_name(name),
        tidy_nodes(nodes),
        stands(s, pos, written_nodes(nodes) + end_tag(name)),
    ensures
        parse_children(s, pos, name, acc) == Ok::<_, Fault>(
            (acc + c, pos + written_nodes(nodes).len() + end_tag(name).len()),
        ),
        alike(c, nodes),
    decreases nodes, 0nat,
{
    lemma_stands_parts(s, pos, written_nodes(nodes), end_tag(name));
    if nodes.len() == 0 {
        reveal(alike);
        assert(written_nodes(nodes) =~= Seq::<char>::empty());
        lemma_end_tag(s, pos, name);
        assert(acc + Seq::<NodeV>::empty() =~= acc);
        assert(nodes =~= Seq::<NodeV>::empty());
        nodes
    } else {
        match nodes[0] {
            NodeV::Element(e) => {
                let rest = nodes.subrange(1, nodes.len() as int);
                lemma_element_ahead(s, pos, name, nodes, e);
                let f = lemma_element_reread(s, pos, e);
                lemma_past_element(s, pos, name, nodes, acc, e, f);
                let n = NodeV::Element(f);
                let p = pos + written_element(e).len();
                let c = lemma_children_reread(s, p, name, rest, acc.push(n));
                assert(acc.push(n) + c =~= acc + (seq![n] + c));
                lemma_joined(nodes, 1, n, rest, c);
                seq![n] + c
            },
            NodeV::Text(_) => {
                let k = lead(nodes) as int;
                let rest = nodes.subrange(k, nodes.len() as int);
                lemma_past_texts(s, pos, name, nodes, acc);
                let n = NodeV::Text(written_nodes(nodes.subrange(0, k)));
                let p = pos + written_nodes(nodes.subrange(0, k)).len();
                let c = lemma_children_reread(s, p, name, rest, acc.push(n));
                assert(acc.push(n) + c =~= acc + (seq![n] + c));
                lemma_joined(nodes, k, n, rest, c);
                seq![n] + c
            },
        }
    }
}

/// Where an element is the first of some nodes, it is written first.
proof fn lemma_element_ahead(
    s: Seq<char>,
    pos: int,
    name: Seq<char>,
    nodes: Seq<NodeV>,
    e: ElementV,
)
    requires
        tidy_nodes(nodes),
        nodes.len() > 0,
        nodes[0] == NodeV::Element(e),
        stands(s, pos, written_nodes(nodes) + end_tag(name)),
    ensures
        tidy_element(e),
        stands(s, pos, written_element(e)),
{
    let rest = nodes.subrange(1, nodes.len() as int);
    lemma_first_element(nodes, e);
    lemma_stands_parts(s, pos, written_nodes(nodes), end_tag(name));
    lemma_stands_parts(s, pos, written_element(e), written_nodes(rest));
}

/// Behind a first element the other nodes follow.
proof fn lemma_past_element(
    s: Seq<char>,
    pos: int,
    name: Seq<char>,
    nodes: Seq<NodeV>,
    acc: Seq<NodeV>,
    e: ElementV,
    f: ElementV,
)
    requires
        tidy_nodes(nodes),
        nodes.len() > 0,
        nodes[0] == NodeV::Element(e),
        stands(s, pos, written_nodes(nodes) + end_tag(name)),
        parse_element(s, pos) == Ok::<_, Fault>((f, pos + written_element(e).len())),
        alike_element(f, e),
    ensures
        ({
            let n = NodeV::Element(f);
            let rest = nodes.subrange(1, nodes.len() as int);
            let p = pos + written_element(e).len();
            &&& parse_children(s, pos, name, acc) == parse_children(s, p, name, acc.push(n))
            &&& tidy_nodes(rest)
            &&& stands(s, p, written_nodes(rest) + end_tag(name))
            &&& written_nodes(nodes).len() == written_element(e).len() + written_nodes(rest).len()
            &&& tidy_node(n)
            &&& written_node(n) == written_nodes(nodes.subrange(0, 1))
            &&& plain_nodes(nodes) ==> plain_node(n)
        }),
{
    let rest = nodes.subrange(1, nodes.len() as int);
    let n = NodeV::Element(f);
    let p = pos + written_element(e).len();
    lemma_first_element(nodes, e);
    lemma_stands_parts(s, pos, written_nodes(nodes), end_tag(name));
    lemma_stands_parts(s, pos, written_element(e), written_nodes(rest));
    lemma_stands_parts(s, p, written_nodes(rest), end_tag(name));
    lemma_element_piece(s, pos, e, f, name);
    lemma_written_head(e);
    lemma_child_step(s, pos, name, acc, n, p, written_nodes(rest));
    lemma_element_stays_plain(nodes, e, f);
}

/// Behind the leading texts the other nodes follow.
proof fn lemma_past_texts(
    s: Seq<char>,
    pos: int,
    name: Seq<char>,
    nodes: Seq<NodeV>,
    acc: Seq<NodeV>,
)
    requires
        tidy_nodes(nodes),
        nodes.len() > 0,
        nodes[0] is Text,
        stands(s, pos, written_nodes(nodes) + end_tag(name)),
    ensures
        ({
            let k = lead(nodes) as int;
            let t = written_nodes(nodes.subrange(0, k));
            let n = NodeV::Text(t);
            let rest = nodes.subrange(k, nodes.len() as int);
            let p = pos + t.len();
            &&& 0 < k <= nodes.len()
            &&& parse_children(s, pos, name, acc) == parse_children(s, p, name, acc.push(n))
            &&& tidy_nodes(rest)
            &&& stands(s, p, written_nodes(rest) + end_tag(name))
            &&& written_nodes(nodes).len() == t.len() + written_nodes(rest).len()
            &&& tidy_node(n)
            &&& written_node(n) == t
            &&& plain_node(n)
        }),
{
    lemma_leading_texts(nodes);
    let k = lead(nodes) as int;
    let rest = nodes.subrange(k, nodes.len() as int);
    let t = written_nodes(nodes.subrange(0, k));
    let p = pos + t.len();
    lemma_stands_parts(s, pos, written_nodes(nodes), end_tag(name));
    lemma_stands_parts(s, pos, t, written_nodes(rest));
    lemma_stands_parts(s, p, written_nodes(rest), end_tag(name));
    lemma_begins_tag(rest, name);
    lemma_text_piece(s, pos, t, written_nodes(rest) + end_tag(name), name);
    lemma_child_step(s, pos, name, acc, NodeV::Text(t), p, written_nodes(rest));
}

/// An element that is alike is as plain as it was.
proof fn lemma_element_stays_plain(nodes: Seq<NodeV>, e: ElementV, f: ElementV)
    requires
        nodes.len() > 0,
        nodes[0] == NodeV::Element(e),
        alike_element(f, e),
    ensures
        tidy_node(NodeV::Element(f)),
        written_node(NodeV::Element(f)) == written_element(e),
        plain_nodes(nodes) ==> plain_node(NodeV::Element(f)),
{
    reveal(alike_element);
    if plain_nodes(nodes) {
        assert(plain_node(nodes[0]));
    }
}

/// Behind the leading texts a tag begins.
proof fn lemma_begins_tag(rest: Seq<NodeV>, name: Seq<char>)
    requires
        tidy_nodes(rest),
        rest.len() > 0 ==> rest[0] is Element,
    ensures
        (written_nodes(rest) + end_tag(name)).len() > 0,
        (written_nodes(rest) + end_tag(name))[0] == '<',
{
    reveal_strlit("</");
    if rest.len() == 0 {
        assert(written_nodes(rest) =~= Seq::<char>::empty());
        assert((written_nodes(rest) + end_tag(name))[0] == end_tag(name)[0]);
    } else {
        lemma_written_split(rest, 1);
        let one = rest.subrange(0, 1);
        assert(one.subrange(0, 0) =~= Seq::<NodeV>::empty());
        assert(written_nodes(one.subrange(0, 0)) =~= Seq::<char>::empty());
        assert(written_nodes(one) =~= written_node(rest[0]));
        assert(tidy_node(rest[0]));
        match rest[0] {
            NodeV::Element(e) => {
                lemma_written_head(e);
                assert(written_node(rest[0]) == written_element(e));
            },
            NodeV::Text(_) => {},
        }
    }
}

/// A text before a tag is read as one node.
proof fn lemma_text_piece(s: Seq<char>, pos: int, t: Seq<char>, tail: Seq<char>, name: Seq<char>)
    requires
        tidy_text(t),
        stands(s, pos, t),
        stands(s, pos + t.len(), tail),
        tail.len() > 0,
        tail[0] == '<',
    ensures
        parse_piece(s, pos, name) == Ok::<_, Fault>(
            Piece::Child(NodeV::Text(t), pos + t.len()),
        ),
{
    reveal(stands);
    reveal_strlit("<");
    reveal_strlit("</");
    reveal_strlit("<!--");
    reveal_strlit("<![CDATA[");
    reveal_strlit("<?");
    assert("<"@ =~= seq!['<']);
    let end = pos + t.len();
    assert forall|i: int| pos <= i < end implies !#[trigger] looking_at(s, i, "<"@) by {
        lemma_one(s, i, '<');
        assert(s[pos + (i - pos)] == t[i - pos]);
    }
    assert(s[end + 0] == tail[0]);
    lemma_one(s, end, '<');
    lemma_find_first(s, pos, end, "<"@);
    assert(s[pos + 0] == t[0]);
    lemma_first(s, pos, "</"@);
    lemma_first(s, pos, "<!--"@);
    lemma_first(s, pos, "<![CDATA["@);
    lemma_first(s, pos, "<?"@);
    assert(!looking_at(s, pos, "<"@));
    let part = s.subrange(pos, end);
    assert(part =~= t) by {
        assert forall|i: int| 0 <= i < t.len() implies part[i] == t[i] by {
            assert(s[pos + i] == t[i]);
        }
    }
}

/// An element is read as one node.
proof fn lemma_element_piece(s: Seq<char>, pos: int, e: ElementV, f: ElementV, name: Seq<char>)
    requires
        is_name(e.name),
        stands(s, pos, written_element(e)),
        parse_element(s, pos) == Ok::<_, Fault>((f, pos + written_element(e).len())),
    ensures
        parse_piece(s, pos, name) == Ok::<_, Fault>(
            Piece::Child(NodeV::Element(f), pos + written_element(e).len()),
        ),
{
    reveal(stands);
    lemma_written_head(e);
    assert(s[pos + 0] == written_element(e)[0]);
    assert(s[pos + 1] == written_element(e)[1]);
    lemma_start_tag(s, pos);
}

/// A node is read, then those behind it.
proof fn lemma_child_step(
    s: Seq<char>,
    pos: int,
    name: Seq<char>,
    acc: Seq<NodeV>,
    n: NodeV,
    p: int,
    tail: Seq<char>,
)
    requires
        parse_piece(s, pos, name) == Ok::<_, Fault>(Piece::Child(n, p)),
        stands(s, p, tail),
        pos < p,
    ensures
        parse_children(s, pos, name, acc) == parse_children(s, p, name, acc.push(n)),
{
    reveal(stands);
}

/// An end tag closes its element.
proof fn lemma_end_tag(s: Seq<char>, pos: int, name: Seq<char>)
    requires
        is_name(name),
        stands(s, pos, end_tag(name)),
    ensures
        parse_piece(s, pos, name) == Ok::<_, Fault>(Piece::Close(pos + end_tag(name).len())),
{
    reveal(stands);
    reveal_strlit("</");
    reveal_strlit(">");
    lemma_stands_parts(s, pos, "</"@ + name, seq!['>']);
    lemma_stands_parts(s, pos, "</"@, name);
    lemma_looking(s, pos, "</"@);
    let ne = pos + 2 + name.len();
    assert(s[ne] == '>') by {
        assert(s[ne + 0] == seq!['>'][0]);
    }
    assert forall|i: int| pos + 2 <= i < ne implies is_name_char(#[trigger] s[i]) by {
        assert(s[pos + 2 + (i - pos - 2)] == name[i - pos - 2]);
    }
    lemma_name_ends(s, pos + 2, ne);
    lemma_no_space(s, ne);
    assert(">"@ =~= seq!['>']);
    lemma_one(s, ne, '>');
    let close = s.subrange(pos + 2, ne);
    assert(close =~= name) by {
        assert forall|i: int| 0 <= i < name.len() implies close[i] == name[i] by {
            assert(s[pos + 2 + i] == name[i]);
        }
    }
}

/// A first node and what follows it stand for the nodes that they were read from.
proof fn lemma_joined(nodes: Seq<NodeV>, k: int, n: NodeV, rest: Seq<NodeV>, c: Seq<NodeV>)
    requires
        1 <= k <= nodes.len(),
        rest == nodes.subrange(k, nodes.len() as int),
        tidy_node(n),
        written_node(n) == written_nodes(nodes.subrange(0, k)),
        plain_nodes(nodes) ==> plain_node(n),
        alike(c, rest),
    ensures
        alike(seq![n] + c, nodes),
{
    reveal(alike);
    let all = seq![n] + c;
    lemma_written_split(nodes, k);
    lemma_written_split(all, 1);
    assert(all.subrange(1, all.len() as int) =~= c);
    let one = all.subrange(0, 1);
    assert(one.subrange(0, 0) =~= Seq::<NodeV>::empty());
    assert(written_nodes(one.subrange(0, 0)) =~= Seq::<char>::empty());
    assert(written_nodes(one) =~= written_node(n));
    assert forall|i: int| 0 <= i < all.len() implies tidy_node(#[trigger] all[i]) by {
        if i > 0 {
            assert(all[i] == c[i - 1]);
        }
    }
    if plain_nodes(nodes) {
        assert forall|i: int| 0 <= i < rest.len() implies plain_node(#[trigger] rest[i]) by {
            assert(rest[i] == nodes[k + i]);
        }
        assert forall|i: int| 0 <= i < all.len() implies plain_node(#[trigger] all[i]) by {
            if i > 0 {
                assert(all[i] == c[i - 1]);
            }
        }
    }
}

} // verus!
