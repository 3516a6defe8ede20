//! Expanding what was expanded.

use vstd::prelude::*;

#[allow(unused_imports)]
use crate::text::{looking_at, skip_space};
#[allow(unused_imports)]
use crate::xacro::env::Env;
#[allow(unused_imports)]
use crate::xacro::error::Fault;
#[allow(unused_imports)]
use crate::xacro::laws::{
    law_namespace_is_consumed, law_output_is_plain, plain_node, plain_nodes,
};
#[allow(unused_imports)]
use crate::xacro::reread::{alike_element, lemma_element_reread, lemma_written_head};
#[allow(unused_imports)]
use crate::xacro::rules::{
    expand_element, expand_node, expand_nodes, expand_root, expand_text, fresh_env, Ctx,
};
#[allow(unused_imports)]
use crate::xacro::subst::law_plain_text_unchanged;
#[allow(unused_imports)]
use crate::xacro::tidy::{
    lemma_attrs_stay, lemma_document_tidy, lemma_find_first, lemma_first, lemma_looking,
    lemma_no_space, lemma_nodes_stay_tidy, lemma_stands_parts, lemma_start_tag, lemma_tidy_part,
    stands, tidy_element, tidy_env, tidy_node, tidy_nodes, tidy_scope,
    without_dollars_or_includes,
};
#[allow(unused_imports)]
use crate::xacro::world::{HaltV, WorldV};
#[allow(unused_imports)]
use crate::xacro::write::written_element;
#[allow(unused_imports)]
use crate::xacro::xml::{parse_document, parse_misc, root_start, ElementV, NodeV};

verus! {

/// Plain nodes without `$` expand to themselves.
proof fn lemma_plain_stays(nodes: Seq<NodeV>, cx: Ctx, env: Env)
    requires
        tidy_nodes(nodes),
        plain_nodes(nodes),
    ensures
        expand_nodes(nodes, cx, env) == Ok::<_, HaltV>((nodes, env)),
    decreases nodes,
{
    if nodes.len() == 0 {
        assert(nodes =~= Seq::<NodeV>::empty());
    } else {
        let front = nodes.subrange(0, nodes.len() - 1);
        let n = nodes[nodes.len() - 1];
        lemma_tidy_part(nodes, 0, nodes.len() - 1);
        assert(plain_nodes(front)) by {
            assert forall|i: int| 0 <= i < front.len() implies plain_node(#[trigger] front[i]) by {
                assert(front[i] == nodes[i]);
            }
        }
        lemma_plain_stays(front, cx, env);
        assert(tidy_node(n) && plain_node(n));
        match n {
            NodeV::Text(t) => {
                law_plain_text_unchanged(t, cx.dir, env.scopes, cx.w);
                assert(expand_node(n, cx, env) == Ok::<_, HaltV>((seq![n], env)));
            },
            NodeV::Element(e) => {
                lemma_plain_stays(e.children, cx, env);
                lemma_attrs_stay(e.attrs, None, cx, env.scopes);
                assert(expand_element(e, cx, env) == Ok::<_, HaltV>((seq![n], env)));
                assert(expand_node(n, cx, env) == Ok::<_, HaltV>((seq![n], env)));
            },
        }
        assert(front + seq![n] =~= nodes);
    }
}

/// What stands before every root that is written.
pub open spec fn declaration() -> Seq<char> {
    "<?xml version=\"1.0\"?>\n"@
}

/// Before a start tag nothing is skipped.
proof fn lemma_misc_at_tag(s: Seq<char>, pos: int)
    requires
        0 <= pos,
        pos + 1 < s.len(),
        s[pos] == '<',
        crate::xacro::xml::is_name_char(s[pos + 1]),
    ensures
        parse_misc(s, pos) == Ok::<_, Fault>(pos),
{
    lemma_no_space(s, pos);
    lemma_start_tag(s, pos);
}

/// The declaration is skipped.
proof fn lemma_declaration(s: Seq<char>)
    requires
        stands(s, 0, declaration()),
        s.len() > 23,
        s[22] == '<',
        crate::xacro::xml::is_name_char(s[23]),
    ensures
        root_start(s) == Ok::<_, Fault>(22int),
{
    reveal(stands);
    reveal_strlit("<?xml version=\"1.0\"?>\n");
    reveal_strlit("\u{feff}");
    reveal_strlit("<!--");
    reveal_strlit("<?");
    reveal_strlit("?>");
    let d = declaration();
    assert forall|i: int| 0 <= i < 22 implies #[trigger] s[i] == d[i] by {
        assert(s[0 + i] == d[i]);
    }
    assert(s[0] == '<' && s[1] == '?' && s[2] == 'x' && s[21] == '\n');
    assert(s[19] == '?' && s[20] == '>');
    lemma_first(s, 0, "\u{feff}"@);
    lemma_no_space(s, 0);
    lemma_looking(s, 0, "<!--"@);
    assert(!stands(s, 0, "<!--"@)) by {
        if stands(s, 0, "<!--"@) {
            assert(s[0int + 1] == "<!--"@[1]);
        }
    }
    lemma_looking(s, 0, "<?"@);
    assert(stands(s, 0, "<?"@)) by {
        assert forall|i: int| 0 <= i < 2 implies #[trigger] s[0 + i] == "<?"@[i] by {}
    }
    lemma_looking(s, 19, "?>"@);
    assert(stands(s, 19, "?>"@)) by {
        assert forall|i: int| 0 <= i < 2 implies #[trigger] s[19 + i] == "?>"@[i] by {}
    }
    assert forall|i: int| 0 <= i < 19 implies !#[trigger] looking_at(s, i, "?>"@) by {
        lemma_looking(s, i, "?>"@);
        if stands(s, i, "?>"@) {
            assert(s[i + 0] == '?');
            assert(s[i + 1] == '>');
            assert(i == 1);
        }
    }
    lemma_find_first(s, 0, 19, "?>"@);
    lemma_misc_at_tag(s, 22);
    assert(skip_space(s, 22) == 22) by {
        lemma_no_space(s, 22);
    }
    assert(skip_space(s, 21) == 22);
    assert(parse_misc(s, 21) == Ok::<_, Fault>(22int)) by {
        lemma_start_tag(s, 22);
    }
}

/// Nothing is left at the end of a text.
proof fn lemma_misc_at_end(s: Seq<char>)
    ensures
        parse_misc(s, s.len() as int) == Ok::<_, Fault>(s.len() as int),
{
    reveal_strlit("<!--");
    reveal_strlit("<?");
    reveal_strlit("<!");
}

/// A document that was written is read back: the same root, and children that are written
/// in the same way.
proof fn lemma_document_reread(e: ElementV) -> (f: ElementV)
    requires
        tidy_element(e),
    ensures
        parse_document(declaration() + written_element(e)) == Ok::<_, Fault>(f),
        f.name == e.name,
        f.attrs == e.attrs,
        tidy_element(f),
        written_element(f) == written_element(e),
        plain_nodes(e.children) ==> plain_nodes(f.children),
{
    reveal_strlit("<?xml version=\"1.0\"?>\n");
    let s = declaration() + written_element(e);
    assert(stands(s, 0, s)) by {
        reveal(stands);
    }
    lemma_stands_parts(s, 0, declaration(), written_element(e));
    let f = lemma_element_reread(s, 22, e);
    reveal(alike_element);
    lemma_written_head(e);
    assert(s[22] == written_element(e)[0]);
    assert(s[23] == written_element(e)[1]);
    lemma_declaration(s);
    lemma_start_tag(s, 22);
    lemma_misc_at_end(s);
    f
}

/// Expanding again what a text without `$` and without includes expands to changes
/// nothing, wherever it is read.
pub proof fn law_expanding_again_changes_nothing(
    text: Seq<char>,
    dir: Option<Seq<char>>,
    w: WorldV,
    other_dir: Option<Seq<char>>,
    other_w: WorldV,
)
    requires
        without_dollars_or_includes(text),
    ensures
        match expand_text(text, dir, w) {
            Ok(u) => expand_text(u, other_dir, other_w) == Ok::<_, HaltV>(u),
            Err(_) => true,
        },
{
    let cx = Ctx { dir, depth: 0, blocks: 0, w };
    match expand_root(text, dir, w) {
        Err(_) => {},
        Ok(e) => {
            lemma_document_tidy(text);
            let root = parse_document(text)->Ok_0;
            assert(tidy_env(fresh_env())) by {
                reveal(tidy_env);
                assert(tidy_scope(fresh_env().scopes[0]));
            }
            lemma_nodes_stay_tidy(root.children, cx, fresh_env());
            let end = (expand_nodes(root.children, cx, fresh_env())->Ok_0).1;
            lemma_attrs_stay(root.attrs, Some("xmlns:xacro"@), cx, end.scopes);
            assert(tidy_element(e));
            law_output_is_plain(text, dir, w);
            law_namespace_is_consumed(text, dir, w);
            let f = lemma_document_reread(e);
            let again = Ctx { dir: other_dir, depth: 0, blocks: 0, w: other_w };
            lemma_plain_stays(f.children, again, fresh_env());
            assert forall|i: int| 0 <= i < f.attrs.len() implies Some("xmlns:xacro"@) != Some(
                (#[trigger] f.attrs[i]).0,
            ) by {
                assert(e.attrs[i].0 != "xmlns:xacro"@);
            }
            lemma_attrs_stay(f.attrs, Some("xmlns:xacro"@), again, fresh_env().scopes);
        },
    }
}

} // verus!
