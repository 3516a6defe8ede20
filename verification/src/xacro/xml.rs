//! The XML subset that robot descriptions live in: elements, attributes in
//! either quote style, text, comments and instructions (both dropped). CDATA and
//! DOCTYPE internal subsets are rejected.

use vstd::prelude::*;

use crate::text::{
    chars_of, decimal_text, find_text, is_alpha_char, is_digit_char, part, push_lit, push_text,
    same_text, skip_spaces, starts_at, string_of, width_to,
};
#[allow(unused_imports)]
use crate::text::{
    decimal, find_from, is_alpha, is_digit, lemma_find_from, looking_at, skip_space, text_width,
};
use crate::xacro::error::{join3, XacroError};
#[allow(unused_imports)]
use crate::xacro::error::Fault;

verus! {

/// One attribute, its value raw.
#[derive(Debug)]
pub struct Attr {
    pub key: Vec<char>,
    pub value: Vec<char>,
}

/// An element or a run of raw text.
#[derive(Debug)]
pub enum Node {
    Element(Element),
    Text(Vec<char>),
}

/// An element: qualified name, attributes in document order, children.
#[derive(Debug)]
pub struct Element {
    pub name: Vec<char>,
    pub attrs: Vec<Attr>,
    pub children: Vec<Node>,
}

/// `Node` over character sequences.
pub enum NodeV {
    Element(ElementV),
    Text(Seq<char>),
}

/// `Element` over character sequences.
pub struct ElementV {
    pub name: Seq<char>,
    pub attrs: Seq<(Seq<char>, Seq<char>)>,
    pub children: Seq<NodeV>,
}

pub open spec fn attrs_view(a: Seq<Attr>) -> Seq<(Seq<char>, Seq<char>)> {
    Seq::new(a.len(), |i: int| (a[i].key@, a[i].value@))
}

pub open spec fn node_view(n: Node) -> NodeV
    decreases n,
{
    match n {
        Node::Element(e) => NodeV::Element(element_view(e)),
        Node::Text(t) => NodeV::Text(t@),
    }
}

pub open spec fn element_view(e: Element) -> ElementV
    decreases e,
{
    ElementV {
        name: e.name@,
        attrs: attrs_view(e.attrs@),
        children: nodes_view(e.children@),
    }
}

pub open spec fn nodes_view(s: Seq<Node>) -> Seq<NodeV>
    decreases s,
{
    if s.len() == 0 {
        Seq::empty()
    } else {
        nodes_view(s.subrange(0, s.len() - 1)).push(node_view(s[s.len() - 1]))
    }
}

impl View for Node {
    type V = NodeV;

    open spec fn view(&self) -> NodeV {
        node_view(*self)
    }
}

impl View for Element {
    type V = ElementV;

    open spec fn view(&self) -> ElementV {
        element_view(*self)
    }
}

pub proof fn lemma_nodes_view(s: Seq<Node>)
    ensures
        nodes_view(s).len() == s.len(),
        forall|i: int| 0 <= i < s.len() ==> nodes_view(s)[i] == node_view(#[trigger] s[i]),
    decreases s.len(),
{
    if s.len() > 0 {
        lemma_nodes_view(s.subrange(0, s.len() - 1));
        assert forall|i: int| 0 <= i < s.len() implies nodes_view(s)[i] == node_view(
            #[trigger] s[i],
        ) by {
            if i < s.len() - 1 {
                assert(s.subrange(0, s.len() - 1)[i] == s[i]);
            }
        }
    }
}

pub proof fn lemma_nodes_push(s: Seq<Node>, n: Node)
    ensures
        nodes_view(s.push(n)) == nodes_view(s).push(node_view(n)),
{
    assert(s.push(n).subrange(0, s.len() as int) =~= s);
}

/// A parse failure at `pos`, placed by its byte offset.
pub open spec fn xml_fault(s: Seq<char>, pos: int, msg: Seq<char>) -> Fault {
    Fault::Xml(msg + " (at byte "@ + decimal(text_width(s.take(pos))) + ")"@)
}

pub open spec fn is_name_char(c: char) -> bool {
    is_alpha(c) || is_digit(c) || c == '_' || c == '-' || c == '.' || c == ':'
}

/// First position from `pos` on that does not belong to a name.
pub open spec fn name_end(s: Seq<char>, pos: int) -> int
    decreases s.len() - pos,
{
    if 0 <= pos < s.len() && is_name_char(s[pos]) {
        name_end(s, pos + 1)
    } else {
        pos
    }
}

/// A name at `pos`: its end, or a fault when there is none.
pub open spec fn parse_name(s: Seq<char>, pos: int) -> Result<int, Fault> {
    if name_end(s, pos) == pos {
        Err(xml_fault(s, pos, "expected an XML name"@))
    } else {
        Ok(name_end(s, pos))
    }
}

/// The position behind the next `end` from `pos` on.
pub open spec fn parse_until(s: Seq<char>, pos: int, end: Seq<char>) -> Result<int, Fault> {
    match find_from(s, pos, end) {
        Some(i) => Ok(i + end.len()),
        None => Err(xml_fault(s, pos, "missing closing `"@ + end + "`"@)),
    }
}

/// White space, comments, instructions and plain declarations outside the root.
pub open spec fn parse_misc(s: Seq<char>, pos: int) -> Result<int, Fault>
    decreases s.len() - pos,
{
    let p = skip_space(s, pos);
    let next = if looking_at(s, p, "<!--"@) {
        parse_until(s, p + "<!--"@.len(), "-->"@)
    } else if looking_at(s, p, "<?"@) {
        parse_until(s, p, "?>"@)
    } else if looking_at(s, p, "<!"@) {
        match find_from(s, p, ">"@) {
            None => Err(xml_fault(s, p, "unterminated `<!` declaration"@)),
            Some(end) => if s.subrange(p, end).contains('[') {
                Err(
                    Fault::Unsupported {
                        construct: "DOCTYPE internal subset"@,
                        detail: "declarations with `[..]` are not parsed"@,
                    },
                )
            } else {
                Ok(end + 1)
            },
        }
    } else {
        Ok(p)
    };
    match next {
        Err(f) => Err(f),
        Ok(q) => if pos < q <= s.len() && p < q {
            parse_misc(s, q)
        } else {
            Ok(p)
        },
    }
}

/// One attribute at `p`: key, raw value, and the position behind it.
pub open spec fn parse_attr(s: Seq<char>, p: int) -> Result<(Seq<char>, Seq<char>, int), Fault> {
    match parse_name(s, p) {
        Err(f) => Err(f),
        Ok(ke) => {
            let eq = skip_space(s, ke);
            if !looking_at(s, eq, "="@) {
                Err(xml_fault(s, eq, "expected `=` after attribute name"@))
            } else {
                let q = skip_space(s, eq + 1);
                if q < s.len() && (s[q] == '"' || s[q] == '\'') {
                    match find_from(s, q + 1, seq![s[q]]) {
                        None => Err(xml_fault(s, q + 1, "unterminated attribute value"@)),
                        Some(end) => Ok((s.subrange(p, ke), s.subrange(q + 1, end), end + 1)),
                    }
                } else {
                    Err(xml_fault(s, q, "expected a quoted attribute value"@))
                }
            }
        },
    }
}

/// The fault of a parse that cannot go on; no text leads to it.
pub open spec fn stuck() -> Fault {
    Fault::Xml(Seq::empty())
}

/// Attributes up to the end of the start tag: the attributes, whether the tag
/// closes itself, and the position behind it.
pub open spec fn parse_attrs(
    s: Seq<char>,
    pos: int,
    acc: Seq<(Seq<char>, Seq<char>)>,
) -> Result<(Seq<(Seq<char>, Seq<char>)>, bool, int), Fault>
    decreases s.len() - pos,
{
    let p = skip_space(s, pos);
    if looking_at(s, p, "/>"@) {
        Ok((acc, true, p + "/>"@.len()))
    } else if looking_at(s, p, ">"@) {
        Ok((acc, false, p + ">"@.len()))
    } else {
        match parse_attr(s, p) {
            Err(f) => Err(f),
            Ok((k, v, q)) => if pos < q <= s.len() {
                parse_attrs(s, q, acc.push((k, v)))
            } else {
                Err(stuck())
            },
        }
    }
}

/// An element at `pos`, and the position behind it.
pub open spec fn parse_element(s: Seq<char>, pos: int) -> Result<(ElementV, int), Fault>
    decreases s.len() - pos, 0nat,
{
    if !looking_at(s, pos, "<"@) {
        Err(xml_fault(s, pos, "expected `<`"@))
    } else if looking_at(s, pos + "<"@.len(), "$"@) {
        Err(
            Fault::Unsupported {
                construct: "element-name substitution"@,
                detail: "`<${..}..>` dynamic tag names are not supported"@,
            },
        )
    } else {
        match parse_name(s, pos + "<"@.len()) {
            Err(f) => Err(f),
            Ok(ne) => {
                let name = s.subrange((pos + "<"@.len()) as int, ne);
                match parse_attrs(s, ne, Seq::empty()) {
                    Err(f) => Err(f),
                    Ok((attrs, closed, p)) => if closed {
                        Ok((ElementV { name, attrs, children: Seq::empty() }, p))
                    } else if pos < p <= s.len() {
                        match parse_children(s, p, name, Seq::empty()) {
                            Err(f) => Err(f),
                            Ok((children, q)) => Ok((ElementV { name, attrs, children }, q)),
                        }
                    } else {
                        Err(stuck())
                    },
                }
            },
        }
    }
}

/// What stands at `pos` between the tags of `name`: nothing more (the closing
/// tag), a dropped piece, or one more child.
pub enum Piece {
    Close(int),
    Dropped(int),
    Child(NodeV, int),
}

pub open spec fn parse_piece(s: Seq<char>, pos: int, name: Seq<char>) -> Result<Piece, Fault>
    decreases s.len() - pos, 1nat,
{
    if pos >= s.len() {
        Err(xml_fault(s, pos, "unterminated element `<"@ + name + ">`"@))
    } else if looking_at(s, pos, "</"@) {
        match parse_name(s, pos + "</"@.len()) {
            Err(f) => Err(f),
            Ok(ne) => {
                let close = s.subrange((pos + "</"@.len()) as int, ne);
                let p = skip_space(s, ne);
                if close != name {
                    Err(xml_fault(s, ne, "`<"@ + name + ">` closed by `</"@ + close + ">`"@))
                } else if !looking_at(s, p, ">"@) {
                    Err(xml_fault(s, p, "expected `>` after closing tag name"@))
                } else {
                    Ok(Piece::Close(p + ">"@.len()))
                }
            },
        }
    } else if looking_at(s, pos, "<!--"@) {
        match parse_until(s, pos + "<!--"@.len(), "-->"@) {
            Err(f) => Err(f),
            Ok(p) => Ok(Piece::Dropped(p)),
        }
    } else if looking_at(s, pos, "<![CDATA["@) {
        Err(
            Fault::Unsupported {
                construct: "CDATA section"@,
                detail: "`<![CDATA[..]]>` is not parsed"@,
            },
        )
    } else if looking_at(s, pos, "<?"@) {
        match parse_until(s, pos, "?>"@) {
            Err(f) => Err(f),
            Ok(p) => Ok(Piece::Dropped(p)),
        }
    } else if looking_at(s, pos, "<"@) {
        match parse_element(s, pos) {
            Err(f) => Err(f),
            Ok((e, p)) => Ok(Piece::Child(NodeV::Element(e), p)),
        }
    } else {
        let end = match find_from(s, pos, "<"@) {
            Some(i) => i,
            None => s.len() as int,
        };
        Ok(Piece::Child(NodeV::Text(s.subrange(pos, end)), end))
    }
}

/// The children up to the closing tag of `name`, and the position behind it.
pub open spec fn parse_children(
    s: Seq<char>,
    pos: int,
    name: Seq<char>,
    acc: Seq<NodeV>,
) -> Result<(Seq<NodeV>, int), Fault>
    decreases s.len() - pos, 2nat,
{
    match parse_piece(s, pos, name) {
        Err(f) => Err(f),
        Ok(Piece::Close(p)) => Ok((acc, p)),
        Ok(Piece::Dropped(p)) => if pos < p <= s.len() {
            parse_children(s, p, name, acc)
        } else {
            Err(stuck())
        },
        Ok(Piece::Child(n, p)) => if pos < p <= s.len() {
            parse_children(s, p, name, acc.push(n))
        } else {
            Err(stuck())
        },
    }
}

/// Where the root of a document begins: behind a byte order mark, white space, comments,
/// instructions and plain declarations.
pub open spec fn root_start(s: Seq<char>) -> Result<int, Fault> {
    let start: int = if looking_at(s, 0, "\u{feff}"@) {
        "\u{feff}"@.len() as int
    } else {
        0
    };
    parse_misc(s, start)
}

/// A whole document: its root element.
pub open spec fn parse_document(s: Seq<char>) -> Result<ElementV, Fault> {
    match root_start(s) {
        Err(f) => Err(f),
        Ok(p) => if !looking_at(s, p, "<"@) {
            Err(xml_fault(s, p, "expected a root element"@))
        } else {
            match parse_element(s, p) {
                Err(f) => Err(f),
                Ok((root, q)) => match parse_misc(s, q) {
                    Err(f) => Err(f),
                    Ok(end) => if end != s.len() {
                        Err(xml_fault(s, end, "unexpected content after the root element"@))
                    } else {
                        Ok(root)
                    },
                },
            }
        },
    }
}

/// The value of the first attribute named `key`.
pub open spec fn attr_value(attrs: Seq<(Seq<char>, Seq<char>)>, key: Seq<char>) -> Option<
    Seq<char>,
>
    decreases attrs.len(),
{
    if attrs.len() == 0 {
        None
    } else if attrs[0].0 == key {
        Some(attrs[0].1)
    } else {
        attr_value(attrs.subrange(1, attrs.len() as int), key)
    }
}

/// Cursor over a text.
pub struct XmlParser<'a> {
    pub s: &'a Vec<char>,
    pub pos: usize,
}

impl<'a> XmlParser<'a> {
    pub open spec fn wf(self) -> bool {
        self.pos <= self.s.len()
    }

    pub fn new(s: &'a Vec<char>) -> (r: XmlParser<'a>)
        ensures
            r.wf(),
            r.s == s,
            r.pos == 0,
    {
        XmlParser { s, pos: 0 }
    }

    /// A parse failure at the cursor.
    fn err(&self, msg: &Vec<char>) -> (r: XacroError)
        requires
            self.wf(),
        ensures
            r@ == xml_fault(self.s@, self.pos as int, msg@),
    {
        let at = decimal_text(width_to(self.s, self.pos));
        let mut m = crate::text::copy_text(msg);
        push_lit(&mut m, " (at byte ");
        push_text(&mut m, &at);
        push_lit(&mut m, ")");
        XacroError::Xml(string_of(&m))
    }

    fn err_lit(&self, msg: &str) -> (r: XacroError)
        requires
            self.wf(),
        ensures
            r@ == xml_fault(self.s@, self.pos as int, msg@),
    {
        let m = chars_of(msg);
        self.err(&m)
    }

    /// Consumes `lit` where the cursor stands on it.
    fn eat(&mut self, lit: &str) -> (r: bool)
        requires
            old(self).wf(),
        ensures
            final(self).wf(),
            final(self).s == old(self).s,
            r == looking_at(old(self).s@, old(self).pos as int, lit@),
            final(self).pos == (if r {
                old(self).pos + lit@.len()
            } else {
                old(self).pos as int
            }),
    {
        let l = chars_of(lit);
        if crate::text::stands_at(self.s, self.pos, &l) {
            self.pos = self.pos + l.len();
            true
        } else {
            false
        }
    }

    fn skip_ws(&mut self)
        requires
            old(self).wf(),
        ensures
            final(self).wf(),
            final(self).s == old(self).s,
            final(self).pos >= old(self).pos,
            final(self).pos == skip_space(old(self).s@, old(self).pos as int),
    {
        self.pos = skip_spaces(self.s, self.pos);
    }

    /// Moves behind the next `end`.
    fn skip_until(&mut self, end: &str) -> (r: Result<(), XacroError>)
        requires
            old(self).wf(),
        ensures
            final(self).wf(),
            final(self).s == old(self).s,
            match r {
                Ok(_) => parse_until(old(self).s@, old(self).pos as int, end@) == Ok::<int, Fault>(
                    final(self).pos as int,
                ) && final(self).pos >= old(self).pos + end@.len(),
                Err(e) => parse_until(old(self).s@, old(self).pos as int, end@) == Err::<
                    int,
                    Fault,
                >(e@),
            },
    {
        match find_text(self.s, self.pos, end) {
            Some(i) => {
                let l = chars_of(end);
                self.pos = i + l.len();
                Ok(())
            },
            None => {
                let e = chars_of(end);
                let m = join3("missing closing `", &e, "`");
                Err(self.err(&m))
            },
        }
    }

    /// Moves past white space, comments, instructions and plain declarations.
    fn skip_misc(&mut self) -> (r: Result<(), XacroError>)
        requires
            old(self).wf(),
        ensures
            final(self).wf(),
            final(self).s == old(self).s,
            match r {
                Ok(_) => parse_misc(old(self).s@, old(self).pos as int) == Ok::<int, Fault>(
                    final(self).pos as int,
                ) && final(self).pos >= old(self).pos,
                Err(e) => parse_misc(old(self).s@, old(self).pos as int) == Err::<int, Fault>(e@),
            },
        decreases old(self).s.len() - old(self).pos,
    {
        proof {
            reveal_strlit("<!--");
            reveal_strlit("<?");
            reveal_strlit("<!");
            reveal_strlit("?>");
            reveal_strlit("-->");
            reveal_strlit(">");
        }
        self.skip_ws();
        let ghost p = self.pos as int;
        if self.eat("<!--") {
            match self.skip_until("-->") {
                Ok(_) => {},
                Err(e) => {
                    return Err(e);
                },
            }
        } else if starts_at(self.s, self.pos, "<?") {
            match self.skip_until("?>") {
                Ok(_) => {},
                Err(e) => {
                    return Err(e);
                },
            }
        } else if starts_at(self.s, self.pos, "<!") {
            match find_text(self.s, self.pos, ">") {
                None => {
                    return Err(self.err_lit("unterminated `<!` declaration"));
                },
                Some(end) => {
                    let decl = part(self.s, self.pos, end);
                    if has_char(&decl, '[') {
                        return Err(
                            XacroError::Unsupported {
                                construct: string_of(&chars_of("DOCTYPE internal subset")),
                                detail: string_of(
                                    &chars_of("declarations with `[..]` are not parsed"),
                                ),
                            },
                        );
                    }
                    self.pos = end + 1;
                },
            }
        } else {
            return Ok(());
        }
        self.skip_misc()
    }

    /// Reads a name.
    fn name(&mut self) -> (r: Result<Vec<char>, XacroError>)
        requires
            old(self).wf(),
        ensures
            final(self).wf(),
            final(self).s == old(self).s,
            match r {
                Ok(n) => parse_name(old(self).s@, old(self).pos as int) == Ok::<int, Fault>(
                    final(self).pos as int,
                ) && final(self).pos > old(self).pos && n@ == old(self).s@.subrange(
                    old(self).pos as int,
                    final(self).pos as int,
                ),
                Err(e) => parse_name(old(self).s@, old(self).pos as int) == Err::<int, Fault>(e@),
            },
    {
        let start: usize = self.pos;
        let mut i: usize = start;
        while i < self.s.len() && name_char(self.s[i])
            invariant
                start <= i <= self.s.len(),
                name_end(self.s@, start as int) == name_end(self.s@, i as int),
            decreases self.s.len() - i,
        {
            i = i + 1;
        }
        if i == start {
            return Err(self.err_lit("expected an XML name"));
        }
        self.pos = i;
        Ok(part(self.s, start, i))
    }

    /// Reads one attribute.
    fn attribute(&mut self) -> (r: Result<Attr, XacroError>)
        requires
            old(self).wf(),
        ensures
            final(self).wf(),
            final(self).s == old(self).s,
            match r {
                Ok(a) => parse_attr(old(self).s@, old(self).pos as int) == Ok::<_, Fault>(
                    (a.key@, a.value@, final(self).pos as int),
                ) && final(self).pos > old(self).pos,
                Err(e) => parse_attr(old(self).s@, old(self).pos as int) == Err::<
                    (Seq<char>, Seq<char>, int),
                    Fault,
                >(e@),
            },
    {
        proof {
            reveal_strlit("=");
        }
        let key = match self.name() {
            Ok(n) => n,
            Err(e) => {
                return Err(e);
            },
        };
        self.skip_ws();
        if !self.eat("=") {
            return Err(self.err_lit("expected `=` after attribute name"));
        }
        self.skip_ws();
        if self.pos >= self.s.len() || !(self.s[self.pos] == '"' || self.s[self.pos] == '\'') {
            return Err(self.err_lit("expected a quoted attribute value"));
        }
        let q = self.s[self.pos];
        self.pos = self.pos + 1;
        let found = if q == '"' {
            proof {
                reveal_strlit("\"");
                assert("\""@ =~= seq![q]);
            }
            find_text(self.s, self.pos, "\"")
        } else {
            proof {
                reveal_strlit("'");
                assert("'"@ =~= seq![q]);
            }
            find_text(self.s, self.pos, "'")
        };
        match found {
            None => Err(self.err_lit("unterminated attribute value")),
            Some(end) => {
                let value = part(self.s, self.pos, end);
                self.pos = end + 1;
                Ok(Attr { key, value })
            },
        }
    }

    /// Reads the rest of a start tag: its attributes, and whether it closes itself.
    fn attributes(&mut self) -> (r: Result<(Vec<Attr>, bool), XacroError>)
        requires
            old(self).wf(),
        ensures
            final(self).wf(),
            final(self).s == old(self).s,
            match r {
                Ok((a, closed)) => parse_attrs(old(self).s@, old(self).pos as int, Seq::empty())
                    == Ok::<_, Fault>((attrs_view(a@), closed, final(self).pos as int))
                    && final(self).pos > old(self).pos,
                Err(e) => parse_attrs(old(self).s@, old(self).pos as int, Seq::empty()) == Err::<
                    (Seq<(Seq<char>, Seq<char>)>, bool, int),
                    Fault,
                >(e@),
            },
    {
        let mut attrs: Vec<Attr> = Vec::new();
        let ghost start = self.pos as int;
        let ghost all = self.s@;
        proof {
            reveal_strlit("/>");
            reveal_strlit(">");
            assert(attrs_view(attrs@) =~= Seq::empty());
        }
        loop
            invariant
                self.wf(),
                self.s@ == all,
                self.s == old(self).s,
                old(self).pos == start,
                self.pos >= start,
                "/>"@.len() > 0,
                ">"@.len() > 0,
                parse_attrs(all, start, Seq::empty()) == parse_attrs(
                    all,
                    self.pos as int,
                    attrs_view(attrs@),
                ),
            decreases self.s.len() - self.pos,
        {
            self.skip_ws();
            if self.eat("/>") {
                return Ok((attrs, true));
            }
            if self.eat(">") {
                return Ok((attrs, false));
            }
            match self.attribute() {
                Err(e) => {
                    return Err(e);
                },
                Ok(a) => {
                    let ghost before = attrs@;
                    attrs.push(a);
                    assert(attrs_view(attrs@) =~= attrs_view(before).push((a.key@, a.value@)));
                },
            }
        }
    }

    /// Reads an element.
    fn parse_element(&mut self) -> (r: Result<Element, XacroError>)
        requires
            old(self).wf(),
        ensures
            final(self).wf(),
            final(self).s == old(self).s,
            match r {
                Ok(e) => parse_element(old(self).s@, old(self).pos as int) == Ok::<_, Fault>(
                    (e@, final(self).pos as int),
                ) && final(self).pos > old(self).pos,
                Err(e) => parse_element(old(self).s@, old(self).pos as int) == Err::<
                    (ElementV, int),
                    Fault,
                >(e@),
            },
        decreases old(self).s.len() - old(self).pos, 0nat,
    {
        proof {
            reveal_strlit("<");
        }
        if !self.eat("<") {
            return Err(self.err_lit("expected `<`"));
        }
        if starts_at(self.s, self.pos, "$") {
            return Err(
                XacroError::Unsupported {
                    construct: string_of(&chars_of("element-name substitution")),
                    detail: string_of(
                        &chars_of("`<${..}..>` dynamic tag names are not supported"),
                    ),
                },
            );
        }
        let name = match self.name() {
            Ok(n) => n,
            Err(e) => {
                return Err(e);
            },
        };
        let (attrs, closed) = match self.attributes() {
            Ok(a) => a,
            Err(e) => {
                return Err(e);
            },
        };
        if closed {
            let children: Vec<Node> = Vec::new();
            return Ok(Element { name, attrs, children });
        }
        match self.parse_children(&name) {
            Ok(children) => Ok(Element { name, attrs, children }),
            Err(e) => Err(e),
        }
    }

    /// Reads the children of `name` and its closing tag.
    fn parse_children(&mut self, name: &Vec<char>) -> (r: Result<Vec<Node>, XacroError>)
        requires
            old(self).wf(),
        ensures
            final(self).wf(),
            final(self).s == old(self).s,
            match r {
                Ok(c) => parse_children(old(self).s@, old(self).pos as int, name@, Seq::empty())
                    == Ok::<_, Fault>((nodes_view(c@), final(self).pos as int))
                    && final(self).pos > old(self).pos,
                Err(e) => parse_children(old(self).s@, old(self).pos as int, name@, Seq::empty())
                    == Err::<(Seq<NodeV>, int), Fault>(e@),
            },
        decreases old(self).s.len() - old(self).pos, 2nat,
    {
        let mut children: Vec<Node> = Vec::new();
        let ghost start = self.pos as int;
        let ghost all = self.s@;
        loop
            invariant
                self.wf(),
                self.s@ == all,
                self.s == old(self).s,
                old(self).pos == start,
                self.pos >= start,
                parse_children(all, start, name@, Seq::empty()) == parse_children(
                    all,
                    self.pos as int,
                    name@,
                    nodes_view(children@),
                ),
            decreases self.s.len() - self.pos,
        {
            proof {
                reveal_strlit("</");
                reveal_strlit("<!--");
                reveal_strlit("<?");
                reveal_strlit("?>");
                reveal_strlit("<");
                reveal_strlit(">");
            }
            let ghost piece = parse_piece(all, self.pos as int, name@);
            assert(parse_children(all, start, name@, Seq::empty()) == (match piece {
                Err(f) => Err(f),
                Ok(Piece::Close(p)) => Ok((nodes_view(children@), p)),
                Ok(Piece::Dropped(p)) => if self.pos < p <= all.len() {
                    parse_children(all, p, name@, nodes_view(children@))
                } else {
                    Err(stuck())
                },
                Ok(Piece::Child(n, p)) => if self.pos < p <= all.len() {
                    parse_children(all, p, name@, nodes_view(children@).push(n))
                } else {
                    Err(stuck())
                },
            }));
            if self.pos >= self.s.len() {
                let m = join3("unterminated element `<", name, ">`");
                return Err(self.err(&m));
            }
            if self.eat("</") {
                let close = match self.name() {
                    Ok(n) => n,
                    Err(e) => {
                        return Err(e);
                    },
                };
                if !same_text(&close, name) {
                    let mut m = join3("`<", name, ">` closed by `</");
                    push_text(&mut m, &close);
                    push_lit(&mut m, ">`");
                    return Err(self.err(&m));
                }
                self.skip_ws();
                if !self.eat(">") {
                    return Err(self.err_lit("expected `>` after closing tag name"));
                }
                return Ok(children);
            }
            if self.eat("<!--") {
                match self.skip_until("-->") {
                    Ok(_) => {},
                    Err(e) => {
                        return Err(e);
                    },
                }
            } else if starts_at(self.s, self.pos, "<![CDATA[") {
                return Err(
                    XacroError::Unsupported {
                        construct: string_of(&chars_of("CDATA section")),
                        detail: string_of(&chars_of("`<![CDATA[..]]>` is not parsed")),
                    },
                );
            } else if starts_at(self.s, self.pos, "<?") {
                match self.skip_until("?>") {
                    Ok(_) => {},
                    Err(e) => {
                        return Err(e);
                    },
                }
            } else if starts_at(self.s, self.pos, "<") {
                match self.parse_element() {
                    Ok(e) => {
                        let ghost before = children@;
                        let n = Node::Element(e);
                        proof {
                            lemma_nodes_push(before, n);
                        }
                        children.push(n);
                    },
                    Err(e) => {
                        return Err(e);
                    },
                }
            } else {
                let end: usize = match find_text(self.s, self.pos, "<") {
                    Some(i) => i,
                    None => self.s.len(),
                };
                let ghost before = children@;
                let n = Node::Text(part(self.s, self.pos, end));
                proof {
                    lemma_nodes_push(before, n);
                    lemma_find_from(all, self.pos as int, "<"@);
                }
                children.push(n);
                self.pos = end;
            }
        }
    }

    /// Moves to where the root begins.
    pub fn find_root(&mut self) -> (r: Result<(), XacroError>)
        requires
            old(self).pos == 0,
        ensures
            final(self).wf(),
            final(self).s == old(self).s,
            match r {
                Ok(_) => root_start(old(self).s@) == Ok::<int, Fault>(final(self).pos as int),
                Err(e) => root_start(old(self).s@) == Err::<int, Fault>(e@),
            },
    {
        let _bom = self.eat("\u{feff}");
        self.skip_misc()
    }

    /// Reads a whole document: its root element.
    pub fn parse_document(&mut self) -> (r: Result<Element, XacroError>)
        requires
            old(self).pos == 0,
        ensures
            match r {
                Ok(e) => parse_document(old(self).s@) == Ok::<_, Fault>(e@),
                Err(e) => parse_document(old(self).s@) == Err::<ElementV, Fault>(e@),
            },
    {
        match self.find_root() {
            Ok(_) => {},
            Err(e) => {
                return Err(e);
            },
        }
        if !starts_at(self.s, self.pos, "<") {
            return Err(self.err_lit("expected a root element"));
        }
        let root = match self.parse_element() {
            Ok(e) => e,
            Err(e) => {
                return Err(e);
            },
        };
        match self.skip_misc() {
            Ok(_) => {},
            Err(e) => {
                return Err(e);
            },
        }
        if self.pos != self.s.len() {
            return Err(self.err_lit("unexpected content after the root element"));
        }
        Ok(root)
    }
}

fn name_char(c: char) -> (r: bool)
    ensures
        r == is_name_char(c),
{
    is_alpha_char(c) || is_digit_char(c) || c == '_' || c == '-' || c == '.' || c == ':'
}

/// Whether `c` occurs in `s`.
pub fn has_char(s: &Vec<char>, c: char) -> (r: bool)
    ensures
        r == s@.contains(c),
{
    let mut i: usize = 0;
    while i < s.len()
        invariant
            i <= s.len(),
            forall|k: int| 0 <= k < i ==> s@[k] != c,
        decreases s.len() - i,
    {
        if s[i] == c {
            return true;
        }
        i = i + 1;
    }
    false
}

/// Parses a document.
pub fn parse_xml(text: &Vec<char>) -> (r: Result<Element, XacroError>)
    ensures
        match r {
            Ok(e) => parse_document(text@) == Ok::<_, Fault>(e@),
            Err(e) => parse_document(text@) == Err::<ElementV, Fault>(e@),
        },
{
    let mut p = XmlParser::new(text);
    p.parse_document()
}

/// The value of the first attribute of `e` named `key`.
pub fn attr<'e>(e: &'e Element, key: &str) -> (r: Option<&'e Vec<char>>)
    ensures
        match r {
            Some(v) => attr_value(e@.attrs, key@) == Some(v@),
            None => attr_value(e@.attrs, key@) is None,
        },
{
    let k = chars_of(key);
    let mut i: usize = 0;
    let ghost all = attrs_view(e.attrs@);
    assert(all.subrange(0, all.len() as int) =~= all);
    while i < e.attrs.len()
        invariant
            i <= e.attrs.len(),
            k@ == key@,
            all == attrs_view(e.attrs@),
            attr_value(all, key@) == attr_value(all.subrange(i as int, all.len() as int), key@),
        decreases e.attrs.len() - i,
    {
        assert(all.subrange(i as int, all.len() as int)[0] == all[i as int]);
        if same_text(&e.attrs[i].key, &k) {
            return Some(&e.attrs[i].value);
        }
        assert(all.subrange(i as int, all.len() as int).subrange(1, all.len() - i) =~= all.subrange(
            i + 1,
            all.len() as int,
        ));
        i = i + 1;
    }
    None
}

} // verus!
