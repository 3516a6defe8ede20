//! Telling xacro from plain URDF.

use vstd::prelude::*;

use crate::scalar::decimal::lower_from;
use crate::text::{chars_of, find_text, is_text, part, starts_at};
#[allow(unused_imports)]
use crate::text::{find_from, lemma_find_from, looking_at, lowered};
#[allow(unused_imports)]
use crate::xacro::xml::root_start;
use crate::xacro::xml::XmlParser;

verus! {

/// The tag that starts at `i`, without its `>`.
pub open spec fn tag_at(text: Seq<char>, i: int) -> Seq<char> {
    match find_from(text, i, ">"@) {
        Some(j) => text.subrange(i, j),
        None => text.subrange(i, text.len() as int),
    }
}

/// The root `<robot ..>` tag of a text. A tag in a comment is no root. Where what stands
/// before the root cannot be parsed, the first robot tag is taken for it, so that the text
/// is refused where it is expanded.
pub open spec fn robot_tag(text: Seq<char>) -> Option<Seq<char>> {
    match root_start(text) {
        Err(_) => match find_from(text, 0, "<robot"@) {
            Some(i) => Some(tag_at(text, i)),
            None => None,
        },
        Ok(i) => if looking_at(text, i, "<robot"@) {
            Some(tag_at(text, i))
        } else {
            None
        },
    }
}

/// A `.xacro` extension in any case, or an `xmlns:xacro` inside the root robot tag.
pub open spec fn looks_like_xacro(extension: Option<Seq<char>>, text: Seq<char>) -> bool {
    ||| (extension matches Some(e) && lowered(e) == "xacro"@)
    ||| (robot_tag(text) matches Some(tag) && find_from(tag, 0, "xmlns:xacro"@) is Some)
}

/// Whether a file with that extension and text goes through the expander.
pub fn is_xacro(extension: Option<&str>, text: &str) -> (r: bool)
    ensures
        r == looks_like_xacro(
            match extension {
                Some(e) => Some(e@),
                None => None,
            },
            text@,
        ),
{
    match extension {
        Some(e) => {
            let c = chars_of(e);
            let l = lower_from(&c, 0);
            assert(c@.subrange(0, c@.len() as int) =~= c@);
            if is_text(&l, "xacro") {
                return true;
            }
        },
        None => {},
    }
    let t = chars_of(text);
    let mut p = XmlParser::new(&t);
    let i: usize = match p.find_root() {
        Err(_) => match find_text(&t, 0, "<robot") {
            Some(i) => {
                proof {
                    lemma_find_from(t@, 0, "<robot"@);
                }
                i
            },
            None => {
                return false;
            },
        },
        Ok(_) => {
            if !starts_at(&t, p.pos, "<robot") {
                return false;
            }
            p.pos
        },
    };
    let end: usize = match find_text(&t, i, ">") {
        Some(j) => j,
        None => t.len(),
    };
    let tag = part(&t, i, end);
    find_text(&tag, 0, "xmlns:xacro").is_some()
}

} // verus!
