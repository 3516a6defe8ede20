use vstd::prelude::*;

use crate::text::{chars_of, push_lit, push_text, string_of};

verus! {

/// Why an expansion failed.
#[derive(Clone, Debug)]
pub enum XacroError {
    Xml(String),
    Unsupported { construct: String, detail: String },
    UndefinedProperty(String),
    Expression(String, String),
    Macro(String, String),
    Include(String, String),
    FindPackage(String),
    Condition(String),
}

/// `XacroError` over character sequences.
pub enum Fault {
    Xml(Seq<char>),
    Unsupported { construct: Seq<char>, detail: Seq<char> },
    UndefinedProperty(Seq<char>),
    Expression(Seq<char>, Seq<char>),
    Macro(Seq<char>, Seq<char>),
    Include(Seq<char>, Seq<char>),
    FindPackage(Seq<char>),
    Condition(Seq<char>),
}

impl View for XacroError {
    type V = Fault;

    open spec fn view(&self) -> Fault {
        match *self {
            XacroError::Xml(m) => Fault::Xml(m@),
            XacroError::Unsupported { construct, detail } => Fault::Unsupported {
                construct: construct@,
                detail: detail@,
            },
            XacroError::UndefinedProperty(p) => Fault::UndefinedProperty(p@),
            XacroError::Expression(e, m) => Fault::Expression(e@, m@),
            XacroError::Macro(n, m) => Fault::Macro(n@, m@),
            XacroError::Include(f, m) => Fault::Include(f@, m@),
            XacroError::FindPackage(p) => Fault::FindPackage(p@),
            XacroError::Condition(v) => Fault::Condition(v@),
        }
    }
}

/// The message a fault is reported with.
pub open spec fn fault_text(f: Fault) -> Seq<char> {
    match f {
        Fault::Xml(m) => "malformed XML: "@ + m,
        Fault::Unsupported { construct, detail } => "unsupported xacro construct `"@ + construct
            + "`: "@ + detail,
        Fault::UndefinedProperty(p) => "undefined xacro property `"@ + p + "`"@,
        Fault::Expression(e, m) => "xacro expression `${"@ + e + "}`: "@ + m,
        Fault::Macro(n, m) => "xacro macro `"@ + n + "`: "@ + m,
        Fault::Include(f, m) => "xacro include `"@ + f + "`: "@ + m,
        Fault::FindPackage(p) => "$(find "@ + p
            + "): package directory not found (searched the URDF dir's ancestors and CALIPER_PACKAGE_PATH) or not valid UTF-8"@,
        Fault::Condition(v) => "xacro condition value `"@ + v
            + "`: only true/false/1/0 (after substitution) is supported"@,
    }
}

/// `a b c d`, concatenated.
fn joined(a: &str, b: &String, c: &str, d: &str) -> (r: String)
    ensures
        r@ == a@ + b@ + c@ + d@,
{
    let mut out = chars_of(a);
    push_lit(&mut out, b.as_str());
    push_lit(&mut out, c);
    push_lit(&mut out, d);
    string_of(&out)
}

impl XacroError {
    /// The message this error is reported with.
    pub fn to_string(&self) -> (r: String)
        ensures
            r@ == fault_text(self@),
    {
        proof {
            reveal_strlit("");
        }
        match self {
            XacroError::Xml(m) => joined("malformed XML: ", m, "", ""),
            XacroError::Unsupported { construct, detail } => joined(
                "unsupported xacro construct `",
                construct,
                "`: ",
                detail.as_str(),
            ),
            XacroError::UndefinedProperty(p) => joined("undefined xacro property `", p, "`", ""),
            XacroError::Expression(e, m) => joined("xacro expression `${", e, "}`: ", m.as_str()),
            XacroError::Macro(n, m) => joined("xacro macro `", n, "`: ", m.as_str()),
            XacroError::Include(f, m) => joined("xacro include `", f, "`: ", m.as_str()),
            XacroError::FindPackage(p) => joined(
                "$(find ",
                p,
                "): package directory not found (searched the URDF dir's ancestors and CALIPER_PACKAGE_PATH) or not valid UTF-8",
                "",
            ),
            XacroError::Condition(v) => joined(
                "xacro condition value `",
                v,
                "`: only true/false/1/0 (after substitution) is supported",
                "",
            ),
        }
    }
}

/// The text `a`, `b`, `c` one after the other.
pub fn join3(a: &str, b: &Vec<char>, c: &str) -> (r: Vec<char>)
    ensures
        r@ == a@ + b@ + c@,
{
    let mut out = chars_of(a);
    push_text(&mut out, b);
    push_lit(&mut out, c);
    out
}

} // verus!
