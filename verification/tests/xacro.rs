use caliper::text::{chars_of, string_of};
use caliper::xacro::world::{FileEntry, FileReply, PackageReply, SearchRoot};
use caliper::xacro::{
    expand, is_xacro, resolve_package_dir, Expansion, Request, World, XacroError,
};

fn empty() -> World {
    World {
        packages: Vec::new(),
        files: Vec::new(),
    }
}

/// Expands a text whose files and packages are all in `files` and `roots`.
fn expand_with(
    text: &str,
    dir: Option<&str>,
    files: &[(&str, &str)],
    roots: fn(&str) -> Vec<SearchRoot>,
) -> Result<String, XacroError> {
    let mut world = empty();
    loop {
        match expand(text, dir, &world)? {
            Expansion::Done(t) => return Ok(t),
            Expansion::Needs(Request::File { name, dir }) => {
                let n = string_of(&name);
                let reply = match files.iter().find(|f| f.0 == n) {
                    Some(f) => FileReply::Text {
                        text: chars_of(f.1),
                        dir: Some(chars_of("inc")),
                    },
                    None => FileReply::Failed(chars_of("No such file or directory")),
                };
                world.files.push(FileEntry { name, dir, reply });
            }
            Expansion::Needs(Request::Package { pkg, dir }) => {
                let found = roots(&string_of(&pkg));
                world.packages.push(PackageReply {
                    pkg,
                    dir,
                    roots: found,
                });
            }
        }
    }
}

fn no_roots(_pkg: &str) -> Vec<SearchRoot> {
    Vec::new()
}

fn expand_s(s: &str) -> Result<String, XacroError> {
    expand_with(s, None, &[], no_roots)
}

#[test]
fn properties_arithmetic_and_escape() {
    let out = expand_s(
        r#"<robot name="r" xmlns:xacro="http://www.ros.org/wiki/xacro">
                 <xacro:property name="l" value="0.25"/>
                 <xacro:property name="tag" value="arm"/>
                 <link name="${tag}_base"/>
                 <joint name="j" type="revolute">
                   <origin xyz="0 0 ${l/2}"/>
                   <limit lower="${-pi/2}" upper="${(l + 0.75) * 2}" effort="1" velocity="1"/>
                 </joint>
                 <literal note="$${not_a_property}"/>
               </robot>"#,
    )
    .unwrap();
    assert!(out.contains(r#"<link name="arm_base"/>"#), "{out}");
    assert!(out.contains(r#"xyz="0 0 0.125""#), "{out}");
    assert!(out.contains(r#"lower="-1.5707963267948966""#), "{out}");
    assert!(out.contains(r#"upper="2""#), "{out}");
    assert!(
        out.contains(r#"note="${not_a_property}""#),
        "$$ escape: {out}"
    );
    assert!(!out.contains("xmlns:xacro"), "xmlns:xacro consumed: {out}");
}

#[test]
fn conditionals_keep_and_drop() {
    let out = expand_s(
        r#"<robot name="r" xmlns:xacro="x">
                 <xacro:property name="flag" value="true"/>
                 <xacro:if value="${flag}"><link name="kept"/></xacro:if>
                 <xacro:unless value="${flag}"><link name="dropped"/></xacro:unless>
                 <xacro:if value="0"><link name="also_dropped"/></xacro:if>
                 <xacro:unless value="0"><link name="also_kept"/></xacro:unless>
               </robot>"#,
    )
    .unwrap();
    assert!(out.contains("kept") && out.contains("also_kept"), "{out}");
    assert!(!out.contains("dropped"), "{out}");
    let err = expand_s(r#"<robot xmlns:xacro="x"><xacro:if value="maybe"><a/></xacro:if></robot>"#)
        .unwrap_err();
    assert!(matches!(err, XacroError::Condition(_)), "got {err:?}");
}

#[test]
fn macro_with_defaults_and_block_param() {
    let out = expand_s(
        r#"<robot name="r" xmlns:xacro="x">
                 <xacro:macro name="seg" params="name len:=0.5 *shape">
                   <link name="${name}">
                     <visual>
                       <origin xyz="0 0 ${len/2}"/>
                       <geometry><xacro:insert_block name="shape"/></geometry>
                     </visual>
                   </link>
                 </xacro:macro>
                 <xacro:seg name="a"><box size="1 1 ${1+1}"/></xacro:seg>
                 <xacro:seg name="b" len="0.2"><sphere radius="0.1"/></xacro:seg>
               </robot>"#,
    )
    .unwrap();
    assert!(out.contains(r#"<link name="a">"#), "{out}");
    assert!(out.contains(r#"xyz="0 0 0.25""#), "default len: {out}");
    assert!(
        out.contains(r#"<box size="1 1 2"/>"#),
        "block substituted: {out}"
    );
    assert!(out.contains(r#"xyz="0 0 0.1""#), "override len: {out}");
    assert!(out.contains(r#"<sphere radius="0.1"/>"#), "{out}");
}

#[test]
fn macro_errors_are_specific() {
    let def = r#"<xacro:macro name="m" params="a *b"><x><xacro:insert_block name="b"/></x></xacro:macro>"#;
    // missing required value param
    let err = expand_s(&format!(
        r#"<robot xmlns:xacro="x">{def}<xacro:m><c/></xacro:m></robot>"#
    ))
    .unwrap_err();
    assert!(
        err.to_string().contains("missing required parameter `a`"),
        "{err:?}"
    );
    // missing block argument
    let err = expand_s(&format!(
        r#"<robot xmlns:xacro="x">{def}<xacro:m a="1"/></robot>"#
    ))
    .unwrap_err();
    assert!(
        err.to_string().contains("missing block argument `*b`"),
        "{err:?}"
    );
    // unexpected attribute
    let err = expand_s(&format!(
        r#"<robot xmlns:xacro="x">{def}<xacro:m a="1" zz="2"><c/></xacro:m></robot>"#
    ))
    .unwrap_err();
    assert!(
        err.to_string().contains("unexpected attribute `zz`"),
        "{err:?}"
    );
    // extra block children
    let err = expand_s(&format!(
        r#"<robot xmlns:xacro="x">{def}<xacro:m a="1"><c/><d/></xacro:m></robot>"#
    ))
    .unwrap_err();
    assert!(err.to_string().contains("more child elements"), "{err:?}");
}

#[test]
fn unsupported_constructs_error_naming_the_construct() {
    let cases: &[(&str, &str)] = &[
        (r#"<xacro:arg name="v" default="1"/>"#, "xacro:arg"),
        (r#"<link name="$(arg v)"/>"#, "$(arg ..)"),
        (r#"<link name="$(env HOME)"/>"#, "$(env ..)"),
        (r#"<xacro:nonexistent_macro/>"#, "xacro:nonexistent_macro"),
        (
            r#"<xacro:property name="x" value="1" scope="parent"/>"#,
            "xacro:property",
        ),
        (r#"<xacro:include filename="f.xacro" ns="foo"/>"#, "ns="),
    ];
    for (body, needle) in cases {
        let err = expand_s(&format!(r#"<robot xmlns:xacro="x">{body}</robot>"#)).unwrap_err();
        assert!(
            err.to_string().contains(needle),
            "error for {body} must name `{needle}`, got: {err:?}"
        );
    }
    // unsupported python expression inside ${..}
    let err = expand_s(r#"<robot xmlns:xacro="x"><link name="${cos(0)}"/></robot>"#).unwrap_err();
    assert!(matches!(err, XacroError::Expression(..)), "got {err:?}");
    // undefined property
    let err = expand_s(r#"<robot xmlns:xacro="x"><link name="${ghost}"/></robot>"#).unwrap_err();
    assert!(
        matches!(&err, XacroError::UndefinedProperty(p) if p == "ghost"),
        "got {err:?}"
    );
}

#[test]
fn recursion_and_missing_include_are_caught() {
    let err = expand_s(
        r#"<robot xmlns:xacro="x">
                 <xacro:macro name="loopy" params=""><xacro:loopy/></xacro:macro>
                 <xacro:loopy/>
               </robot>"#,
    )
    .unwrap_err();
    assert!(err.to_string().contains("recursion depth"), "{err:?}");
    let err = expand_s(
        r#"<robot xmlns:xacro="x"><xacro:include filename="no_such_file.xacro"/></robot>"#,
    )
    .unwrap_err();
    assert!(matches!(err, XacroError::Include(..)), "got {err:?}");
}

/// `demo_pkg` lies one level above the directory of the text.
fn demo_roots(pkg: &str) -> Vec<SearchRoot> {
    let root = |dir: &str, name: &str| SearchRoot {
        sub: Some(format!("{dir}/{pkg}")),
        sub_is_dir: dir == "/fixtures" && pkg == "demo_pkg",
        dir: Some(dir.to_string()),
        name: Some(name.to_string()),
        is_dir: true,
    };
    vec![
        root("/fixtures/robots", "robots"),
        root("/fixtures", "fixtures"),
        root("/", ""),
    ]
}

#[test]
fn find_resolves_via_package_search() {
    let p = resolve_package_dir(&chars_of("demo_pkg"), &demo_roots("demo_pkg"))
        .expect("demo_pkg must resolve");
    assert!(string_of(&p).ends_with("demo_pkg"), "got {p:?}");
    assert_eq!(
        resolve_package_dir(&chars_of("ghost_pkg"), &demo_roots("ghost_pkg")),
        None
    );
    // a root that is itself the package
    let own = resolve_package_dir(&chars_of("robots"), &demo_roots("robots")).unwrap();
    assert_eq!(string_of(&own), "/fixtures/robots");
    let dir = Some("/fixtures/robots");
    let out = expand_with(
        r#"<robot name="r" xmlns:xacro="x">
                 <mesh filename="$(find demo_pkg)/meshes/part.stl"/>
               </robot>"#,
        dir,
        &[],
        demo_roots,
    )
    .unwrap();
    assert!(out.contains("demo_pkg/meshes/part.stl"), "{out}");
    let err = expand_with(
        r#"<robot xmlns:xacro="x"><mesh filename="$(find ghost_pkg)/m.stl"/></robot>"#,
        dir,
        &[],
        demo_roots,
    )
    .unwrap_err();
    assert!(
        matches!(&err, XacroError::FindPackage(p) if p == "ghost_pkg"),
        "got {err:?}"
    );
}

#[test]
fn detection_by_extension_and_root_xmlns() {
    let ext = |p: &str| std::path::Path::new(p).extension().map(|e| e.to_str().unwrap().to_string());
    let plain = r#"<robot name="r"><link name="a"/></robot>"#;
    let with_ns = r#"<robot name="r" xmlns:xacro="http://www.ros.org/wiki/xacro"/>"#;
    assert!(is_xacro(ext("a.xacro").as_deref(), plain), "extension wins");
    assert!(is_xacro(ext("a.urdf.xacro").as_deref(), plain));
    assert!(is_xacro(ext("a.XACRO").as_deref(), plain));
    assert!(is_xacro(ext("a.urdf").as_deref(), with_ns), "root xmlns");
    assert!(!is_xacro(ext("a.urdf").as_deref(), plain));
    // a mention outside the root tag must NOT trigger expansion
    let comment = r#"<robot name="r"><!-- xmlns:xacro --><link name="a"/></robot>"#;
    assert!(!is_xacro(ext("a.urdf").as_deref(), comment));
}

#[test]
fn cdata_is_rejected_loudly() {
    let err = expand_s(r#"<robot xmlns:xacro="x"><a><![CDATA[hi]]></a></robot>"#).unwrap_err();
    assert!(err.to_string().contains("CDATA"), "{err:?}");
}

#[test]
fn includes_splice_and_register() {
    let out = expand_with(
        r#"<robot name="r" xmlns:xacro="x"><xacro:include filename="parts.xacro"/><link name="${n}"/></robot>"#,
        Some("here"),
        &[(
            "parts.xacro",
            r#"<robot><xacro:property name="n" value="from_parts"/><b/></robot>"#,
        )],
        no_roots,
    )
    .unwrap();
    assert_eq!(
        out,
        "<?xml version=\"1.0\"?>\n<robot name=\"r\"><b/><link name=\"from_parts\"/></robot>"
    );
    // a file that splices itself
    let err = expand_with(
        r#"<robot xmlns:xacro="x"><xacro:include filename="me.xacro"/></robot>"#,
        None,
        &[("me.xacro", r#"<robot><xacro:include filename="me.xacro"/></robot>"#)],
        no_roots,
    )
    .unwrap_err();
    assert!(err.to_string().contains("include depth exceeded"), "{err:?}");
    // a malformed one
    let err = expand_with(
        r#"<robot xmlns:xacro="x"><xacro:include filename="bad.xacro"/></robot>"#,
        None,
        &[("bad.xacro", "<robot>")],
        no_roots,
    )
    .unwrap_err();
    assert_eq!(
        err.to_string(),
        "xacro include `bad.xacro`: malformed XML: unterminated element `<robot>` (at byte 7)"
    );
}

#[test]
fn a_block_may_insert_itself_while_it_ends() {
    let out = expand_s(
        r#"<robot xmlns:xacro="x"><xacro:macro name="m" params="n *b"><xacro:insert_block name="b"/></xacro:macro><xacro:m n="2"><c><xacro:property name="n" value="${n-1}"/><xacro:if value="${n}"><xacro:insert_block name="b"/></xacro:if></c></xacro:m></robot>"#,
    )
    .unwrap();
    assert!(out.contains("<c><c/></c>"), "{out}");
}

#[test]
fn malformed_documents_name_the_place() {
    let msg = |s: &str| expand_s(s).unwrap_err().to_string();
    assert_eq!(msg(""), "malformed XML: expected a root element (at byte 0)");
    assert_eq!(
        msg("<a></b>"),
        "malformed XML: `<a>` closed by `</b>` (at byte 6)"
    );
    assert_eq!(
        msg("<é/>"),
        "malformed XML: expected an XML name (at byte 1)"
    );
    assert_eq!(
        msg("<a>é</b>"),
        "malformed XML: `<a>` closed by `</b>` (at byte 8)"
    );
    assert_eq!(
        msg("<a/><b/>"),
        "malformed XML: unexpected content after the root element (at byte 4)"
    );
    assert_eq!(
        msg("<!-- x"),
        "malformed XML: missing closing `-->` (at byte 4)"
    );
    assert_eq!(
        msg("<a b=c/>"),
        "malformed XML: expected a quoted attribute value (at byte 5)"
    );
    assert!(msg("<!DOCTYPE r [ <!ENTITY x \"y\"> ]><r/>").contains("DOCTYPE internal subset"));
    assert!(msg("<${x}/>").contains("element-name substitution"));
}

#[test]
fn quotes_stay_valid() {
    let out = expand_s(r#"<r a='say "hi"' b="it's"/>"#).unwrap();
    assert_eq!(
        out,
        "<?xml version=\"1.0\"?>\n<r a='say \"hi\"' b=\"it's\"/>"
    );
    let both = expand_s(
        r#"<r><xacro:property name="q" value='"'/><x a="it's ${q}"/></r>"#,
    )
    .unwrap();
    assert!(both.contains(r#"<x a="it's &quot;"/>"#), "{both}");
}

#[test]
fn expressions_evaluate_like_floats() {
    let val = |e: &str| {
        let out = expand_s(&format!("<r v=\"${{{e}}}\"/>")).unwrap();
        let a = out.find("v=\"").unwrap() + 3;
        out[a..out.rfind('"').unwrap()].to_string()
    };
    assert_eq!(val("1/3"), (1.0f64 / 3.0).to_string());
    assert_eq!(val("0.1+0.2"), (0.1f64 + 0.2).to_string());
    assert_eq!(val("2*pi"), (2.0 * std::f64::consts::PI).to_string());
    assert_eq!(val("pi"), std::f64::consts::PI.to_string());
    assert_eq!(val("-(1e21)*1"), (-1e21f64).to_string());
    assert_eq!(val("5e-324*1"), 5e-324f64.to_string());
    assert_eq!(val("1.7976931348623157e308*1"), f64::MAX.to_string());
    assert_eq!(val("0*-1"), (-0.0f64).to_string());
    assert_eq!(val("1e-7/3-2"), (1e-7f64 / 3.0 - 2.0).to_string());
    let err = expand_s("<r v=\"${1/0}\"/>").unwrap_err();
    assert_eq!(err.to_string(), "xacro expression `${1/0}`: non-finite result");
    let err = expand_s("<r v=\"${1+}\"/>").unwrap_err();
    assert_eq!(
        err.to_string(),
        "xacro expression `${1+}`: unexpected end of expression"
    );
    let err = expand_s("<r v=\"${1 2}\"/>").unwrap_err();
    assert!(err.to_string().contains("unexpected `2`"), "{err:?}");
    let err = expand_s("<r v=\"${(1}\"/>").unwrap_err();
    assert!(err.to_string().contains("missing `)`"), "{err:?}");
    let err = expand_s("<r v=\"${1.2.3*1}\"/>").unwrap_err();
    assert!(err.to_string().contains("malformed number `1.2.3`"), "{err:?}");
}

#[test]
fn escaped_dollars_come_back() {
    let out = expand_s("<r v=\"a$$b$${c}$$(find d)$e\"/>").unwrap();
    assert!(out.contains("v=\"a$b${c}$(find d)$e\""), "{out}");
    let err = expand_s("<r v=\"${a\"/>").unwrap_err();
    assert!(err.to_string().contains("unterminated `${`"), "{err:?}");
    let err = expand_s("<r v=\"$(\"/>").unwrap_err();
    assert!(err.to_string().contains("unterminated `$(`"), "{err:?}");
    let err = expand_s("<r v=\"$( )\"/>").unwrap_err();
    assert!(err.to_string().contains("empty `$(..)`"), "{err:?}");
    let err = expand_s("<r v=\"${ }\"/>").unwrap_err();
    assert!(err.to_string().contains("empty expression"), "{err:?}");
    let err = expand_s("<r v=\"${a{b}\"/>").unwrap_err();
    assert!(err.to_string().contains("nested braces"), "{err:?}");
}

#[test]
fn conditions_are_exact_words() {
    for v in ["True", " true", "1 ", "FALSE", "yes", ""] {
        let text = format!(
            r#"<robot xmlns:xacro="x"><xacro:if value="{v}"><a/></xacro:if></robot>"#
        );
        assert!(matches!(expand_s(&text), Err(XacroError::Condition(s)) if s == v), "{v:?}");
    }
}

#[test]
fn a_robot_tag_in_a_comment_is_no_root() {
    let hidden = r#"<!-- <robot xmlns:xacro="x"> --><robot name="r"/>"#;
    assert!(!is_xacro(Some("urdf"), hidden));
    let behind = "\u{feff}<?xml version=\"1.0\"?>\n<!-- plain --><robot xmlns:xacro=\"x\"/>";
    assert!(is_xacro(Some("urdf"), behind));
    // a prolog that is not parsed hides no root: the text is refused when it is expanded
    assert!(is_xacro(Some("urdf"), "<!-- <robot xmlns:xacro=\"x\">"));
    let subset = r#"<!DOCTYPE robot [<!ENTITY a "b">]><robot xmlns:xacro="x"/>"#;
    assert!(is_xacro(Some("urdf"), subset));
    assert!(expand_s(subset).is_err());
    assert!(!is_xacro(None, r#"<a><robot xmlns:xacro="x"/></a>"#));
}

#[test]
fn long_chains_of_blocks_expand() {
    // each block splices the next one, and the last one is plain
    let n = 150;
    let params: Vec<String> = (0..n).map(|i| format!("*b{i}")).collect();
    let args: Vec<String> = (0..n)
        .map(|i| {
            if i + 1 < n {
                format!(r#"<c><xacro:insert_block name="b{}"/></c>"#, i + 1)
            } else {
                "<end/>".to_string()
            }
        })
        .collect();
    let text = format!(
        r#"<robot xmlns:xacro="x"><xacro:macro name="m" params="{}"><xacro:insert_block name="b0"/></xacro:macro><xacro:m>{}</xacro:m></robot>"#,
        params.join(" "),
        args.join("")
    );
    let out = expand_s(&text).unwrap();
    assert!(out.contains("<end/>"));
    assert_eq!(out.matches("<c>").count(), n - 1);
}

#[test]
fn expanding_again_changes_nothing() {
    let text = r#"<robot name="r" xmlns:xacro="x" note='say "hi"'>
      <xacro:macro name="pair" params="*a *b"><xacro:insert_block name="b"/> and
        <xacro:insert_block name="a"/></xacro:macro>
      left<!-- gone -->right
      <xacro:pair><one k="1"/><two>deep<x/></two></xacro:pair>
      <xacro:if value="0"><no/></xacro:if><xacro:unless value="0"><yes/></xacro:unless>
    </robot>"#;
    let once = expand_s(text).unwrap();
    assert!(once.contains("<one k=\"1\"/>") && once.contains("note='say \"hi\"'"), "{once}");
    assert!(once.contains("leftright"), "{once}");
    assert_eq!(expand_s(&once).unwrap(), once);
}

#[test]
fn a_call_leaves_the_scopes_of_its_caller() {
    let text = r#"<robot xmlns:xacro="x">
      <xacro:property name="p" value="outer"/>
      <xacro:macro name="m" params="q"><xacro:property name="p" value="inner"/>
        <in v="${p}${q}"/></xacro:macro>
      <xacro:m q="1"/><after v="${p}"/>
    </robot>"#;
    let out = expand_s(text).unwrap();
    assert!(out.contains("<in v=\"inner1\"/>"), "{out}");
    assert!(out.contains("<after v=\"outer\"/>"), "{out}");
    let err = expand_s(&text.replace("<after v=\"${p}\"/>", "<after v=\"${q}\"/>")).unwrap_err();
    assert!(err.to_string().contains("q"), "{err:?}");
}
