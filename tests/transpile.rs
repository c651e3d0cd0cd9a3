use bbcoder::element::{Child, Element};
use bbcoder::parser::{BuildError, Loaded, Parser, Sources};
use bbcoder::project::Project;
use bbcoder::render::{Registry, RenderError};
use bbcoder::table::Table;

fn el(tag: &str, attrs: &[(&str, &str)], text: &str, children: Vec<Child>) -> Element {
    Element {
        tag: tag.to_string(),
        attributes: attrs.iter().map(|(k, v)| (k.to_string(), v.to_string())).collect(),
        text: text.to_string(),
        children,
    }
}

fn ch(element: Element, tail: &str) -> Child {
    Child { element, tail: tail.to_string() }
}

fn body_of(children: Vec<Child>, text: &str) -> Element {
    el("bbxml", &[], "", vec![ch(el("body", &[], text, children), "")])
}

fn render_one(reg: &Registry, e: &Element, ctx: &Table<&Element>) -> Result<String, RenderError> {
    let mut out = String::new();
    reg.render_content(e, ctx, 64, &mut out).map(|_| out)
}

fn build(sources: &Sources, path: &str) -> Result<String, BuildError> {
    let project = Project::new();
    let mut parser = Parser::new(&project);
    let mut out = String::new();
    parser.output_bbcode(sources, &path.to_string(), &mut out).map(|_| out)
}

fn classes(pairs: &[(&str, &str)]) -> Element {
    let cs = pairs
        .iter()
        .map(|(n, t)| ch(el("class", &[("name", n)], t, vec![]), ""))
        .collect();
    el("classes", &[], "", cs)
}

fn inc(src: &str) -> Child {
    ch(el("include", &[("src", src)], "", vec![]), "")
}

#[test]
fn end_to_end_hello_world() {
    let mut sources = Sources::new();
    let root = body_of(vec![ch(el("b", &[], "world", vec![]), "!")], "Hello ");
    sources.add_document("index.bbxml".to_string(), Loaded::Parsed(root));
    assert_eq!(build(&sources, "index.bbxml").ok().unwrap(), "Hello [B]world[/B]!");
}

#[test]
fn generic_tag_with_class_and_option() {
    let mut reg = Registry::new();
    reg.classes.insert("warn".to_string(), "color=red;".to_string());
    let b = el("b", &[("class", "warn"), ("option", "red")], "hi", vec![]);
    let parent = el("p", &[], "", vec![ch(b, "")]);
    let out = render_one(&reg, &parent, &Table::new()).ok().unwrap();
    assert_eq!(out, "[B=color=red;red]hi[/B]");
}

#[test]
fn generic_tag_skips_unknown_class_and_trims() {
    let mut reg = Registry::new();
    reg.classes.insert("a".to_string(), " x ".to_string());
    let b = el("span", &[("class", "nope  a")], "t", vec![]);
    let parent = el("p", &[], "", vec![ch(b, "")]);
    assert_eq!(render_one(&reg, &parent, &Table::new()).ok().unwrap(), "[SPAN=x]t[/SPAN]");
    let blank = el("i", &[("option", "   ")], "t", vec![]);
    let parent = el("p", &[], "", vec![ch(blank, "")]);
    assert_eq!(render_one(&reg, &parent, &Table::new()).ok().unwrap(), "[I]t[/I]");
}

#[test]
fn list_item_has_no_closing_marker() {
    let reg = Registry::new();
    let parent = el("list", &[], "", vec![ch(el("li", &[], "text", vec![]), "")]);
    assert_eq!(render_one(&reg, &parent, &Table::new()).ok().unwrap(), "[*]text");
}

#[test]
fn line_break_then_tail_once() {
    let reg = Registry::new();
    let parent = el("p", &[], "a", vec![ch(el("br", &[], "", vec![]), "b")]);
    assert_eq!(render_one(&reg, &parent, &Table::new()).ok().unwrap(), "a\nb");
}

#[test]
fn placeholder_is_substituted() {
    let reg = Registry::new();
    let arg = el("param", &[("name", "p")], "E", vec![ch(el("b", &[], "x", vec![]), "")]);
    let mut ctx: Table<&Element> = Table::new();
    ctx.insert("p".to_string(), &arg);
    let e = el("p", &[], "a {p} b", vec![]);
    assert_eq!(render_one(&reg, &e, &ctx).ok().unwrap(), "a E[B]x[/B] b");
}

#[test]
fn unbound_placeholder_is_dropped() {
    let reg = Registry::new();
    let e = el("p", &[], "x{missing}y", vec![]);
    assert_eq!(render_one(&reg, &e, &Table::new()).ok().unwrap(), "xy");
}

#[test]
fn every_placeholder_is_substituted() {
    let reg = Registry::new();
    let one = el("param", &[("name", "a")], "1", vec![]);
    let two = el("param", &[("name", "b-c")], "2", vec![]);
    let mut ctx: Table<&Element> = Table::new();
    ctx.insert("a".to_string(), &one);
    ctx.insert("b-c".to_string(), &two);
    let e = el("p", &[], "{a}+{b-c}={a}", vec![]);
    assert_eq!(render_one(&reg, &e, &ctx).ok().unwrap(), "1+2=1");
}

#[test]
fn template_include_binds_params() {
    let tpl = el("template", &[("name", "card")], "<{title}>", vec![]);
    let mut reg = Registry::new();
    reg.templates.insert("card".to_string(), &tpl);
    let param = el("param", &[("name", "title")], "T", vec![]);
    let call = el("include", &[("template", "card")], "", vec![ch(param, "")]);
    let e = el("p", &[], "", vec![ch(call, " after{title}")]);
    assert_eq!(render_one(&reg, &e, &Table::new()).ok().unwrap(), "<T> after");
}

#[test]
fn substituted_argument_sees_no_bindings() {
    let tpl = el("template", &[("name", "t")], "[{x}]", vec![]);
    let mut reg = Registry::new();
    reg.templates.insert("t".to_string(), &tpl);
    let param = el("param", &[("name", "x")], "in{x}", vec![]);
    let call = el("include", &[("template", "t")], "", vec![ch(param, "")]);
    let e = el("p", &[], "", vec![ch(call, "")]);
    assert_eq!(render_one(&reg, &e, &Table::new()).ok().unwrap(), "[in]");
}

#[test]
fn missing_template_errors() {
    let reg = Registry::new();
    let call = el("include", &[("template", "nope")], "", vec![]);
    let e = el("p", &[], "", vec![ch(call, "")]);
    match render_one(&reg, &e, &Table::new()) {
        Err(RenderError::TemplateNotFound(n)) => assert_eq!(n, "nope"),
        _ => panic!("expected a missing template"),
    }
    let call = el("include", &[], "", vec![]);
    let e = el("p", &[], "", vec![ch(call, "")]);
    assert!(matches!(render_one(&reg, &e, &Table::new()), Err(RenderError::MissingTemplateAttribute)));
    let call = el("include", &[("template", "nope")], "", vec![ch(el("param", &[], "", vec![]), "")]);
    let e = el("p", &[], "", vec![ch(call, "")]);
    assert!(matches!(render_one(&reg, &e, &Table::new()), Err(RenderError::MissingParamName)));
}

#[test]
fn recursive_template_is_too_deep() {
    let call = el("include", &[("template", "loop")], "", vec![]);
    let tpl = el("template", &[("name", "loop")], "", vec![ch(call, "")]);
    let mut reg = Registry::new();
    reg.templates.insert("loop".to_string(), &tpl);
    assert!(matches!(render_one(&reg, &tpl, &Table::new()), Err(RenderError::TooDeep)));
}

#[test]
fn missing_body_errors() {
    let mut sources = Sources::new();
    sources.add_document("a.bbxml".to_string(), Loaded::Parsed(el("bbxml", &[], "", vec![])));
    assert!(matches!(build(&sources, "a.bbxml"), Err(BuildError::Render(RenderError::MissingBody))));
}

#[test]
fn newlines_in_body_are_folded() {
    let mut sources = Sources::new();
    let root = body_of(vec![ch(el("b", &[], "x", vec![]), "\n   y\n")], "\n    Hello\n    ");
    sources.add_document("i.bbxml".to_string(), Loaded::Parsed(root));
    assert_eq!(build(&sources, "i.bbxml").ok().unwrap(), "Hello[B]x[/B]y");
}

fn override_sources(d_defines: bool) -> Sources {
    let mut sources = Sources::new();
    let mut d_children = vec![inc("a.bbxml"), inc("b.bbxml")];
    if d_defines {
        d_children.push(ch(classes(&[("x", "D")]), ""));
    }
    d_children.push(ch(el("body", &[], "", vec![ch(el("c", &[("class", "x")], "", vec![]), "")]), ""));
    sources.add_document("d.bbxml".to_string(), Loaded::Parsed(el("bbxml", &[], "", d_children)));
    sources.add_document(
        "a.bbxml".to_string(),
        Loaded::Parsed(el("bbxml", &[], "", vec![ch(classes(&[("x", "A")]), "")])),
    );
    sources.add_document(
        "b.bbxml".to_string(),
        Loaded::Parsed(el("bbxml", &[], "", vec![ch(classes(&[("x", "B\n   more")]), "")])),
    );
    sources.add_resolution("a.bbxml".to_string(), String::new(), Some("a.bbxml".to_string()));
    sources.add_resolution("b.bbxml".to_string(), String::new(), Some("b.bbxml".to_string()));
    sources
}

#[test]
fn own_class_overrides_included() {
    let sources = override_sources(true);
    assert_eq!(build(&sources, "d.bbxml").ok().unwrap(), "[C=D][/C]");
}

#[test]
fn later_include_overrides_earlier() {
    let sources = override_sources(false);
    assert_eq!(build(&sources, "d.bbxml").ok().unwrap(), "[C=B more][/C]");
}

#[test]
fn circular_include_fails() {
    let mut sources = Sources::new();
    sources.add_document("a.bbxml".to_string(), Loaded::Parsed(el("bbxml", &[], "", vec![inc("b.bbxml")])));
    sources.add_document("b.bbxml".to_string(), Loaded::Parsed(el("bbxml", &[], "", vec![inc("a.bbxml")])));
    sources.add_resolution("b.bbxml".to_string(), String::new(), Some("b.bbxml".to_string()));
    sources.add_resolution("a.bbxml".to_string(), String::new(), Some("a.bbxml".to_string()));
    match build(&sources, "a.bbxml") {
        Err(BuildError::CircularInclude(p)) => assert_eq!(p, "a.bbxml"),
        _ => panic!("expected a circular include"),
    }
}

#[test]
fn discovery_asks_for_what_it_lacks() {
    let mut sources = Sources::new();
    assert!(matches!(build(&sources, "m.bbxml"), Err(BuildError::NeedDocument(p)) if p == "m.bbxml"));
    sources.add_document("sub/m.bbxml".to_string(), Loaded::Parsed(el("bbxml", &[], "", vec![inc("x.bbxml")])));
    match build(&sources, "sub/m.bbxml") {
        Err(BuildError::NeedResolution(s, d)) => {
            assert_eq!(s, "x.bbxml");
            assert_eq!(d, "sub");
        },
        _ => panic!("expected a resolution request"),
    }
    sources.add_resolution("x.bbxml".to_string(), "sub".to_string(), None);
    assert!(matches!(build(&sources, "sub/m.bbxml"), Err(BuildError::FileNotFound(s)) if s == "x.bbxml"));
}

#[test]
fn malformed_documents_fail() {
    let mut sources = Sources::new();
    sources.add_document("bad.xml".to_string(), Loaded::Failed("unexpected end".to_string()));
    assert!(matches!(build(&sources, "bad.xml"), Err(BuildError::XmlParse(m)) if m == "unexpected end"));
    sources.add_document("html.xml".to_string(), Loaded::Parsed(el("html", &[], "", vec![])));
    assert!(matches!(build(&sources, "html.xml"), Err(BuildError::NotBbxml(_))));
    sources.add_document("noname.xml".to_string(), Loaded::Parsed(el("bbxml", &[], "", vec![ch(
        el("classes", &[], "", vec![ch(el("class", &[], "t", vec![]), "")]),
        "",
    )])));
    assert!(matches!(build(&sources, "noname.xml"), Err(BuildError::MissingClassName)));
    sources.add_document("notpl.xml".to_string(), Loaded::Parsed(el("bbxml", &[], "", vec![ch(
        el("templates", &[], "", vec![ch(el("template", &[], "t", vec![]), "")]),
        "",
    )])));
    assert!(matches!(build(&sources, "notpl.xml"), Err(BuildError::MissingTemplateName)));
    sources.add_document(
        "nosrc.xml".to_string(),
        Loaded::Parsed(el("bbxml", &[], "", vec![ch(el("include", &[], "", vec![]), "")])),
    );
    assert!(matches!(build(&sources, "nosrc.xml"), Err(BuildError::MissingIncludeSrc)));
}

#[test]
fn templates_from_includes_render() {
    let mut sources = Sources::new();
    let tpl = el("template", &[("name", "hi")], "Hi {who}", vec![]);
    sources.add_document(
        "lib.bbxml".to_string(),
        Loaded::Parsed(el("bbxml", &[], "", vec![ch(el("templates", &[], "", vec![ch(tpl, "")]), "")])),
    );
    let call = el("include", &[("template", "hi")], "", vec![ch(el("param", &[("name", "who")], "you", vec![]), "")]);
    let root = el("bbxml", &[], "", vec![inc("lib.bbxml"), ch(el("body", &[], "", vec![ch(call, "!")]), "")]);
    sources.add_document("main.bbxml".to_string(), Loaded::Parsed(root));
    sources.add_resolution("lib.bbxml".to_string(), String::new(), Some("lib.bbxml".to_string()));
    assert_eq!(build(&sources, "main.bbxml").ok().unwrap(), "Hi you!");
}

#[test]
fn include_chain_too_deep() {
    let mut sources = Sources::new();
    for k in 0..80 {
        let next = format!("d{}.bbxml", k + 1);
        sources.add_document(format!("d{}.bbxml", k), Loaded::Parsed(el("bbxml", &[], "", vec![inc(&next)])));
        sources.add_resolution(next.clone(), String::new(), Some(next));
    }
    assert!(matches!(build(&sources, "d0.bbxml"), Err(BuildError::TooDeep)));
}

#[test]
fn parser_keeps_definitions_after_build() {
    let sources = override_sources(true);
    let project = Project::new();
    let mut parser = Parser::new(&project);
    let mut out = String::new();
    assert!(parser.output_bbcode(&sources, &"d.bbxml".to_string(), &mut out).is_ok());
    assert_eq!(parser.registry.classes.get(&"x".to_string()).unwrap(), "D");
}

#[test]
fn segments_substitute_given_names() {
    let reg = Registry::new();
    let arg = el("param", &[("name", "p")], "E", vec![]);
    let mut ctx: Table<&Element> = Table::new();
    ctx.insert("p".to_string(), &arg);
    let mut out = String::new();
    let lits = vec!["a ".to_string(), " b".to_string()];
    let names = vec!["p".to_string()];
    assert!(reg.render_segments(&lits, &names, &ctx, 8, &mut out).is_ok());
    assert_eq!(out, "a E b");
    let mut out = String::new();
    let lits = vec!["x".to_string(), "y".to_string()];
    let names = vec!["missing".to_string()];
    assert!(reg.render_segments(&lits, &names, &ctx, 8, &mut out).is_ok());
    assert_eq!(out, "xy");
}

#[test]
fn tagged_child_uses_given_name() {
    let mut reg = Registry::new();
    reg.classes.insert("warn".to_string(), "color=red;".to_string());
    let c = ch(el("b", &[("class", "warn"), ("option", "red")], "hi", vec![]), " tail");
    let mut out = String::new();
    assert!(reg.render_tagged(&c, &"Q".to_string(), &Table::new(), 8, &mut out).is_ok());
    assert_eq!(out, "[Q=color=red;red]hi[/Q] tail");
}
