use bbcoder::project::{first_found, join, parent, ManifestError, Project, ALL_TARGETS};
use bbcoder::table::Table;
use bbcoder::text::{compact_text, placeholders, split_whitespace, trim, uppercase};

#[test]
fn no_line_break_is_identity() {
    assert_eq!(compact_text("a  b\tc ", "X"), "a  b\tc ");
    assert_eq!(compact_text("", "X"), "");
}

#[test]
fn line_break_run_becomes_replacement() {
    assert_eq!(compact_text("a \t\n  b", "_"), "a_b");
    assert_eq!(compact_text("one\r\ntwo\n\n three", " "), "one two three");
    assert_eq!(compact_text("\n  lead", ""), "lead");
}

#[test]
fn placeholders_split_text() {
    let (lits, names) = placeholders("a {p} b {q-r}");
    assert_eq!(lits, vec!["a ".to_string(), " b ".to_string(), String::new()]);
    assert_eq!(names, vec!["p".to_string(), "q-r".to_string()]);
    let (lits, names) = placeholders("{} {a b}");
    assert_eq!(lits, vec!["{} {a b}".to_string()]);
    assert!(names.is_empty());
}

#[test]
fn words_and_trim() {
    assert_eq!(split_whitespace("  a b\t\ncc "), vec!["a".to_string(), "b".to_string(), "cc".to_string()]);
    assert!(split_whitespace("   ").is_empty());
    assert_eq!(trim("  x y \n"), "x y");
    assert_eq!(trim(""), "");
    assert_eq!(uppercase("quote"), "QUOTE");
}

#[test]
fn paths_join_and_split() {
    assert_eq!(join("", "a.xml"), "a.xml");
    assert_eq!(join("dir", "a.xml"), "dir/a.xml");
    assert_eq!(join("dir/", "a.xml"), "dir/a.xml");
    assert_eq!(join("dir", "/abs.xml"), "/abs.xml");
    assert_eq!(parent("a/b/c.xml"), "a/b");
    assert_eq!(parent("c.xml"), "");
    assert_eq!(parent("/c.xml"), "/");
}

#[test]
fn candidates_in_search_order() {
    let mut p = Project::new();
    p.project_directory = "proj".to_string();
    p.include_paths.push("lib".to_string());
    let c = p.candidate_paths(&"x.bbxml".to_string(), &"src".to_string());
    assert_eq!(c, vec!["proj/x.bbxml".to_string(), "proj/src/x.bbxml".to_string(), "proj/lib/x.bbxml".to_string()]);
    let c = p.candidate_paths(&"/abs/x.bbxml".to_string(), &"src".to_string());
    assert_eq!(c, vec!["/abs/x.bbxml".to_string()]);
    assert_eq!(p.find_file(&"no-such-file.bbxml".to_string(), &"src".to_string()), None);
}

#[test]
fn new_project_defaults() {
    let p = Project::new();
    assert_eq!(p.default_target, "main");
    assert!(p.include_paths.is_empty());
    assert!(p.targets.get(&"main".to_string()).is_none());
}

#[test]
fn table_later_entry_wins() {
    let mut t: Table<String> = Table::new();
    t.insert("k".to_string(), "1".to_string());
    t.insert("j".to_string(), "2".to_string());
    t.insert("k".to_string(), "3".to_string());
    assert_eq!(t.get(&"k".to_string()).unwrap(), "3");
    assert_eq!(t.get(&"j".to_string()).unwrap(), "2");
    assert!(t.get(&"z".to_string()).is_none());
}

fn node(tag: &str, attrs: &[(&str, &str)], text: &str, children: Vec<bbcoder::element::Child>) -> bbcoder::element::Element {
    bbcoder::element::Element {
        tag: tag.to_string(),
        attributes: attrs.iter().map(|(k, v)| (k.to_string(), v.to_string())).collect(),
        text: text.to_string(),
        children,
    }
}

fn kid(element: bbcoder::element::Element) -> bbcoder::element::Child {
    bbcoder::element::Child { element, tail: String::new() }
}

#[test]
fn project_definition_loads() {
    let root = node("project", &[], "", vec![
        kid(node("include", &[], "", vec![kid(node("path", &[], "  lib \n", vec![])), kid(node("path", &[], "more", vec![]))])),
        kid(node("targets", &[("default", "main")], "", vec![
            kid(node("target", &[("name", "main"), ("src", "index.bbxml")], "", vec![])),
            kid(node("target", &[("name", "extra"), ("src", "extra.bbxml")], "", vec![])),
        ])),
    ]);
    let mut p = Project::new();
    assert!(p.load(&"proj/project.xml".to_string(), &root).is_ok());
    assert_eq!(p.project_directory, "proj");
    assert_eq!(p.include_paths, vec!["lib".to_string(), "more".to_string()]);
    assert_eq!(p.targets.get(&"main".to_string()).unwrap(), "index.bbxml");
    assert_eq!(p.targets.get(&"extra".to_string()).unwrap(), "extra.bbxml");
    assert_eq!(p.default_target, "main");
}

#[test]
fn project_definition_errors() {
    let mut p = Project::new();
    let empty = node("project", &[], "", vec![]);
    assert!(matches!(p.load(&"project.xml".to_string(), &empty), Err(ManifestError::NoTargets)));
    let no_src = node("project", &[], "", vec![kid(node("targets", &[], "", vec![kid(node("target", &[("name", "m")], "", vec![]))]))]);
    assert!(matches!(p.load(&"project.xml".to_string(), &no_src), Err(ManifestError::MissingTargetSource)));
    let no_name = node("project", &[], "", vec![kid(node("targets", &[], "", vec![kid(node("target", &[("src", "m")], "", vec![]))]))]);
    assert!(matches!(p.load(&"project.xml".to_string(), &no_name), Err(ManifestError::MissingTargetName)));
    let bare = node("project", &[], "", vec![kid(node("targets", &[], "", vec![]))]);
    assert!(matches!(p.load(&"project.xml".to_string(), &bare), Err(ManifestError::NoTargets)));
}

#[test]
fn default_target_falls_back_to_all() {
    let one = |default: Option<&str>| {
        let attrs: Vec<(&str, &str)> = default.map(|d| vec![("default", d)]).unwrap_or_default();
        node("project", &[], "", vec![kid(node("targets", &attrs, "", vec![kid(node(
            "target",
            &[("name", "main"), ("src", "index.bbxml")],
            "",
            vec![],
        ))]))])
    };
    let mut p = Project::new();
    assert!(p.load(&"project.xml".to_string(), &one(Some("nope"))).is_ok());
    assert_eq!(p.default_target, ALL_TARGETS);
    assert!(p.load(&"project.xml".to_string(), &one(None)).is_ok());
    assert_eq!(p.default_target, ALL_TARGETS);
    assert_eq!(p.project_directory, "");
    assert!(p.load(&"project.xml".to_string(), &one(Some("main"))).is_ok());
    assert_eq!(p.default_target, "main");
}

#[test]
fn first_found_picks_first_existing() {
    let paths = vec!["proj/a".to_string(), "proj/sub/a".to_string(), "proj/lib/a".to_string()];
    assert_eq!(first_found(&paths, &vec![false, true, true]), Some("proj/sub/a".to_string()));
    assert_eq!(first_found(&paths, &vec![true, false, true]), Some("proj/a".to_string()));
    assert_eq!(first_found(&paths, &vec![false, false, false]), None);
}

#[test]
fn find_file_finds_existing_candidate() {
    let mut p = Project::new();
    assert_eq!(p.find_file(&"/".to_string(), &"src".to_string()), Some("/".to_string()));
    assert_eq!(p.find_file(&".".to_string(), &String::new()), Some(".".to_string()));
    p.project_directory = "no-such-dir-here".to_string();
    assert_eq!(p.find_file(&".".to_string(), &String::new()), None);
}
