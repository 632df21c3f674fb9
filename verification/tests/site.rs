use handlebars::Handlebars;
use site_builder::emit::emit_directory;
use site_builder::error::SiteError;
use site_builder::file_helpers::{FilePath, PathError};
use site_builder::json::Json;
use site_builder::site::{compile_dir, is_left_out, Directory, Node};
use site_builder::tree::Entry;

fn named(name: &str) -> FilePath {
    FilePath { name: Some(name.as_bytes().to_vec()), shown: String::from(name) }
}

fn file(name: &str, text: &str) -> Entry {
    Entry::File(named(name), Ok(String::from(text)))
}

fn page(name: &str, title: &str) -> Entry {
    file(name, &format!("---\ntemplate: t\ntitle: {}\n---\n", title))
}

fn dir(name: &str, entries: Vec<Entry>) -> Entry {
    Entry::Dir(named(name), Ok(entries))
}

fn registry() -> Handlebars<'static> {
    let mut handlebars = Handlebars::new();
    handlebars.register_template_string("t", "<{{title}}>").unwrap();
    handlebars
}

fn compile(entries: Vec<Entry>, ignore: &[&str]) -> Result<Directory, SiteError> {
    let ignore = ignore.iter().map(|name| String::from(*name)).collect();
    compile_dir(&entries, &Json::Null, &ignore, &registry())
}

fn outline(dir: &Directory) -> String {
    let mut all = String::new();
    for (name, node) in dir {
        match node {
            Node::Page(html) => all.push_str(&format!("{}={} ", name, html)),
            Node::Dir(inner) => all.push_str(&format!("{}[{}] ", name, outline(inner))),
        }
    }
    all
}

#[test]
fn a_tree_of_files_becomes_a_tree_of_pages() {
    let built = compile(
        vec![
            page("b.md", "B"),
            dir("sub", vec![page("a.md", "A"), dir("empty", vec![])]),
            file("style.css", "x"),
            Entry::Other(named("socket"), Err(String::from("not read"))),
        ],
        &[],
    )
    .unwrap();
    assert_eq!(outline(&built), "b.html=<B> sub[a.html=<A> empty[] ] ");
}

#[test]
fn names_are_left_out() {
    let built = compile(
        vec![
            page("_draft.md", "D"),
            page("skip.md", "S"),
            dir("_private", vec![Entry::Failed(String::from("never met"))]),
            dir("templates", vec![Entry::Failed(String::from("never met"))]),
            page("a.md", "A"),
            dir("sub", vec![dir("templates", vec![page("b.md", "B")])]),
        ],
        &["templates", "skip.md"],
    )
    .unwrap();
    assert_eq!(outline(&built), "a.html=<A> sub[] ");
}

#[test]
fn left_out_names_are_known() {
    let ignore = vec![String::from("templates")];
    assert!(is_left_out("_x", &ignore));
    assert!(is_left_out("templates", &ignore));
    assert!(!is_left_out("template", &ignore));
    assert!(!is_left_out("x_", &ignore));
    assert!(!is_left_out("", &ignore));
}

#[test]
fn the_first_failure_stops_the_site() {
    let failed = || Entry::Failed(String::from("disk"));
    match compile(vec![page("a.md", "A"), failed(), file("x.md", "---\n: [\n---\n")], &[]) {
        Err(SiteError::Io(message)) => assert_eq!(message, "disk"),
        other => panic!("{:?}", other),
    }
    assert!(matches!(
        compile(vec![file("x.md", "---\n: [\n---\n"), failed()], &[]),
        Err(SiteError::Yaml(_))
    ));
    assert!(matches!(
        compile(vec![dir("d", vec![file("x.md", "---\na: b\n---\n")])], &[]),
        Err(SiteError::NoTemplate)
    ));
    match compile(vec![Entry::Dir(named("d"), Err(String::from("denied")))], &[]) {
        Err(SiteError::Io(message)) => assert_eq!(message, "denied"),
        other => panic!("{:?}", other),
    }
}

#[test]
fn a_missing_template_stops_the_site() {
    assert!(matches!(
        compile(vec![page("a.md", "A"), file("b.md", "---\ntemplate: gone\n---\n")], &[]),
        Err(SiteError::Render(_))
    ));
}

#[test]
fn names_must_be_text() {
    let broken = FilePath { name: Some(vec![95, 255]), shown: String::from("?") };
    assert!(matches!(
        compile(vec![Entry::Other(broken, Ok(String::new()))], &[]),
        Err(SiteError::Path(PathError::NameNotUtf8))
    ));
    assert!(matches!(
        compile(vec![file("Makefile", "")], &[]),
        Err(SiteError::Path(PathError::NoExtension))
    ));
}

#[test]
fn a_site_is_written_directory_first() {
    let built = compile(
        vec![page("b.md", "B"), dir("sub", vec![page("a.md", "A"), dir("in", vec![])])],
        &[],
    )
    .unwrap();
    let steps: Vec<(String, Option<&str>)> = emit_directory(&built)
        .iter()
        .map(|step| (step.path.join("/"), step.page))
        .collect();
    assert_eq!(
        steps,
        vec![
            (String::from("b.html"), Some("<B>")),
            (String::from("sub"), None),
            (String::from("sub/a.html"), Some("<A>")),
            (String::from("sub/in"), None),
        ]
    );
}

#[test]
fn of_two_nodes_with_one_name_the_last_is_written_last() {
    let built: Directory = vec![
        (String::from("x"), Node::Dir(vec![(String::from("y"), Node::Page(String::from("1")))])),
        (String::from("x"), Node::Page(String::from("2"))),
    ];
    let steps = emit_directory(&built);
    assert_eq!(steps.len(), 3);
    assert_eq!(steps[2].path, vec!["x"]);
    assert_eq!(steps[2].page, Some("2"));
    assert!(emit_directory(&vec![]).is_empty());
}

#[test]
fn the_order_of_an_ignore_list_makes_no_difference() {
    let entries = || vec![page("a.md", "A"), page("b.md", "B"), dir("c", vec![page("a.md", "C")])];
    let one = compile(entries(), &["a.md", "zz"]).unwrap();
    let other = compile(entries(), &["other", "a.md", "a.md"]).unwrap();
    assert_eq!(outline(&one), "b.html=<B> c[] ");
    assert_eq!(outline(&one), outline(&other));
}
