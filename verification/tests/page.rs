use handlebars::Handlebars;
use site_builder::error::SiteError;
use site_builder::file_helpers::{FilePath, PathError};
use site_builder::json::{Json, JsonMap};
use site_builder::page::{
    compile_file, compile_markdown, finish_page, is_markdown, page_context, page_defect, page_parts,
    replace_globals, try_compile_markdown,
};

fn text(s: &str) -> Json {
    Json::Str(String::from(s))
}

fn object(fields: Vec<(&str, Json)>) -> Json {
    let mut map = JsonMap::new();
    for (key, value) in fields {
        map.insert(String::from(key), value);
    }
    Json::Object(map)
}

fn named(name: &[u8]) -> FilePath {
    FilePath { name: Some(name.to_vec()), shown: String::from("src/page.md") }
}

fn globals() -> Json {
    object(vec![
        (
            "posts",
            Json::Array(vec![object(vec![
                ("id", text("a1")),
                ("title", text("T")),
                ("link", text("/blog/a.html")),
            ])]),
        ),
        ("name", text("My site")),
    ])
}

fn registry() -> Handlebars<'static> {
    let mut handlebars = Handlebars::new();
    handlebars.register_template_string("plain", "<b>{{title}}</b>{{{content}}}").unwrap();
    handlebars.register_template_string("list", "{{#each posts}}{{link}};{{/each}}").unwrap();
    handlebars
}

#[test]
fn globals_stand_in_for_values_that_name_them() {
    let obj = object(vec![
        ("a", text("@name")),
        ("b", text("@absent")),
        ("c", text("name")),
        ("d", Json::Array(vec![text("@name")])),
        ("e", text("")),
    ]);
    let new = replace_globals(obj, &globals());
    assert_eq!(new.get("a"), Some(&text("My site")));
    assert_eq!(new.get("b"), Some(&text("@absent")));
    assert_eq!(new.get("c"), Some(&text("name")));
    assert_eq!(new.get("d"), Some(&Json::Array(vec![text("@name")])));
    assert_eq!(new.get("e"), Some(&text("")));
    assert_eq!(new.len(), 5);
}

#[test]
fn a_page_is_made_of_markdown() {
    let data = "---\ntemplate: plain\ntitle: A & B\n---\n# Hi Mercury!";
    let page = compile_markdown(&named(b"page.md"), data, &globals(), &registry()).unwrap();
    assert_eq!(
        page,
        Some((
            String::from("<b>A &amp; B</b><h1>Hi Mercury!</h1>"),
            String::from("page.html")
        ))
    );
}

#[test]
fn links_by_id_are_replaced_in_a_page() {
    let data = "---\ntemplate: plain\n---\n[x](:a1)";
    let page = compile_markdown(&named(b"page.md"), data, &globals(), &registry()).unwrap();
    assert_eq!(page.unwrap().0, "<b></b><p><a href=\"/blog/a.html\">x</a></p>");
}

#[test]
fn global_posts_reach_a_template() {
    let data = "---\ntemplate: list\nposts: \"@posts\"\n---\n";
    let page = compile_markdown(&named(b"index.md"), data, &globals(), &registry()).unwrap();
    assert_eq!(page, Some((String::from("/blog/a.html;"), String::from("index.html"))));
}

#[test]
fn the_template_may_be_a_global() {
    let front = object(vec![("template", text("@name"))]);
    let parts = page_parts(front, String::from("body"), "f", &globals()).unwrap();
    assert_eq!(parts.template, "My site");
    assert_eq!(parts.text, "body");
    assert_eq!(parts.fields.get("template"), Some(&text("My site")));
}

#[test]
fn content_is_added_to_the_context() {
    let mut fields = JsonMap::new();
    fields.insert(String::from("content"), text("old"));
    fields.insert(String::from("title"), text("t"));
    let context = page_context(fields, String::from("new"));
    assert_eq!(context.len(), 2);
    assert_eq!(context.get("content"), Some(&text("new")));
    assert_eq!(context.get("title"), Some(&text("t")));
}

#[test]
fn what_stops_a_page_is_told() {
    let path = named(b"page.md");
    let globals = globals();
    let handlebars = registry();
    let compile = |data: &str| try_compile_markdown(&path, data, &globals, &handlebars);
    assert!(matches!(compile("---\n: [\n---\n"), Err(SiteError::Yaml(_))));
    assert!(matches!(compile("---\n- a\n---\n"), Err(SiteError::FrontmatterNotMapping)));
    assert!(matches!(compile("---\na: b\n---\n"), Err(SiteError::NoTemplate)));
    assert!(matches!(compile("---\ntemplate: 3\n---\n"), Err(SiteError::TemplateNotText)));
    assert!(matches!(compile("---\ntemplate: gone\n---\n"), Err(SiteError::Render(_))));
    match compile("---\na: b\n---\n[x](:zz)") {
        Err(SiteError::UnknownUuid(file, id)) => {
            assert_eq!(file, "src/page.md");
            assert_eq!(id, "zz");
        }
        other => panic!("{:?}", other),
    }
    assert!(matches!(
        try_compile_markdown(&path, "---\na: b\n---\n[x](:zz)", &Json::Null, &handlebars),
        Err(SiteError::MalformedPosts)
    ));
    assert!(matches!(
        try_compile_markdown(
            &named(b"\xff.md"),
            "---\ntemplate: plain\n---\n",
            &globals,
            &handlebars
        ),
        Err(SiteError::Path(PathError::StemNotUtf8))
    ));
}

#[test]
fn defects_are_told_from_other_failures() {
    let globals = globals();
    let defect = |data: &str| page_defect(data, "f", &globals);
    assert!(defect("---\ntemplate: plain\n---\n").is_none());
    assert!(defect("---\n: [\n---\n").is_none());
    assert!(defect("---\ntemplate: gone\n---\n[x](:zz)").is_none());
    assert!(matches!(defect("---\na: b\n---\n"), Some(SiteError::NoTemplate)));
    assert!(matches!(defect("---\n- a\n---\n"), Some(SiteError::FrontmatterNotMapping)));
    assert!(matches!(defect("---\ntemplate: [a]\n---\n"), Some(SiteError::TemplateNotText)));
    assert!(matches!(
        page_defect("---\ntemplate: t\n---\n[x](:a1)", "f", &Json::Null),
        Some(SiteError::MalformedPosts)
    ));
    assert!(matches!(
        compile_markdown(&named(b"a.md"), "---\n: [\n---\n", &globals, &registry()),
        Err(SiteError::Yaml(_))
    ));
}

#[test]
fn errors_in_words() {
    let file = || String::from("f.md");
    let said = |error: SiteError| (error.message(), error.context());
    let both = |message: &str, context: &str| (Some(String::from(message)), Some(String::from(context)));
    assert_eq!(
        said(SiteError::UnknownUuid(file(), String::from("zz"))),
        both("uuid in text (zz) should correspond to a post", "processing f.md")
    );
    assert_eq!(
        said(SiteError::MissingKey(file(), String::from("date"))),
        both("value does not contain key `date`", "processing file f.md")
    );
    assert_eq!(
        said(SiteError::NotText(file(), String::from("date"))),
        both("expected value of `date` to be of type `str`", "processing file f.md")
    );
    assert_eq!(
        said(SiteError::Path(PathError::NoName)),
        (Some(String::from("couldn't get file name")), None)
    );
    assert_eq!(said(SiteError::Io(String::from("disk"))), (Some(String::from("disk")), None));
    assert_eq!(said(SiteError::NoTemplate), (None, None));
}

#[test]
fn a_rendering_is_finished_under_the_name_of_the_page() {
    let page = finish_page(&named(b"a.md"), Ok(String::from("html"))).unwrap();
    assert_eq!(page, (String::from("html"), String::from("a.html")));
}

#[test]
fn only_markdown_files_become_pages() {
    let globals = globals();
    let handlebars = registry();
    let unread = Err(String::from("not read"));
    assert!(matches!(
        compile_file(&named(b"logo.png"), &unread, &globals, &handlebars),
        Ok(None)
    ));
    assert!(matches!(
        compile_file(&named(b"Makefile"), &unread, &globals, &handlebars),
        Err(SiteError::Path(PathError::NoExtension))
    ));
    match compile_file(&named(b"a.md"), &unread, &globals, &handlebars) {
        Err(SiteError::Io(message)) => assert_eq!(message, "not read"),
        other => panic!("{:?}", other),
    }
    let data = Ok(String::from("---\ntemplate: plain\ntitle: x\n---\n"));
    let page = compile_file(&named(b"a.md"), &data, &globals, &handlebars).unwrap();
    assert_eq!(page, Some((String::from("<b>x</b>"), String::from("a.html"))));
}

#[test]
fn markdown_is_told_by_its_extension() {
    assert!(is_markdown(&named(b"a.md")));
    assert!(!is_markdown(&named(b"a.mdx")));
    assert!(!is_markdown(&named(b".md")));
}
