use site_builder::blog::{
    blog_post, ensure_key, get_date, process_blog_posts, process_blog_posts_dir, site_globals,
    sort_posts, KeyError,
};
use site_builder::error::SiteError;
use site_builder::file_helpers::{FilePath, PathError};
use site_builder::json::{Json, JsonMap};
use site_builder::links::find_link;
use site_builder::emit::emit_directory;
use site_builder::site::compile_dir;
use site_builder::tree::Entry;

fn text(s: &str) -> Json {
    Json::Str(String::from(s))
}

fn object(fields: Vec<(&str, Json)>) -> Json {
    let mut map = JsonMap::new();
    for (key, value) in fields {
        map.insert(String::from(key), value);
    }
    Json::Object(map)
}

fn named(name: &str) -> FilePath {
    FilePath { name: Some(name.as_bytes().to_vec()), shown: format!("blog/{}", name) }
}

fn file(name: &str, text: &str) -> Entry {
    Entry::File(named(name), Ok(String::from(text)))
}

fn post(name: &str, date: &str, id: &str) -> Entry {
    file(name, &format!("---\ndate: \"{}\"\nid: {}\ntitle: T\n---\nwords", date, id))
}

fn dir(name: &str, entries: Vec<Entry>) -> Entry {
    Entry::Dir(named(name), Ok(entries))
}

fn links(posts: &[Json]) -> Vec<&str> {
    posts.iter().map(|post| post.get("link").unwrap().as_str().unwrap()).collect()
}

#[test]
fn posts_come_newest_first() {
    let entries = Ok(vec![
        post("a.md", "2020-01-02", "a1"),
        dir("deep", vec![dir("er", vec![post("b.md", "2021-05-06", "b2")])]),
        post("c.md", "2020-01-02", "c3"),
        post("d.md", "2019-12-31", "d4"),
    ]);
    let posts = process_blog_posts(&named("blog"), &entries).unwrap();
    assert_eq!(
        links(&posts),
        vec!["/blog/deep/er/b.html", "/blog/a.html", "/blog/c.html", "/blog/d.html"]
    );
    assert_eq!(get_date(&posts[0]), "2021-05-06");
    let globals = site_globals(posts);
    assert_eq!(find_link(&globals, "b2"), Ok("/blog/deep/er/b.html"));
    assert_eq!(find_link(&globals, "c3"), Ok("/blog/c.html"));
}

#[test]
fn not_every_file_is_a_post() {
    let entries = Ok(vec![
        file("index.md", "---\n: [\n---\n"),
        file("_draft.md", "---\n: [\n---\n"),
        file("photo.jpg", "x"),
        dir("_old", vec![file("x.md", "---\n: [\n---\n")]),
        Entry::Other(named("pipe.png"), Err(String::from("not read"))),
    ]);
    assert_eq!(process_blog_posts(&named("blog"), &entries).unwrap().len(), 0);
    let hidden = Ok(vec![file("x.md", "---\n: [\n---\n")]);
    assert_eq!(process_blog_posts(&named("_blog"), &hidden).unwrap().len(), 0);
}

#[test]
fn what_is_wrong_with_a_post_is_told() {
    let process = |entry: Entry| process_blog_posts(&named("blog"), &Ok(vec![entry]));
    match process(file("a.md", "---\ntitle: T\n---\n")) {
        Err(SiteError::MissingKey(file, key)) => {
            assert_eq!(file, "blog/a.md");
            assert_eq!(key, "date");
        }
        other => panic!("{:?}", other),
    }
    match process(file("a.md", "---\ndate: 3\n---\n")) {
        Err(SiteError::NotText(file, key)) => {
            assert_eq!(file, "blog/a.md");
            assert_eq!(key, "date");
        }
        other => panic!("{:?}", other),
    }
    assert!(matches!(
        process(file("a.md", "---\n- x\n---\n")),
        Err(SiteError::FrontmatterNotMapping)
    ));
    assert!(matches!(process(file("a.md", "---\n: [\n---\n")), Err(SiteError::Yaml(_))));
    assert!(matches!(
        process(file("Makefile", "")),
        Err(SiteError::Path(PathError::NoExtension))
    ));
    let other = |name: &str, text: &str| Entry::Other(named(name), Ok(String::from(text)));
    assert!(matches!(
        process(other("socket", "")),
        Err(SiteError::Path(PathError::NoExtension))
    ));
    assert_eq!(process(other("a.md", "---\ndate: \"2020\"\n---\n")).unwrap().len(), 1);
    assert!(matches!(process(Entry::Failed(String::from("disk"))), Err(SiteError::Io(_))));
    assert!(matches!(
        process(Entry::File(named("a.md"), Err(String::from("denied")))),
        Err(SiteError::Io(_))
    ));
    assert!(matches!(
        process_blog_posts(&named("blog"), &Err(String::from("denied"))),
        Err(SiteError::Io(_))
    ));
    let root = FilePath { name: None, shown: String::from("/") };
    assert!(matches!(
        process_blog_posts(&root, &Ok(vec![])),
        Err(SiteError::Path(PathError::NoName))
    ));
}

#[test]
fn posts_found_before_a_failure_are_kept() {
    let mut posts = vec![Json::Null];
    let entries = Ok(vec![
        post("a.md", "2020", "a1"),
        Entry::Failed(String::from("disk")),
        post("b.md", "2021", "b2"),
    ]);
    let trail = vec![String::from("x")];
    assert!(process_blog_posts_dir(&named("x"), &entries, &trail, &mut posts).is_err());
    assert_eq!(posts.len(), 2);
    assert_eq!(posts[0], Json::Null);
    assert_eq!(posts[1].get("link"), Some(&text("/blog/x/a.html")));
}

#[test]
fn a_post_keeps_its_front_matter() {
    let front = object(vec![("date", text("2020")), ("link", text("old")), ("z", Json::Null)]);
    let made = blog_post(front, &named("a.b.md"), &vec![String::from("p"), String::from("q")]).unwrap();
    assert_eq!(
        made,
        object(vec![
            ("date", text("2020")),
            ("link", text("/blog/p/q/a.b.html")),
            ("z", Json::Null)
        ])
    );
}

#[test]
fn posts_of_one_date_keep_their_order() {
    let dated = |date: &str, n: &str| object(vec![("date", text(date)), ("n", text(n))]);
    let sorted = sort_posts(vec![
        dated("b", "1"),
        dated("a", "2"),
        dated("c", "3"),
        dated("b", "4"),
        dated("a", "5"),
        dated("", "6"),
    ]);
    let order: Vec<&str> = sorted.iter().map(|post| post.get("n").unwrap().as_str().unwrap()).collect();
    assert_eq!(order, vec!["3", "1", "4", "2", "5", "6"]);
}

#[test]
fn keys_are_checked() {
    let mut map = JsonMap::new();
    map.insert(String::from("date"), text("2020"));
    map.insert(String::from("count"), Json::Bool(true));
    assert_eq!(ensure_key(&map, "date", "str"), Ok(()));
    assert_eq!(ensure_key(&map, "count", "str"), Err(KeyError::WrongKind));
    assert_eq!(ensure_key(&map, "gone", "str"), Err(KeyError::Missing));
}

#[test]
fn globals_hold_the_posts() {
    assert_eq!(site_globals(vec![]), object(vec![("posts", Json::Array(vec![]))]));
}

#[test]
fn posts_link_to_the_pages_of_the_site() {
    let mut handlebars = handlebars::Handlebars::new();
    handlebars.register_template_string("t", "{{title}}").unwrap();
    let source = "---\ndate: \"2020\"\ntemplate: t\ntitle: T\n---\n";
    let entries = || {
        vec![
            file("a.md", source),
            dir("deep", vec![file("b.md", source), dir("_old", vec![file("c.md", source)])]),
        ]
    };
    let posts = process_blog_posts(&named("blog"), &Ok(entries())).unwrap();
    let site = compile_dir(
        &vec![dir("blog", entries())],
        &site_globals(vec![]),
        &vec![],
        &handlebars,
    )
    .unwrap();
    let pages: Vec<String> = emit_directory(&site)
        .iter()
        .filter(|step| step.page.is_some())
        .map(|step| format!("/{}", step.path.join("/")))
        .collect();
    assert_eq!(pages, vec!["/blog/a.html", "/blog/deep/b.html"]);
    assert_eq!(links(&posts), pages);
}
