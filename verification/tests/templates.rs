use handlebars::Handlebars;
use site_builder::error::SiteError;
use site_builder::file_helpers::{FilePath, PathError};
use site_builder::json::Json;
use site_builder::page::compile_markdown;
use site_builder::templates::{is_template, register_templates_dir};
use site_builder::tree::Entry;

fn named(name: &str) -> FilePath {
    FilePath { name: Some(name.as_bytes().to_vec()), shown: String::from(name) }
}

fn file(name: &str, text: &str) -> Entry {
    Entry::File(named(name), Ok(String::from(text)))
}

fn rendered(handlebars: &Handlebars, template: &str) -> Option<String> {
    let data = format!("---\ntemplate: {}\ntitle: x\n---\n", template);
    match compile_markdown(&named("a.md"), &data, &Json::Null, handlebars) {
        Ok(Some((html, _))) => Some(html),
        _ => None,
    }
}

#[test]
fn templates_are_named_by_their_stems() {
    let mut handlebars = Handlebars::new();
    let entries = vec![
        file("one.hbs", "1{{title}}"),
        file("notes.txt", "{{"),
        Entry::Dir(named("inner"), Ok(vec![file("two.hbs", "2{{title}}")])),
        Entry::Other(named("socket"), Err(String::from("not read"))),
    ];
    assert!(register_templates_dir(&entries, &mut handlebars).is_ok());
    assert_eq!(rendered(&handlebars, "one"), Some(String::from("1x")));
    assert_eq!(rendered(&handlebars, "two"), Some(String::from("2x")));
    assert_eq!(rendered(&handlebars, "notes"), None);
    assert_eq!(rendered(&handlebars, "inner"), None);
}

#[test]
fn of_templates_with_one_name_the_last_stays() {
    let mut handlebars = Handlebars::new();
    handlebars.register_template_string("kept", "k").unwrap();
    let entries = vec![
        file("a.hbs", "first"),
        Entry::Dir(named("inner"), Ok(vec![file("a.hbs", "second")])),
    ];
    assert!(register_templates_dir(&entries, &mut handlebars).is_ok());
    assert_eq!(rendered(&handlebars, "a"), Some(String::from("second")));
    assert_eq!(rendered(&handlebars, "kept"), Some(String::from("k")));
}

#[test]
fn a_malformed_template_stops_the_work() {
    let mut handlebars = Handlebars::new();
    let entries = vec![file("a.hbs", "a"), file("b.hbs", "{{#if x}}"), file("c.hbs", "c")];
    assert!(matches!(
        register_templates_dir(&entries, &mut handlebars),
        Err(SiteError::Template(_))
    ));
    assert_eq!(rendered(&handlebars, "a"), Some(String::from("a")));
    assert_eq!(rendered(&handlebars, "b"), None);
    assert_eq!(rendered(&handlebars, "c"), None);
}

#[test]
fn what_cannot_be_had_stops_the_work() {
    let mut handlebars = Handlebars::new();
    let unreadable = Entry::File(named("a.hbs"), Err(String::from("denied")));
    assert!(matches!(
        register_templates_dir(&vec![unreadable], &mut handlebars),
        Err(SiteError::Io(_))
    ));
    assert!(matches!(
        register_templates_dir(&vec![Entry::Failed(String::from("disk"))], &mut handlebars),
        Err(SiteError::Io(_))
    ));
    assert!(matches!(
        register_templates_dir(
            &vec![Entry::Dir(named("d"), Err(String::from("denied")))],
            &mut handlebars
        ),
        Err(SiteError::Io(_))
    ));
    assert!(matches!(
        register_templates_dir(&vec![file("README", "")], &mut handlebars),
        Err(SiteError::Path(PathError::NoExtension))
    ));
    let broken = FilePath { name: Some(vec![255, 46, 104, 98, 115]), shown: String::from("?") };
    assert!(matches!(
        register_templates_dir(
            &vec![Entry::File(broken, Ok(String::new()))],
            &mut handlebars
        ),
        Err(SiteError::Path(PathError::StemNotUtf8))
    ));
}

#[test]
fn templates_are_told_by_their_extension() {
    assert!(is_template(&named("a.hbs")));
    assert!(!is_template(&named("hbs")));
    assert!(!is_template(&named("a.html")));
}
