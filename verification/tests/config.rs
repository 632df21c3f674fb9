use site_builder::config::{lt, Config};

fn config(ignore: Option<Vec<String>>) -> Config {
    Config {
        target: String::from("out"),
        source: String::from("src"),
        templates: String::from("templates"),
        blog: String::from("src/blog"),
        ignore,
    }
}

#[test]
fn the_templates_are_always_left_out() {
    assert_eq!(config(None).ignored_names(), vec!["templates"]);
    let listed = config(Some(vec![String::from("drafts"), String::from("README.md")]));
    assert_eq!(listed.ignored_names(), vec!["drafts", "README.md", "templates"]);
}

#[test]
fn smaller_numbers_are_told() {
    assert!(lt(1, 2));
    assert!(!lt(2, 2));
    assert!(!lt(3, 2));
}
