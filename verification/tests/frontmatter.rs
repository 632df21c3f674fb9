use site_builder::error::SiteError;
use site_builder::frontmatter::split_frontmatter;
use site_builder::json::Json;

#[test]
fn front_matter_and_body_are_parted() {
    let (front, body) =
        split_frontmatter("---\ntitle: Hello\ncount: 3\ndraft: false\n---\n# Words\n---\nmore\n").unwrap();
    assert_eq!(body, "# Words\n---\nmore\n");
    assert_eq!(front.get("title").unwrap().as_str(), Some("Hello"));
    assert_eq!(front.get("count"), Some(&Json::Number(serde_json::Number::from(3))));
    assert_eq!(front.get("draft"), Some(&Json::Bool(false)));
    assert_eq!(front.get("absent"), None);
}

#[test]
fn front_matter_may_nest() {
    let (front, body) = split_frontmatter("---\ntags: [a, ~]\n---\n").unwrap();
    assert_eq!(body, "");
    assert_eq!(
        front.get("tags"),
        Some(&Json::Array(vec![Json::Str(String::from("a")), Json::Null]))
    );
}

#[test]
fn a_file_without_fences_is_all_front_matter() {
    let (front, body) = split_frontmatter("title: Hello\n").unwrap();
    assert_eq!(front.get("title").unwrap().as_str(), Some("Hello"));
    assert_eq!(body, "");
}

#[test]
fn front_matter_must_be_yaml() {
    assert!(matches!(
        split_frontmatter("---\na: [\n---\nbody"),
        Err(SiteError::Yaml(_))
    ));
}

#[test]
fn hyphens_within_a_line_close_nothing() {
    let (front, body) = split_frontmatter("---\ntitle: a --- b\n---\nbody").unwrap();
    assert_eq!(front.get("title").unwrap().as_str(), Some("a --- b"));
    assert_eq!(body, "body");
}

#[test]
fn a_fence_is_told_by_its_trimmed_line() {
    let (front, body) = split_frontmatter("---\ntitle: a\n  --- \nbody").unwrap();
    assert_eq!(body, "body");
    assert!(front.get("title").is_some());
}

#[test]
fn fences_may_end_in_other_ways() {
    let (front, body) = split_frontmatter("---\r\ntitle: a\r\n---\r\nbody").unwrap();
    assert_eq!(front.get("title").unwrap().as_str(), Some("a"));
    assert_eq!(body, "body");
    let (front, body) = split_frontmatter("---\ntitle: a\n---").unwrap();
    assert_eq!(front.get("title").unwrap().as_str(), Some("a"));
    assert_eq!(body, "");
    let (front, body) = split_frontmatter("---\ntitle: a\n").unwrap();
    assert_eq!(front.get("title").unwrap().as_str(), Some("a"));
    assert_eq!(body, "");
}
