use site_builder::json::{Json, JsonMap};
use site_builder::links::{find_link, replace_uuid_links, try_replace_uuid_links, LinkError};

fn text(s: &str) -> Json {
    Json::Str(String::from(s))
}

fn object(fields: Vec<(&str, Json)>) -> Json {
    let mut map = JsonMap::new();
    for (key, value) in fields {
        map.insert(String::from(key), value);
    }
    Json::Object(map)
}

fn post(id: &str, link: &str) -> Json {
    object(vec![("id", text(id)), ("title", text("A post")), ("link", text(link))])
}

#[test]
fn can_replace_uuid_links() -> Result<(), LinkError> {
    let text_ = String::from("Here is [a uuid link](:abc123ABC987) for you!");
    let globals = object(vec![(
        "posts",
        object(vec![(
            "abc123ABC987",
            object(vec![("title", text("My Post")), ("link", text("/blog/my_post.html"))]),
        )]),
    )]);
    let new_text = replace_uuid_links(text_, &globals)?;
    assert_eq!(
        new_text,
        "Here is [a uuid link](/blog/my_post.html) for you!"
    );
    Ok(())
}

#[test]
fn can_replace_multiple_uuid_links() -> Result<(), LinkError> {
    let mut text_ = String::from("Here is [a uuid link](:abc123ABC987) for you!");
    text_.push_str("\n\n");
    text_.push_str("Here is [another uuid link](:xyz456XYZ751) for you!");
    let globals = object(vec![(
        "posts",
        object(vec![
            (
                "abc123ABC987",
                object(vec![("title", text("My Post")), ("link", text("/blog/my_post.html"))]),
            ),
            (
                "xyz456XYZ751",
                object(vec![
                    ("title", text("My Other Post")),
                    ("link", text("/blog/my_other_post.html")),
                ]),
            ),
        ]),
    )]);
    let new_text = replace_uuid_links(text_, &globals)?;
    let mut expected_text = String::from("Here is [a uuid link](/blog/my_post.html) for you!");
    expected_text.push_str("\n\n");
    expected_text.push_str("Here is [another uuid link](/blog/my_other_post.html) for you!");
    assert_eq!(new_text, expected_text);
    Ok(())
}

#[test]
fn a_list_of_posts_is_searched_by_id() {
    let globals = object(vec![(
        "posts",
        Json::Array(vec![post("a1", "/blog/a.html"), post("b2", "/blog/b.html")]),
    )]);
    let new_text = replace_uuid_links(String::from("é [x](:b2) and [y](:a1)."), &globals).unwrap();
    assert_eq!(new_text, "é [x](/blog/b.html) and [y](/blog/a.html).");
}

#[test]
fn the_last_post_with_an_id_counts() {
    let globals = object(vec![(
        "posts",
        Json::Array(vec![post("a1", "/blog/a.html"), post("a1", "/blog/b.html")]),
    )]);
    assert_eq!(find_link(&globals, "a1"), Ok("/blog/b.html"));
}

#[test]
fn an_unknown_id_is_an_error() {
    let globals = object(vec![("posts", Json::Array(vec![post("a1", "/blog/a.html")]))]);
    assert_eq!(
        replace_uuid_links(String::from("[x](:a1) [y](:zz)"), &globals),
        Err(LinkError::UnknownId(String::from("zz")))
    );
    let table = object(vec![("posts", object(vec![]))]);
    assert_eq!(find_link(&table, "zz"), Err(LinkError::UnknownId(String::from("zz"))));
}

#[test]
fn an_empty_address_is_no_address() {
    let globals = object(vec![("posts", Json::Array(vec![post("a1", "")]))]);
    assert_eq!(find_link(&globals, "a1"), Err(LinkError::UnknownId(String::from("a1"))));
}

#[test]
fn malformed_posts_are_told_from_unknown_ids() {
    let no_posts = object(vec![]);
    assert_eq!(find_link(&no_posts, "a1"), Err(LinkError::MalformedPosts));
    let no_list = object(vec![("posts", text("none"))]);
    assert_eq!(find_link(&no_list, "a1"), Err(LinkError::MalformedPosts));
    let no_title = object(vec![(
        "posts",
        Json::Array(vec![object(vec![("id", text("b2"))]), post("a1", "/blog/a.html")]),
    )]);
    assert_eq!(find_link(&no_title, "a1"), Err(LinkError::MalformedPosts));
    let no_id = object(vec![("posts", Json::Array(vec![object(vec![("title", text("T"))])]))]);
    assert_eq!(
        try_replace_uuid_links(String::from("[x](:a1)"), &no_id),
        Err(LinkError::MalformedPosts)
    );
    let id_no_text = object(vec![(
        "posts",
        Json::Array(vec![object(vec![("id", Json::Null), ("title", text("T"))])]),
    )]);
    assert_eq!(find_link(&id_no_text, "a1"), Err(LinkError::MalformedPosts));
    let no_link = object(vec![(
        "posts",
        Json::Array(vec![object(vec![("id", text("a1")), ("title", text("T"))])]),
    )]);
    assert_eq!(find_link(&no_link, "a1"), Err(LinkError::MalformedPosts));
    assert_eq!(
        find_link(&no_link, "other"),
        Err(LinkError::UnknownId(String::from("other")))
    );
}

#[test]
fn a_text_without_links_by_id_stays() {
    for plain in ["", "[x](http://a)", "[](:a1)", "[x](:)", "[x](:a-b)", "(:a1)", "[x] (:a1)"] {
        assert_eq!(
            try_replace_uuid_links(String::from(plain), &Json::Null),
            Ok(String::from(plain))
        );
    }
}

#[test]
fn no_link_by_id_is_left() {
    let globals = object(vec![("posts", Json::Array(vec![post("a1", "/blog/a.html")]))]);
    let once = replace_uuid_links(String::from("[p [q](:a1)[r](:a1)"), &globals).unwrap();
    assert_eq!(once, "[p [q](/blog/a.html)[r](/blog/a.html)");
    let twice = replace_uuid_links(once.clone(), &Json::Null).unwrap();
    assert_eq!(twice, once);
}
