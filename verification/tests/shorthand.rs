use site_builder::json::{Json, JsonMap};
use site_builder::shorthand::{
    check_table, expand_match, expand_shorthand, rewrite, try_expand_shorthand, Match, ShorthandError,
};

fn table(entries: Vec<(&str, &str)>) -> Json {
    let mut map = JsonMap::new();
    for (key, value) in entries {
        map.insert(String::from(key), Json::Str(String::from(value)));
    }
    Json::Object(map)
}

#[test]
fn can_expand_shorthand_sequences() {
    let mut text = String::from("This is a longdash--it should expand.");
    text.push_str("\n\n");
    text.push_str("This [looks like a longdash](http://example.com/link--thing) and it should NOT expand.");
    let mut expect = String::from("This is a longdash&#151;it should expand.");
    expect.push_str("\n\n");
    expect.push_str("This [looks like a longdash](http://example.com/link--thing) and it should NOT expand.");
    let got: String = expand_shorthand(&text, &table(vec![("--", "&#151;")])).unwrap();
    assert_eq!(got, expect)
}

#[test]
fn every_match_expands() {
    let got = expand_shorthand("a--b--c", &table(vec![("--", "&#151;")])).unwrap();
    assert_eq!(got, "a&#151;b&#151;c");
}

#[test]
fn keys_are_regular_expressions() {
    let got = expand_shorthand("1 22 333", &table(vec![("[0-9]+", "n")])).unwrap();
    assert_eq!(got, "n n n");
}

#[test]
fn a_key_is_looked_for_after_the_matches_of_those_before_it() {
    let both = table(vec![("b", "c"), ("a", "b")]);
    assert_eq!(expand_shorthand("a", &both).unwrap(), "b");
    assert_eq!(expand_shorthand("b", &both).unwrap(), "c");
    assert_eq!(expand_shorthand("bab", &both).unwrap(), "bbc");
    assert_eq!(expand_shorthand("ab a b", &both).unwrap(), "bb b c");
}

#[test]
fn a_match_in_a_target_counts_as_one_before() {
    let both = table(vec![("a", "x"), ("b", "y")]);
    assert_eq!(expand_shorthand("b [w](a) b", &both).unwrap(), "b [w](a) y");
}

#[test]
fn a_text_without_a_match_stays() {
    let shorthand = table(vec![("--", "x"), ("zz+", "y")]);
    assert_eq!(expand_shorthand("plain - text z", &shorthand).unwrap(), "plain - text z");
    assert_eq!(expand_shorthand("anything", &table(vec![])).unwrap(), "anything");
}

#[test]
fn link_words_expand_and_targets_stay() {
    let got = expand_shorthand("[a--b](c--d) (e--f)", &table(vec![("--", "~")])).unwrap();
    assert_eq!(got, "[a~b](c--d) (e~f)");
}

#[test]
fn what_is_wrong_with_a_table_is_told() {
    assert!(matches!(
        try_expand_shorthand("a", &Json::Null),
        Err(ShorthandError::NotATable)
    ));
    let mut map = JsonMap::new();
    map.insert(String::from("a"), Json::Bool(true));
    match try_expand_shorthand("a", &Json::Object(map)) {
        Err(ShorthandError::NotText(key)) => assert_eq!(key, "a"),
        other => panic!("{:?}", other),
    }
    match try_expand_shorthand("a", &table(vec![("(", "x")])) {
        Err(ShorthandError::BadPattern(key, _)) => assert_eq!(key, "("),
        other => panic!("{:?}", other),
    }
    match try_expand_shorthand("a", &table(vec![("b*", "x")])) {
        Err(ShorthandError::EmptyMatch(key)) => assert_eq!(key, "b*"),
        other => panic!("{:?}", other),
    }
}

#[test]
fn tables_are_checked() {
    assert!(check_table(&table(vec![("--", "x")])).is_none());
    assert!(check_table(&table(vec![])).is_none());
    assert!(matches!(check_table(&Json::Null), Some(ShorthandError::NotATable)));
    match check_table(&table(vec![("a", "x"), ("b(", "y"), ("c(", "z")])) {
        Some(ShorthandError::BadPattern(key, _)) => assert_eq!(key, "b("),
        other => panic!("{:?}", other),
    }
}

#[test]
fn matches_are_written_into_a_text() {
    let matches = vec![
        Match { start: 0, end: 1, expansion: "x" },
        Match { start: 5, end: 6, expansion: "y" },
        Match { start: 7, end: 7, expansion: "z" },
    ];
    assert_eq!(rewrite("a[b](c)d", &matches), "x[b](c)zd");
    assert_eq!(rewrite("a[b](c)d", &vec![]), "a[b](c)d");
}

#[test]
fn a_match_becomes_its_expansion_outside_of_targets() {
    let text = "a--b [c](d--e)";
    assert_eq!(expand_match(text, 1, 3, "~"), "~");
    assert_eq!(expand_match(text, 10, 12, "~"), "--");
    assert_eq!(expand_match(text, 6, 7, "~"), "~");
    assert_eq!(expand_match(text, 6, 10, "~"), "c](d");
}
