//! Front matter: the YAML between two lines of hyphens at the head of a file.

use crate::error::{SiteError, SiteFailure};
use crate::json::{from_value, value_of, Json, JsonView};
use vstd::prelude::*;
use vstd::string::*;

verus! {

/// The value that `serde_yaml::from_str` reads from a text; none where it gives an error.
pub uninterp spec fn yaml_value(text: Seq<char>) -> Option<JsonView>;

/// What `extract_frontmatter::Extractor::extract` makes of a text whose front matter stands
/// between two lines that hold `delimiter`: the front matter and what follows it.
pub uninterp spec fn enclosed_split(delimiter: Seq<char>, text: Seq<char>) -> (
    Seq<char>,
    Seq<char>,
);

/// The line that opens and closes front matter.
pub const FENCE: &'static str = "---";

/// A character with the Unicode property `White_Space`, which trimming takes away.
pub open spec fn white_space(c: char) -> bool {
    ||| '\u{9}' <= c <= '\u{d}'
    ||| c == ' ' || c == '\u{85}' || c == '\u{a0}' || c == '\u{1680}'
    ||| '\u{2000}' <= c <= '\u{200a}'
    ||| c == '\u{2028}' || c == '\u{2029}' || c == '\u{202f}' || c == '\u{205f}'
    ||| c == '\u{3000}'
}

/// All from `from` up to `to` is white space within one line.
pub open spec fn blank(text: Seq<char>, from: int, to: int) -> bool {
    forall|i: int| from <= i < to ==> white_space(#[trigger] text[i]) && text[i] != '\n'
}

/// The line from `from` up to `to` is a fence once it is trimmed: the fence stands in it at `at`,
/// with white space alone around it.
pub open spec fn fence_at(text: Seq<char>, from: int, at: int, to: int) -> bool {
    &&& 0 <= from <= at && at + FENCE@.len() <= to <= text.len()
    &&& from == 0 || text[from - 1] == '\n'
    &&& to == text.len() || text[to] == '\n'
    &&& blank(text, from, at)
    &&& text.subrange(at, at + FENCE@.len()) == FENCE@
    &&& blank(text, at + FENCE@.len(), to)
}

/// No line of `text`, trimmed, is a fence.
pub open spec fn no_fence(text: Seq<char>) -> bool {
    forall|from: int, at: int, to: int| !#[trigger] fence_at(text, from, at, to)
}

/// A text that consists of whole lines, none of which is a fence.
pub open spec fn front_lines(front: Seq<char>) -> bool {
    &&& front.len() == 0 || front.last() == '\n'
    &&& no_fence(front)
}

/// What ends a line.
pub open spec fn line_end(end: Seq<char>) -> bool {
    end == "\n"@ || end == "\r\n"@
}

/// A file with this front matter and this body, whose fences end so. The second fence ends the
/// file where it has no line end.
pub open spec fn fenced(
    front: Seq<char>,
    body: Seq<char>,
    first_end: Seq<char>,
    second_end: Seq<char>,
) -> Seq<char> {
    FENCE@ + first_end + front + FENCE@ + second_end + body
}

/// `text` is a file with this front matter and this body.
pub open spec fn holds_fenced(text: Seq<char>, front: Seq<char>, body: Seq<char>) -> bool {
    &&& front_lines(front)
    &&& exists|first_end: Seq<char>, second_end: Seq<char>|
        text == #[trigger] fenced(front, body, first_end, second_end) && line_end(first_end) && (
        line_end(second_end) || (second_end.len() == 0 && body.len() == 0))
}

/// `text` is a file whose front matter is opened and not closed.
pub open spec fn holds_unclosed(text: Seq<char>, front: Seq<char>) -> bool {
    no_fence(front) && (text == FENCE@ + "\n"@ + front || text == FENCE@ + "\r\n"@ + front)
}

/// `text` is a file in which no line is a fence, and which does not begin like one.
pub open spec fn holds_no_fence(text: Seq<char>) -> bool {
    no_fence(text) && !FENCE@.is_prefix_of(text)
}

/// `extract_frontmatter::Extractor::extract` with `Splitter::EnclosingLines`. Where the text is
/// lines between two fences and something after them, it gives the lines and what comes after.
/// Where there is no second fence, all but the first is front matter; where there is no fence at
/// all, all of it is. A line is a fence if it is one once it is trimmed.
#[verifier::external_body]
fn split_enclosed<'a>(delimiter: &str, text: &'a str) -> (r: (String, &'a str))
    ensures
        (r.0@, r.1@) == enclosed_split(delimiter@, text@),
        forall|front: Seq<char>, body: Seq<char>|
            delimiter@ == FENCE@ && #[trigger] holds_fenced(text@, front, body) ==> r.0@ == front
                && r.1@ == body,
        forall|front: Seq<char>|
            delimiter@ == FENCE@ && #[trigger] holds_unclosed(text@, front) ==> r.0@ == front
                && r.1@.len() == 0,
        delimiter@ == FENCE@ && holds_no_fence(text@) ==> r.0@ == text@ && r.1@.len() == 0,
{
    let splitter = extract_frontmatter::config::Splitter::EnclosingLines(delimiter);
    let (front, body) = extract_frontmatter::Extractor::new(splitter).extract(text);
    (front.into_owned(), body)
}

/// `serde_yaml::from_str`, reading a `serde_json::Value`.
#[verifier::external_body]
fn parse_yaml(text: &str) -> (r: Result<serde_json::Value, serde_yaml::Error>)
    ensures
        match r {
            Ok(value) => yaml_value(text@) == Some(value_of(value)),
            Err(_) => yaml_value(text@) is None,
        },
{
    serde_yaml::from_str(text)
}

/// What front matter and body a file holds; none where the front matter is no YAML.
pub open spec fn parsed(data: Seq<char>) -> Option<(JsonView, Seq<char>)> {
    let (front, body) = enclosed_split(FENCE@, data);
    with_body(yaml_value(front), body)
}

/// A value with a body, where there is a value.
pub open spec fn with_body(value: Option<JsonView>, body: Seq<char>) -> Option<
    (JsonView, Seq<char>),
> {
    match value {
        Some(value) => Some((value, body)),
        None => None,
    }
}

/// Parts the text of a file into its front matter, as a value, and its body.
///
/// The front matter of a file that begins with whole lines between two fences is those lines, and
/// its body is what follows the second fence. A file without a second fence is all front matter.
pub fn split_frontmatter(data: &str) -> (r: Result<(Json, String), SiteError>)
    ensures
        match r {
            Ok((front, body)) => parsed(data@) == Some((front@, body@)),
            Err(error) => parsed(data@) is None && error@ == SiteFailure::Yaml,
        },
        forall|front: Seq<char>, body: Seq<char>| #[trigger]
            holds_fenced(data@, front, body) ==> parsed(data@) == with_body(
                yaml_value(front),
                body,
            ),
        forall|front: Seq<char>| #[trigger]
            holds_unclosed(data@, front) ==> parsed(data@) == with_body(
                yaml_value(front),
                Seq::empty(),
            ),
        holds_no_fence(data@) ==> parsed(data@) == with_body(yaml_value(data@), Seq::empty()),
        forall|front: Seq<char>, body: Seq<char>| #[trigger]
            holds_fenced(data@, front, body) ==> match r {
                Ok((value, text)) => yaml_value(front) == Some(value@) && text@ == body,
                Err(_) => yaml_value(front) is None,
            },
        forall|front: Seq<char>| #[trigger]
            holds_unclosed(data@, front) ==> match r {
                Ok((value, text)) => yaml_value(front) == Some(value@) && text@.len() == 0,
                Err(_) => yaml_value(front) is None,
            },
        holds_no_fence(data@) ==> match r {
            Ok((value, text)) => yaml_value(data@) == Some(value@) && text@.len() == 0,
            Err(_) => yaml_value(data@) is None,
        },
        match r {
            Ok((value, text)) => yaml_value(enclosed_split(FENCE@, data@).0) == Some(value@)
                && text@ == enclosed_split(FENCE@, data@).1,
            Err(error) => yaml_value(enclosed_split(FENCE@, data@).0) is None && error is Yaml,
        },
{
    let (front, body) = split_enclosed(FENCE, data);
    match parse_yaml(front.as_str()) {
        Ok(value) => Ok((from_value(value), body.to_owned())),
        Err(error) => Err(SiteError::Yaml(error)),
    }
}

/// The body of a file is what the extractor leaves after the front matter, to the last character,
/// and its front matter is the value that YAML reads from the rest.
pub proof fn law_nothing_of_a_file_is_lost(data: Seq<char>)
    ensures
        match parsed(data) {
            Some((front, body)) => yaml_value(enclosed_split("---"@, data).0) == Some(front) && body
                == enclosed_split("---"@, data).1,
            None => yaml_value(enclosed_split("---"@, data).0) is None,
        },
{
}

} // verus!
