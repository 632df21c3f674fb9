//! What can stop the building of a site.

use crate::file_helpers::PathError;
use vstd::prelude::*;
use vstd::string::*;

verus! {

/// `serde_yaml::Error`, which says why a text is no YAML.
#[verifier::external_type_specification]
#[verifier::external_body]
pub struct ExYamlError(serde_yaml::Error);

/// `handlebars::RenderError`, which says why a template could not be filled in.
#[verifier::external_type_specification]
#[verifier::external_body]
pub struct ExRenderError(handlebars::RenderError);

/// `handlebars::TemplateError`, which says why a text is no template.
#[verifier::external_type_specification]
#[verifier::external_body]
pub struct ExTemplateError(handlebars::TemplateError);

/// What stopped the building of a site. Where a file is at fault, the error names it first.
#[derive(Debug)]
pub enum SiteError {
    /// A file name is missing or is no text.
    Path(PathError),
    /// The file system refused something; in its words.
    Io(String),
    /// Front matter is no YAML.
    Yaml(serde_yaml::Error),
    /// A template is malformed.
    Template(handlebars::TemplateError),
    /// A template could not be filled in.
    Render(handlebars::RenderError),
    /// A link names an id that no post has.
    UnknownUuid(String, String),
    /// Front matter lacks this key.
    MissingKey(String, String),
    /// Front matter has something else than a text under this key.
    NotText(String, String),
    /// Front matter is something else than a mapping.
    FrontmatterNotMapping,
    /// Front matter names no template.
    NoTemplate,
    /// Front matter names its template by something else than a text.
    TemplateNotText,
    /// The global data does not hold posts in the form in which links look them up.
    MalformedPosts,
}

/// The mathematical value of a [`SiteError`].
pub enum SiteFailure {
    Path(PathError),
    Io(Seq<char>),
    Yaml,
    Template,
    Render,
    UnknownUuid(Seq<char>, Seq<char>),
    MissingKey(Seq<char>, Seq<char>),
    NotText(Seq<char>, Seq<char>),
    FrontmatterNotMapping,
    NoTemplate,
    TemplateNotText,
    MalformedPosts,
}

/// A failure in words; none where it is an outside crate's, which has its own, or a defect.
pub open spec fn failure_message(failure: SiteFailure) -> Option<Seq<char>> {
    match failure {
        SiteFailure::Path(error) => Some(error.spec_message()),
        SiteFailure::Io(message) => Some(message),
        SiteFailure::UnknownUuid(_, id) => Some(
            "uuid in text ("@ + id + ") should correspond to a post"@,
        ),
        SiteFailure::MissingKey(_, key) => Some("value does not contain key `"@ + key + "`"@),
        SiteFailure::NotText(_, key) => Some(
            "expected value of `"@ + key + "` to be of type `str`"@,
        ),
        _ => None,
    }
}

/// What was being done when a failure was met, in words.
pub open spec fn failure_context(failure: SiteFailure) -> Option<Seq<char>> {
    match failure {
        SiteFailure::UnknownUuid(file, _) => Some("processing "@ + file),
        SiteFailure::MissingKey(file, _) => Some("processing file "@ + file),
        SiteFailure::NotText(file, _) => Some("processing file "@ + file),
        SiteFailure::Render => Some("{path:?}"@),
        _ => None,
    }
}

/// A text that may be there, by its characters.
pub open spec fn text_option(text: Option<String>) -> Option<Seq<char>> {
    match text {
        Some(text) => Some(text@),
        None => None,
    }
}

fn join(first: &str, second: &str, third: &str) -> (r: String)
    ensures
        r@ == first@ + second@ + third@,
{
    let mut text = first.to_owned();
    text.append(second);
    text.append(third);
    text
}

impl SiteError {
    /// The error in words; none where it is an outside crate's, which has its own, or a defect.
    pub fn message(&self) -> (r: Option<String>)
        ensures
            text_option(r) == failure_message(self@),
    {
        match self {
            SiteError::Path(error) => Some(error.message().to_owned()),
            SiteError::Io(message) => Some(message.clone()),
            SiteError::UnknownUuid(_, id) => Some(
                join("uuid in text (", id.as_str(), ") should correspond to a post"),
            ),
            SiteError::MissingKey(_, key) => Some(
                join("value does not contain key `", key.as_str(), "`"),
            ),
            SiteError::NotText(_, key) => Some(
                join("expected value of `", key.as_str(), "` to be of type `str`"),
            ),
            _ => None,
        }
    }

    /// What was being done when the error was met, in words.
    pub fn context(&self) -> (r: Option<String>)
        ensures
            text_option(r) == failure_context(self@),
    {
        match self {
            SiteError::UnknownUuid(file, _) => Some("processing ".to_owned().concat(file.as_str())),
            SiteError::MissingKey(file, _) => Some(
                "processing file ".to_owned().concat(file.as_str()),
            ),
            SiteError::NotText(file, _) => Some(
                "processing file ".to_owned().concat(file.as_str()),
            ),
            SiteError::Render(_) => Some("{path:?}".to_owned()),
            _ => None,
        }
    }

    pub open spec fn view(&self) -> SiteFailure {
        match self {
            SiteError::Path(error) => SiteFailure::Path(*error),
            SiteError::Io(message) => SiteFailure::Io(message@),
            SiteError::Yaml(_) => SiteFailure::Yaml,
            SiteError::Template(_) => SiteFailure::Template,
            SiteError::Render(_) => SiteFailure::Render,
            SiteError::UnknownUuid(file, id) => SiteFailure::UnknownUuid(file@, id@),
            SiteError::MissingKey(file, key) => SiteFailure::MissingKey(file@, key@),
            SiteError::NotText(file, key) => SiteFailure::NotText(file@, key@),
            SiteError::FrontmatterNotMapping => SiteFailure::FrontmatterNotMapping,
            SiteError::NoTemplate => SiteFailure::NoTemplate,
            SiteError::TemplateNotText => SiteFailure::TemplateNotText,
            SiteError::MalformedPosts => SiteFailure::MalformedPosts,
        }
    }
}

/// The failure that a result holds.
pub open spec fn failure_of(r: Result<(), SiteError>) -> Option<SiteFailure> {
    match r {
        Ok(_) => None,
        Err(error) => Some(error@),
    }
}

/// The words of a failure name what is at fault: the id, the key and the file.
pub proof fn law_failures_name_their_cause(file: Seq<char>, word: Seq<char>)
    ensures
        failure_message(SiteFailure::UnknownUuid(file, word)) == Some(
            "uuid in text ("@ + word + ") should correspond to a post"@,
        ),
        failure_message(SiteFailure::MissingKey(file, word)) == Some(
            "value does not contain key `"@ + word + "`"@,
        ),
        failure_message(SiteFailure::NotText(file, word)) == Some(
            "expected value of `"@ + word + "` to be of type `str`"@,
        ),
        failure_message(SiteFailure::Io(word)) == Some(word),
        failure_context(SiteFailure::UnknownUuid(file, word)) == Some("processing "@ + file),
        failure_context(SiteFailure::MissingKey(file, word)) == Some("processing file "@ + file),
        failure_context(SiteFailure::NotText(file, word)) == Some("processing file "@ + file),
{
}

/// An error stands for what it holds: the error of a path, the words of the file system, and the
/// file with the id or the key.
pub proof fn law_errors_hold_their_cause(error: SiteError)
    ensures
        match error {
            SiteError::Path(cause) => error@ == SiteFailure::Path(cause),
            SiteError::Io(message) => error@ == SiteFailure::Io(message@),
            SiteError::Yaml(_) => error@ == SiteFailure::Yaml,
            SiteError::Template(_) => error@ == SiteFailure::Template,
            SiteError::Render(_) => error@ == SiteFailure::Render,
            SiteError::UnknownUuid(file, id) => error@ == SiteFailure::UnknownUuid(file@, id@),
            SiteError::MissingKey(file, key) => error@ == SiteFailure::MissingKey(file@, key@),
            SiteError::NotText(file, key) => error@ == SiteFailure::NotText(file@, key@),
            SiteError::FrontmatterNotMapping => error@ == SiteFailure::FrontmatterNotMapping,
            SiteError::NoTemplate => error@ == SiteFailure::NoTemplate,
            SiteError::TemplateNotText => error@ == SiteFailure::TemplateNotText,
            SiteError::MalformedPosts => error@ == SiteFailure::MalformedPosts,
        },
        failure_of(Ok(())) is None,
        failure_of(Err(error)) == Some(error@),
{
}

} // verus!
