//! File names, stems and extensions.

use crate::text::bytes_of;
use vstd::prelude::*;
use vstd::slice::slice_subrange;
use vstd::string::*;
use vstd::utf8::*;

verus! {

/// What the site builder reads of a path.
#[derive(Debug, PartialEq)]
pub struct FilePath {
    /// The bytes of its last component, which need not be UTF-8. A root and a path that ends in
    /// `..` have none.
    pub name: Option<Vec<u8>>,
    /// The whole path as it is shown in messages.
    pub shown: String,
}

/// Why a part of a file name could not be had.
#[derive(Debug, Clone, Copy, PartialEq, Eq, Structural)]
pub enum PathError {
    NoName,
    NameNotUtf8,
    NoStem,
    StemNotUtf8,
    NoExtension,
    ExtensionNotUtf8,
}

impl PathError {
    pub open spec fn spec_message(self) -> Seq<char> {
        match self {
            PathError::NoName => "couldn't get file name"@,
            PathError::NameNotUtf8 => "could not convert file name to string"@,
            PathError::NoStem => "couldn't get file sterm"@,
            PathError::StemNotUtf8 => "could not convert file stem to string"@,
            PathError::NoExtension => "couldn't extract file extension"@,
            PathError::ExtensionNotUtf8 => "could not convert file extension to string"@,
        }
    }

    /// The error in words.
    pub fn message(self) -> (r: &'static str)
        ensures
            r@ == self.spec_message(),
    {
        match self {
            PathError::NoName => "couldn't get file name",
            PathError::NameNotUtf8 => "could not convert file name to string",
            PathError::NoStem => "couldn't get file sterm",
            PathError::StemNotUtf8 => "could not convert file stem to string",
            PathError::NoExtension => "couldn't extract file extension",
            PathError::ExtensionNotUtf8 => "could not convert file extension to string",
        }
    }
}

impl FilePath {
    /// The last component.
    pub open spec fn view(&self) -> Option<Seq<u8>> {
        match self.name {
            Some(name) => Some(name@),
            None => None,
        }
    }
}

/// The byte that parts a stem from an extension.
pub const DOT: u8 = 46;

/// The place of the last dot of `name`, where there is one after the first byte: the name of a
/// hidden file such as `.profile` has no extension.
pub open spec fn last_dot(name: Seq<u8>) -> Option<int>
    decreases name.len(),
{
    if name.len() <= 1 {
        None
    } else if name.last() == DOT {
        Some(name.len() - 1)
    } else {
        last_dot(name.drop_last())
    }
}

/// The part of `name` before its last dot, or all of it.
pub open spec fn stem_of(name: Seq<u8>) -> Seq<u8> {
    match last_dot(name) {
        Some(dot) => name.take(dot),
        None => name,
    }
}

/// The part of `name` after its last dot.
pub open spec fn extension_of(name: Seq<u8>) -> Option<Seq<u8>> {
    match last_dot(name) {
        Some(dot) => Some(name.skip(dot + 1)),
        None => None,
    }
}

/// `part` as text: `missing` where there is none, `broken` where it is not UTF-8.
pub open spec fn text_or(
    part: Option<Seq<u8>>,
    missing: PathError,
    broken: PathError,
) -> Result<Seq<char>, PathError> {
    match part {
        None => Err(missing),
        Some(bytes) => if valid_utf8(bytes) {
            Ok(decode_utf8(bytes))
        } else {
            Err(broken)
        },
    }
}

/// The file name of a path.
pub open spec fn file_name(path: Option<Seq<u8>>) -> Result<Seq<char>, PathError> {
    text_or(path, PathError::NoName, PathError::NameNotUtf8)
}

/// The stem of a path's file name.
pub open spec fn file_stem(path: Option<Seq<u8>>) -> Result<Seq<char>, PathError> {
    let stem = match path {
        Some(name) => Some(stem_of(name)),
        None => None,
    };
    text_or(stem, PathError::NoStem, PathError::StemNotUtf8)
}

/// The extension of a path's file name.
pub open spec fn file_ext(path: Option<Seq<u8>>) -> Result<Seq<char>, PathError> {
    let extension = match path {
        Some(name) => extension_of(name),
        None => None,
    };
    text_or(extension, PathError::NoExtension, PathError::ExtensionNotUtf8)
}

/// The name of the page made of a file: its stem with `.html` behind it.
pub open spec fn page_name(path: Option<Seq<u8>>) -> Result<Seq<char>, PathError> {
    match file_stem(path) {
        Ok(stem) => Ok(stem + ".html"@),
        Err(error) => Err(error),
    }
}

/// The text that a result holds, by its characters.
pub open spec fn text_view(r: Result<&str, PathError>) -> Result<Seq<char>, PathError> {
    match r {
        Ok(text) => Ok(text@),
        Err(error) => Err(error),
    }
}

/// `std::str::from_utf8`: gives the bytes as text exactly where they are valid UTF-8.
#[verifier::external_body]
fn utf8(bytes: &[u8]) -> (r: Option<&str>)
    ensures
        r is Some <==> valid_utf8(bytes@),
        r is Some ==> bytes_of(r->0@) == bytes@,
{
    std::str::from_utf8(bytes).ok()
}

fn text_part(bytes: &[u8], broken: PathError) -> (r: Result<&str, PathError>)
    ensures
        text_view(r) == text_or(Some(bytes@), broken, broken),
{
    match utf8(bytes) {
        Some(text) => {
            proof {
                encode_utf8_decode_utf8(text@);
            }
            Ok(text)
        },
        None => Err(broken),
    }
}

fn find_last_dot(name: &[u8]) -> (r: Option<usize>)
    ensures
        match r {
            Some(dot) => last_dot(name@) == Some(dot as int) && 0 < dot < name@.len(),
            None => last_dot(name@) is None,
        },
{
    let mut end: usize = name.len();
    proof {
        assert(name@.take(end as int) =~= name@);
    }
    while end > 1
        invariant
            end <= name@.len(),
            last_dot(name@) == last_dot(name@.take(end as int)),
        decreases end,
    {
        if name[end - 1] == DOT {
            return Some(end - 1);
        }
        proof {
            assert(name@.take(end as int).drop_last() =~= name@.take(end - 1));
        }
        end -= 1;
    }
    None
}

/// The last component of `path`.
pub fn get_file_name(path: &FilePath) -> (r: Result<&str, PathError>)
    ensures
        text_view(r) == file_name(path@),
{
    match &path.name {
        None => Err(PathError::NoName),
        Some(name) => text_part(name.as_slice(), PathError::NameNotUtf8),
    }
}

/// The last component of `path` without its extension.
pub fn get_file_stem(path: &FilePath) -> (r: Result<&str, PathError>)
    ensures
        text_view(r) == file_stem(path@),
{
    match &path.name {
        None => Err(PathError::NoStem),
        Some(name) => {
            let name = name.as_slice();
            match find_last_dot(name) {
                Some(dot) => {
                    let stem = slice_subrange(name, 0, dot);
                    proof {
                        assert(stem@ =~= stem_of(name@));
                    }
                    text_part(stem, PathError::StemNotUtf8)
                },
                None => text_part(name, PathError::StemNotUtf8),
            }
        },
    }
}

/// The extension of the last component of `path`.
pub fn get_file_ext(path: &FilePath) -> (r: Result<&str, PathError>)
    ensures
        text_view(r) == file_ext(path@),
{
    match &path.name {
        None => Err(PathError::NoExtension),
        Some(name) => {
            let name = name.as_slice();
            match find_last_dot(name) {
                Some(dot) => {
                    let end: usize = name.len();
                    let extension = slice_subrange(name, dot + 1, end);
                    proof {
                        assert(extension@ =~= name@.skip(dot + 1));
                    }
                    text_part(extension, PathError::ExtensionNotUtf8)
                },
                None => Err(PathError::NoExtension),
            }
        },
    }
}

/// The name of the page made of the file at `path`.
pub fn html_name(path: &FilePath) -> (r: Result<String, PathError>)
    ensures
        match r {
            Ok(name) => page_name(path@) == Ok::<Seq<char>, PathError>(name@),
            Err(error) => page_name(path@) == Err::<Seq<char>, PathError>(error),
        },
{
    match get_file_stem(path) {
        Ok(stem) => {
            let mut name = stem.to_owned();
            name.append(".html");
            Ok(name)
        },
        Err(error) => Err(error),
    }
}

/// Where a file name has an extension, it is the stem, a dot and the extension; where it has
/// none, it is the stem.
pub proof fn law_stem_and_extension(name: Seq<u8>)
    ensures
        match extension_of(name) {
            Some(extension) => name == stem_of(name) + seq![DOT] + extension
                && stem_of(name).len() > 0,
            None => name == stem_of(name),
        },
{
    lemma_last_dot(name);
    if let Some(dot) = last_dot(name) {
        assert(name =~= stem_of(name) + seq![DOT] + name.skip(dot + 1));
    }
}

/// An extension holds no dot.
pub proof fn law_extension_has_no_dot(name: Seq<u8>)
    ensures
        extension_of(name) matches Some(extension) ==> !extension.contains(DOT),
{
    lemma_last_dot(name);
}

proof fn lemma_last_dot(name: Seq<u8>)
    ensures
        last_dot(name) matches Some(dot) ==> 0 < dot < name.len() && name[dot] == DOT && (forall|
            i: int,
        |
            dot < i < name.len() ==> name[i] != DOT),
    decreases name.len(),
{
    if name.len() > 1 && name.last() != DOT {
        let rest = name.drop_last();
        lemma_last_dot(rest);
        if let Some(dot) = last_dot(name) {
            assert forall|i: int| dot < i < name.len() implies name[i] != DOT by {
                if i < rest.len() {
                    assert(rest[i] == name[i]);
                }
            }
        }
    }
}

/// The last dot of a file name, where one stands after the first byte, parts its stem from its
/// extension; a name without such a dot is its own stem and has no extension.
pub proof fn law_last_dot_parts_the_name(name: Seq<u8>)
    ensures
        match extension_of(name) {
            Some(extension) => {
                &&& name == stem_of(name) + seq![46u8] + extension
                &&& stem_of(name).len() > 0
                &&& !extension.contains(46u8)
            },
            None => stem_of(name) == name && forall|i: int|
                0 < i < name.len() ==> #[trigger] name[i] != 46u8,
        },
{
    law_stem_and_extension(name);
    law_extension_has_no_dot(name);
    lemma_no_last_dot(name);
}

proof fn lemma_no_last_dot(name: Seq<u8>)
    ensures
        last_dot(name) is None ==> forall|i: int| 0 < i < name.len() ==> #[trigger] name[i] != 46u8,
    decreases name.len(),
{
    if name.len() > 1 && last_dot(name) is None {
        let rest = name.drop_last();
        lemma_no_last_dot(rest);
        assert forall|i: int| 0 < i < name.len() implies #[trigger] name[i] != 46u8 by {
            if i < rest.len() {
                assert(rest[i] == name[i]);
            }
        }
    }
}

/// A part of a file name that is there and is UTF-8 is had, byte for byte; each of the ways in
/// which it is not had has its own error. A page is named by the stem of its file and `.html`.
pub proof fn law_parts_are_had_as_text(name: Seq<u8>)
    ensures
        match file_name(Some(name)) {
            Ok(text) => bytes_of(text) == name,
            Err(error) => error == PathError::NameNotUtf8 && !valid_utf8(name),
        },
        match file_stem(Some(name)) {
            Ok(text) => bytes_of(text) == stem_of(name),
            Err(error) => error == PathError::StemNotUtf8 && !valid_utf8(stem_of(name)),
        },
        match file_ext(Some(name)) {
            Ok(text) => extension_of(name) == Some(bytes_of(text)),
            Err(error) => match extension_of(name) {
                None => error == PathError::NoExtension,
                Some(extension) => error == PathError::ExtensionNotUtf8 && !valid_utf8(extension),
            },
        },
        match page_name(Some(name)) {
            Ok(page) => file_stem(Some(name)) matches Ok(stem) && page == stem + ".html"@,
            Err(error) => file_stem(Some(name)) == Err::<Seq<char>, PathError>(error),
        },
        file_name(None) == Err::<Seq<char>, PathError>(PathError::NoName),
        file_stem(None) == Err::<Seq<char>, PathError>(PathError::NoStem),
        file_ext(None) == Err::<Seq<char>, PathError>(PathError::NoExtension),
        page_name(None) == Err::<Seq<char>, PathError>(PathError::NoStem),
{
    if valid_utf8(name) {
        decode_utf8_encode_utf8(name);
    }
    if valid_utf8(stem_of(name)) {
        decode_utf8_encode_utf8(stem_of(name));
    }
    if let Some(extension) = extension_of(name) {
        if valid_utf8(extension) {
            decode_utf8_encode_utf8(extension);
        }
    }
}

/// A path is known by the bytes of its name, all of them.
pub proof fn law_path_is_its_name(path: FilePath, text: &str, error: PathError)
    ensures
        match path.name {
            Some(name) => path@ == Some(name@),
            None => path@ is None,
        },
        text_view(Ok(text)) == Ok::<Seq<char>, PathError>(text@),
        text_view(Err(error)) == Err::<Seq<char>, PathError>(error),
{
}

} // verus!
