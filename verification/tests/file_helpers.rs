use site_builder::file_helpers::{
    get_file_ext, get_file_name, get_file_stem, html_name, FilePath, PathError,
};

fn named(name: &[u8]) -> FilePath {
    FilePath { name: Some(name.to_vec()), shown: String::from("shown") }
}

fn nameless() -> FilePath {
    FilePath { name: None, shown: String::from("/") }
}

#[test]
fn names_stems_and_extensions() {
    let path = named(b"post.md");
    assert_eq!(get_file_name(&path), Ok("post.md"));
    assert_eq!(get_file_stem(&path), Ok("post"));
    assert_eq!(get_file_ext(&path), Ok("md"));
    assert_eq!(html_name(&path), Ok(String::from("post.html")));
}

#[test]
fn the_last_dot_counts() {
    let path = named(b"a.tar.gz");
    assert_eq!(get_file_stem(&path), Ok("a.tar"));
    assert_eq!(get_file_ext(&path), Ok("gz"));
    let trailing = named(b"a.");
    assert_eq!(get_file_stem(&trailing), Ok("a"));
    assert_eq!(get_file_ext(&trailing), Ok(""));
}

#[test]
fn hidden_and_bare_names_have_no_extension() {
    for name in [".profile", "Makefile"] {
        let path = named(name.as_bytes());
        assert_eq!(get_file_stem(&path), Ok(name));
        assert_eq!(get_file_ext(&path), Err(PathError::NoExtension));
    }
}

#[test]
fn names_that_are_no_text() {
    let name = named(b"a\xff.md");
    assert_eq!(get_file_name(&name), Err(PathError::NameNotUtf8));
    assert_eq!(get_file_stem(&name), Err(PathError::StemNotUtf8));
    assert_eq!(html_name(&name), Err(PathError::StemNotUtf8));
    assert_eq!(get_file_ext(&name), Ok("md"));
    let extension = named(b"a.\xff");
    assert_eq!(get_file_ext(&extension), Err(PathError::ExtensionNotUtf8));
    assert_eq!(get_file_stem(&extension), Ok("a"));
}

#[test]
fn paths_without_a_name() {
    let path = nameless();
    assert_eq!(get_file_name(&path), Err(PathError::NoName));
    assert_eq!(get_file_stem(&path), Err(PathError::NoStem));
    assert_eq!(get_file_ext(&path), Err(PathError::NoExtension));
}

#[test]
fn path_errors_in_words() {
    assert_eq!(PathError::NoName.message(), "couldn't get file name");
    assert_eq!(PathError::NameNotUtf8.message(), "could not convert file name to string");
    assert_eq!(PathError::NoStem.message(), "couldn't get file sterm");
    assert_eq!(PathError::StemNotUtf8.message(), "could not convert file stem to string");
    assert_eq!(PathError::NoExtension.message(), "couldn't extract file extension");
    assert_eq!(
        PathError::ExtensionNotUtf8.message(),
        "could not convert file extension to string"
    );
}
