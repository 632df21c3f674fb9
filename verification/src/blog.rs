//! The posts of the blog: what is known of each of them, newest first.

use crate::error::{failure_of, SiteError, SiteFailure};
use crate::file_helpers::{
    file_ext, file_name, file_stem, get_file_ext, get_file_name, html_name, page_name, FilePath,
};
use crate::frontmatter::{parsed, split_frontmatter};
use crate::json::{
    inserted, key_less, law_insert_lookup, lemma_key_order, lookup, member, sorted, Fields, Json,
    JsonMap, JsonView,
};
use crate::links::{last_link, link_target, post_fits, LinkFailure};
use crate::page::is_markdown;
use crate::site::{
    built, has_page, law_files_become_pages, lemma_built_last, lemma_entry_not_failed, path_of,
    planned, texts, Listing, NodeView, SiteView,
};
use crate::text::{bytes_of, lex_less, starts_with_char, str_eq, str_less};
use crate::tree::Entry;
use vstd::prelude::*;
use vstd::seq_lib::*;
use vstd::string::*;

verus! {

/// Why a field of front matter is not as it should be.
#[derive(Debug, Clone, Copy, PartialEq, Eq, Structural)]
pub enum KeyError {
    /// There is no such field.
    Missing,
    /// Its value is of another kind.
    WrongKind,
}

/// What is wrong with the field `key`, which should be there and be a text.
pub open spec fn text_field_error(fields: Fields, key: Seq<char>) -> Option<KeyError> {
    match lookup(fields, key) {
        None => Some(KeyError::Missing),
        Some(JsonView::Str(_)) => None,
        Some(_) => Some(KeyError::WrongKind),
    }
}

/// Checks that `v` has a value of the given kind under `key`. The one kind there is is `str`.
pub fn ensure_key(v: &JsonMap, key: &str, kind: &str) -> (r: Result<(), KeyError>)
    requires
        kind@ == "str"@ || lookup(v@, key@) is None,
    ensures
        match r {
            Ok(_) => text_field_error(v@, key@) is None,
            Err(error) => text_field_error(v@, key@) == Some(error),
        },
{
    match v.get(key) {
        None => Err(KeyError::Missing),
        Some(value) => match value.as_str() {
            None => Err(KeyError::WrongKind),
            Some(_) => Ok(()),
        },
    }
}

/// The path of a page below the root of the site as an address: each part with a slash before it.
pub open spec fn address(parts: Seq<Seq<char>>) -> Seq<char>
    decreases parts.len(),
{
    if parts.len() == 0 {
        Seq::empty()
    } else {
        address(parts.drop_last()) + "/"@ + parts.last()
    }
}

/// The address of the page `name` in the directory of the blog that `trail` leads to.
pub open spec fn post_address(trail: Seq<Seq<char>>, name: Seq<char>) -> Seq<char> {
    address(seq!["blog"@] + trail + seq![name])
}

/// What is known of the post in the file at `path`, which `trail` leads to, with this front
/// matter: the front matter, and the address of the page under `link`.
pub open spec fn post_of(front: JsonView, path: FilePath, trail: Seq<Seq<char>>) -> Result<
    JsonView,
    SiteFailure,
> {
    match front {
        JsonView::Object(fields) => match text_field_error(fields, "date"@) {
            Some(KeyError::Missing) => Err(SiteFailure::MissingKey(path.shown@, "date"@)),
            Some(KeyError::WrongKind) => Err(SiteFailure::NotText(path.shown@, "date"@)),
            None => match page_name(path@) {
                Err(error) => Err(SiteFailure::Path(error)),
                Ok(name) => Ok(
                    JsonView::Object(
                        inserted(fields, "link"@, JsonView::Str(post_address(trail, name))),
                    ),
                ),
            },
        },
        _ => Err(SiteFailure::FrontmatterNotMapping),
    }
}

/// What holds of every post: it has a text as its date, and its link leads to a page below `blog`.
pub open spec fn is_post(post: JsonView) -> bool {
    &&& member(post, "date"@) matches Some(JsonView::Str(_))
    &&& member(post, "link"@) matches Some(JsonView::Str(link)) && "/blog/"@.is_prefix_of(link)
}

/// All of these are posts.
pub open spec fn all_posts(posts: Seq<JsonView>) -> bool {
    forall|i: int| 0 <= i < posts.len() ==> is_post(#[trigger] posts[i])
}

/// Posts that were found, in order, and what stopped the search after them, if anything did.
pub struct Found {
    pub posts: Seq<JsonView>,
    pub stop: Option<SiteFailure>,
}

/// No post.
pub open spec fn none_found() -> Found {
    Found { posts: Seq::empty(), stop: None }
}

/// No post, for this reason.
pub open spec fn search_stopped(failure: SiteFailure) -> Found {
    Found { posts: Seq::empty(), stop: Some(failure) }
}

/// First the one and then, where nothing stops it, the other.
pub open spec fn and_then_found(first: Found, second: Found) -> Found {
    if first.stop is Some {
        first
    } else {
        Found { posts: first.posts + second.posts, stop: second.stop }
    }
}

/// The post that a file holds: one is held by every Markdown file but the index and those with a
/// leading underscore.
pub open spec fn found_in_file(
    path: FilePath,
    text: Result<String, String>,
    trail: Seq<Seq<char>>,
) -> Found {
    match file_name(path@) {
        Err(error) => search_stopped(SiteFailure::Path(error)),
        Ok(name) => if (name.len() > 0 && name[0] == '_') || name == "index.md"@ {
            none_found()
        } else {
            match file_ext(path@) {
                Err(error) => search_stopped(SiteFailure::Path(error)),
                Ok(extension) => if extension != "md"@ {
                    none_found()
                } else {
                    match text {
                        Err(message) => search_stopped(SiteFailure::Io(message@)),
                        Ok(data) => match parsed(data@) {
                            None => search_stopped(SiteFailure::Yaml),
                            Some((front, _)) => match post_of(front, path, trail) {
                                Err(failure) => search_stopped(failure),
                                Ok(post) => Found { posts: seq![post], stop: None },
                            },
                        },
                    }
                },
            }
        },
    }
}

/// The posts that the directory at `path`, which `trail` leads to, holds at any depth.
pub open spec fn found_in_dir(
    path: FilePath,
    entries: Result<Vec<Entry>, String>,
    trail: Seq<Seq<char>>,
) -> Found
    decreases entries,
{
    match file_name(path@) {
        Err(error) => search_stopped(SiteFailure::Path(error)),
        Ok(name) => if name.len() > 0 && name[0] == '_' {
            none_found()
        } else {
            match entries {
                Err(message) => search_stopped(SiteFailure::Io(message@)),
                Ok(entries) => found_in(entries@, trail),
            }
        },
    }
}

/// Where an entry of the directory that `trail` leads to is.
pub open spec fn trail_to(path: FilePath, trail: Seq<Seq<char>>) -> Seq<Seq<char>> {
    match file_name(path@) {
        Ok(name) => trail.push(name),
        Err(_) => trail,
    }
}

/// The posts that an entry of the directory that `trail` leads to holds. What is no directory is
/// taken for a file.
pub open spec fn found_in_entry(entry: Entry, trail: Seq<Seq<char>>) -> Found
    decreases entry,
{
    match entry {
        Entry::Failed(message) => search_stopped(SiteFailure::Io(message@)),
        Entry::File(path, text) => found_in_file(path, text, trail),
        Entry::Dir(path, entries) => found_in_dir(path, entries, trail_to(path, trail)),
        Entry::Other(path, text) => found_in_file(path, text, trail),
    }
}

/// The posts that the entries of the directory that `trail` leads to hold, in their order.
pub open spec fn found_in(entries: Seq<Entry>, trail: Seq<Seq<char>>) -> Found
    decreases entries,
{
    if entries.len() == 0 {
        none_found()
    } else {
        and_then_found(
            found_in(entries.drop_last(), trail),
            found_in_entry(entries.last(), trail),
        )
    }
}

/// Values, by what they hold.
pub open spec fn values(list: Seq<Json>) -> Seq<JsonView> {
    Seq::new(list.len(), |i: int| list[i]@)
}

fn push_part(text: &mut String, part: &str)
    ensures
        final(text)@ == old(text)@ + "/"@ + part@,
{
    text.append("/");
    text.append(part);
}

/// The address of the page `name` in the directory of the blog that `trail` leads to.
fn make_address(trail: &Vec<String>, name: &str) -> (r: String)
    ensures
        r@ == post_address(texts(trail@), name@),
{
    let ghost parts = seq!["blog"@] + texts(trail@) + seq![name@];
    let mut link = String::new();
    proof {
        assert(parts.take(0) =~= Seq::empty());
        assert(link@ =~= address(parts.take(0)));
        assert(parts.take(1).drop_last() =~= parts.take(0));
        assert(parts.take(1).last() == "blog"@);
    }
    push_part(&mut link, "blog");
    let mut i: usize = 0;
    while i < trail.len()
        invariant
            i <= trail@.len(),
            parts == seq!["blog"@] + texts(trail@) + seq![name@],
            link@ == address(parts.take(i + 1)),
        decreases trail@.len() - i,
    {
        proof {
            assert(parts.take(i + 2).drop_last() =~= parts.take(i + 1));
            assert(parts.take(i + 2).last() == trail@[i as int]@);
        }
        push_part(&mut link, trail[i].as_str());
        i += 1;
    }
    proof {
        assert(parts.take(i + 1) =~= parts.drop_last());
        assert(parts.last() == name@);
    }
    push_part(&mut link, name);
    link
}

/// The address of a post leads below `blog`.
proof fn lemma_address_below_blog(trail: Seq<Seq<char>>, name: Seq<char>)
    ensures
        "/blog/"@.is_prefix_of(post_address(trail, name)),
    decreases trail.len(),
{
    let parts = seq!["blog"@] + trail + seq![name];
    let front = seq!["blog"@] + trail;
    assert(parts.drop_last() =~= front);
    assert(parts.last() == name);
    reveal_strlit("/blog/");
    reveal_strlit("/");
    reveal_strlit("blog");
    if trail.len() == 0 {
        assert(front =~= seq!["blog"@]);
        assert(front.drop_last() =~= Seq::empty());
        assert(address(front.drop_last()) =~= Seq::empty());
        assert(address(front) == address(front.drop_last()) + "/"@ + front.last());
        assert(front.last() == "blog"@);
        assert(address(front) =~= "/"@ + "blog"@);
        assert(address(parts) == "/"@ + "blog"@ + "/"@ + name);
        assert("/blog/"@ =~= address(parts).subrange(0, 6));
    } else {
        lemma_address_below_blog(trail.drop_last(), trail.last());
        assert(front =~= seq!["blog"@] + trail.drop_last() + seq![trail.last()]);
        let inner = address(front);
        assert("/blog/"@ =~= inner.subrange(0, 6));
        assert(address(parts) == inner + "/"@ + name);
        assert("/blog/"@ =~= address(parts).subrange(0, 6));
    }
}

/// What is known of the post in the file at `path`, which `trail` leads to, with this front
/// matter.
pub fn blog_post(front: Json, path: &FilePath, trail: &Vec<String>) -> (r: Result<Json, SiteError>)
    ensures
        match r {
            Ok(post) => post_of(front@, *path, texts(trail@)) == Ok::<JsonView, SiteFailure>(post@),
            Err(error) => post_of(front@, *path, texts(trail@)) == Err::<JsonView, SiteFailure>(
                error@,
            ),
        },
        r matches Ok(post) ==> is_post(post@),
{
    let mut fields = match front {
        Json::Object(fields) => fields,
        _ => {
            return Err(SiteError::FrontmatterNotMapping);
        },
    };
    match ensure_key(&fields, "date", "str") {
        Ok(_) => {},
        Err(KeyError::Missing) => {
            return Err(SiteError::MissingKey(path.shown.clone(), "date".to_owned()));
        },
        Err(KeyError::WrongKind) => {
            return Err(SiteError::NotText(path.shown.clone(), "date".to_owned()));
        },
    }
    let name = match html_name(path) {
        Ok(name) => name,
        Err(error) => {
            return Err(SiteError::Path(error));
        },
    };
    let link = make_address(trail, name.as_str());
    proof {
        lemma_address_below_blog(texts(trail@), name@);
        reveal_strlit("date");
        reveal_strlit("link");
        assert("date"@[0] != "link"@[0]);
    }
    fields.insert("link".to_owned(), Json::Str(link));
    Ok(Json::Object(fields))
}

/// Adds to `posts` the post that a file holds, if it holds one.
fn process_blog_file(
    path: &FilePath,
    text: &Result<String, String>,
    trail: &Vec<String>,
    posts: &mut Vec<Json>,
) -> (r: Result<(), SiteError>)
    ensures
        values(final(posts)@) == values(old(posts)@) + found_in_file(
            *path,
            *text,
            texts(trail@),
        ).posts,
        failure_of(r) == found_in_file(*path, *text, texts(trail@)).stop,
        all_posts(values(old(posts)@)) ==> all_posts(values(final(posts)@)),
{
    proof {
        assert(values(posts@) + Seq::<JsonView>::empty() =~= values(posts@));
    }
    let name = match get_file_name(path) {
        Ok(name) => name,
        Err(error) => {
            return Err(SiteError::Path(error));
        },
    };
    if starts_with_char(name, '_') || str_eq(name, "index.md") {
        return Ok(());
    }
    if let Err(error) = get_file_ext(path) {
        return Err(SiteError::Path(error));
    }
    if !is_markdown(path) {
        return Ok(());
    }
    let data = match text {
        Ok(data) => data,
        Err(message) => {
            return Err(SiteError::Io(message.clone()));
        },
    };
    let front = match split_frontmatter(data.as_str()) {
        Ok((front, _)) => front,
        Err(error) => {
            return Err(error);
        },
    };
    match blog_post(front, path, trail) {
        Ok(post) => {
            posts.push(post);
            proof {
                assert(values(posts@) =~= values(old(posts)@) + seq![post@]);
            }
            Ok(())
        },
        Err(error) => Err(error),
    }
}

/// Where an entry of the directory that `trail` leads to is.
fn trail_into(path: &FilePath, trail: &Vec<String>) -> (r: Vec<String>)
    ensures
        texts(r@) == trail_to(*path, texts(trail@)),
{
    let mut inner: Vec<String> = Vec::new();
    let mut i: usize = 0;
    while i < trail.len()
        invariant
            i <= trail@.len(),
            inner@.len() == i,
            forall|j: int| 0 <= j < i ==> (#[trigger] inner@[j])@ == trail@[j]@,
        decreases trail@.len() - i,
    {
        inner.push(trail[i].clone());
        i += 1;
    }
    proof {
        assert(texts(inner@) =~= texts(trail@));
    }
    if let Ok(name) = get_file_name(path) {
        inner.push(name.to_owned());
        proof {
            assert(texts(inner@) =~= texts(trail@).push(name@));
        }
    }
    inner
}

/// Adds to `posts` the posts that an entry of the directory that `trail` leads to holds.
fn process_blog_entry(entry: &Entry, trail: &Vec<String>, posts: &mut Vec<Json>) -> (r: Result<
    (),
    SiteError,
>)
    ensures
        values(final(posts)@) == values(old(posts)@) + found_in_entry(*entry, texts(trail@)).posts,
        failure_of(r) == found_in_entry(*entry, texts(trail@)).stop,
        all_posts(values(old(posts)@)) ==> all_posts(values(final(posts)@)),
    decreases entry,
{
    proof {
        assert(values(posts@) + Seq::<JsonView>::empty() =~= values(posts@));
    }
    match entry {
        Entry::Failed(message) => Err(SiteError::Io(message.clone())),
        Entry::File(path, text) => process_blog_file(path, text, trail, posts),
        Entry::Dir(path, entries) => {
            let inner = trail_into(path, trail);
            process_blog_posts_dir(path, entries, &inner, posts)
        },
        Entry::Other(path, text) => process_blog_file(path, text, trail, posts),
    }
}

/// Adds to `posts` the posts that the directory at `path`, which `trail` leads to, holds at any
/// depth. A directory with a leading underscore holds none.
pub fn process_blog_posts_dir(
    path: &FilePath,
    entries: &Result<Vec<Entry>, String>,
    trail: &Vec<String>,
    posts: &mut Vec<Json>,
) -> (r: Result<(), SiteError>)
    ensures
        values(final(posts)@) == values(old(posts)@) + found_in_dir(
            *path,
            *entries,
            texts(trail@),
        ).posts,
        failure_of(r) == found_in_dir(*path, *entries, texts(trail@)).stop,
        all_posts(values(old(posts)@)) ==> all_posts(values(final(posts)@)),
    decreases entries,
{
    proof {
        assert(values(posts@) + Seq::<JsonView>::empty() =~= values(posts@));
    }
    let name = match get_file_name(path) {
        Ok(name) => name,
        Err(error) => {
            return Err(SiteError::Path(error));
        },
    };
    if starts_with_char(name, '_') {
        return Ok(());
    }
    let children = match entries {
        Ok(children) => children,
        Err(message) => {
            return Err(SiteError::Io(message.clone()));
        },
    };
    let ghost before = values(posts@);
    proof {
        assert(children@.take(0) =~= Seq::empty());
    }
    let mut i: usize = 0;
    while i < children.len()
        invariant
            i <= children@.len(),
            decreases_to!(entries => children),
            before == values(old(posts)@),
            all_posts(before) ==> all_posts(values(posts@)),
            found_in_dir(*path, *entries, texts(trail@)) == found_in(children@, texts(trail@)),
            values(posts@) == before + found_in(children@.take(i as int), texts(trail@)).posts,
            found_in(children@.take(i as int), texts(trail@)).stop is None,
        decreases children@.len() - i,
    {
        let ghost head = children@.take(i + 1);
        let ghost middle = values(posts@);
        let reply = process_blog_entry(&children[i], trail, posts);
        proof {
            assert(head.drop_last() =~= children@.take(i as int));
            assert(head.last() == children@[i as int]);
            reveal_with_fuel(found_in, 2);
            assert(found_in(head, texts(trail@)) == and_then_found(
                found_in(children@.take(i as int), texts(trail@)),
                found_in_entry(children@[i as int], texts(trail@)),
            ));
            assert(values(posts@) =~= before + found_in(head, texts(trail@)).posts);
        }
        if let Err(error) = reply {
            proof {
                lemma_stop_stays(children@, i + 1, texts(trail@));
            }
            return Err(error);
        }
        i += 1;
    }
    proof {
        assert(children@.take(i as int) =~= children@);
    }
    Ok(())
}

/// What stops the search stops it for good.
proof fn lemma_stop_stays(entries: Seq<Entry>, n: int, trail: Seq<Seq<char>>)
    requires
        0 <= n <= entries.len(),
        found_in(entries.take(n), trail).stop is Some,
    ensures
        found_in(entries, trail) == found_in(entries.take(n), trail),
    decreases entries.len() - n,
{
    if n < entries.len() {
        assert(entries.take(n + 1).drop_last() =~= entries.take(n));
        lemma_stop_stays(entries, n + 1, trail);
    } else {
        assert(entries.take(n) =~= entries);
    }
}

/// The date of a post.
pub open spec fn date_of(post: JsonView) -> Seq<char> {
    match member(post, "date"@) {
        Some(JsonView::Str(date)) => date,
        _ => Seq::empty(),
    }
}

/// The date of a post.
pub fn get_date(v: &Json) -> (r: &str)
    requires
        member(v@, "date"@) matches Some(JsonView::Str(_)),
    ensures
        member(v@, "date"@) == Some(JsonView::Str(r@)),
{
    match v.get("date") {
        Some(value) => match value.as_str() {
            Some(date) => date,
            None => "",
        },
        None => "",
    }
}

/// No post comes before one with a later date.
pub open spec fn newest_first(posts: Seq<JsonView>) -> bool {
    forall|i: int, j: int|
        0 <= i < j < posts.len() ==> !key_less(
            date_of(#[trigger] posts[i]),
            date_of(#[trigger] posts[j]),
        )
}

/// The posts of this date, in their order.
pub open spec fn of_date(posts: Seq<JsonView>, date: Seq<char>) -> Seq<JsonView> {
    posts.filter(|post: JsonView| date_of(post) == date)
}

/// `after` holds the posts of `before`, newest first, those of one date in the order that they
/// had.
pub open spec fn arranged(before: Seq<JsonView>, after: Seq<JsonView>) -> bool {
    &&& newest_first(after)
    &&& after.to_multiset() == before.to_multiset()
    &&& forall|date: Seq<char>| #[trigger] of_date(after, date) == of_date(before, date)
}

proof fn lemma_of_date_inserted(posts: Seq<JsonView>, p: int, post: JsonView, date: Seq<char>)
    requires
        0 <= p <= posts.len(),
        forall|j: int| 0 <= j < p ==> date_of(#[trigger] posts[j]) != date_of(post),
    ensures
        of_date(posts.insert(p, post), date) == of_date(seq![post] + posts, date),
{
    let is_of_date = |x: JsonView| date_of(x) == date;
    let head = posts.take(p);
    let tail = posts.skip(p);
    let one = seq![post];
    assert(posts =~= head + tail);
    assert(posts.insert(p, post) =~= head + (one + tail));
    assert(one + posts =~= (one + head) + tail);
    Seq::filter_distributes_over_add(head, one + tail, is_of_date);
    Seq::filter_distributes_over_add(one, tail, is_of_date);
    Seq::filter_distributes_over_add(one + head, tail, is_of_date);
    Seq::filter_distributes_over_add(one, head, is_of_date);
    reveal(Seq::filter);
    assert(one.drop_last() =~= Seq::empty());
    assert(one.drop_last().filter(is_of_date) =~= Seq::empty());
    if date_of(post) == date {
        broadcast use group_filter_ensures;

        let of_head = head.filter(is_of_date);
        if of_head.len() > 0 {
            assert(is_of_date(of_head[0]));
            assert(of_head.contains(of_head[0]));
            lemma_filter_comes_from(head, is_of_date);
            let k = choose|k: int| 0 <= k < head.len() && #[trigger] head[k] == of_head[0];
            assert(posts[k] == head[k]);
        }
        assert(of_head =~= Seq::empty());
    } else {
        assert(one.filter(is_of_date) =~= Seq::empty());
    }
    assert(of_date(posts.insert(p, post), date) =~= of_date(one + posts, date));
}

proof fn lemma_filter_comes_from(s: Seq<JsonView>, pred: spec_fn(JsonView) -> bool)
    ensures
        forall|i: int|
            0 <= i < s.filter(pred).len() ==> exists|k: int|
                0 <= k < s.len() && #[trigger] s[k] == #[trigger] s.filter(pred)[i],
    decreases s.len(),
{
    reveal(Seq::filter);
    if s.len() > 0 {
        let rest = s.drop_last();
        lemma_filter_comes_from(rest, pred);
        let out = s.filter(pred);
        let sub = rest.filter(pred);
        assert forall|i: int| 0 <= i < out.len() implies exists|k: int|
            0 <= k < s.len() && #[trigger] s[k] == #[trigger] out[i] by {
            if i < sub.len() {
                assert(out[i] == sub[i]);
                let k = choose|k: int| 0 <= k < rest.len() && #[trigger] rest[k] == sub[i];
                assert(s[k] == out[i]);
            } else {
                assert(s[s.len() - 1] == out[i]);
            }
        }
    }
}

proof fn lemma_inserted_in_order(posts: Seq<JsonView>, p: int, post: JsonView)
    requires
        newest_first(posts),
        0 <= p <= posts.len(),
        forall|j: int| 0 <= j < p ==> key_less(date_of(post), date_of(#[trigger] posts[j])),
        p < posts.len() ==> !key_less(date_of(post), date_of(posts[p])),
    ensures
        newest_first(posts.insert(p, post)),
{
    let new = posts.insert(p, post);
    let date = date_of(post);
    assert forall|i: int, j: int| 0 <= i < j < new.len() implies !key_less(
        date_of(#[trigger] new[i]),
        date_of(#[trigger] new[j]),
    ) by {
        if i < p {
            assert(new[i] == posts[i]);
        } else if i > p {
            assert(new[i] == posts[i - 1]);
        }
        if j < p {
            assert(new[j] == posts[j]);
        } else if j > p {
            assert(new[j] == posts[j - 1]);
        }
        if j == p {
            lemma_key_order(date, date_of(posts[i]), date);
        } else if i == p {
            let first = date_of(posts[p]);
            let other = date_of(posts[j - 1]);
            lemma_key_order(other, first, first);
            lemma_key_order(date, other, first);
        }
    }
}

proof fn lemma_multiset_inserted(posts: Seq<JsonView>, p: int, post: JsonView)
    requires
        0 <= p <= posts.len(),
    ensures
        posts.insert(p, post).to_multiset() == posts.to_multiset().insert(post),
{
    broadcast use group_to_multiset_ensures;

    let new = posts.insert(p, post);
    assert(new.remove(p) =~= posts);
    assert(new[p] == post);
    assert(new.contains(post));
    assert(new.to_multiset() =~= new.to_multiset().remove(post).insert(post));
}

/// Arranges posts newest first, those of one date in the order that they have.
pub fn sort_posts(posts: Vec<Json>) -> (r: Vec<Json>)
    requires
        forall|i: int|
            0 <= i < posts@.len() ==> (member((#[trigger] posts@[i])@, "date"@) matches Some(
                JsonView::Str(_),
            )),
    ensures
        arranged(values(posts@), values(r@)),
{
    let ghost all = values(posts@);
    let mut rest = posts;
    let mut sorted: Vec<Json> = Vec::new();
    proof {
        assert(values(sorted@) =~= all.skip(all.len() as int));
    }
    while rest.len() > 0
        invariant
            rest@.len() <= all.len(),
            all == values(posts@),
            forall|i: int|
                0 <= i < rest@.len() ==> #[trigger] rest@[i]@ == all[i] && (member(
                    all[i],
                    "date"@,
                ) matches Some(JsonView::Str(_))),
            forall|i: int|
                0 <= i < sorted@.len() ==> (member((#[trigger] sorted@[i])@, "date"@) matches Some(
                    JsonView::Str(_),
                )),
            arranged(all.skip(rest@.len() as int), values(sorted@)),
        decreases rest@.len(),
    {
        let ghost n = rest@.len() - 1;
        let ghost before = values(sorted@);
        proof {
            assert(rest@[n]@ == all[n]);
        }
        match rest.pop() {
            None => {},
            Some(post) => {
                let mut p: usize = 0;
                while p < sorted.len() && str_less(get_date(&post), get_date(&sorted[p]))
                    invariant
                        p <= sorted@.len(),
                        before == values(sorted@),
                        member(post@, "date"@) matches Some(JsonView::Str(_)),
                        forall|i: int|
                            0 <= i < sorted@.len() ==> (member(
                                (#[trigger] sorted@[i])@,
                                "date"@,
                            ) matches Some(JsonView::Str(_))),
                        forall|j: int|
                            0 <= j < p ==> key_less(date_of(post@), date_of(#[trigger] before[j])),
                    decreases sorted@.len() - p,
                {
                    p += 1;
                }
                let ghost x = post@;
                sorted.insert(p, post);
                proof {
                    let after = values(sorted@);
                    assert(after =~= before.insert(p as int, x));
                    assert(all.skip(n) =~= seq![x] + all.skip(n + 1));
                    lemma_inserted_in_order(before, p as int, x);
                    lemma_multiset_inserted(before, p as int, x);
                    assert(seq![x] + all.skip(n + 1) =~= all.skip(n + 1).insert(0, x));
                    lemma_multiset_inserted(all.skip(n + 1), 0, x);
                    assert forall|date: Seq<char>| #[trigger]
                        of_date(after, date) == of_date(all.skip(n), date) by {
                        assert forall|j: int| 0 <= j < p implies date_of(#[trigger] before[j])
                            != date_of(x) by {
                            lemma_key_order(date_of(x), date_of(x), date_of(x));
                        }
                        lemma_of_date_inserted(before, p as int, x, date);
                        let is_of_date = |y: JsonView| date_of(y) == date;
                        Seq::filter_distributes_over_add(seq![x], before, is_of_date);
                        Seq::filter_distributes_over_add(seq![x], all.skip(n + 1), is_of_date);
                        assert(of_date(before, date) == of_date(all.skip(n + 1), date));
                    }
                }
            },
        }
    }
    proof {
        assert(all.skip(0) =~= all);
    }
    sorted
}

/// The posts of the blog, whose directory is at `path`, newest first.
pub fn process_blog_posts(path: &FilePath, entries: &Result<Vec<Entry>, String>) -> (r: Result<
    Vec<Json>,
    SiteError,
>)
    ensures
        match r {
            Ok(posts) => {
                let found = found_in_dir(*path, *entries, Seq::empty());
                &&& found.stop is None
                &&& arranged(found.posts, values(posts@))
                &&& all_posts(values(posts@))
            },
            Err(error) => found_in_dir(*path, *entries, Seq::empty()).stop == Some(error@),
        },
{
    let mut posts: Vec<Json> = Vec::new();
    let trail: Vec<String> = Vec::new();
    proof {
        assert(texts(trail@) =~= Seq::empty());
        assert(values(posts@) =~= Seq::empty());
    }
    match process_blog_posts_dir(path, entries, &trail, &mut posts) {
        Err(error) => Err(error),
        Ok(_) => {
            let ghost found = found_in_dir(*path, *entries, Seq::empty()).posts;
            proof {
                assert(values(posts@) =~= found);
                assert forall|i: int| 0 <= i < posts@.len() implies (member(
                    (#[trigger] posts@[i])@,
                    "date"@,
                ) matches Some(JsonView::Str(_))) by {
                    assert(is_post(values(posts@)[i]));
                }
            }
            let sorted = sort_posts(posts);
            proof {
                broadcast use group_to_multiset_ensures;

                assert forall|i: int| 0 <= i < values(sorted@).len() implies is_post(
                    #[trigger] values(sorted@)[i],
                ) by {
                    let post = values(sorted@)[i];
                    assert(values(sorted@).contains(post));
                    assert(found.to_multiset().count(post) > 0);
                    assert(found.contains(post));
                }
            }
            Ok(sorted)
        },
    }
}

/// The data that is there for all pages of a site with these posts.
pub fn site_globals(posts: Vec<Json>) -> (r: Json)
    ensures
        r@ == JsonView::Object(seq![("posts"@, JsonView::Array(values(posts@)))]),
{
    let ghost list = values(posts@);
    let mut globals = JsonMap::new();
    let posts = Json::Array(posts);
    proof {
        assert(posts@->Array_0 =~= list);
    }
    globals.insert("posts".to_owned(), posts);
    proof {
        assert(globals@ =~= seq![("posts"@, JsonView::Array(list))]);
    }
    Json::Object(globals)
}

/// `dir` has a page at the end of `path`, which leads through directories.
pub open spec fn page_at(dir: Listing, path: Seq<Seq<char>>) -> bool
    decreases path.len(),
{
    if path.len() == 0 {
        false
    } else if path.len() == 1 {
        has_page(dir, path[0])
    } else {
        exists|j: int|
            0 <= j < dir.len() && (#[trigger] dir[j]).0 == path[0] && (dir[j].1 matches
                NodeView::Dir(sub) && page_at(sub, path.drop_first()))
    }
}

/// None of these entries, at any depth, is named by `ignore`, and each that holds a post is a file.
pub open spec fn taken_in(entries: Seq<Entry>, ignore: Seq<Seq<char>>) -> bool
    decreases entries,
{
    forall|i: int|
        #![trigger entries[i]]
        0 <= i < entries.len() ==> {
            &&& file_name(path_of(entries[i])@) matches Ok(name) ==> !ignore.contains(name)
            &&& entries[i] matches Entry::Dir(_, Ok(children)) ==> taken_in(children@, ignore)
            &&& entries[i] matches Entry::Other(path, text) ==> found_in_file(
                path,
                text,
                Seq::empty(),
            ).posts.len() == 0
        }
}

/// `post` is front matter with a link to the page that `path` leads to from the directory of the
/// blog at the end of `trail`, which is built into `dir`.
pub open spec fn leads_along(
    post: JsonView,
    trail: Seq<Seq<char>>,
    dir: Listing,
    fields: Fields,
    path: Seq<Seq<char>>,
) -> bool {
    &&& post == JsonView::Object(
        inserted(fields, "link"@, JsonView::Str(address(seq!["blog"@] + trail + path))),
    )
    &&& page_at(dir, path)
}

/// `post` is front matter with a link to a page of the directory of the blog at the end of
/// `trail`, which is built into `dir`.
pub open spec fn leads_into(post: JsonView, trail: Seq<Seq<char>>, dir: Listing) -> bool {
    exists|fields: Fields, path: Seq<Seq<char>>| #[trigger]
        leads_along(post, trail, dir, fields, path)
}

proof fn lemma_leads_into_longer(
    post: JsonView,
    trail: Seq<Seq<char>>,
    dir: Listing,
    longer: Listing,
)
    requires
        leads_into(post, trail, dir),
        dir.len() <= longer.len(),
        forall|j: int| 0 <= j < dir.len() ==> #[trigger] dir[j] == longer[j],
    ensures
        leads_into(post, trail, longer),
{
    let (fields, path) = choose|fields: Fields, path: Seq<Seq<char>>| #[trigger]
        leads_along(post, trail, dir, fields, path);
    if path.len() == 1 {
        let j = choose|j: int|
            0 <= j < dir.len() && (#[trigger] dir[j]).0 == path[0] && dir[j].1 is Page;
        assert(longer[j] == dir[j]);
    } else {
        let j = choose|j: int|
            0 <= j < dir.len() && (#[trigger] dir[j]).0 == path[0] && (dir[j].1 matches
                NodeView::Dir(sub) && page_at(sub, path.drop_first()));
        assert(longer[j] == dir[j]);
    }
    assert(leads_along(post, trail, longer, fields, path));
}

proof fn lemma_leads_into_parent(
    post: JsonView,
    trail: Seq<Seq<char>>,
    name: Seq<char>,
    sub: Listing,
    dir: Listing,
)
    requires
        leads_into(post, trail.push(name), sub),
        dir.len() > 0,
        dir.last() == (name, NodeView::Dir(sub)),
    ensures
        leads_into(post, trail, dir),
{
    let (fields, path) = choose|fields: Fields, path: Seq<Seq<char>>| #[trigger]
        leads_along(post, trail.push(name), sub, fields, path);
    let whole = seq![name] + path;
    assert(whole.drop_first() =~= path);
    assert(seq!["blog"@] + trail + whole =~= seq!["blog"@] + trail.push(name) + path);
    assert(dir[dir.len() - 1].0 == whole[0]);
    assert(leads_along(post, trail, dir, fields, whole));
}

/// The posts that are found in a directory of the blog link to pages of what the directory is
/// built into, in every site that is not told to leave some of its entries out, where what holds
/// them is files.
pub proof fn law_posts_link_to_pages(
    entries: Seq<Entry>,
    trail: Seq<Seq<char>>,
    site: SiteView,
    dir: Listing,
)
    requires
        built(entries, site, dir),
        taken_in(entries, site.ignore),
    ensures
        forall|i: int|
            0 <= i < found_in(entries, trail).posts.len() ==> leads_into(
                #[trigger] found_in(entries, trail).posts[i],
                trail,
                dir,
            ),
    decreases entries,
{
    if entries.len() > 0 {
        let rest = entries.drop_last();
        let entry = entries.last();
        let at = entries.len() - 1;
        let all = found_in(entries, trail).posts;
        let first = found_in(rest, trail).posts;
        let more = found_in_entry(entry, trail).posts;
        let shorter = if planned(entry, site) is Skip {
            dir
        } else {
            dir.drop_last()
        };
        lemma_built_last(entries, site, dir);
        lemma_entry_not_failed(entries, site, dir, at);
        assert(entries[at] == entry);
        assert forall|i: int| 0 <= i < rest.len() implies {
            &&& file_name(path_of(#[trigger] rest[i])@) matches Ok(name) ==> !site.ignore.contains(
                name,
            )
            &&& rest[i] matches Entry::Dir(_, Ok(children)) ==> taken_in(
                children@,
                site.ignore,
            )
            &&& rest[i] matches Entry::Other(path, text) ==> found_in_file(
                path,
                text,
                Seq::empty(),
            ).posts.len() == 0
        } by {
            assert(rest[i] == entries[i]);
        }
        law_posts_link_to_pages(rest, trail, site, shorter);
        reveal_with_fuel(found_in, 2);
        assert forall|i: int| 0 <= i < more.len() implies leads_into(
            #[trigger] more[i],
            trail,
            dir,
        ) by {
            match entry {
                Entry::File(path, text) => {
                    let name = page_name(path@)->Ok_0;
                    law_files_become_pages(entries, site, dir, at);
                    let (front, _) = parsed(text->Ok_0@)->0;
                    assert(leads_along(more[i], trail, dir, front->Object_0, seq![name]));
                },
                Entry::Dir(path, Ok(children)) => {
                    let name = file_name(path@)->Ok_0;
                    let sub = dir.last().1->Dir_0;
                    law_posts_link_to_pages(children@, trail.push(name), site, sub);
                    lemma_leads_into_parent(more[i], trail, name, sub, dir);
                },
                _ => {},
            }
        }
        assert forall|i: int| 0 <= i < all.len() implies leads_into(
            #[trigger] all[i],
            trail,
            dir,
        ) by {
            if i < first.len() {
                assert(all[i] == first[i]);
                lemma_leads_into_longer(first[i], trail, shorter, dir);
            } else {
                assert(all[i] == more[i - first.len()]);
            }
        }
    }
}

proof fn lemma_last_link(posts: Seq<JsonView>, id: Seq<char>, at: int, link: Seq<char>)
    requires
        0 <= at < posts.len(),
        member(posts[at], "id"@) == Some(JsonView::Str(id)),
        member(posts[at], "link"@) == Some(JsonView::Str(link)),
        forall|j: int|
            at < j < posts.len() ==> member(#[trigger] posts[j], "id"@) != Some(JsonView::Str(id)),
    ensures
        last_link(posts, id) == link,
    decreases posts.len(),
{
    if at < posts.len() - 1 {
        assert(member(posts[posts.len() - 1], "id"@) != Some(JsonView::Str(id)));
        assert forall|j: int| at < j < posts.len() - 1 implies member(
            #[trigger] posts.drop_last()[j],
            "id"@,
        ) != Some(JsonView::Str(id)) by {
            assert(posts.drop_last()[j] == posts[j]);
        }
        lemma_last_link(posts.drop_last(), id, at, link);
    }
}

/// A link by id leads to the last post with that id, where every post has what is looked for.
pub proof fn law_id_leads_to_post(
    globals: JsonView,
    posts: Seq<JsonView>,
    id: Seq<char>,
    at: int,
    link: Seq<char>,
)
    requires
        globals == JsonView::Object(seq![("posts"@, JsonView::Array(posts))]),
        forall|j: int| 0 <= j < posts.len() ==> post_fits(#[trigger] posts[j], id),
        0 <= at < posts.len(),
        is_post(posts[at]),
        member(posts[at], "id"@) == Some(JsonView::Str(id)),
        member(posts[at], "link"@) == Some(JsonView::Str(link)),
        forall|j: int|
            at < j < posts.len() ==> member(#[trigger] posts[j], "id"@) != Some(JsonView::Str(id)),
    ensures
        link_target(globals, id) == Ok::<Seq<char>, LinkFailure>(link),
{
    lemma_last_link(posts, id, at, link);
    let fields = seq![("posts"@, JsonView::Array(posts))];
    assert(fields[0].0 == "posts"@);
    assert(member(globals, "posts"@) == Some(JsonView::Array(posts)));
    reveal_strlit("/blog/");
    assert(link.len() > 0);
}

/// A post is the front matter of its file with one thing changed: under `link` it has the address
/// of its page, and under every other key what the front matter has there.
pub proof fn law_post_is_front_matter_with_link(
    fields: Fields,
    path: FilePath,
    trail: Seq<Seq<char>>,
    key: Seq<char>,
)
    requires
        sorted(fields),
        post_of(JsonView::Object(fields), path, trail) is Ok,
    ensures
        ({
            let post = post_of(JsonView::Object(fields), path, trail)->Ok_0;
            &&& key != "link"@ ==> member(post, key) == lookup(fields, key)
            &&& file_stem(path@) matches Ok(stem) && member(post, "link"@) == Some(
                JsonView::Str(post_address(trail, stem + ".html"@)),
            )
        }),
{
    let name = page_name(path@)->Ok_0;
    let link = JsonView::Str(post_address(trail, name));
    law_insert_lookup(fields, "link"@, link, key);
    law_insert_lookup(fields, "link"@, link, "link"@);
}

/// Front matter makes a post exactly where it is a mapping with a text as its date and its file
/// has a stem that is text; each of the other ways has its own error.
pub proof fn law_when_front_matter_is_a_post(
    front: JsonView,
    path: FilePath,
    trail: Seq<Seq<char>>,
)
    ensures
        match post_of(front, path, trail) {
            Ok(post) => front is Object && post is Object && (member(front, "date"@) matches Some(
                JsonView::Str(_),
            )) && file_stem(path@) is Ok,
            Err(failure) => if !(front is Object) {
                failure == SiteFailure::FrontmatterNotMapping
            } else if member(front, "date"@) is None {
                failure == SiteFailure::MissingKey(path.shown@, "date"@)
            } else if !(member(front, "date"@)->0 is Str) {
                failure == SiteFailure::NotText(path.shown@, "date"@)
            } else {
                file_stem(path@) matches Err(error) && failure == SiteFailure::Path(error)
            },
        },
{
}

/// A field is as it should be exactly where it is there and is a text.
pub proof fn law_text_fields(fields: Fields, key: Seq<char>)
    ensures
        match text_field_error(fields, key) {
            None => lookup(fields, key) matches Some(JsonView::Str(_)),
            Some(KeyError::Missing) => lookup(fields, key) is None,
            Some(KeyError::WrongKind) => lookup(fields, key) matches Some(value) && !(value is Str),
        },
{
}

/// The address of a post right in the blog is its name below `/blog`, and going into a directory
/// puts the name of the directory before that of the post.
pub proof fn law_addresses_go_down_the_blog(
    trail: Seq<Seq<char>>,
    dir: Seq<char>,
    name: Seq<char>,
)
    ensures
        post_address(Seq::empty(), name) == "/"@ + "blog"@ + "/"@ + name,
        post_address(trail.push(dir), name) == post_address(trail, dir) + "/"@ + name,
{
    let one = seq!["blog"@];
    let none = Seq::<Seq<char>>::empty();
    assert((one + none + seq![name]).drop_last() =~= one);
    assert(one.drop_last() =~= none);
    assert(address(none) =~= Seq::<char>::empty());
    assert(address(one) == address(one.drop_last()) + "/"@ + one.last());
    assert(address(one) =~= "/"@ + "blog"@);
    let whole = one + trail.push(dir) + seq![name];
    assert(whole.drop_last() =~= one + trail + seq![dir]);
    assert(whole.last() == name);
}

/// Looking through entries is looking through the first of them and then, unless something stopped
/// the search there, through the others: what is found is what is found in each, in order.
pub proof fn law_search_goes_on(a: Seq<Entry>, b: Seq<Entry>, trail: Seq<Seq<char>>)
    ensures
        ({
            let first = found_in(a, trail);
            let second = found_in(b, trail);
            let both = found_in(a + b, trail);
            if first.stop is Some {
                both.posts == first.posts && both.stop == first.stop
            } else {
                both.posts == first.posts + second.posts && both.stop == second.stop
            }
        }),
    decreases b.len(),
{
    if b.len() == 0 {
        assert(a + b =~= a);
        let first = found_in(a, trail).posts;
        assert(first + Seq::<JsonView>::empty() =~= first);
    } else {
        let rest = b.drop_last();
        assert((a + b).drop_last() =~= a + rest);
        assert((a + b).last() == b.last());
        law_search_goes_on(a, rest, trail);
        let first = found_in(a, trail);
        let middle = found_in(rest, trail);
        let last = found_in_entry(b.last(), trail);
        assert(first.posts + middle.posts + last.posts =~= first.posts + (middle.posts
            + last.posts));
    }
}

/// What stops the search in the file at `path` with this text, if anything does, and whether it is
/// a post: it is one if its name has no leading underscore and is not `index.md`, and it is
/// Markdown.
pub proof fn law_files_that_are_posts(
    path: FilePath,
    text: Result<String, String>,
    trail: Seq<Seq<char>>,
    entry: Entry,
)
    requires
        entry == Entry::File(path, text) || entry == Entry::Other(path, text),
    ensures
        ({
            let found = found_in(seq![entry], trail);
            let name = file_name(path@);
            let passed_over = name matches Ok(n) && ((n.len() > 0 && n[0] == '_') || n
                == "index.md"@);
            &&& name matches Err(error) ==> found.stop == Some(SiteFailure::Path(error))
            &&& passed_over ==> found.stop is None && found.posts.len() == 0
            &&& name is Ok && !passed_over ==> match file_ext(path@) {
                Err(error) => found.stop == Some(SiteFailure::Path(error)),
                Ok(extension) => {
                    &&& extension != "md"@ ==> found.stop is None && found.posts.len() == 0
                    &&& extension == "md"@ ==> match text {
                        Err(message) => found.stop == Some(SiteFailure::Io(message@)),
                        Ok(data) => match parsed(data@) {
                            None => found.stop == Some(SiteFailure::Yaml),
                            Some((front, _)) => match post_of(front, path, trail) {
                                Err(failure) => found.stop == Some(failure),
                                Ok(post) => found.stop is None && found.posts == seq![post],
                            },
                        },
                    }
                },
            }
            &&& found.stop is Some ==> found.posts.len() == 0
        }),
{
    lemma_found_in_one(entry, trail);
}

/// What is found in a directory is what is found in its entries, one step further along the trail;
/// in one with a leading underscore nothing is.
pub proof fn law_directories_of_posts(
    path: FilePath,
    entries: Result<Vec<Entry>, String>,
    trail: Seq<Seq<char>>,
)
    ensures
        ({
            let found = found_in(seq![Entry::Dir(path, entries)], trail);
            match file_name(path@) {
                Err(error) => found.stop == Some(SiteFailure::Path(error)),
                Ok(name) => if name.len() > 0 && name[0] == '_' {
                    found.stop is None && found.posts.len() == 0
                } else {
                    match entries {
                        Err(message) => found.stop == Some(SiteFailure::Io(message@)),
                        Ok(children) => {
                            let inner = found_in(children@, trail.push(name));
                            found.posts == inner.posts && found.stop == inner.stop
                        },
                    }
                },
            }
        }),
{
    lemma_found_in_one(Entry::Dir(path, entries), trail);
}

/// The blog itself, and any directory that a trail leads to, is searched through all its entries,
/// unless it has a leading underscore.
pub proof fn law_blog_is_searched_whole(
    path: FilePath,
    entries: Result<Vec<Entry>, String>,
    trail: Seq<Seq<char>>,
)
    ensures
        ({
            let found = found_in_dir(path, entries, trail);
            match file_name(path@) {
                Err(error) => found.stop == Some(SiteFailure::Path(error)),
                Ok(name) => if name.len() > 0 && name[0] == '_' {
                    found.stop is None && found.posts.len() == 0
                } else {
                    match entries {
                        Err(message) => found.stop == Some(SiteFailure::Io(message@)),
                        Ok(children) => {
                            let inner = found_in(children@, trail);
                            found.posts == inner.posts && found.stop == inner.stop
                        },
                    }
                },
            }
        }),
{
}

/// Something that the file system refused stops the search, and in no entries nothing is found.
pub proof fn law_refusals_stop_the_search(message: String, trail: Seq<Seq<char>>)
    ensures
        found_in(seq![Entry::Failed(message)], trail).stop == Some(SiteFailure::Io(message@)),
        found_in(Seq::empty(), trail).stop is None,
        found_in(Seq::empty(), trail).posts.len() == 0,
{
    lemma_found_in_one(Entry::Failed(message), trail);
}

proof fn lemma_found_in_one(entry: Entry, trail: Seq<Seq<char>>)
    ensures
        found_in(seq![entry], trail) == found_in_entry(entry, trail),
{
    let one = seq![entry];
    assert(one.drop_last() =~= Seq::empty());
    assert(one.last() == entry);
    reveal_with_fuel(found_in, 2);
    let posts = found_in_entry(entry, trail).posts;
    assert(Seq::<JsonView>::empty() + posts =~= posts);
}

/// Posts with dates, once arranged, are the same posts with no date before a later one, and those
/// of one date stand in the order that they had.
pub proof fn law_newest_posts_come_first(
    before: Seq<JsonView>,
    after: Seq<JsonView>,
    date: Seq<char>,
)
    requires
        arranged(before, after),
        forall|i: int|
            0 <= i < before.len() ==> (member(#[trigger] before[i], "date"@) matches Some(
                JsonView::Str(_),
            )),
    ensures
        after.to_multiset() == before.to_multiset(),
        forall|i: int, j: int|
            #![trigger after[i], after[j]]
            0 <= i < j < after.len() ==> match (
                member(after[i], "date"@),
                member(after[j], "date"@),
            ) {
                (Some(JsonView::Str(x)), Some(JsonView::Str(y))) => !lex_less(
                    bytes_of(x),
                    bytes_of(y),
                ),
                _ => false,
            },
        after.filter(|post: JsonView| member(post, "date"@) == Some(JsonView::Str(date)))
            == before.filter(|post: JsonView| member(post, "date"@) == Some(JsonView::Str(date))),
{
    broadcast use group_to_multiset_ensures;

    assert forall|i: int| 0 <= i < after.len() implies (member(
        #[trigger] after[i],
        "date"@,
    ) matches Some(JsonView::Str(_))) by {
        assert(after.contains(after[i]));
        assert(before.to_multiset().count(after[i]) > 0);
        assert(before.contains(after[i]));
        let k = choose|k: int| 0 <= k < before.len() && before[k] == after[i];
    }
    lemma_of_date_by_field(after, date);
    lemma_of_date_by_field(before, date);
    assert(of_date(after, date) == of_date(before, date));
}

proof fn lemma_of_date_by_field(posts: Seq<JsonView>, date: Seq<char>)
    requires
        forall|i: int|
            0 <= i < posts.len() ==> (member(#[trigger] posts[i], "date"@) matches Some(
                JsonView::Str(_),
            )),
    ensures
        of_date(posts, date) == posts.filter(
            |post: JsonView| member(post, "date"@) == Some(JsonView::Str(date)),
        ),
    decreases posts.len(),
{
    reveal(Seq::filter);
    if posts.len() > 0 {
        let rest = posts.drop_last();
        assert forall|i: int| 0 <= i < rest.len() implies (member(
            #[trigger] rest[i],
            "date"@,
        ) matches Some(JsonView::Str(_))) by {
            assert(rest[i] == posts[i]);
        }
        assert(posts.last() == posts[posts.len() - 1]);
        lemma_of_date_by_field(rest, date);
    }
}

/// Values are taken one by one.
pub proof fn law_values_are_the_list(list: Seq<Json>)
    ensures
        values(list).len() == list.len(),
        forall|i: int| 0 <= i < list.len() ==> #[trigger] values(list)[i] == list[i]@,
{
}

} // verus!
