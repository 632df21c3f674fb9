//! Links that name a post by its id, and the addresses that they stand for.
//!
//! In the text of a page `[words](:id)` is a link to the post with that id. Building the page
//! puts the address of the post in the place of `:id`.

use crate::json::{lookup, member, Fields, Json, JsonView};
use crate::text::{bytes_of, lemma_bytes_concat, lemma_bytes_empty, slice, str_eq};
use vstd::prelude::*;
use vstd::string::*;
use vstd::utf8::*;

verus! {

/// The form of a link by id, as a regular expression whose first group is the id.
pub const UUID_LINK: &'static str = r"\[[^\]]+\]\(:([a-zA-Z0-9]+)\)";

/// Why the links of a text could not be replaced.
#[derive(Debug, PartialEq)]
pub enum LinkError {
    /// No post has this id.
    UnknownId(String),
    /// The global data does not hold posts in the form in which links look them up.
    MalformedPosts,
}

/// The mathematical value of a [`LinkError`].
pub enum LinkFailure {
    UnknownId(Seq<char>),
    MalformedPosts,
}

impl LinkError {
    pub open spec fn view(&self) -> LinkFailure {
        match self {
            LinkError::UnknownId(id) => LinkFailure::UnknownId(id@),
            LinkError::MalformedPosts => LinkFailure::MalformedPosts,
        }
    }
}

/// An ASCII letter or digit.
pub open spec fn alphanumeric(b: u8) -> bool {
    48 <= b <= 57 || 65 <= b <= 90 || 97 <= b <= 122
}

/// A link by id: a `[` at `open`, then one or more bytes that are no `]`, then `](:` with its
/// `]` at `close`, then one or more letters and digits, then a `)` at `end`.
pub open spec fn link_at(t: Seq<u8>, open: int, close: int, end: int) -> bool {
    &&& 0 <= open && open + 1 < close && close + 3 < end < t.len()
    &&& t[open] == 91
    &&& forall|x: int| open < x < close ==> t[x] != 93
    &&& t[close] == 93
    &&& t[close + 1] == 40
    &&& t[close + 2] == 58
    &&& forall|x: int| close + 3 <= x < end ==> alphanumeric(#[trigger] t[x])
    &&& t[end] == 41
}

/// A link by id, such that none begins before it.
pub open spec fn first_link(t: Seq<u8>, open: int, close: int, end: int) -> bool {
    &&& link_at(t, open, close, end)
    &&& forall|o: int, c: int, e: int| o < open ==> !#[trigger] link_at(t, o, c, e)
}

/// `t` holds a link by id.
pub open spec fn has_link(t: Seq<u8>) -> bool {
    exists|open: int, close: int, end: int| link_at(t, open, close, end)
}

/// Where the id of the first link of `t` begins and ends.
pub open spec fn first_id(t: Seq<u8>) -> Option<(int, int)> {
    if has_link(t) {
        let (open, close, end) = choose|open: int, close: int, end: int|
            first_link(t, open, close, end);
        Some((close + 3, end))
    } else {
        None
    }
}

/// A list entry that links can be looked up in: it has a text as its id and it has a title; where
/// its id is the one that is looked up, it has a text as its link.
pub open spec fn post_fits(post: JsonView, id: Seq<char>) -> bool {
    &&& member(post, "id"@) matches Some(JsonView::Str(_))
    &&& member(post, "title"@) is Some
    &&& member(post, "id"@) == Some(JsonView::Str(id)) ==> (member(post, "link"@) matches Some(
        JsonView::Str(_),
    ))
}

/// The link of the last of `posts` with this id; empty where there is none.
pub open spec fn last_link(posts: Seq<JsonView>, id: Seq<char>) -> Seq<char>
    decreases posts.len(),
{
    if posts.len() == 0 {
        Seq::empty()
    } else if member(posts.last(), "id"@) == Some(JsonView::Str(id)) {
        match member(posts.last(), "link"@) {
            Some(JsonView::Str(link)) => link,
            _ => Seq::empty(),
        }
    } else {
        last_link(posts.drop_last(), id)
    }
}

/// An address that is not empty.
pub open spec fn known(link: Seq<char>, id: Seq<char>) -> Result<Seq<char>, LinkFailure> {
    if link.len() == 0 {
        Err(LinkFailure::UnknownId(id))
    } else {
        Ok(link)
    }
}

/// The address of the post with this id. The posts of the global data are a list of objects that
/// hold their ids, or a table whose keys are the ids.
pub open spec fn link_target(globals: JsonView, id: Seq<char>) -> Result<Seq<char>, LinkFailure> {
    match member(globals, "posts"@) {
        Some(JsonView::Array(posts)) => {
            if forall|i: int| 0 <= i < posts.len() ==> post_fits(#[trigger] posts[i], id) {
                known(last_link(posts, id), id)
            } else {
                Err(LinkFailure::MalformedPosts)
            }
        },
        Some(JsonView::Object(posts)) => match lookup(posts, id) {
            None => Err(LinkFailure::UnknownId(id)),
            Some(post) => match member(post, "link"@) {
                Some(JsonView::Str(link)) => known(link, id),
                _ => Err(LinkFailure::MalformedPosts),
            },
        },
        _ => Err(LinkFailure::MalformedPosts),
    }
}

/// `t` with an address in the place of the `:id` of each link by id, or what went wrong at the
/// first link for which there is none.
pub open spec fn relinked(t: Seq<u8>, globals: JsonView) -> Result<Seq<u8>, LinkFailure>
    decreases t.len(),
{
    match first_id(t) {
        Some((start, end)) if 0 < start <= end <= t.len() => {
            match link_target(globals, decode_utf8(t.subrange(start, end))) {
                Err(failure) => Err(failure),
                Ok(url) => match relinked(t.skip(end), globals) {
                    Err(failure) => Err(failure),
                    Ok(rest) => Ok(t.take(start - 1) + bytes_of(url) + rest),
                },
            }
        },
        _ => Ok(t),
    }
}

/// `regex::Regex::captures` with the pattern of links by id: gives the span of the first group
/// of the leftmost match. A match is what [`link_at`] says: the pattern is a `[`, one or more
/// characters other than `]`, the characters `](:`, one or more ASCII letters and digits, which
/// are the group, and a `)`.
#[verifier::external_body]
fn capture_id(pattern: &str, text: &str) -> (r: Option<(usize, usize)>)
    requires
        pattern@ == UUID_LINK@,
    ensures
        match r {
            Some((start, end)) => exists|open: int|
                #[trigger] first_link(bytes_of(text@), open, start - 3, end as int),
            None => !has_link(bytes_of(text@)),
        },
{
    let regex = regex::Regex::new(pattern).unwrap();
    let captures = regex.captures(text)?;
    captures.get(1).map(|id| (id.start(), id.end()))
}

/// There is one first link.
pub proof fn lemma_first_link_unique(
    t: Seq<u8>,
    o1: int,
    c1: int,
    e1: int,
    o2: int,
    c2: int,
    e2: int,
)
    requires
        first_link(t, o1, c1, e1),
        first_link(t, o2, c2, e2),
    ensures
        o1 == o2,
        c1 == c2,
        e1 == e2,
{
    assert(o1 == o2);
    if c1 < c2 {
        assert(t[c1] != 93);
    } else if c2 < c1 {
        assert(t[c2] != 93);
    }
    if e1 < e2 {
        assert(alphanumeric(t[e1]));
    } else if e2 < e1 {
        assert(alphanumeric(t[e2]));
    }
}

/// A text with a link has a first one.
pub proof fn lemma_first_link_exists(t: Seq<u8>)
    requires
        has_link(t),
    ensures
        exists|open: int, close: int, end: int| first_link(t, open, close, end),
{
    let (open, close, end) = choose|open: int, close: int, end: int| link_at(t, open, close, end);
    lemma_first_link_before(t, open, close, end);
}

proof fn lemma_first_link_before(t: Seq<u8>, open: int, close: int, end: int)
    requires
        link_at(t, open, close, end),
    ensures
        exists|o: int, c: int, e: int| first_link(t, o, c, e),
    decreases open,
{
    if exists|o: int, c: int, e: int| o < open && #[trigger] link_at(t, o, c, e) {
        let (o, c, e) = choose|o: int, c: int, e: int| o < open && #[trigger] link_at(t, o, c, e);
        lemma_first_link_before(t, o, c, e);
    } else {
        assert(first_link(t, open, close, end));
    }
}

proof fn lemma_first_id_is(t: Seq<u8>, open: int, start: int, end: int)
    requires
        first_link(t, open, start - 3, end),
    ensures
        first_id(t) == Some((start, end)),
{
    assert(link_at(t, open, start - 3, end));
    let (o, c, e) = choose|o: int, c: int, e: int| first_link(t, o, c, e);
    lemma_first_link_unique(t, open, start - 3, end, o, c, e);
}

/// The address of the post with this id.
pub fn find_link<'a>(globals: &'a Json, id: &str) -> (r: Result<&'a str, LinkError>)
    ensures
        match r {
            Ok(url) => link_target(globals@, id@) == Ok::<Seq<char>, LinkFailure>(url@),
            Err(error) => link_target(globals@, id@) == Err::<Seq<char>, LinkFailure>(error@),
        },
{
    match globals.get("posts") {
        Some(Json::Array(posts)) => {
            let mut url: &'a str = "";
            proof {
                reveal_strlit("");
                assert(url@ =~= Seq::<char>::empty());
            }
            let ghost list = member(globals@, "posts"@)->0->Array_0;
            let mut i: usize = 0;
            while i < posts.len()
                invariant
                    i <= posts.len(),
                    member(globals@, "posts"@) == Some(JsonView::Array(list)),
                    list.len() == posts@.len(),
                    forall|j: int| 0 <= j < list.len() ==> #[trigger] list[j] == posts@[j]@,
                    forall|j: int| 0 <= j < i ==> post_fits(#[trigger] list[j], id@),
                    url@ == last_link(list.take(i as int), id@),
                decreases posts.len() - i,
            {
                let post: &'a Json = &posts[i];
                proof {
                    assert(list[i as int] == post@);
                    assert(list.take(i + 1).drop_last() =~= list.take(i as int));
                    assert(list.take(i + 1).last() == post@);
                }
                let post_id = match post.get("id") {
                    Some(value) => match value.as_str() {
                        Some(text) => text,
                        None => {
                            assert(!post_fits(list[i as int], id@));
                            return Err(LinkError::MalformedPosts);
                        },
                    },
                    None => {
                        assert(!post_fits(list[i as int], id@));
                        return Err(LinkError::MalformedPosts);
                    },
                };
                if post.get("title").is_none() {
                    assert(!post_fits(list[i as int], id@));
                    return Err(LinkError::MalformedPosts);
                }
                if str_eq(post_id, id) {
                    url = match post.get("link") {
                        Some(value) => match value.as_str() {
                            Some(text) => text,
                            None => {
                                assert(!post_fits(list[i as int], id@));
                                return Err(LinkError::MalformedPosts);
                            },
                        },
                        None => {
                            assert(!post_fits(list[i as int], id@));
                            return Err(LinkError::MalformedPosts);
                        },
                    };
                }
                i += 1;
            }
            proof {
                assert(list.take(i as int) =~= list);
            }
            if url.is_empty() {
                Err(LinkError::UnknownId(id.to_owned()))
            } else {
                Ok(url)
            }
        },
        Some(Json::Object(posts)) => match posts.get(id) {
            None => Err(LinkError::UnknownId(id.to_owned())),
            Some(post) => match post.get("link") {
                Some(value) => match value.as_str() {
                    Some(url) => if url.is_empty() {
                        Err(LinkError::UnknownId(id.to_owned()))
                    } else {
                        Ok(url)
                    },
                    None => Err(LinkError::MalformedPosts),
                },
                None => Err(LinkError::MalformedPosts),
            },
        },
        _ => Err(LinkError::MalformedPosts),
    }
}

/// Puts addresses in the place of the ids of links, whatever the global data holds.
pub fn try_replace_uuid_links(text: String, globals: &Json) -> (r: Result<String, LinkError>)
    ensures
        match r {
            Ok(new_text) => relinked(bytes_of(text@), globals@) == Ok::<Seq<u8>, LinkFailure>(
                bytes_of(new_text@),
            ),
            Err(error) => relinked(bytes_of(text@), globals@) == Err::<Seq<u8>, LinkFailure>(
                error@,
            ),
        },
{
    let mut new_text = String::new();
    let mut rest: &str = text.as_str();
    let ghost whole = bytes_of(text@);
    proof {
        lemma_bytes_concat(new_text@, rest@);
        assert(forall|x: Seq<u8>| bytes_of(new_text@) + x =~= x);
    }
    loop
        invariant
            relinked(whole, globals@) == match relinked(bytes_of(rest@), globals@) {
                Ok(tail) => Ok::<Seq<u8>, LinkFailure>(bytes_of(new_text@) + tail),
                Err(failure) => Err(failure),
            },
            whole == bytes_of(text@),
        decreases bytes_of(rest@).len(),
    {
        let ghost t = bytes_of(rest@);
        match capture_id(UUID_LINK, rest) {
            None => {
                proof {
                    lemma_bytes_concat(new_text@, rest@);
                }
                new_text.append(rest);
                return Ok(new_text);
            },
            Some((start, end)) => {
                let ghost open = choose|open: int|
                    #[trigger] first_link(t, open, start - 3, end as int);
                proof {
                    lemma_first_id_is(t, open, start as int, end as int);
                    encode_utf8_valid_utf8(rest@);
                    is_char_boundary_start_end_of_seq(t);
                    is_char_boundary_iff_not_is_continuation_byte(t, start - 1);
                    is_char_boundary_iff_not_is_continuation_byte(t, end as int);
                    assert(alphanumeric(t[start as int]));
                    is_char_boundary_iff_not_is_continuation_byte(t, start as int);
                }
                let id = slice(rest, start, end);
                proof {
                    encode_utf8_decode_utf8(id@);
                }
                match find_link(globals, id) {
                    Err(error) => {
                        return Err(error);
                    },
                    Ok(url) => {
                        let head = slice(rest, 0, start - 1);
                        let tail = rest.split_at(end).1;
                        proof {
                            assert(bytes_of(head@) =~= t.take(start - 1));
                            assert(bytes_of(tail@) =~= t.skip(end as int));
                            lemma_bytes_concat(new_text@, head@);
                            lemma_bytes_concat(new_text@ + head@, url@);
                            assert(forall|x: Seq<u8>|
                                #[trigger] (bytes_of(new_text@) + (t.take(start - 1) + bytes_of(
                                    url@,
                                ) + x)) =~= bytes_of(new_text@ + head@ + url@) + x);
                        }
                        new_text.append(head);
                        new_text.append(url);
                        rest = tail;
                    },
                }
            },
        }
    }
}

/// Puts addresses in the place of the ids of links. An id that no post has is an error.
pub fn replace_uuid_links(text: String, globals: &Json) -> (r: Result<String, LinkError>)
    requires
        relinked(bytes_of(text@), globals@) != Err::<Seq<u8>, LinkFailure>(
            LinkFailure::MalformedPosts,
        ),
    ensures
        match r {
            Ok(new_text) => relinked(bytes_of(text@), globals@) == Ok::<Seq<u8>, LinkFailure>(
                bytes_of(new_text@),
            ),
            Err(error) => relinked(bytes_of(text@), globals@) == Err::<Seq<u8>, LinkFailure>(
                error@,
            ) && error is UnknownId,
        },
{
    try_replace_uuid_links(text, globals)
}

/// A text without links by id stays as it is, whatever the global data holds.
pub proof fn law_no_link_no_change(t: Seq<u8>, globals: JsonView)
    requires
        !has_link(t),
    ensures
        relinked(t, globals) == Ok::<Seq<u8>, LinkFailure>(t),
{
}

/// No post has an address that could be read as a part of a link by id: one that begins with a
/// colon or holds a `[`.
pub open spec fn plain_links(globals: JsonView) -> bool {
    forall|id: Seq<char>|
        #![trigger link_target(globals, id)]
        link_target(globals, id) matches Ok(url) ==> bytes_of(url)[0] != 58 && !bytes_of(
            url,
        ).contains(91)
}

/// Once the links of a text are replaced, there is no link by id left in it.
pub proof fn law_no_link_left(t: Seq<u8>, globals: JsonView)
    requires
        plain_links(globals),
    ensures
        relinked(t, globals) matches Ok(new) ==> !has_link(new),
    decreases t.len(),
{
    if let Ok(new) = relinked(t, globals) {
        if has_link(t) {
            lemma_first_link_exists(t);
            let (open, close, end) = choose|open: int, close: int, end: int|
                first_link(t, open, close, end);
            lemma_first_id_is(t, open, close + 3, end);
            let url = link_target(globals, decode_utf8(t.subrange(close + 3, end)))->Ok_0;
            let rest = relinked(t.skip(end), globals)->Ok_0;
            law_no_link_left(t.skip(end), globals);
            lemma_bytes_empty(url);
            lemma_no_link_in_parts(t, open, close, end, bytes_of(url), rest);
        }
    }
}

/// A text in which the first `:id` gave way to an address, followed by a text without links by
/// id, has no link by id.
proof fn lemma_no_link_in_parts(
    t: Seq<u8>,
    open: int,
    close: int,
    end: int,
    url: Seq<u8>,
    rest: Seq<u8>,
)
    requires
        first_link(t, open, close, end),
        url.len() > 0,
        url[0] != 58,
        !url.contains(91),
        !has_link(rest),
    ensures
        !has_link(t.take(close + 2) + url + rest),
{
    let new = t.take(close + 2) + url + rest;
    assert forall|o: int, c: int, e: int| !link_at(new, o, c, e) by {
        if link_at(new, o, c, e) {
            let m = close + 2 + url.len();
            if o >= m {
                lemma_link_in_suffix(new, m, o, c, e);
                assert(new.skip(m) =~= rest);
                assert(has_link(rest));
            } else if o >= close + 2 {
                assert(new[o] == url[o - (close + 2)]);
                assert(url.contains(91));
            } else {
                lemma_link_before_url(t, open, close, end, new, o, c, e);
            }
        }
    }
}

proof fn lemma_link_in_suffix(t: Seq<u8>, m: int, o: int, c: int, e: int)
    requires
        link_at(t, o, c, e),
        0 <= m <= o,
    ensures
        link_at(t.skip(m), o - m, c - m, e - m),
{
    let s = t.skip(m);
    assert forall|x: int| 0 <= x < s.len() implies #[trigger] s[x] == t[x + m] by {}
    assert forall|x: int| o - m < x < c - m implies s[x] != 93 by {
        assert(t[x + m] != 93);
    }
    assert forall|x: int| c - m + 3 <= x < e - m implies alphanumeric(#[trigger] s[x]) by {
        assert(alphanumeric(t[x + m]));
    }
}

/// Where `new` goes on after the `](` of the first link of `t` with something else than a colon,
/// no link by id begins before that.
proof fn lemma_link_before_url(
    t: Seq<u8>,
    open: int,
    close: int,
    end: int,
    new: Seq<u8>,
    o: int,
    c: int,
    e: int,
)
    requires
        first_link(t, open, close, end),
        close + 2 < new.len(),
        forall|x: int| 0 <= x < close + 2 ==> #[trigger] new[x] == t[x],
        new[close + 2] != 58,
        o < close + 2,
    ensures
        !link_at(new, o, c, e),
{
    if link_at(new, o, c, e) {
        assert(new[close] == 93 && new[close + 1] == 40);
        assert(c < close);
        if e >= close + 1 {
            if c + 3 <= close + 1 && close + 1 < e {
                assert(alphanumeric(new[close + 1]));
            }
        }
        assert(e < close + 1);
        assert forall|x: int| o < x < c implies t[x] != 93 by {
            assert(new[x] != 93);
        }
        assert forall|x: int| c + 3 <= x < e implies alphanumeric(#[trigger] t[x]) by {
            assert(alphanumeric(new[x]));
        }
        assert(new[o] == t[o] && new[c] == t[c] && new[c + 1] == t[c + 1] && new[c + 2] == t[c + 2]
            && new[e] == t[e]);
        assert(link_at(t, o, c, e));
    }
}

/// What became of one `:id`: the bytes of the old text from `from` up to `to` gave way to `url`,
/// which stands in the new text at `at`.
pub struct Cut {
    pub from: int,
    pub to: int,
    pub at: int,
    pub url: Seq<u8>,
}

/// `new` is `t` with the bytes of each cut replaced, and not a byte else: before the first cut,
/// between any two that follow each other and after the last the two texts agree.
pub open spec fn cut_at(t: Seq<u8>, new: Seq<u8>, cuts: Seq<Cut>) -> bool {
    &&& cuts.len() == 0 ==> new == t
    &&& forall|i: int|
        #![trigger cuts[i]]
        0 <= i < cuts.len() ==> {
            &&& 0 <= cuts[i].from <= cuts[i].to <= t.len()
            &&& 0 <= cuts[i].at <= cuts[i].at + cuts[i].url.len() <= new.len()
            &&& new.subrange(cuts[i].at, cuts[i].at + cuts[i].url.len()) == cuts[i].url
            &&& i == 0 ==> cuts[i].at == cuts[i].from && new.take(cuts[i].at) == t.take(
                cuts[i].from,
            )
            &&& i == cuts.len() - 1 ==> new.skip(cuts[i].at + cuts[i].url.len()) == t.skip(
                cuts[i].to,
            )
        }
    &&& forall|i: int, j: int|
        #![trigger cuts[i], cuts[j]]
        0 <= i < cuts.len() && j == i + 1 && j < cuts.len() ==> {
            &&& cuts[i].to <= cuts[j].from
            &&& cuts[j].at - (cuts[i].at + cuts[i].url.len()) == cuts[j].from - cuts[i].to
            &&& new.subrange(cuts[i].at + cuts[i].url.len(), cuts[j].at) == t.subrange(
                cuts[i].to,
                cuts[j].from,
            )
        }
}

/// The cut is the `:id` of a link by id of `t`, and its address is that of the post.
pub open spec fn cut_is_link(t: Seq<u8>, globals: JsonView, cut: Cut) -> bool {
    &&& exists|open: int| #[trigger] link_at(t, open, cut.from - 2, cut.to)
    &&& link_target(globals, decode_utf8(t.subrange(cut.from + 1, cut.to))) matches Ok(url)
        && bytes_of(url) == cut.url
}

/// The `:id` of the link with its `]` at `close` and its `)` at `end` is one of `cuts`.
pub open spec fn is_cut(cuts: Seq<Cut>, close: int, end: int) -> bool {
    exists|i: int| 0 <= i < cuts.len() && (#[trigger] cuts[i]).from == close + 2 && cuts[i].to
        == end
}

/// `new` is `t` with the address of its post in the place of the `:id` of every link by id.
#[verifier::opaque]
pub open spec fn ids_replaced(t: Seq<u8>, globals: JsonView, new: Seq<u8>, cuts: Seq<Cut>) -> bool {
    &&& cut_at(t, new, cuts)
    &&& forall|i: int| 0 <= i < cuts.len() ==> cut_is_link(t, globals, #[trigger] cuts[i])
    &&& forall|o: int, c: int, e: int| #[trigger] link_at(t, o, c, e) ==> is_cut(cuts, c, e)
}

proof fn lemma_link_of_suffix(t: Seq<u8>, m: int, o: int, c: int, e: int)
    requires
        0 <= m <= t.len(),
        link_at(t.skip(m), o, c, e),
    ensures
        link_at(t, o + m, c + m, e + m),
{
    let s = t.skip(m);
    assert forall|y: int| m <= y < t.len() implies #[trigger] t[y] == s[y - m] by {}
    assert forall|y: int| o + m < y < c + m implies t[y] != 93 by {
        assert(s[y - m] != 93);
    }
    assert forall|y: int| c + m + 3 <= y < e + m implies alphanumeric(#[trigger] t[y]) by {
        assert(alphanumeric(s[y - m]));
    }
    assert(t[o + m] == s[o] && t[c + m] == s[c] && t[c + m + 1] == s[c + 1] && t[c + m + 2] == s[c
        + 2] && t[e + m] == s[e]);
}

/// A link is the first one, or it begins after the end of the first.
proof fn lemma_link_is_first_or_later(
    t: Seq<u8>,
    open: int,
    close: int,
    end: int,
    o: int,
    c: int,
    e: int,
)
    requires
        first_link(t, open, close, end),
        link_at(t, o, c, e),
    ensures
        (c == close && e == end) || o > end,
{
    assert(o >= open);
    if c < close {
        assert(t[c] != 93);
    } else if c == close {
        if e < end {
            assert(alphanumeric(t[e]));
        } else if end < e {
            assert(alphanumeric(t[end]));
        }
    } else {
        if o < close {
            assert(t[close] != 93);
        }
        if close + 3 <= o < end {
            assert(alphanumeric(t[o]));
        }
    }
}

/// The cut at `first`, and after it cuts of a text that begins `by` bytes later in the old text
/// and `new_by` bytes later in the new.
spec fn cuts_after(first: Cut, later: Seq<Cut>, by: int, new_by: int) -> Seq<Cut> {
    seq![first] + Seq::new(
        later.len(),
        |i: int|
            Cut {
                from: later[i].from + by,
                to: later[i].to + by,
                at: later[i].at + new_by,
                url: later[i].url,
            },
    )
}

proof fn lemma_cut_at_step(t: Seq<u8>, p: int, end: int, b: Seq<u8>, rest: Seq<u8>, later: Seq<Cut>)
    requires
        0 <= p <= end <= t.len(),
        cut_at(t.skip(end), rest, later),
    ensures
        cut_at(
            t,
            t.take(p) + b + rest,
            cuts_after(Cut { from: p, to: end, at: p, url: b }, later, end, p + b.len()),
        ),
{
    let s = t.skip(end);
    let m = p + b.len();
    let new = t.take(p) + b + rest;
    let first = Cut { from: p, to: end, at: p, url: b };
    let cuts = cuts_after(first, later, end, m);
    assert(new.skip(m) =~= rest);
    assert forall|i: int| #![trigger cuts[i]] 0 <= i < cuts.len() implies {
        &&& 0 <= cuts[i].from <= cuts[i].to <= t.len()
        &&& 0 <= cuts[i].at <= cuts[i].at + cuts[i].url.len() <= new.len()
        &&& new.subrange(cuts[i].at, cuts[i].at + cuts[i].url.len()) == cuts[i].url
        &&& i == 0 ==> cuts[i].at == cuts[i].from && new.take(cuts[i].at) == t.take(cuts[i].from)
        &&& i == cuts.len() - 1 ==> new.skip(cuts[i].at + cuts[i].url.len()) == t.skip(cuts[i].to)
    } by {
        if i == 0 {
            assert(new.subrange(p, m) =~= b);
            assert(new.take(p) =~= t.take(p));
            if cuts.len() == 1 {
                assert(rest == s);
            }
        } else {
            let old = later[i - 1];
            assert(new.subrange(old.at + m, old.at + m + old.url.len()) =~= rest.subrange(
                old.at,
                old.at + old.url.len(),
            ));
            assert(new.skip(old.at + m + old.url.len()) =~= rest.skip(old.at + old.url.len()));
            assert(t.skip(old.to + end) =~= s.skip(old.to));
        }
    }
    assert forall|i: int, j: int|
        #![trigger cuts[i], cuts[j]]
        0 <= i < cuts.len() && j == i + 1 && j < cuts.len() implies {
        &&& cuts[i].to <= cuts[j].from
        &&& cuts[j].at - (cuts[i].at + cuts[i].url.len()) == cuts[j].from - cuts[i].to
        &&& new.subrange(cuts[i].at + cuts[i].url.len(), cuts[j].at) == t.subrange(
            cuts[i].to,
            cuts[j].from,
        )
    } by {
        let b_cut = later[j - 1];
        if i == 0 {
            assert(rest.take(b_cut.at) == s.take(b_cut.from));
            assert(new.subrange(m, b_cut.at + m) =~= rest.take(b_cut.at));
            assert(t.subrange(end, b_cut.from + end) =~= s.take(b_cut.from));
        } else {
            let a_cut = later[i - 1];
            let a_end = a_cut.at + a_cut.url.len();
            assert(a_cut.to <= b_cut.from);
            assert(new.subrange(a_end + m, b_cut.at + m) =~= rest.subrange(a_end, b_cut.at));
            assert(t.subrange(a_cut.to + end, b_cut.from + end) =~= s.subrange(
                a_cut.to,
                b_cut.from,
            ));
        }
    }
}

proof fn lemma_cut_is_link_later(t: Seq<u8>, globals: JsonView, end: int, old: Cut, cut: Cut)
    requires
        0 <= end <= t.len(),
        cut_is_link(t.skip(end), globals, old),
        0 <= old.from <= old.to <= t.len() - end,
        cut.from == old.from + end,
        cut.to == old.to + end,
        cut.url == old.url,
    ensures
        cut_is_link(t, globals, cut),
{
    let s = t.skip(end);
    let o = choose|o: int| #[trigger] link_at(s, o, old.from - 2, old.to);
    lemma_link_of_suffix(t, end, o, old.from - 2, old.to);
    assert(link_at(t, o + end, cut.from - 2, cut.to));
    assert(t.subrange(cut.from + 1, cut.to) =~= s.subrange(old.from + 1, old.to));
}

proof fn lemma_ids_replaced_step(
    t: Seq<u8>,
    globals: JsonView,
    open: int,
    close: int,
    end: int,
    url: Seq<char>,
    rest: Seq<u8>,
    later: Seq<Cut>,
)
    requires
        first_link(t, open, close, end),
        link_target(globals, decode_utf8(t.subrange(close + 3, end))) == Ok::<
            Seq<char>,
            LinkFailure,
        >(url),
        ids_replaced(t.skip(end), globals, rest, later),
    ensures
        ids_replaced(
            t,
            globals,
            t.take(close + 2) + bytes_of(url) + rest,
            cuts_after(
                Cut { from: close + 2, to: end, at: close + 2, url: bytes_of(url) },
                later,
                end,
                close + 2 + bytes_of(url).len(),
            ),
        ),
{
    reveal(ids_replaced);
    let b = bytes_of(url);
    let first = Cut { from: close + 2, to: end, at: close + 2, url: b };
    let cuts = cuts_after(first, later, end, close + 2 + b.len());
    lemma_cut_at_step(t, close + 2, end, b, rest, later);
    assert forall|i: int| 0 <= i < cuts.len() implies cut_is_link(
        t,
        globals,
        #[trigger] cuts[i],
    ) by {
        if i > 0 {
            assert(cut_is_link(t.skip(end), globals, later[i - 1]));
            lemma_cut_is_link_later(t, globals, end, later[i - 1], cuts[i]);
        } else {
            assert(t.subrange(first.from + 1, first.to) =~= t.subrange(close + 3, end));
            assert(link_at(t, open, first.from - 2, first.to));
        }
    }
    assert forall|o: int, c: int, e: int| #[trigger] link_at(t, o, c, e) implies is_cut(
        cuts,
        c,
        e,
    ) by {
        lemma_link_is_first_or_later(t, open, close, end, o, c, e);
        if c == close && e == end {
            assert(cuts[0].from == c + 2);
        } else {
            lemma_link_in_suffix(t, end, o, c, e);
            assert(is_cut(later, c - end, e - end));
            let i = choose|i: int|
                0 <= i < later.len() && (#[trigger] later[i]).from == c - end + 2 && later[i].to
                    == e - end;
            assert(cuts[i + 1].from == c + 2);
        }
    }
}

proof fn lemma_no_ids_replaced(t: Seq<u8>, globals: JsonView)
    requires
        !has_link(t),
    ensures
        ids_replaced(t, globals, t, Seq::empty()),
{
    reveal(ids_replaced);
    assert forall|o: int, c: int, e: int| #[trigger] link_at(t, o, c, e) implies is_cut(
        Seq::empty(),
        c,
        e,
    ) by {}
}

/// A text with a link that can be replaced is its bytes before the `:id`, the address and what
/// becomes of the bytes after the `:id`.
proof fn lemma_relinked_parts(t: Seq<u8>, globals: JsonView, open: int, close: int, end: int)
    requires
        first_link(t, open, close, end),
        relinked(t, globals) is Ok,
    ensures
        link_target(globals, decode_utf8(t.subrange(close + 3, end))) is Ok,
        relinked(t.skip(end), globals) is Ok,
        relinked(t, globals)->Ok_0 == t.take(close + 2) + bytes_of(
            link_target(globals, decode_utf8(t.subrange(close + 3, end)))->Ok_0,
        ) + relinked(t.skip(end), globals)->Ok_0,
{
    lemma_first_id_is(t, open, close + 3, end);
}

/// Replacing links changes the ids and nothing else. Where it succeeds, each `:id` of a link by id
/// gives way to the address of its post, each link has a post, and every other byte of the text
/// stays, in its order.
pub proof fn law_only_ids_change(t: Seq<u8>, globals: JsonView)
    requires
        relinked(t, globals) is Ok,
    ensures
        exists|cuts: Seq<Cut>| #[trigger]
            ids_replaced(t, globals, relinked(t, globals)->Ok_0, cuts),
    decreases t.len(),
{
    if has_link(t) {
        lemma_first_link_exists(t);
        let (open, close, end) = choose|open: int, close: int, end: int|
            first_link(t, open, close, end);
        lemma_relinked_parts(t, globals, open, close, end);
        let url = link_target(globals, decode_utf8(t.subrange(close + 3, end)))->Ok_0;
        let rest = relinked(t.skip(end), globals)->Ok_0;
        law_only_ids_change(t.skip(end), globals);
        let later = choose|later: Seq<Cut>| #[trigger]
            ids_replaced(t.skip(end), globals, rest, later);
        lemma_ids_replaced_step(t, globals, open, close, end, url, rest, later);
        let b = bytes_of(url);
        let first = Cut { from: close + 2, to: end, at: close + 2, url: b };
        let cuts = cuts_after(first, later, end, close + 2 + b.len());
        assert(ids_replaced(t, globals, relinked(t, globals)->Ok_0, cuts));
    } else {
        law_no_link_no_change(t, globals);
        lemma_no_ids_replaced(t, globals);
        assert(ids_replaced(t, globals, relinked(t, globals)->Ok_0, Seq::empty()));
    }
}

/// The address of the link of `t` with its `]` at `close` and its `)` at `end`.
pub open spec fn target_of(t: Seq<u8>, globals: JsonView, close: int, end: int) -> Result<
    Seq<char>,
    LinkFailure,
> {
    link_target(globals, decode_utf8(t.subrange(close + 3, end)))
}

/// The link at `o` is the first of `t` without an address, and `failure` is why it has none.
pub open spec fn first_without_target(
    t: Seq<u8>,
    globals: JsonView,
    o: int,
    c: int,
    e: int,
    failure: LinkFailure,
) -> bool {
    &&& link_at(t, o, c, e)
    &&& target_of(t, globals, c, e) == Err::<Seq<char>, LinkFailure>(failure)
    &&& forall|a: int, b: int, d: int|
        #![trigger link_at(t, a, b, d)]
        link_at(t, a, b, d) && b < c ==> target_of(t, globals, b, d) is Ok
}

/// Every link of `t` has an address.
pub open spec fn all_have_targets(t: Seq<u8>, globals: JsonView) -> bool {
    forall|o: int, c: int, e: int|
        #![trigger link_at(t, o, c, e)]
        link_at(t, o, c, e) ==> target_of(t, globals, c, e) is Ok
}

/// A link other than the first is one of the text after the first, with the same address.
proof fn lemma_later_link(
    t: Seq<u8>,
    globals: JsonView,
    open: int,
    close: int,
    end: int,
    o: int,
    c: int,
    e: int,
)
    requires
        first_link(t, open, close, end),
        link_at(t, o, c, e),
        !(c == close && e == end),
    ensures
        c > close,
        link_at(t.skip(end), o - end, c - end, e - end),
        target_of(t, globals, c, e) == target_of(t.skip(end), globals, c - end, e - end),
{
    lemma_link_is_first_or_later(t, open, close, end, o, c, e);
    lemma_link_in_suffix(t, end, o, c, e);
    assert(t.subrange(c + 3, e) =~= t.skip(end).subrange(c - end + 3, e - end));
}

proof fn lemma_first_link_is_dead(
    t: Seq<u8>,
    globals: JsonView,
    open: int,
    close: int,
    end: int,
    failure: LinkFailure,
)
    requires
        first_link(t, open, close, end),
        target_of(t, globals, close, end) == Err::<Seq<char>, LinkFailure>(failure),
    ensures
        first_without_target(t, globals, open, close, end, failure),
{
    assert forall|a: int, b: int, d: int| #[trigger] link_at(t, a, b, d) && b < close implies
        target_of(t, globals, b, d) is Ok by {
        lemma_later_link(t, globals, open, close, end, a, b, d);
    }
}

proof fn lemma_later_link_is_dead(
    t: Seq<u8>,
    globals: JsonView,
    open: int,
    close: int,
    end: int,
    o: int,
    c: int,
    e: int,
    failure: LinkFailure,
)
    requires
        first_link(t, open, close, end),
        target_of(t, globals, close, end) is Ok,
        first_without_target(t.skip(end), globals, o, c, e, failure),
    ensures
        first_without_target(t, globals, o + end, c + end, e + end, failure),
{
    lemma_link_of_suffix(t, end, o, c, e);
    assert(t.subrange(c + end + 3, e + end) =~= t.skip(end).subrange(c + 3, e));
    assert forall|a: int, b: int, d: int| #[trigger] link_at(t, a, b, d) && b < c + end implies
        target_of(t, globals, b, d) is Ok by {
        if !(b == close && d == end) {
            lemma_later_link(t, globals, open, close, end, a, b, d);
        }
    }
}

proof fn lemma_all_links_live(t: Seq<u8>, globals: JsonView, open: int, close: int, end: int)
    requires
        first_link(t, open, close, end),
        target_of(t, globals, close, end) is Ok,
        all_have_targets(t.skip(end), globals),
    ensures
        all_have_targets(t, globals),
{
    assert forall|a: int, b: int, d: int| #[trigger] link_at(t, a, b, d) implies target_of(
        t,
        globals,
        b,
        d,
    ) is Ok by {
        if !(b == close && d == end) {
            lemma_later_link(t, globals, open, close, end, a, b, d);
        }
    }
}

/// How replacing the links of a text with a link turns out, by its first link and what follows.
proof fn lemma_relinked_result(t: Seq<u8>, globals: JsonView, open: int, close: int, end: int)
    requires
        first_link(t, open, close, end),
    ensures
        match target_of(t, globals, close, end) {
            Err(failure) => relinked(t, globals) == Err::<Seq<u8>, LinkFailure>(failure),
            Ok(_) => match relinked(t.skip(end), globals) {
                Err(failure) => relinked(t, globals) == Err::<Seq<u8>, LinkFailure>(failure),
                Ok(_) => relinked(t, globals) is Ok,
            },
        },
{
    lemma_first_id_is(t, open, close + 3, end);
}

/// Replacing links fails exactly where some link has no address, and for the reason of the first
/// such link.
pub proof fn law_first_dead_link_fails(t: Seq<u8>, globals: JsonView)
    ensures
        match relinked(t, globals) {
            Ok(_) => all_have_targets(t, globals),
            Err(failure) => exists|o: int, c: int, e: int| #[trigger]
                first_without_target(t, globals, o, c, e, failure),
        },
    decreases t.len(),
{
    if has_link(t) {
        lemma_first_link_exists(t);
        let (open, close, end) = choose|open: int, close: int, end: int|
            first_link(t, open, close, end);
        lemma_relinked_result(t, globals, open, close, end);
        law_first_dead_link_fails(t.skip(end), globals);
        match target_of(t, globals, close, end) {
            Err(failure) => {
                lemma_first_link_is_dead(t, globals, open, close, end, failure);
            },
            Ok(_) => match relinked(t.skip(end), globals) {
                Err(failure) => {
                    let (o, c, e) = choose|o: int, c: int, e: int| #[trigger]
                        first_without_target(t.skip(end), globals, o, c, e, failure);
                    lemma_later_link_is_dead(t, globals, open, close, end, o, c, e, failure);
                },
                Ok(_) => {
                    lemma_all_links_live(t, globals, open, close, end);
                },
            },
        }
    } else {
        law_no_link_no_change(t, globals);
    }
}

/// The post at `i` is the last of `posts` with this id.
pub open spec fn last_with_id(posts: Seq<JsonView>, id: Seq<char>, i: int) -> bool {
    &&& 0 <= i < posts.len()
    &&& member(posts[i], "id"@) == Some(JsonView::Str(id))
    &&& forall|j: int|
        i < j < posts.len() ==> member(#[trigger] posts[j], "id"@) != Some(JsonView::Str(id))
}

proof fn lemma_last_link_is(posts: Seq<JsonView>, id: Seq<char>)
    requires
        forall|i: int| 0 <= i < posts.len() ==> post_fits(#[trigger] posts[i], id),
    ensures
        (exists|i: int| #[trigger] last_with_id(posts, id, i)) || (last_link(posts, id).len() == 0
            && forall|i: int|
            0 <= i < posts.len() ==> member(#[trigger] posts[i], "id"@) != Some(
                JsonView::Str(id),
            )),
        forall|i: int| #[trigger]
            last_with_id(posts, id, i) ==> member(posts[i], "link"@) == Some(
                JsonView::Str(last_link(posts, id)),
            ),
    decreases posts.len(),
{
    if posts.len() > 0 {
        let rest = posts.drop_last();
        let n = posts.len() - 1;
        assert(posts[n] == posts.last());
        assert forall|i: int| 0 <= i < rest.len() implies #[trigger] rest[i] == posts[i] by {}
        assert(post_fits(posts[n], id));
        lemma_last_link_is(rest, id);
        if member(posts.last(), "id"@) == Some(JsonView::Str(id)) {
            assert(last_with_id(posts, id, n));
            assert forall|i: int| #[trigger] last_with_id(posts, id, i) implies member(
                posts[i],
                "link"@,
            ) == Some(JsonView::Str(last_link(posts, id))) by {
                if i < n {
                    assert(member(posts[n], "id"@) != Some(JsonView::Str(id)));
                }
            }
        } else {
            assert forall|i: int| #[trigger] last_with_id(posts, id, i) implies last_with_id(
                rest,
                id,
                i,
            ) by {
                assert forall|j: int| i < j < rest.len() implies member(
                    #[trigger] rest[j],
                    "id"@,
                ) != Some(JsonView::Str(id)) by {
                    assert(rest[j] == posts[j]);
                }
            }
            if exists|i: int| #[trigger] last_with_id(rest, id, i) {
                let i = choose|i: int| #[trigger] last_with_id(rest, id, i);
                assert forall|j: int| i < j < posts.len() implies member(
                    #[trigger] posts[j],
                    "id"@,
                ) != Some(JsonView::Str(id)) by {
                    if j < n {
                        assert(rest[j] == posts[j]);
                    }
                }
                assert(last_with_id(posts, id, i));
            } else {
                assert forall|i: int| 0 <= i < posts.len() implies member(
                    #[trigger] posts[i],
                    "id"@,
                ) != Some(JsonView::Str(id)) by {
                    if i < n {
                        assert(rest[i] == posts[i]);
                    }
                }
            }
        }
    }
}

/// The address of an id in a list of posts is the link of the last post with that id. There is
/// none where no post has the id or that link is empty, and the list cannot be searched where a
/// post lacks a text as its id, a title, or, having the id, a text as its link.
pub proof fn law_address_in_a_list(globals: JsonView, posts: Seq<JsonView>, id: Seq<char>)
    requires
        member(globals, "posts"@) == Some(JsonView::Array(posts)),
    ensures
        match link_target(globals, id) {
            Ok(url) => url.len() > 0 && exists|i: int| #[trigger]
                last_with_id(posts, id, i) && member(posts[i], "link"@) == Some(
                    JsonView::Str(url),
                ),
            Err(LinkFailure::UnknownId(unknown)) => unknown == id && forall|i: int| #[trigger]
                last_with_id(posts, id, i) ==> member(posts[i], "link"@) == Some(
                    JsonView::Str(Seq::empty()),
                ),
            Err(LinkFailure::MalformedPosts) => exists|i: int|
                #![trigger posts[i]]
                0 <= i < posts.len() && !((member(posts[i], "id"@) matches Some(JsonView::Str(_)))
                    && member(posts[i], "title"@) is Some && (member(posts[i], "id"@) == Some(
                    JsonView::Str(id),
                ) ==> (member(posts[i], "link"@) matches Some(JsonView::Str(_))))),
        },
        link_target(globals, id) != Err::<Seq<char>, LinkFailure>(LinkFailure::MalformedPosts)
            ==> forall|i: int|
            #![trigger posts[i]]
            0 <= i < posts.len() ==> (member(posts[i], "id"@) matches Some(JsonView::Str(_)))
                && member(posts[i], "title"@) is Some,
{
    if forall|i: int| 0 <= i < posts.len() ==> post_fits(#[trigger] posts[i], id) {
        lemma_last_link_is(posts, id);
        assert forall|i: int| 0 <= i < posts.len() implies (member(
            #[trigger] posts[i],
            "id"@,
        ) matches Some(JsonView::Str(_))) && member(posts[i], "title"@) is Some by {
            assert(post_fits(posts[i], id));
        }
        let link = last_link(posts, id);
        if link.len() == 0 {
            assert(link =~= Seq::empty());
        }
    }
}

/// The address of an id in a table of posts is the link of the post under that id.
pub proof fn law_address_in_a_table(globals: JsonView, posts: Fields, id: Seq<char>)
    requires
        member(globals, "posts"@) == Some(JsonView::Object(posts)),
    ensures
        match link_target(globals, id) {
            Ok(url) => url.len() > 0 && (lookup(posts, id) matches Some(post) && member(
                post,
                "link"@,
            ) == Some(JsonView::Str(url))),
            Err(LinkFailure::UnknownId(unknown)) => unknown == id && (lookup(posts, id) matches Some(
                post,
            ) ==> member(post, "link"@) == Some(JsonView::Str(Seq::empty()))),
            Err(LinkFailure::MalformedPosts) => lookup(posts, id) matches Some(post) && !(member(
                post,
                "link"@,
            ) matches Some(JsonView::Str(_))),
        },
{
    if let Some(post) = lookup(posts, id) {
        if let Some(JsonView::Str(link)) = member(post, "link"@) {
            if link.len() == 0 {
                assert(link =~= Seq::empty());
            }
        }
    }
}

/// No id has an address where the global data holds neither a list nor a table of posts.
pub proof fn law_no_posts_no_address(globals: JsonView, id: Seq<char>)
    requires
        !(member(globals, "posts"@) matches Some(JsonView::Array(_))),
        !(member(globals, "posts"@) matches Some(JsonView::Object(_))),
    ensures
        link_target(globals, id) == Err::<Seq<char>, LinkFailure>(LinkFailure::MalformedPosts),
{
}

} // verus!
