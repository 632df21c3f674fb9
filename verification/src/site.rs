//! The site: a tree of pages, made of a tree of files.

use crate::error::{SiteError, SiteFailure};
use crate::file_helpers::{
    file_ext, file_name, file_stem, get_file_name, page_name, FilePath, PathError,
};
use crate::json::{Json, JsonView};
use crate::page::{
    compile_file, file_plan, law_files_by_extension, law_pages_come_from_templates, page_outcome,
    request_of, FilePlan, PageRequestView,
};
use crate::templates::templates_of;
use crate::text::{starts_with_char, str_eq};
use crate::tree::Entry;
use vstd::prelude::*;
use vstd::string::*;

verus! {

/// The pages and directories of a part of the site, by their names, in the order in which they
/// were made.
pub type Directory = Vec<(String, Node)>;

/// A page, with its content, or a directory.
#[derive(Debug)]
pub enum Node {
    Page(String),
    Dir(Directory),
}

/// The mathematical value of a [`Directory`].
pub type Listing = Seq<(Seq<char>, NodeView)>;

/// The mathematical value of a [`Node`].
pub enum NodeView {
    Page(Seq<char>),
    Dir(Listing),
}

impl Node {
    pub open spec fn view(&self) -> NodeView
        decreases self,
    {
        match self {
            Node::Page(html) => NodeView::Page(html@),
            Node::Dir(dir) => NodeView::Dir(listing(dir@)),
        }
    }
}

/// What a directory holds.
pub open spec fn listing(dir: Seq<(String, Node)>) -> Listing
    decreases dir,
{
    Seq::new(
        dir.len(),
        |i: int|
            if 0 <= i < dir.len() {
                (dir[i].0@, dir[i].1.view())
            } else {
                arbitrary()
            },
    )
}

/// What a site is made with.
pub struct SiteView {
    /// The templates of its pages.
    pub templates: Map<Seq<char>, Seq<char>>,
    /// The data that is there for all of its pages.
    pub globals: JsonView,
    /// The names that it leaves out.
    pub ignore: Seq<Seq<char>>,
}

/// A name that a site leaves out: one with a leading underscore, or one that it was told to.
pub open spec fn left_out(name: Seq<char>, ignore: Seq<Seq<char>>) -> bool {
    (name.len() > 0 && name[0] == '_') || ignore.contains(name)
}

/// Texts, by their characters.
pub open spec fn texts(list: Seq<String>) -> Seq<Seq<char>> {
    Seq::new(list.len(), |i: int| list[i]@)
}

/// What an entry comes to before anything is rendered.
pub enum EntryPlan {
    /// It is left out.
    Skip,
    /// It stops the building of the site.
    Fail(SiteFailure),
    /// The file with this name becomes a page.
    Page(Option<Seq<u8>>, PageRequestView),
    /// It becomes a directory of this name, made of these entries.
    Dir(Seq<char>, Seq<Entry>),
}

/// The path of an entry.
pub open spec fn path_of(entry: Entry) -> FilePath {
    match entry {
        Entry::Failed(_) => arbitrary(),
        Entry::File(path, _) => path,
        Entry::Dir(path, _) => path,
        Entry::Other(path, _) => path,
    }
}

/// What an entry comes to. A name that is no text stops the building even where it would be left
/// out.
pub open spec fn planned(entry: Entry, site: SiteView) -> EntryPlan {
    match entry {
        Entry::Failed(message) => EntryPlan::Fail(SiteFailure::Io(message@)),
        _ => match file_name(path_of(entry)@) {
            Err(error) => EntryPlan::Fail(SiteFailure::Path(error)),
            Ok(name) => if left_out(name, site.ignore) {
                EntryPlan::Skip
            } else {
                match entry {
                    Entry::File(path, text) => match file_plan(path, text, site.globals) {
                        FilePlan::Skip => EntryPlan::Skip,
                        FilePlan::Fail(failure) => EntryPlan::Fail(failure),
                        FilePlan::Page(request) => EntryPlan::Page(path@, request),
                    },
                    Entry::Dir(_, Err(message)) => EntryPlan::Fail(SiteFailure::Io(message@)),
                    Entry::Dir(_, Ok(entries)) => EntryPlan::Dir(name, entries@),
                    _ => EntryPlan::Skip,
                }
            },
        },
    }
}

/// `node` may be what an entry is built into; none where it is left out.
pub open spec fn entry_built(
    entry: Entry,
    site: SiteView,
    node: Option<(Seq<char>, NodeView)>,
) -> bool
    decreases entry,
{
    match planned(entry, site) {
        EntryPlan::Skip => node is None,
        EntryPlan::Fail(_) => false,
        EntryPlan::Page(path, request) => node matches Some((name, NodeView::Page(html)))
            && page_outcome(site.templates, path, request, Ok((html, name))),
        EntryPlan::Dir(name, children) => node matches Some((n, NodeView::Dir(sub))) && n == name
            && built(children, site, sub),
    }
}

/// `out` may be what `entries` are built into: a node for each entry that is not left out, in
/// their order.
pub open spec fn built(entries: Seq<Entry>, site: SiteView, out: Listing) -> bool
    decreases entries,
{
    if entries.len() == 0 {
        out.len() == 0
    } else {
        ||| entry_built(entries.last(), site, None) && built(entries.drop_last(), site, out)
        ||| out.len() > 0 && entry_built(entries.last(), site, Some(out.last())) && built(
            entries.drop_last(),
            site,
            out.drop_last(),
        )
    }
}

/// `failure` may be what stops the building of an entry.
pub open spec fn entry_stopped(entry: Entry, site: SiteView, failure: SiteFailure) -> bool
    decreases entry,
{
    match planned(entry, site) {
        EntryPlan::Skip => false,
        EntryPlan::Fail(f) => f == failure,
        EntryPlan::Page(path, request) => page_outcome(
            site.templates,
            path,
            request,
            Err(failure),
        ),
        EntryPlan::Dir(_, children) => stopped(children, site, failure),
    }
}

/// `failure` may be what stops the building of `entries`: all before the entry that fails can be
/// built, and those after it are not looked at.
pub open spec fn stopped(entries: Seq<Entry>, site: SiteView, failure: SiteFailure) -> bool
    decreases entries,
{
    if entries.len() == 0 {
        false
    } else {
        ||| stopped(entries.drop_last(), site, failure)
        ||| entry_stopped(entries.last(), site, failure) && exists|out: Listing| #[trigger]
            built(entries.drop_last(), site, out)
    }
}

/// Whether a site leaves out this name.
pub fn is_left_out(name: &str, ignore: &Vec<String>) -> (r: bool)
    ensures
        r == left_out(name@, texts(ignore@)),
{
    if starts_with_char(name, '_') {
        return true;
    }
    let mut i: usize = 0;
    while i < ignore.len()
        invariant
            i <= ignore@.len(),
            forall|j: int| 0 <= j < i ==> #[trigger] texts(ignore@)[j] != name@,
        decreases ignore@.len() - i,
    {
        if str_eq(ignore[i].as_str(), name) {
            proof {
                assert(texts(ignore@)[i as int] == name@);
            }
            return true;
        }
        i += 1;
    }
    false
}

/// What a site is made with, by its parts.
pub open spec fn site_of(
    handlebars: handlebars::Handlebars<'_>,
    globals: Json,
    ignore: Vec<String>,
) -> SiteView {
    SiteView { templates: templates_of(handlebars), globals: globals@, ignore: texts(ignore@) }
}

/// A node that was made, if one was.
pub open spec fn node_view(node: Option<(String, Node)>) -> Option<(Seq<char>, NodeView)> {
    match node {
        Some((name, node)) => Some((name@, node@)),
        None => None,
    }
}

/// Builds one entry.
fn compile_entry(
    entry: &Entry,
    globals: &Json,
    ignore: &Vec<String>,
    handlebars: &handlebars::Handlebars<'_>,
) -> (r: Result<Option<(String, Node)>, SiteError>)
    ensures
        match r {
            Ok(node) => entry_built(
                *entry,
                site_of(*handlebars, *globals, *ignore),
                node_view(node),
            ),
            Err(error) => entry_stopped(
                *entry,
                site_of(*handlebars, *globals, *ignore),
                error@,
            ),
        },
    decreases entry,
{
    let path = match entry {
        Entry::Failed(message) => {
            return Err(SiteError::Io(message.clone()));
        },
        Entry::File(path, _) => path,
        Entry::Dir(path, _) => path,
        Entry::Other(path, _) => path,
    };
    let name = match get_file_name(path) {
        Ok(name) => name,
        Err(error) => {
            return Err(SiteError::Path(error));
        },
    };
    if is_left_out(name, ignore) {
        return Ok(None);
    }
    match entry {
        Entry::File(path, text) => match compile_file(path, text, globals, handlebars) {
            Ok(Some((html, out_name))) => Ok(Some((out_name, Node::Page(html)))),
            Ok(None) => Ok(None),
            Err(error) => Err(error),
        },
        Entry::Dir(_, Err(message)) => Err(SiteError::Io(message.clone())),
        Entry::Dir(_, Ok(entries)) => match compile_dir(entries, globals, ignore, handlebars) {
            Ok(dir) => Ok(Some((name.to_owned(), Node::Dir(dir)))),
            Err(error) => Err(error),
        },
        _ => Ok(None),
    }
}

/// Builds the entries of a directory: every Markdown file that is not left out becomes a page,
/// and every directory that is not left out becomes a directory of what its entries become.
pub fn compile_dir(
    entries: &Vec<Entry>,
    globals: &Json,
    ignore: &Vec<String>,
    handlebars: &handlebars::Handlebars<'_>,
) -> (r: Result<Directory, SiteError>)
    ensures
        match r {
            Ok(directory) => built(
                entries@,
                site_of(*handlebars, *globals, *ignore),
                listing(directory@),
            ),
            Err(error) => stopped(
                entries@,
                site_of(*handlebars, *globals, *ignore),
                error@,
            ),
        },
    decreases entries,
{
    let ghost site = site_of(*handlebars, *globals, *ignore);
    let mut directory: Directory = Vec::new();
    let mut i: usize = 0;
    while i < entries.len()
        invariant
            i <= entries@.len(),
            site == site_of(*handlebars, *globals, *ignore),
            built(entries@.take(i as int), site, listing(directory@)),
        decreases entries@.len() - i,
    {
        let ghost head = entries@.take(i + 1);
        proof {
            assert(head.drop_last() =~= entries@.take(i as int));
            assert(head.last() == entries@[i as int]);
        }
        let ghost before = listing(directory@);
        match compile_entry(&entries[i], globals, ignore, handlebars) {
            Ok(None) => {},
            Ok(Some(node)) => {
                directory.push(node);
                proof {
                    assert(listing(directory@).drop_last() =~= before);
                }
            },
            Err(error) => {
                proof {
                    assert(stopped(head, site, error@));
                    lemma_stopped_stays(entries@, i + 1, site, error@);
                }
                return Err(error);
            },
        }
        i += 1;
    }
    proof {
        assert(entries@.take(i as int) =~= entries@);
    }
    Ok(directory)
}

/// What stops the building of the first entries stops the building of all.
proof fn lemma_stopped_stays(entries: Seq<Entry>, n: int, site: SiteView, failure: SiteFailure)
    requires
        0 <= n <= entries.len(),
        stopped(entries.take(n), site, failure),
    ensures
        stopped(entries, site, failure),
    decreases entries.len() - n,
{
    if n < entries.len() {
        assert(entries.take(n + 1).drop_last() =~= entries.take(n));
        lemma_stopped_stays(entries, n + 1, site, failure);
    } else {
        assert(entries.take(n) =~= entries);
    }
}

/// How a directory that has a last entry is built: by what that entry comes to.
pub proof fn lemma_built_last(entries: Seq<Entry>, site: SiteView, out: Listing)
    requires
        entries.len() > 0,
    ensures
        built(entries, site, out) == match planned(entries.last(), site) {
            EntryPlan::Skip => built(entries.drop_last(), site, out),
            EntryPlan::Fail(_) => false,
            EntryPlan::Page(path, request) => out.len() > 0 && built(
                entries.drop_last(),
                site,
                out.drop_last(),
            ) && (out.last().1 matches NodeView::Page(html) && page_outcome(
                site.templates,
                path,
                request,
                Ok((html, out.last().0)),
            )),
            EntryPlan::Dir(name, children) => out.len() > 0 && built(
                entries.drop_last(),
                site,
                out.drop_last(),
            ) && out.last().0 == name && (out.last().1 matches NodeView::Dir(sub) && built(
                children,
                site,
                sub,
            )),
        },
{
    reveal_with_fuel(built, 2);
}

/// How a directory that has a last entry is stopped: before that entry, or by it.
proof fn lemma_stopped_last(entries: Seq<Entry>, site: SiteView, failure: SiteFailure)
    requires
        entries.len() > 0,
    ensures
        stopped(entries, site, failure) == (stopped(entries.drop_last(), site, failure) || (exists|
            out: Listing,
        | #[trigger]
            built(entries.drop_last(), site, out)) && match planned(entries.last(), site) {
            EntryPlan::Skip => false,
            EntryPlan::Fail(f) => f == failure,
            EntryPlan::Page(path, request) => page_outcome(
                site.templates,
                path,
                request,
                Err(failure),
            ),
            EntryPlan::Dir(_, children) => stopped(children, site, failure),
        }),
{
    reveal_with_fuel(stopped, 2);
}

/// The entries that a site does not leave out.
pub open spec fn kept(entries: Seq<Entry>, site: SiteView) -> Seq<Entry> {
    entries.filter(|entry: Entry| !(planned(entry, site) is Skip))
}

/// What is left out makes no difference: neither to what a directory is built into nor to what
/// stops it.
pub proof fn law_left_out_makes_no_difference(
    entries: Seq<Entry>,
    site: SiteView,
    out: Listing,
    failure: SiteFailure,
)
    ensures
        built(entries, site, out) == built(kept(entries, site), site, out),
        stopped(entries, site, failure) == stopped(kept(entries, site), site, failure),
    decreases entries.len(),
{
    reveal(Seq::filter);
    if entries.len() > 0 {
        let rest = entries.drop_last();
        lemma_built_last(entries, site, out);
        lemma_stopped_last(entries, site, failure);
        law_left_out_makes_no_difference(rest, site, out, failure);
        if planned(entries.last(), site) is Skip {
            assert(kept(entries, site) =~= kept(rest, site));
        } else {
            assert(kept(entries, site) =~= kept(rest, site).push(entries.last()));
            assert(kept(entries, site).drop_last() =~= kept(rest, site));
            lemma_built_last(kept(entries, site), site, out);
            lemma_stopped_last(kept(entries, site), site, failure);
            if out.len() > 0 {
                law_left_out_makes_no_difference(rest, site, out.drop_last(), failure);
            }
            assert forall|o: Listing|
                #[trigger] built(rest, site, o) == built(kept(rest, site), site, o) by {
                law_left_out_makes_no_difference(rest, site, o, failure);
            }
            if exists|o: Listing| #[trigger] built(rest, site, o) {
                let o = choose|o: Listing| #[trigger] built(rest, site, o);
                assert(built(kept(rest, site), site, o));
            }
            if exists|o: Listing| #[trigger] built(kept(rest, site), site, o) {
                let o = choose|o: Listing| #[trigger] built(kept(rest, site), site, o);
                assert(built(rest, site, o));
            }
        }
    }
}

/// Pages carry names that end in `.html`, and no directory has a name that is left out, at any
/// depth.
pub open spec fn well_named(out: Listing, ignore: Seq<Seq<char>>) -> bool
    decreases out,
{
    forall|i: int|
        #![trigger out[i]]
        0 <= i < out.len() ==> match out[i].1 {
            NodeView::Page(_) => exists|stem: Seq<char>| out[i].0 == #[trigger] (stem + ".html"@),
            NodeView::Dir(sub) => !left_out(out[i].0, ignore) && well_named(sub, ignore),
        }
}

/// Whatever a site is built into is well named.
pub proof fn law_site_is_well_named(entries: Seq<Entry>, site: SiteView, out: Listing)
    requires
        built(entries, site, out),
    ensures
        well_named(out, site.ignore),
    decreases entries,
{
    if entries.len() > 0 {
        let entry = entries.last();
        let rest = entries.drop_last();
        lemma_built_last(entries, site, out);
        if planned(entry, site) is Skip {
            law_site_is_well_named(rest, site, out);
        } else {
            law_site_is_well_named(rest, site, out.drop_last());
            match planned(entry, site) {
                EntryPlan::Page(path, request) => {
                    let stem = file_stem(path)->Ok_0;
                    assert(out.last().0 == stem + ".html"@);
                },
                EntryPlan::Dir(_, children) => {
                    law_site_is_well_named(children, site, out.last().1->Dir_0);
                },
                _ => {},
            }
            assert forall|i: int| 0 <= i < out.len() implies match (#[trigger] out[i]).1 {
                NodeView::Page(_) => exists|stem: Seq<char>|
                    out[i].0 == #[trigger] (stem + ".html"@),
                NodeView::Dir(sub) => !left_out(out[i].0, site.ignore) && well_named(
                    sub,
                    site.ignore,
                ),
            } by {
                if i < out.len() - 1 {
                    assert(out.drop_last()[i] == out[i]);
                }
            }
        }
    }
}

/// A page whose template is not there is not built, and neither is the directory that it is in.
pub proof fn law_missing_template_stops(entries: Seq<Entry>, site: SiteView, at: int, out: Listing)
    requires
        0 <= at < entries.len(),
        planned(entries[at], site) matches EntryPlan::Page(_, request)
            && !site.templates.contains_key(request.template),
    ensures
        !built(entries, site, out),
    decreases entries.len(),
{
    lemma_built_last(entries, site, out);
    if at < entries.len() - 1 {
        law_missing_template_stops(entries.drop_last(), site, at, out);
        law_missing_template_stops(entries.drop_last(), site, at, out.drop_last());
    }
}

/// No file among `entries`, at any depth, becomes a page.
pub open spec fn pageless(entries: Seq<Entry>, site: SiteView) -> bool
    decreases entries,
{
    forall|i: int|
        #![trigger entries[i]]
        0 <= i < entries.len() ==> match planned(entries[i], site) {
            EntryPlan::Page(_, _) => false,
            EntryPlan::Dir(_, children) => pageless(children, site),
            _ => true,
        }
}

/// Where nothing is to be rendered, the outcome is settled: what can be built cannot be stopped,
/// and it is built into one thing only.
pub proof fn law_pageless_is_settled(
    entries: Seq<Entry>,
    site: SiteView,
    a: Listing,
    b: Listing,
    failure: SiteFailure,
)
    requires
        pageless(entries, site),
        built(entries, site, a),
    ensures
        !stopped(entries, site, failure),
        built(entries, site, b) ==> a == b,
    decreases entries,
{
    if entries.len() > 0 {
        let rest = entries.drop_last();
        assert forall|i: int| 0 <= i < rest.len() implies match planned(
            #[trigger] rest[i],
            site,
        ) {
            EntryPlan::Page(_, _) => false,
            EntryPlan::Dir(_, children) => pageless(children, site),
            _ => true,
        } by {
            assert(rest[i] == entries[i]);
        }
        assert(entries.last() == entries[entries.len() - 1]);
        lemma_built_last(entries, site, a);
        lemma_built_last(entries, site, b);
        lemma_stopped_last(entries, site, failure);
        match planned(entries.last(), site) {
            EntryPlan::Dir(name, children) => {
                let sub_a = a.last().1->Dir_0;
                let sub_b = b.last().1->Dir_0;
                law_pageless_is_settled(children, site, sub_a, sub_b, failure);
                law_pageless_is_settled(rest, site, a.drop_last(), b.drop_last(), failure);
                if built(entries, site, b) {
                    assert(a =~= a.drop_last().push(a.last()));
                    assert(b =~= b.drop_last().push(b.last()));
                }
            },
            _ => {
                law_pageless_is_settled(rest, site, a, b, failure);
            },
        }
    } else {
        assert(a.len() == 0 && b.len() == 0 ==> a =~= b);
    }
}

/// No entry of a directory that is built stops the building.
pub proof fn lemma_entry_not_failed(entries: Seq<Entry>, site: SiteView, out: Listing, at: int)
    requires
        built(entries, site, out),
        0 <= at < entries.len(),
    ensures
        !(planned(entries[at], site) is Fail),
    decreases entries.len(),
{
    lemma_built_last(entries, site, out);
    if at < entries.len() - 1 {
        let rest = entries.drop_last();
        assert(rest[at] == entries[at]);
        if planned(entries.last(), site) is Skip {
            lemma_entry_not_failed(rest, site, out, at);
        } else {
            lemma_entry_not_failed(rest, site, out.drop_last(), at);
        }
    }
}

/// `dir` has a page of this name.
pub open spec fn has_page(dir: Listing, name: Seq<char>) -> bool {
    exists|j: int| 0 <= j < dir.len() && (#[trigger] dir[j]).0 == name && dir[j].1 is Page
}

/// A directory that is built has, for each of its files that becomes a page, a page with the stem
/// of the file as its name and `.html` behind it.
pub proof fn law_files_become_pages(entries: Seq<Entry>, site: SiteView, out: Listing, at: int)
    requires
        built(entries, site, out),
        0 <= at < entries.len(),
        planned(entries[at], site) is Page,
    ensures
        page_name(path_of(entries[at])@) matches Ok(name) && has_page(out, name),
    decreases entries.len(),
{
    lemma_built_last(entries, site, out);
    if at < entries.len() - 1 {
        let rest = entries.drop_last();
        let shorter = if planned(entries.last(), site) is Skip {
            out
        } else {
            out.drop_last()
        };
        assert(rest[at] == entries[at]);
        law_files_become_pages(rest, site, shorter, at);
        let name = page_name(path_of(entries[at])@)->Ok_0;
        let j = choose|j: int|
            0 <= j < shorter.len() && (#[trigger] shorter[j]).0 == name && shorter[j].1 is Page;
        assert(out[j] == shorter[j]);
    } else {
        assert(out[out.len() - 1] == out.last());
    }
}

/// Of the names of these entries, at any depth, the two lists leave out the same.
pub open spec fn left_out_alike(
    entries: Seq<Entry>,
    a: Seq<Seq<char>>,
    b: Seq<Seq<char>>,
) -> bool
    decreases entries,
{
    forall|i: int|
        #![trigger entries[i]]
        0 <= i < entries.len() ==> {
            &&& file_name(path_of(entries[i])@) matches Ok(name) ==> left_out(name, a) == left_out(
                name,
                b,
            )
            &&& entries[i] matches Entry::Dir(_, Ok(children)) ==> left_out_alike(children@, a, b)
        }
}

/// Two lists that leave out the same of the names that occur make no difference: neither to what
/// a directory is built into nor to what stops it.
pub proof fn law_same_names_same_site(
    entries: Seq<Entry>,
    a: SiteView,
    b: SiteView,
    out: Listing,
    failure: SiteFailure,
)
    requires
        a.templates == b.templates,
        a.globals == b.globals,
        left_out_alike(entries, a.ignore, b.ignore),
    ensures
        built(entries, a, out) == built(entries, b, out),
        stopped(entries, a, failure) == stopped(entries, b, failure),
    decreases entries,
{
    if entries.len() > 0 {
        let rest = entries.drop_last();
        let entry = entries.last();
        assert(entry == entries[entries.len() - 1]);
        assert forall|i: int| 0 <= i < rest.len() implies {
            &&& file_name(path_of(#[trigger] rest[i])@) matches Ok(name) ==> left_out(
                name,
                a.ignore,
            ) == left_out(name, b.ignore)
            &&& rest[i] matches Entry::Dir(_, Ok(children)) ==> left_out_alike(
                children@,
                a.ignore,
                b.ignore,
            )
        } by {
            assert(rest[i] == entries[i]);
        }
        assert(planned(entry, a) == planned(entry, b));
        lemma_built_last(entries, a, out);
        lemma_built_last(entries, b, out);
        lemma_stopped_last(entries, a, failure);
        lemma_stopped_last(entries, b, failure);
        assert forall|o: Listing| #[trigger] built(rest, a, o) == built(rest, b, o) by {
            law_same_names_same_site(rest, a, b, o, failure);
        }
        law_same_names_same_site(rest, a, b, out, failure);
        if let EntryPlan::Dir(_, children) = planned(entry, a) {
            assert forall|o: Listing| #[trigger]
                built(children, a, o) == built(children, b, o) by {
                law_same_names_same_site(children, a, b, o, failure);
            }
            law_same_names_same_site(children, a, b, out, failure);
        }
        if exists|o: Listing| #[trigger] built(rest, a, o) {
            let o = choose|o: Listing| #[trigger] built(rest, a, o);
            assert(built(rest, b, o));
        }
        if exists|o: Listing| #[trigger] built(rest, b, o) {
            let o = choose|o: Listing| #[trigger] built(rest, b, o);
            assert(built(rest, a, o));
        }
    }
}

/// Lists that hold the same names, in whatever order and however often, make no difference.
pub proof fn law_same_list_same_site(
    entries: Seq<Entry>,
    a: SiteView,
    b: SiteView,
    out: Listing,
    failure: SiteFailure,
)
    requires
        a.templates == b.templates,
        a.globals == b.globals,
        forall|name: Seq<char>| #[trigger] a.ignore.contains(name) == b.ignore.contains(name),
    ensures
        built(entries, a, out) == built(entries, b, out),
        stopped(entries, a, failure) == stopped(entries, b, failure),
{
    lemma_left_out_alike(entries, a.ignore, b.ignore);
    law_same_names_same_site(entries, a, b, out, failure);
}

proof fn lemma_left_out_alike(entries: Seq<Entry>, a: Seq<Seq<char>>, b: Seq<Seq<char>>)
    requires
        forall|name: Seq<char>| #[trigger] a.contains(name) == b.contains(name),
    ensures
        left_out_alike(entries, a, b),
    decreases entries,
{
    assert forall|i: int| 0 <= i < entries.len() implies {
        &&& file_name(path_of(#[trigger] entries[i])@) matches Ok(name) ==> left_out(name, a)
            == left_out(name, b)
        &&& entries[i] matches Entry::Dir(_, Ok(children)) ==> left_out_alike(children@, a, b)
    } by {
        if let Entry::Dir(_, Ok(children)) = entries[i] {
            lemma_left_out_alike(children@, a, b);
        }
    }
}

/// A directory is listed name by name and node by node.
pub proof fn law_listing_is_the_directory(dir: Seq<(String, Node)>)
    ensures
        listing(dir).len() == dir.len(),
        forall|i: int|
            0 <= i < dir.len() ==> (#[trigger] listing(dir)[i]).0 == dir[i].0@ && match dir[i].1 {
                Node::Page(html) => listing(dir)[i].1 == NodeView::Page(html@),
                Node::Dir(inner) => listing(dir)[i].1 == NodeView::Dir(listing(inner@)),
            },
{
}

/// A site is made with the templates of the registry, the global data and all the names that it
/// was told to leave out.
pub proof fn law_site_has_what_it_was_given(
    handlebars: handlebars::Handlebars<'_>,
    globals: Json,
    ignore: Vec<String>,
)
    ensures
        site_of(handlebars, globals, ignore).templates == templates_of(handlebars),
        site_of(handlebars, globals, ignore).globals == globals@,
        site_of(handlebars, globals, ignore).ignore.len() == ignore@.len(),
        forall|i: int|
            0 <= i < ignore@.len() ==> #[trigger] site_of(handlebars, globals, ignore).ignore[i]
                == ignore@[i]@,
{
}

/// The names that a site leaves out are those with a leading underscore and those in its list.
pub proof fn law_names_left_out(name: Seq<char>, ignore: Seq<Seq<char>>)
    ensures
        left_out(name, ignore) <==> (name.len() > 0 && name[0] == '_') || exists|i: int|
            0 <= i < ignore.len() && #[trigger] ignore[i] == name,
{
}

/// The entry has a name that is text, has no leading underscore and is not in the list.
pub open spec fn has_free_name(entry: Entry, ignore: Seq<Seq<char>>) -> bool {
    &&& !(entry is Failed)
    &&& file_name(path_of(entry)@) matches Ok(name) && (name.len() == 0 || name[0] != '_')
        && forall|i: int| 0 <= i < ignore.len() ==> #[trigger] ignore[i] != name
}

/// `node` is what the entry becomes: a Markdown file the page that its template gave, under the
/// name of the page; a directory a directory of its name with what its entries become.
pub open spec fn node_from(entry: Entry, site: SiteView, node: (Seq<char>, NodeView)) -> bool {
    &&& has_free_name(entry, site.ignore)
    &&& match entry {
        Entry::File(path, Ok(data)) => {
            &&& file_ext(path@) == Ok::<Seq<char>, PathError>("md"@)
            &&& node.1 is Page
            &&& request_of(data@, path.shown@, site.globals) matches Ok(request) && page_outcome(
                site.templates,
                path@,
                request,
                Ok((node.1->Page_0, node.0)),
            )
        },
        Entry::Dir(path, Ok(children)) => {
            &&& file_name(path@) == Ok::<Seq<char>, PathError>(node.0)
            &&& node.1 matches NodeView::Dir(sub) && built(children@, site, sub)
        },
        _ => false,
    }
}

/// The entry leaves no trace: its name is text, and it has a leading underscore or is in the list,
/// or the entry is a file that is not Markdown, or it is neither file nor directory.
pub open spec fn leaves_no_trace(entry: Entry, ignore: Seq<Seq<char>>) -> bool {
    &&& !(entry is Failed)
    &&& file_name(path_of(entry)@) is Ok
    &&& has_free_name(entry, ignore) ==> match entry {
        Entry::File(path, _) => file_ext(path@) matches Ok(extension) && extension != "md"@,
        Entry::Other(_, _) => true,
        _ => false,
    }
}

/// Each node of `out` comes from the entry that `from` gives for it, in the order of the entries,
/// and the entries that give no node leave no trace.
pub open spec fn nodes_from(
    entries: Seq<Entry>,
    site: SiteView,
    out: Listing,
    from: Seq<int>,
) -> bool {
    &&& from.len() == out.len()
    &&& forall|j: int|
        0 <= j < out.len() ==> 0 <= #[trigger] from[j] < entries.len() && node_from(
            entries[from[j]],
            site,
            out[j],
        )
    &&& forall|i: int, j: int| 0 <= i < j < out.len() ==> #[trigger] from[i] < #[trigger] from[j]
    &&& forall|i: int|
        0 <= i < entries.len() && !from.contains(i) ==> leaves_no_trace(
            #[trigger] entries[i],
            site.ignore,
        )
}

proof fn lemma_plan_by_name(entry: Entry, site: SiteView)
    ensures
        planned(entry, site) is Skip ==> leaves_no_trace(entry, site.ignore),
        !(planned(entry, site) is Skip) && !(planned(entry, site) is Fail) ==> has_free_name(
            entry,
            site.ignore,
        ),
{
    if !(entry is Failed) {
        if let Ok(name) = file_name(path_of(entry)@) {
            law_names_left_out(name, site.ignore);
        }
        if let Entry::File(path, text) = entry {
            law_files_by_extension(path, text, site.globals);
        }
    }
}

/// What a directory is built into is a node for each Markdown file and directory in it that is not
/// left out, in the order of the entries: none is missing, none is added, and none is another's.
pub proof fn law_nodes_are_entries(entries: Seq<Entry>, site: SiteView, out: Listing)
    requires
        built(entries, site, out),
    ensures
        exists|from: Seq<int>| #[trigger] nodes_from(entries, site, out, from),
    decreases entries.len(),
{
    if entries.len() == 0 {
        assert(nodes_from(entries, site, out, Seq::empty()));
    } else {
        let rest = entries.drop_last();
        let entry = entries.last();
        let n = rest.len() as int;
        lemma_built_last(entries, site, out);
        lemma_plan_by_name(entry, site);
        let shorter = if planned(entry, site) is Skip {
            out
        } else {
            out.drop_last()
        };
        law_nodes_are_entries(rest, site, shorter);
        let before = choose|from: Seq<int>| #[trigger] nodes_from(rest, site, shorter, from);
        let from = if planned(entry, site) is Skip {
            before
        } else {
            before.push(n)
        };
        assert(entries[n] == entry);
        assert forall|j: int| 0 <= j < out.len() implies 0 <= #[trigger] from[j] < entries.len()
            && node_from(entries[from[j]], site, out[j]) by {
            if j < shorter.len() {
                assert(from[j] == before[j]);
                assert(rest[before[j]] == entries[from[j]]);
                assert(shorter[j] == out[j]);
            } else {
                assert(out[j] == out.last());
                if let Entry::File(path, text) = entry {
                    law_files_by_extension(path, text, site.globals);
                }
                assert(node_from(entry, site, out[j]));
            }
        }
        assert forall|i: int, j: int| 0 <= i < j < out.len() implies #[trigger] from[i]
            < #[trigger] from[j] by {
            assert(from[i] == before[i]);
            if j < shorter.len() {
                assert(from[j] == before[j]);
            }
        }
        assert forall|i: int| 0 <= i < entries.len() && !from.contains(i) implies leaves_no_trace(
            #[trigger] entries[i],
            site.ignore,
        ) by {
            if i < n {
                if before.contains(i) {
                    let k = choose|k: int| 0 <= k < before.len() && before[k] == i;
                    assert(from[k] == i);
                }
                assert(rest[i] == entries[i]);
            } else if !(planned(entry, site) is Skip) {
                assert(from[from.len() - 1] == n);
            }
        }
        assert(nodes_from(entries, site, out, from));
    }
}

/// In a directory that is built, every Markdown file whose name has no leading underscore and is
/// not in the list has a page: under its stem with `.html` behind it, and with what its template
/// gave for what its text asks for.
pub proof fn law_markdown_files_have_pages(
    entries: Seq<Entry>,
    site: SiteView,
    out: Listing,
    at: int,
    path: FilePath,
    text: Result<String, String>,
    name: Seq<char>,
)
    requires
        built(entries, site, out),
        0 <= at < entries.len(),
        entries[at] == Entry::File(path, text),
        file_name(path@) == Ok::<Seq<char>, PathError>(name),
        name.len() == 0 || name[0] != '_',
        forall|i: int| 0 <= i < site.ignore.len() ==> #[trigger] site.ignore[i] != name,
        file_ext(path@) == Ok::<Seq<char>, PathError>("md"@),
    ensures
        exists|j: int|
            #![trigger out[j]]
            0 <= j < out.len() && node_from(entries[at], site, out[j]) && (file_stem(
                path@,
            ) matches Ok(stem) && out[j].0 == stem + ".html"@),
{
    law_nodes_are_entries(entries, site, out);
    let from = choose|from: Seq<int>| #[trigger] nodes_from(entries, site, out, from);
    assert(has_free_name(entries[at], site.ignore));
    assert(from.contains(at));
    let j = choose|j: int| 0 <= j < from.len() && from[j] == at;
    assert(node_from(entries[from[j]], site, out[j]));
    let data = text->Ok_0;
    let request = request_of(data@, path.shown@, site.globals)->Ok_0;
    law_pages_come_from_templates(
        site.templates,
        path@,
        request,
        Ok((out[j].1->Page_0, out[j].0)),
    );
}

/// `failure` is a reason for which the entry stops the building: the file system's, that its name
/// or, for a file, its extension is no text, that no page can be asked for or that none came, or a
/// reason for which the entries of a directory stop it.
pub open spec fn reason_to_stop(entry: Entry, site: SiteView, failure: SiteFailure) -> bool {
    match entry {
        Entry::Failed(message) => failure == SiteFailure::Io(message@),
        _ => match file_name(path_of(entry)@) {
            Err(error) => failure == SiteFailure::Path(error),
            Ok(_) => has_free_name(entry, site.ignore) && match entry {
                Entry::File(path, text) => match file_ext(path@) {
                    Err(error) => failure == SiteFailure::Path(error),
                    Ok(extension) => extension == "md"@ && match text {
                        Err(message) => failure == SiteFailure::Io(message@),
                        Ok(data) => match request_of(data@, path.shown@, site.globals) {
                            Err(reason) => failure == reason,
                            Ok(request) => page_outcome(
                                site.templates,
                                path@,
                                request,
                                Err(failure),
                            ),
                        },
                    },
                },
                Entry::Dir(_, Err(message)) => failure == SiteFailure::Io(message@),
                Entry::Dir(_, Ok(children)) => stopped(children@, site, failure),
                _ => false,
            },
        },
    }
}

/// What stops the building of a directory is a reason of one of its entries, and all the entries
/// before that one can be built.
pub proof fn law_an_entry_stops_the_site(entries: Seq<Entry>, site: SiteView, failure: SiteFailure)
    requires
        stopped(entries, site, failure),
    ensures
        exists|i: int|
            #![trigger entries[i]]
            0 <= i < entries.len() && reason_to_stop(entries[i], site, failure) && exists|
                out: Listing,
            | #[trigger]
                built(entries.take(i), site, out),
    decreases entries.len(),
{
    let rest = entries.drop_last();
    let entry = entries.last();
    let n = rest.len() as int;
    lemma_stopped_last(entries, site, failure);
    if stopped(rest, site, failure) {
        law_an_entry_stops_the_site(rest, site, failure);
        let i = choose|i: int|
            #![trigger rest[i]]
            0 <= i < rest.len() && reason_to_stop(rest[i], site, failure) && exists|out: Listing|
                #[trigger] built(rest.take(i), site, out);
        assert(entries[i] == rest[i]);
        assert(rest.take(i) =~= entries.take(i));
    } else {
        lemma_plan_by_name(entry, site);
        if let Entry::File(path, text) = entry {
            law_files_by_extension(path, text, site.globals);
        }
        if !(entry is Failed) {
            if let Ok(name) = file_name(path_of(entry)@) {
                law_names_left_out(name, site.ignore);
            }
        }
        assert(entries[n] == entry);
        assert(entries.take(n) =~= rest);
        assert(reason_to_stop(entries[n], site, failure));
    }
}

/// Texts are taken one by one, each with all its characters; a node is taken with its name.
pub proof fn law_texts_are_the_list(list: Seq<String>, name: String, node: Node)
    ensures
        texts(list).len() == list.len(),
        forall|i: int| 0 <= i < list.len() ==> #[trigger] texts(list)[i] == list[i]@,
        node_view(None) is None,
        node_view(Some((name, node))) == Some((name@, node@)),
        node matches Node::Page(html) ==> node@ == NodeView::Page(html@),
        node matches Node::Dir(dir) ==> node@ == NodeView::Dir(listing(dir@)),
{
}

} // verus!
