//! Templates: a registry that is filled from a directory and that turns contexts into pages.

use crate::error::{failure_of, SiteError, SiteFailure};
use crate::file_helpers::{file_ext, file_stem, get_file_ext, get_file_stem, FilePath, PathError};
use crate::json::{value_of, JsonView};
use crate::text::str_eq;
use crate::tree::Entry;
use vstd::prelude::*;
use vstd::string::*;

verus! {

/// `handlebars::Handlebars`, a registry of templates.
#[verifier::external_type_specification]
#[verifier::external_body]
pub struct ExHandlebars<'reg>(handlebars::Handlebars<'reg>);

/// The sources of the templates that a registry holds, by their names.
pub uninterp spec fn templates_of(registry: handlebars::Handlebars<'_>) -> Map<
    Seq<char>,
    Seq<char>,
>;

/// `handlebars::Handlebars::register_template_string` may answer so, accepting or refusing, when
/// it is given this name and this source. The answer is no function of these: the parser gives up
/// where too little of the stack is left.
pub uninterp spec fn register_reply(name: Seq<char>, source: Seq<char>, accepted: bool) -> bool;

/// `handlebars::Handlebars::render` may answer so, with a page or with an error, when a registry
/// with these templates is given the name of one and this context. The answer is no function of
/// these: a registry calls helpers, and what a helper does is open.
pub uninterp spec fn render_reply(
    templates: Map<Seq<char>, Seq<char>>,
    template: Seq<char>,
    context: JsonView,
    page: Option<Seq<char>>,
) -> bool;

/// `handlebars::Handlebars::register_template_string`: where it accepts the source it holds it
/// under the name, in the place of one that it held there before; where it refuses the source it
/// holds what it held.
#[verifier::external_body]
pub(crate) fn register(registry: &mut handlebars::Handlebars<'_>, name: &str, source: &str) -> (r:
    Result<(), handlebars::TemplateError>)
    ensures
        register_reply(name@, source@, r is Ok),
        templates_of(*final(registry)) == if r is Ok {
            templates_of(*old(registry)).insert(name@, source@)
        } else {
            templates_of(*old(registry))
        },
{
    registry.register_template_string(name, source)
}

/// `handlebars::Handlebars::render`: there is no page of a template that the registry does not
/// hold. Nothing is said of when a page comes out of one that it holds. Templates that take each
/// other in as partials without end use up the stack.
#[verifier::external_body]
pub(crate) fn render(
    registry: &handlebars::Handlebars<'_>,
    template: &str,
    context: &serde_json::Value,
) -> (r: Result<String, handlebars::RenderError>)
    ensures
        render_reply(templates_of(*registry), template@, value_of(*context), rendered_view(r)),
        !templates_of(*registry).contains_key(template@) ==> r is Err,
{
    registry.render(template, context)
}

/// The page that a rendering gave.
pub open spec fn rendered_view(r: Result<String, handlebars::RenderError>) -> Option<Seq<char>> {
    match r {
        Ok(page) => Some(page@),
        Err(_) => None,
    }
}

/// What may come of rendering a template: only one that is there can give a page.
pub open spec fn page_reply(
    templates: Map<Seq<char>, Seq<char>>,
    template: Seq<char>,
    context: JsonView,
    page: Option<Seq<char>>,
) -> bool {
    &&& render_reply(templates, template, context, page)
    &&& !templates.contains_key(template) ==> page is None
}

/// Templates to be registered, each a name and a source, in order, and what stops the work after
/// them, if anything does.
pub struct TemplateList {
    pub files: Seq<(Seq<char>, Seq<char>)>,
    pub stop: Option<SiteFailure>,
}

/// First the one and then, where nothing stops it, the other.
pub open spec fn followed_by(first: TemplateList, second: TemplateList) -> TemplateList {
    if first.stop is Some {
        first
    } else {
        TemplateList { files: first.files + second.files, stop: second.stop }
    }
}

/// No template.
pub open spec fn no_templates() -> TemplateList {
    TemplateList { files: Seq::empty(), stop: None }
}

/// No template, for this reason.
pub open spec fn stopped_by(failure: SiteFailure) -> TemplateList {
    TemplateList { files: Seq::empty(), stop: Some(failure) }
}

/// The template that a file holds: a file with the extension `hbs` holds one, named by its stem.
pub open spec fn template_in_file(path: FilePath, text: Result<String, String>) -> TemplateList {
    match file_ext(path@) {
        Err(error) => stopped_by(SiteFailure::Path(error)),
        Ok(extension) => if extension != "hbs"@ {
            no_templates()
        } else {
            match file_stem(path@) {
                Err(error) => stopped_by(SiteFailure::Path(error)),
                Ok(stem) => match text {
                    Err(message) => stopped_by(SiteFailure::Io(message@)),
                    Ok(source) => TemplateList { files: seq![(stem, source@)], stop: None },
                },
            }
        },
    }
}

/// The templates that an entry holds, those of a directory at any depth.
pub open spec fn templates_in_entry(entry: Entry) -> TemplateList
    decreases entry,
{
    match entry {
        Entry::Failed(message) => stopped_by(SiteFailure::Io(message@)),
        Entry::File(path, text) => template_in_file(path, text),
        Entry::Dir(_, Err(message)) => stopped_by(SiteFailure::Io(message@)),
        Entry::Dir(_, Ok(entries)) => templates_in(entries@),
        Entry::Other(_, _) => no_templates(),
    }
}

/// The templates that entries hold, in their order.
pub open spec fn templates_in(entries: Seq<Entry>) -> TemplateList
    decreases entries,
{
    if entries.len() == 0 {
        no_templates()
    } else {
        followed_by(templates_in(entries.drop_last()), templates_in_entry(entries.last()))
    }
}

/// `templates` with `files` put in, one after the other.
pub open spec fn registered(
    templates: Map<Seq<char>, Seq<char>>,
    files: Seq<(Seq<char>, Seq<char>)>,
) -> Map<Seq<char>, Seq<char>>
    decreases files.len(),
{
    if files.len() == 0 {
        templates
    } else {
        registered(templates, files.drop_last()).insert(files.last().0, files.last().1)
    }
}

/// The first `n` templates of `list` were accepted, and nothing else was; what stopped the work
/// there is that the next was refused or, after the last, what stops the list.
pub open spec fn loaded_upto(
    before: Map<Seq<char>, Seq<char>>,
    list: TemplateList,
    n: int,
    after: Map<Seq<char>, Seq<char>>,
    failure: Option<SiteFailure>,
) -> bool {
    &&& 0 <= n <= list.files.len()
    &&& after == registered(before, list.files.take(n))
    &&& forall|i: int|
        0 <= i < n ==> register_reply((#[trigger] list.files[i]).0, list.files[i].1, true)
    &&& if n < list.files.len() {
        &&& register_reply(list.files[n].0, list.files[n].1, false)
        &&& failure == Some(SiteFailure::Template)
    } else {
        failure == list.stop
    }
}

/// A registry with the templates `before` may hold the templates `after` once the templates of
/// `list` were put in, up to the one that was refused or that could not be had.
pub open spec fn loaded(
    before: Map<Seq<char>, Seq<char>>,
    list: TemplateList,
    after: Map<Seq<char>, Seq<char>>,
    failure: Option<SiteFailure>,
) -> bool {
    exists|n: int| #[trigger] loaded_upto(before, list, n, after, failure)
}

proof fn lemma_registered_concat(
    templates: Map<Seq<char>, Seq<char>>,
    a: Seq<(Seq<char>, Seq<char>)>,
    b: Seq<(Seq<char>, Seq<char>)>,
)
    ensures
        registered(templates, a + b) == registered(registered(templates, a), b),
    decreases b.len(),
{
    if b.len() == 0 {
        assert(a + b =~= a);
    } else {
        assert((a + b).drop_last() =~= a + b.drop_last());
        lemma_registered_concat(templates, a, b.drop_last());
    }
}

/// Loading one list to its end and then another is loading the one followed by the other.
proof fn lemma_loaded_then(
    before: Map<Seq<char>, Seq<char>>,
    first: TemplateList,
    middle: Map<Seq<char>, Seq<char>>,
    second: TemplateList,
    after: Map<Seq<char>, Seq<char>>,
    failure: Option<SiteFailure>,
)
    requires
        loaded(before, first, middle, None),
        loaded(middle, second, after, failure),
    ensures
        loaded(before, followed_by(first, second), after, failure),
{
    let m = choose|m: int| #[trigger] loaded_upto(before, first, m, middle, None);
    let n = choose|n: int| #[trigger] loaded_upto(middle, second, n, after, failure);
    let both = followed_by(first, second);
    assert(first.files.take(m) =~= first.files);
    assert(both.files.take(m + n) =~= first.files + second.files.take(n));
    lemma_registered_concat(before, first.files, second.files.take(n));
    assert forall|i: int| 0 <= i < m + n implies register_reply(
        (#[trigger] both.files[i]).0,
        both.files[i].1,
        true,
    ) by {
        if i >= m {
            assert(both.files[i] == second.files[i - m]);
        } else {
            assert(both.files[i] == first.files[i]);
        }
    }
    if n < second.files.len() {
        assert(both.files[m + n] == second.files[n]);
    }
    assert(loaded_upto(before, both, m + n, after, failure));
}

/// Where loading a list was stopped, what follows the list does not matter.
proof fn lemma_loaded_stays(
    before: Map<Seq<char>, Seq<char>>,
    first: TemplateList,
    second: TemplateList,
    after: Map<Seq<char>, Seq<char>>,
    failure: SiteFailure,
)
    requires
        loaded(before, first, after, Some(failure)),
    ensures
        loaded(before, followed_by(first, second), after, Some(failure)),
{
    let n = choose|n: int| #[trigger] loaded_upto(before, first, n, after, Some(failure));
    let both = followed_by(first, second);
    if first.stop is None {
        assert(both.files.take(n) =~= first.files.take(n));
        assert forall|i: int| 0 <= i <= n implies #[trigger] both.files[i] == first.files[i] by {}
    }
    assert(loaded_upto(before, both, n, after, Some(failure)));
}

proof fn lemma_loaded_stays_all(
    before: Map<Seq<char>, Seq<char>>,
    entries: Seq<Entry>,
    n: int,
    after: Map<Seq<char>, Seq<char>>,
    failure: SiteFailure,
)
    requires
        0 <= n <= entries.len(),
        loaded(before, templates_in(entries.take(n)), after, Some(failure)),
    ensures
        loaded(before, templates_in(entries), after, Some(failure)),
    decreases entries.len() - n,
{
    if n < entries.len() {
        let head = entries.take(n + 1);
        assert(head.drop_last() =~= entries.take(n));
        lemma_loaded_stays(
            before,
            templates_in(entries.take(n)),
            templates_in_entry(head.last()),
            after,
            failure,
        );
        assert(templates_in(head) == followed_by(
            templates_in(entries.take(n)),
            templates_in_entry(head.last()),
        ));
        lemma_loaded_stays_all(before, entries, n + 1, after, failure);
    } else {
        assert(entries.take(n) =~= entries);
    }
}

/// Whether the file at `path` holds a template: whether its text is asked for.
pub fn is_template(path: &FilePath) -> (r: bool)
    ensures
        r == (file_ext(path@) == Ok::<Seq<char>, PathError>("hbs"@)),
{
    match get_file_ext(path) {
        Ok(extension) => str_eq(extension, "hbs"),
        Err(_) => false,
    }
}

/// Registers the template that a file holds, if it holds one.
fn register_file(
    path: &FilePath,
    text: &Result<String, String>,
    handlebars: &mut handlebars::Handlebars<'_>,
) -> (r: Result<(), SiteError>)
    ensures
        loaded(
            templates_of(*old(handlebars)),
            template_in_file(*path, *text),
            templates_of(*final(handlebars)),
            failure_of(r),
        ),
{
    let ghost before = templates_of(*handlebars);
    let ghost list = template_in_file(*path, *text);
    proof {
        assert(list.files.len() == 0 ==> loaded_upto(before, list, 0, before, list.stop));
    }
    if let Err(error) = get_file_ext(path) {
        return Err(SiteError::Path(error));
    }
    if !is_template(path) {
        return Ok(());
    }
    let stem = match get_file_stem(path) {
        Ok(stem) => stem,
        Err(error) => {
            return Err(SiteError::Path(error));
        },
    };
    match text {
        Err(message) => Err(SiteError::Io(message.clone())),
        Ok(source) => {
            let reply = register(handlebars, stem, source.as_str());
            proof {
                let after = templates_of(*handlebars);
                assert(list.files =~= seq![(stem@, source@)]);
                assert(list.files.take(0) =~= Seq::empty());
                assert(list.files.take(1).drop_last() =~= Seq::empty());
                assert(registered(before, list.files.take(1).drop_last()) == before);
                if reply is Ok {
                    assert(loaded_upto(before, list, 1, after, None));
                } else {
                    assert(loaded_upto(before, list, 0, after, Some(SiteFailure::Template)));
                }
            }
            match reply {
                Ok(_) => Ok(()),
                Err(error) => Err(SiteError::Template(error)),
            }
        },
    }
}

/// Registers the templates that an entry holds.
fn register_entry(entry: &Entry, handlebars: &mut handlebars::Handlebars<'_>) -> (r: Result<
    (),
    SiteError,
>)
    ensures
        loaded(
            templates_of(*old(handlebars)),
            templates_in_entry(*entry),
            templates_of(*final(handlebars)),
            failure_of(r),
        ),
    decreases entry,
{
    let ghost before = templates_of(*handlebars);
    let ghost list = templates_in_entry(*entry);
    proof {
        assert(list.files.len() == 0 ==> loaded_upto(before, list, 0, before, list.stop));
    }
    match entry {
        Entry::Failed(message) => Err(SiteError::Io(message.clone())),
        Entry::File(path, text) => register_file(path, text, handlebars),
        Entry::Dir(_, Err(message)) => Err(SiteError::Io(message.clone())),
        Entry::Dir(_, Ok(entries)) => register_templates_dir(entries, handlebars),
        Entry::Other(_, _) => Ok(()),
    }
}

/// Registers the templates that the entries of a directory hold, at any depth, each under the
/// stem of its file.
pub fn register_templates_dir(
    entries: &Vec<Entry>,
    handlebars: &mut handlebars::Handlebars<'_>,
) -> (r: Result<(), SiteError>)
    ensures
        loaded(
            templates_of(*old(handlebars)),
            templates_in(entries@),
            templates_of(*final(handlebars)),
            failure_of(r),
        ),
    decreases entries,
{
    let ghost before = templates_of(*handlebars);
    proof {
        assert(loaded_upto(before, no_templates(), 0, before, None));
        assert(entries@.take(0) =~= Seq::empty());
    }
    let mut i: usize = 0;
    while i < entries.len()
        invariant
            i <= entries@.len(),
            before == templates_of(*old(handlebars)),
            loaded(before, templates_in(entries@.take(i as int)), templates_of(*handlebars), None),
        decreases entries@.len() - i,
    {
        let ghost head = entries@.take(i + 1);
        let ghost middle = templates_of(*handlebars);
        let reply = register_entry(&entries[i], handlebars);
        proof {
            assert(head.drop_last() =~= entries@.take(i as int));
            assert(head.last() == entries@[i as int]);
            lemma_loaded_then(
                before,
                templates_in(entries@.take(i as int)),
                middle,
                templates_in_entry(entries@[i as int]),
                templates_of(*handlebars),
                failure_of(reply),
            );
            assert(templates_in(head) == followed_by(
                templates_in(entries@.take(i as int)),
                templates_in_entry(entries@[i as int]),
            ));
        }
        if let Err(error) = reply {
            proof {
                lemma_loaded_stays_all(
                    before,
                    entries@,
                    i + 1,
                    templates_of(*handlebars),
                    error@,
                );
            }
            return Err(error);
        }
        i += 1;
    }
    proof {
        assert(entries@.take(i as int) =~= entries@);
    }
    Ok(())
}

/// Of templates with one name the last stays, and names that no file has keep what they had.
pub proof fn law_last_template_stays(
    before: Map<Seq<char>, Seq<char>>,
    files: Seq<(Seq<char>, Seq<char>)>,
    name: Seq<char>,
)
    ensures
        forall|i: int|
            0 <= i < files.len() && files[i].0 == name && (forall|j: int|
                i < j < files.len() ==> (#[trigger] files[j]).0 != name) ==> registered(
                before,
                files,
            ).contains_pair(name, #[trigger] files[i].1),
        (forall|i: int| 0 <= i < files.len() ==> (#[trigger] files[i]).0 != name) ==> (registered(
            before,
            files,
        ).contains_key(name) == before.contains_key(name) && registered(before, files)[name]
            == before[name]),
    decreases files.len(),
{
    if files.len() > 0 {
        let rest = files.drop_last();
        law_last_template_stays(before, rest, name);
        let new = registered(before, files);
        assert forall|i: int|
            0 <= i < files.len() && files[i].0 == name && (forall|j: int|
                i < j < files.len() ==> (#[trigger] files[j]).0
                    != name) implies new.contains_pair(name, #[trigger] files[i].1) by {
            if i < rest.len() {
                assert(files[files.len() - 1].0 != name);
                assert(rest[i] == files[i]);
                assert forall|j: int| i < j < rest.len() implies (#[trigger] rest[j]).0 != name by {
                    assert(files[j].0 != name);
                }
                assert(registered(before, rest).contains_pair(name, rest[i].1));
            }
        }
        if forall|i: int| 0 <= i < files.len() ==> (#[trigger] files[i]).0 != name {
            assert(files[files.len() - 1].0 != name);
            assert forall|i: int| 0 <= i < rest.len() implies (#[trigger] rest[i]).0 != name by {
                assert(files[i].0 != name);
            }
        }
    }
}

/// Looking for templates in entries is looking in the first of them and then, unless something
/// stopped it there, in the others: what is found is what is found in each, in order.
pub proof fn law_template_search_goes_on(a: Seq<Entry>, b: Seq<Entry>)
    ensures
        ({
            let first = templates_in(a);
            let second = templates_in(b);
            let both = templates_in(a + b);
            if first.stop is Some {
                both.files == first.files && both.stop == first.stop
            } else {
                both.files == first.files + second.files && both.stop == second.stop
            }
        }),
    decreases b.len(),
{
    if b.len() == 0 {
        assert(a + b =~= a);
        let first = templates_in(a).files;
        assert(first + Seq::<(Seq<char>, Seq<char>)>::empty() =~= first);
    } else {
        let rest = b.drop_last();
        assert((a + b).drop_last() =~= a + rest);
        assert((a + b).last() == b.last());
        law_template_search_goes_on(a, rest);
        let first = templates_in(a);
        let middle = templates_in(rest);
        let last = templates_in_entry(b.last());
        assert(first.files + middle.files + last.files =~= first.files + (middle.files
            + last.files));
    }
}

proof fn lemma_templates_in_one(entry: Entry)
    ensures
        templates_in(seq![entry]) == templates_in_entry(entry),
{
    let one = seq![entry];
    assert(one.drop_last() =~= Seq::empty());
    assert(one.last() == entry);
    reveal_with_fuel(templates_in, 2);
    let files = templates_in_entry(entry).files;
    assert(Seq::<(Seq<char>, Seq<char>)>::empty() + files =~= files);
}

/// A file holds a template exactly where its extension is `hbs`: its text, the whole of it, under
/// its stem. A file without an extension that is text stops the work, and so does a template
/// without a stem that is text or without a text.
pub proof fn law_files_that_are_templates(path: FilePath, text: Result<String, String>)
    ensures
        ({
            let found = templates_in(seq![Entry::File(path, text)]);
            &&& found.stop is Some ==> found.files.len() == 0
            &&& match file_ext(path@) {
                Err(error) => found.stop == Some(SiteFailure::Path(error)),
                Ok(extension) => {
                    &&& extension != "hbs"@ ==> found.stop is None && found.files.len() == 0
                    &&& extension == "hbs"@ ==> match file_stem(path@) {
                        Err(error) => found.stop == Some(SiteFailure::Path(error)),
                        Ok(stem) => match text {
                            Err(message) => found.stop == Some(SiteFailure::Io(message@)),
                            Ok(source) => found.stop is None && found.files == seq![
                                (stem, source@),
                            ],
                        },
                    }
                },
            }
        }),
{
    lemma_templates_in_one(Entry::File(path, text));
}

/// The templates of a directory are those of its entries, whatever its name. What is neither file
/// nor directory holds none, what the file system refused stops the work, and in no entries there
/// is none.
pub proof fn law_directories_of_templates(
    path: FilePath,
    entries: Vec<Entry>,
    text: Result<String, String>,
    message: String,
)
    ensures
        templates_in(seq![Entry::Dir(path, Ok(entries))]) == templates_in(entries@),
        templates_in(seq![Entry::Dir(path, Err(message))]).stop == Some(SiteFailure::Io(message@)),
        templates_in(seq![Entry::Failed(message)]).stop == Some(SiteFailure::Io(message@)),
        templates_in(seq![Entry::Other(path, text)]).stop is None,
        templates_in(seq![Entry::Other(path, text)]).files.len() == 0,
        templates_in(Seq::empty()).stop is None,
        templates_in(Seq::empty()).files.len() == 0,
{
    lemma_templates_in_one(Entry::Dir(path, Ok(entries)));
    lemma_templates_in_one(Entry::Dir(path, Err(message)));
    lemma_templates_in_one(Entry::Failed(message));
    lemma_templates_in_one(Entry::Other(path, text));
}

/// A name has in `after` the source of the last of `files` with that name, or what it had in
/// `before` where none has it.
pub open spec fn last_one_in(
    before: Map<Seq<char>, Seq<char>>,
    files: Seq<(Seq<char>, Seq<char>)>,
    after: Map<Seq<char>, Seq<char>>,
    name: Seq<char>,
) -> bool {
    &&& forall|i: int|
        0 <= i < files.len() && files[i].0 == name && (forall|j: int|
            i < j < files.len() ==> (#[trigger] files[j]).0 != name) ==> after.contains_pair(
            name,
            #[trigger] files[i].1,
        )
    &&& (forall|i: int| 0 <= i < files.len() ==> (#[trigger] files[i]).0 != name) ==> (
    after.contains_key(name) == before.contains_key(name) && after[name] == before[name])
}

/// The first `n` of `files` were accepted and are in `after`, under their names, and nothing else
/// was changed.
pub open spec fn first_are_in(
    before: Map<Seq<char>, Seq<char>>,
    files: Seq<(Seq<char>, Seq<char>)>,
    n: int,
    after: Map<Seq<char>, Seq<char>>,
) -> bool {
    &&& 0 <= n <= files.len()
    &&& forall|i: int| 0 <= i < n ==> register_reply((#[trigger] files[i]).0, files[i].1, true)
    &&& forall|name: Seq<char>| #[trigger] last_one_in(before, files.take(n), after, name)
}

/// Where templates were loaded without a failure, all that were found are in. Where there was one,
/// those before it are in and those after it are not: the next was refused, or what was found
/// came to its end where something stopped it.
pub proof fn law_templates_are_in(
    before: Map<Seq<char>, Seq<char>>,
    list: TemplateList,
    after: Map<Seq<char>, Seq<char>>,
    failure: Option<SiteFailure>,
)
    requires
        loaded(before, list, after, failure),
    ensures
        match failure {
            None => list.stop is None && first_are_in(
                before,
                list.files,
                list.files.len() as int,
                after,
            ),
            Some(reason) => exists|n: int| #[trigger]
                first_are_in(before, list.files, n, after) && if n < list.files.len() {
                    reason == SiteFailure::Template && register_reply(
                        list.files[n].0,
                        list.files[n].1,
                        false,
                    )
                } else {
                    list.stop == Some(reason)
                },
        },
{
    let n = choose|n: int| #[trigger] loaded_upto(before, list, n, after, failure);
    let files = list.files.take(n);
    assert forall|name: Seq<char>| #[trigger] last_one_in(before, files, after, name) by {
        law_last_template_stays(before, files, name);
    }
    assert(first_are_in(before, list.files, n, after));
}

/// A rendering that succeeded gave its page, the whole of it, and one that did not gave none.
pub proof fn law_renderings_are_taken_whole(page: String, error: handlebars::RenderError)
    ensures
        rendered_view(Ok(page)) == Some(page@),
        rendered_view(Err(error)) is None,
{
}

} // verus!
