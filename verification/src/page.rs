//! Pages: what a Markdown file with front matter becomes.

use crate::error::{SiteError, SiteFailure};
use crate::file_helpers::{
    file_ext, file_stem, get_file_ext, html_name, page_name, FilePath, PathError,
};
use crate::frontmatter::{parsed, split_frontmatter};
use crate::json::{
    inserted, key_less, law_insert_lookup, lemma_lookup_at, lemma_position_at, lookup, member,
    sorted, to_value, Fields, Json, JsonMap, JsonView,
};
use crate::links::{relinked, try_replace_uuid_links, LinkError, LinkFailure};
use crate::templates::{page_reply, render, render_reply, rendered_view, templates_of};
use crate::text::{bytes_of, starts_with_char, str_eq};
use vstd::prelude::*;
use vstd::string::*;
use vstd::utf8::*;

verus! {

/// What `markdown::to_html` makes of a text.
pub uninterp spec fn markdown_html(text: Seq<char>) -> Seq<char>;

/// `markdown::to_html`.
#[verifier::external_body]
fn to_html(text: &str) -> (r: String)
    ensures
        r@ == markdown_html(text@),
{
    markdown::to_html(text)
}

/// What stands for a value of front matter: a text that begins with `@` and goes on with a key
/// of the global data stands for the value under that key, anything else for itself.
pub open spec fn substituted(value: JsonView, globals: JsonView) -> JsonView {
    match value {
        JsonView::Str(text) if text.len() > 0 && text[0] == '@' => match member(
            globals,
            text.skip(1),
        ) {
            Some(global) => global,
            None => value,
        },
        _ => value,
    }
}

/// Front matter with each of its values replaced by what stands for it.
pub open spec fn globals_replaced(fields: Fields, globals: JsonView) -> Fields {
    Seq::new(fields.len(), |i: int| (fields[i].0, substituted(fields[i].1, globals)))
}

/// What front matter and body of a file give before anything is rendered.
pub struct PageParts {
    /// The name of the template.
    pub template: String,
    /// The front matter, with global data in its place.
    pub fields: JsonMap,
    /// The body, with its links in place.
    pub text: String,
}

/// The mathematical value of [`PageParts`].
pub struct PagePartsView {
    pub template: Seq<char>,
    pub fields: Fields,
    pub text: Seq<char>,
}

impl PageParts {
    pub open spec fn view(&self) -> PagePartsView {
        PagePartsView { template: self.template@, fields: self.fields@, text: self.text@ }
    }
}

/// What front matter and body of the file shown as `shown` give. What is amiss with the front
/// matter as a whole comes first, then what is amiss with the links, then with the template.
pub open spec fn parts_of(
    front: JsonView,
    body: Seq<char>,
    shown: Seq<char>,
    globals: JsonView,
) -> Result<PagePartsView, SiteFailure> {
    match front {
        JsonView::Object(fields) => match relinked(bytes_of(body), globals) {
            Err(LinkFailure::UnknownId(id)) => Err(SiteFailure::UnknownUuid(shown, id)),
            Err(LinkFailure::MalformedPosts) => Err(SiteFailure::MalformedPosts),
            Ok(new) => {
                let fields = globals_replaced(fields, globals);
                match lookup(fields, "template"@) {
                    None => Err(SiteFailure::NoTemplate),
                    Some(JsonView::Str(template)) => Ok(
                        PagePartsView { template, fields, text: decode_utf8(new) },
                    ),
                    Some(_) => Err(SiteFailure::TemplateNotText),
                }
            },
        },
        _ => Err(SiteFailure::FrontmatterNotMapping),
    }
}

/// What a template is filled in with: the fields of a page and its content.
pub open spec fn context_of(fields: Fields, content: Seq<char>) -> Fields {
    inserted(fields, "content"@, JsonView::Str(content))
}

/// A template and what it is to be filled in with.
pub struct PageRequestView {
    pub template: Seq<char>,
    pub context: JsonView,
}

/// What is asked of the templates to make a page of a file with this text.
pub open spec fn request_of(data: Seq<char>, shown: Seq<char>, globals: JsonView) -> Result<
    PageRequestView,
    SiteFailure,
> {
    match parsed(data) {
        None => Err(SiteFailure::Yaml),
        Some((front, body)) => match parts_of(front, body, shown, globals) {
            Err(failure) => Err(failure),
            Ok(parts) => Ok(
                PageRequestView {
                    template: parts.template,
                    context: JsonView::Object(context_of(parts.fields, markdown_html(parts.text))),
                },
            ),
        },
    }
}

/// The page, content and name, that a file becomes once its template gave `reply`.
pub open spec fn finished(path: Option<Seq<u8>>, reply: Option<Seq<char>>) -> Result<
    (Seq<char>, Seq<char>),
    SiteFailure,
> {
    match reply {
        None => Err(SiteFailure::Render),
        Some(html) => match page_name(path) {
            Ok(name) => Ok((html, name)),
            Err(error) => Err(SiteFailure::Path(error)),
        },
    }
}

/// `outcome` may come of asking for a page of the file at `path`.
pub open spec fn page_outcome(
    templates: Map<Seq<char>, Seq<char>>,
    path: Option<Seq<u8>>,
    request: PageRequestView,
    outcome: Result<(Seq<char>, Seq<char>), SiteFailure>,
) -> bool {
    exists|reply: Option<Seq<char>>|
        #[trigger] page_reply(templates, request.template, request.context, reply) && outcome
            == finished(path, reply)
}

/// A page that was made, by its characters.
pub open spec fn page_view(page: (String, String)) -> (Seq<char>, Seq<char>) {
    (page.0@, page.1@)
}

/// Replaces each value of `obj` by what stands for it.
pub fn replace_globals(obj: Json, globals: &Json) -> (r: JsonMap)
    requires
        obj@ is Object,
    ensures
        r@ == globals_replaced(obj@->Object_0, globals@),
{
    let fields: &JsonMap = match &obj {
        Json::Object(fields) => fields,
        _ => {
            return JsonMap::new();
        },
    };
    proof {
        use_type_invariant(fields);
    }
    let mut new_fields = fields.duplicate();
    let mut i: usize = 0;
    while i < fields.len()
        invariant
            i <= fields@.len(),
            fields.keys_increase(),
            new_fields@.len() == fields@.len(),
            forall|j: int|
                0 <= j < fields@.len() ==> #[trigger] new_fields@[j] == if j < i {
                    globals_replaced(fields@, globals@)[j]
                } else {
                    fields@[j]
                },
        decreases fields@.len() - i,
    {
        if let Some(text) = fields.value_at(i).as_str() {
            if starts_with_char(text, '@') {
                let key = text.substring_char(1, text.unicode_len());
                proof {
                    assert(key@ =~= text@.skip(1));
                }
                if let Some(global) = globals.get(key) {
                    proof {
                        use_type_invariant(&new_fields);
                        assert(new_fields@[i as int] == fields@[i as int]);
                        lemma_position_at(new_fields@, i as int);
                    }
                    new_fields.insert(fields.key_at(i).to_owned(), global.duplicate());
                }
            }
        }
        i += 1;
    }
    proof {
        assert(new_fields@ =~= globals_replaced(fields@, globals@));
    }
    new_fields
}

/// What front matter and body of the file shown as `shown` give, whatever they hold.
pub fn page_parts(front: Json, body: String, shown: &str, globals: &Json) -> (r: Result<
    PageParts,
    SiteError,
>)
    ensures
        match r {
            Ok(parts) => parts_of(front@, body@, shown@, globals@) == Ok::<
                PagePartsView,
                SiteFailure,
            >(parts@),
            Err(error) => parts_of(front@, body@, shown@, globals@) == Err::<
                PagePartsView,
                SiteFailure,
            >(error@),
        },
{
    if let Json::Object(_) = &front {
    } else {
        return Err(SiteError::FrontmatterNotMapping);
    }
    let fields = replace_globals(front, globals);
    let text = match try_replace_uuid_links(body, globals) {
        Ok(text) => text,
        Err(LinkError::UnknownId(id)) => {
            return Err(SiteError::UnknownUuid(shown.to_owned(), id));
        },
        Err(LinkError::MalformedPosts) => {
            return Err(SiteError::MalformedPosts);
        },
    };
    proof {
        encode_utf8_decode_utf8(text@);
    }
    let template = match fields.get("template") {
        None => {
            return Err(SiteError::NoTemplate);
        },
        Some(value) => match value.as_str() {
            None => {
                return Err(SiteError::TemplateNotText);
            },
            Some(template) => template.to_owned(),
        },
    };
    Ok(PageParts { template, fields, text })
}

/// What a template is filled in with: `fields` with `content` added to them.
pub fn page_context(fields: JsonMap, content: String) -> (r: JsonMap)
    ensures
        r@ == context_of(fields@, content@),
        lookup(r@, "content"@) == Some(JsonView::Str(content@)),
        forall|key: Seq<char>|
            key != "content"@ ==> #[trigger] lookup(r@, key) == lookup(fields@, key),
{
    let mut context = fields;
    context.insert("content".to_owned(), Json::Str(content));
    context
}

/// The page that the file at `path` becomes once its template was rendered.
pub fn finish_page(path: &FilePath, reply: Result<String, handlebars::RenderError>) -> (r: Result<
    (String, String),
    SiteError,
>)
    ensures
        match r {
            Ok(page) => finished(path@, rendered_view(reply)) == Ok::<
                (Seq<char>, Seq<char>),
                SiteFailure,
            >(page_view(page)),
            Err(error) => finished(path@, rendered_view(reply)) == Err::<
                (Seq<char>, Seq<char>),
                SiteFailure,
            >(error@),
        },
        reply matches Err(error) ==> r == Err::<(String, String), SiteError>(
            SiteError::Render(error),
        ),
{
    match reply {
        Err(error) => Err(SiteError::Render(error)),
        Ok(html) => match html_name(path) {
            Ok(name) => Ok((html, name)),
            Err(error) => Err(SiteError::Path(error)),
        },
    }
}

/// A failure that is a defect of the site: front matter that is no mapping or names no template
/// by a text, or posts that links cannot be looked up in.
pub open spec fn is_defect(failure: SiteFailure) -> bool {
    ||| failure is FrontmatterNotMapping
    ||| failure is NoTemplate
    ||| failure is TemplateNotText
    ||| failure is MalformedPosts
}

/// A file whose text has a defect.
pub open spec fn defective(data: Seq<char>, shown: Seq<char>, globals: JsonView) -> bool {
    request_of(data, shown, globals) matches Err(failure) && is_defect(failure)
}

/// The defect of a file with this text, if it has one.
pub fn page_defect(data: &str, shown: &str, globals: &Json) -> (r: Option<SiteError>)
    ensures
        match r {
            None => !defective(data@, shown@, globals@),
            Some(error) => is_defect(error@) && request_of(data@, shown@, globals@) == Err::<
                PageRequestView,
                SiteFailure,
            >(error@),
        },
{
    let (front, body) = match split_frontmatter(data) {
        Ok(split) => split,
        Err(_) => {
            return None;
        },
    };
    match page_parts(front, body, shown, globals) {
        Ok(_) => None,
        Err(error) => match error {
            SiteError::FrontmatterNotMapping => Some(error),
            SiteError::NoTemplate => Some(error),
            SiteError::TemplateNotText => Some(error),
            SiteError::MalformedPosts => Some(error),
            _ => None,
        },
    }
}

/// Makes a page, content and name, of the Markdown file at `path` with the text `data`, which has
/// no defect.
pub fn compile_markdown(
    path: &FilePath,
    data: &str,
    globals: &Json,
    handlebars: &handlebars::Handlebars<'_>,
) -> (r: Result<Option<(String, String)>, SiteError>)
    requires
        !defective(data@, path.shown@, globals@),
    ensures
        match request_of(data@, path.shown@, globals@) {
            Err(failure) => r matches Err(error) && error@ == failure,
            Ok(request) => {
                let templates = templates_of(*handlebars);
                match r {
                    Ok(Some(page)) => page_outcome(templates, path@, request, Ok(page_view(page))),
                    Ok(None) => false,
                    Err(error) => page_outcome(templates, path@, request, Err(error@)),
                }
            },
        },
        r matches Err(error) ==> !is_defect(error@),
{
    let (front, body) = match split_frontmatter(data) {
        Ok(split) => split,
        Err(error) => {
            return Err(error);
        },
    };
    let parts = match page_parts(front, body, path.shown.as_str(), globals) {
        Ok(parts) => parts,
        Err(error) => {
            return Err(error);
        },
    };
    let content = to_html(parts.text.as_str());
    let context = Json::Object(page_context(parts.fields, content));
    let reply = render(handlebars, parts.template.as_str(), &to_value(&context));
    proof {
        let request = PageRequestView { template: parts.template@, context: context@ };
        assert(request_of(data@, path.shown@, globals@) == Ok::<PageRequestView, SiteFailure>(
            request,
        ));
        assert(page_reply(
            templates_of(*handlebars),
            request.template,
            request.context,
            rendered_view(reply),
        ));
    }
    match finish_page(path, reply) {
        Ok(page) => Ok(Some(page)),
        Err(error) => Err(error),
    }
}

/// Makes a page of the Markdown file at `path`, whatever its text holds.
pub fn try_compile_markdown(
    path: &FilePath,
    data: &str,
    globals: &Json,
    handlebars: &handlebars::Handlebars<'_>,
) -> (r: Result<Option<(String, String)>, SiteError>)
    ensures
        match request_of(data@, path.shown@, globals@) {
            Err(failure) => r matches Err(error) && error@ == failure,
            Ok(request) => {
                let templates = templates_of(*handlebars);
                match r {
                    Ok(Some(page)) => page_outcome(templates, path@, request, Ok(page_view(page))),
                    Ok(None) => false,
                    Err(error) => page_outcome(templates, path@, request, Err(error@)),
                }
            },
        },
{
    match page_defect(data, path.shown.as_str(), globals) {
        Some(error) => Err(error),
        None => compile_markdown(path, data, globals, handlebars),
    }
}

/// What a file of the site comes to before anything is rendered.
pub enum FilePlan {
    /// It is left alone.
    Skip,
    /// It stops the building of the site.
    Fail(SiteFailure),
    /// It becomes a page.
    Page(PageRequestView),
}

/// What the file at `path` comes to. Files that are not Markdown are left alone; the text of
/// those that are must be had.
pub open spec fn file_plan(
    path: FilePath,
    text: Result<String, String>,
    globals: JsonView,
) -> FilePlan {
    match file_ext(path@) {
        Err(error) => FilePlan::Fail(SiteFailure::Path(error)),
        Ok(extension) => if extension != "md"@ {
            FilePlan::Skip
        } else {
            match text {
                Err(message) => FilePlan::Fail(SiteFailure::Io(message@)),
                Ok(data) => match request_of(data@, path.shown@, globals) {
                    Err(failure) => FilePlan::Fail(failure),
                    Ok(request) => FilePlan::Page(request),
                },
            }
        },
    }
}

/// Whether the file at `path` is Markdown: whether its text is asked for.
pub fn is_markdown(path: &FilePath) -> (r: bool)
    ensures
        r == (file_ext(path@) == Ok::<Seq<char>, PathError>("md"@)),
{
    match get_file_ext(path) {
        Ok(extension) => str_eq(extension, "md"),
        Err(_) => false,
    }
}

/// Makes a page of the file at `path`, where it is of a kind that becomes a page.
pub fn compile_file(
    path: &FilePath,
    text: &Result<String, String>,
    globals: &Json,
    handlebars: &handlebars::Handlebars<'_>,
) -> (r: Result<Option<(String, String)>, SiteError>)
    ensures
        match file_plan(*path, *text, globals@) {
            FilePlan::Skip => r matches Ok(None),
            FilePlan::Fail(failure) => r matches Err(error) && error@ == failure,
            FilePlan::Page(request) => {
                let templates = templates_of(*handlebars);
                match r {
                    Ok(Some(page)) => page_outcome(templates, path@, request, Ok(page_view(page))),
                    Ok(None) => false,
                    Err(error) => page_outcome(templates, path@, request, Err(error@)),
                }
            },
        },
{
    match get_file_ext(path) {
        Err(error) => Err(SiteError::Path(error)),
        Ok(_) => if is_markdown(path) {
            match text {
                Err(message) => Err(SiteError::Io(message.clone())),
                Ok(data) => try_compile_markdown(path, data.as_str(), globals, handlebars),
            }
        } else {
            Ok(None)
        },
    }
}

/// Replacing globals keeps the keys and replaces the value under each of them by what stands for
/// it.
pub proof fn law_globals_replaced_by_key(fields: Fields, globals: JsonView, key: Seq<char>)
    requires
        sorted(fields),
    ensures
        sorted(globals_replaced(fields, globals)),
        lookup(globals_replaced(fields, globals), key) == match lookup(fields, key) {
            Some(value) => Some(substituted(value, globals)),
            None => None,
        },
{
    let new = globals_replaced(fields, globals);
    assert forall|i: int, j: int| 0 <= i < j < new.len() implies key_less(
        #[trigger] new[i].0,
        #[trigger] new[j].0,
    ) by {
        assert(key_less(fields[i].0, fields[j].0));
    }
    if exists|i: int| 0 <= i < fields.len() && #[trigger] fields[i].0 == key {
        let i = choose|i: int| 0 <= i < fields.len() && #[trigger] fields[i].0 == key;
        assert(new[i].0 == key);
        lemma_lookup_at(fields, i);
        lemma_lookup_at(new, i);
    } else if exists|i: int| 0 <= i < new.len() && #[trigger] new[i].0 == key {
        let i = choose|i: int| 0 <= i < new.len() && #[trigger] new[i].0 == key;
        assert(fields[i].0 == key);
    }
}

/// `after` is what stands for `before`: where `before` is a text of `@` and a key of the global data,
/// the very value that the global data has under that key, and otherwise `before` itself.
pub open spec fn stands_for(
    before: Option<JsonView>,
    globals: JsonView,
    after: Option<JsonView>,
) -> bool {
    &&& forall|key: Seq<char>|
        before == Some(JsonView::Str(#[trigger] (seq!['@'] + key))) && member(globals, key) is Some
            ==> after == member(globals, key)
    &&& (forall|key: Seq<char>|
        before == Some(JsonView::Str(#[trigger] (seq!['@'] + key))) ==> member(globals, key) is None)
        ==> after == before
}

proof fn lemma_stands_for(value: JsonView, globals: JsonView)
    ensures
        stands_for(Some(value), globals, Some(substituted(value, globals))),
{
    let before = Some(value);
    let after = Some(substituted(value, globals));
    assert forall|key: Seq<char>|
        before == Some(JsonView::Str(#[trigger] (seq!['@'] + key))) && member(
            globals,
            key,
        ) is Some implies after == member(globals, key) by {
        assert((seq!['@'] + key).skip(1) =~= key);
    }
    if forall|key: Seq<char>|
        before == Some(JsonView::Str(#[trigger] (seq!['@'] + key))) ==> member(
            globals,
            key,
        ) is None {
        if let JsonView::Str(text) = value {
            if text.len() > 0 && text[0] == '@' {
                assert(text =~= seq!['@'] + text.skip(1));
                assert(member(globals, text.skip(1)) is None);
            }
        }
    }
}

/// Replacing globals keeps the keys, in their order, and gives each of them what stands for its
/// value.
pub proof fn law_globals_stand_in(fields: Fields, globals: JsonView)
    ensures
        globals_replaced(fields, globals).len() == fields.len(),
        forall|i: int|
            0 <= i < fields.len() ==> (#[trigger] globals_replaced(fields, globals)[i]).0
                == fields[i].0 && stands_for(
                Some(fields[i].1),
                globals,
                Some(globals_replaced(fields, globals)[i].1),
            ),
{
    let new = globals_replaced(fields, globals);
    assert forall|i: int| 0 <= i < fields.len() implies (#[trigger] new[i]).0 == fields[i].0
        && stands_for(Some(fields[i].1), globals, Some(new[i].1)) by {
        lemma_stands_for(fields[i].1, globals);
    }
}

/// What the templates are asked for of a file: its template is filled in with the HTML of its
/// body, the ids of whose links gave way to addresses, under `content`, and under every other key
/// with what stands for the value of the front matter there. The template is the text that stands
/// for the value under `template`.
pub proof fn law_template_gets_front_matter_and_content(
    data: Seq<char>,
    shown: Seq<char>,
    globals: JsonView,
    fields: Fields,
    body: Seq<char>,
    key: Seq<char>,
)
    requires
        parsed(data) == Some((JsonView::Object(fields), body)),
        sorted(fields),
        request_of(data, shown, globals) is Ok,
    ensures
        ({
            let request = request_of(data, shown, globals)->Ok_0;
            &&& relinked(bytes_of(body), globals) matches Ok(new) && member(
                request.context,
                "content"@,
            ) == Some(JsonView::Str(markdown_html(decode_utf8(new))))
            &&& key != "content"@ ==> stands_for(
                lookup(fields, key),
                globals,
                member(request.context, key),
            )
            &&& stands_for(
                lookup(fields, "template"@),
                globals,
                Some(JsonView::Str(request.template)),
            )
        }),
{
    let new_fields = globals_replaced(fields, globals);
    let text = decode_utf8(relinked(bytes_of(body), globals)->Ok_0);
    let content = JsonView::Str(markdown_html(text));
    law_globals_replaced_by_key(fields, globals, key);
    law_globals_replaced_by_key(fields, globals, "template"@);
    law_insert_lookup(new_fields, "content"@, content, key);
    law_insert_lookup(new_fields, "content"@, content, "content"@);
    if let Some(value) = lookup(fields, key) {
        lemma_stands_for(value, globals);
    } else {
        assert(stands_for(None, globals, None));
    }
    if let Some(value) = lookup(fields, "template"@) {
        lemma_stands_for(value, globals);
    }
}

/// When the templates are asked for a page, and why they are not: the front matter is no YAML, it
/// is no mapping, a link of the body has no address, or what stands for the value under `template`
/// is not there or is no text. Nothing else stands in the way.
pub proof fn law_when_a_page_is_asked_for(
    data: Seq<char>,
    shown: Seq<char>,
    globals: JsonView,
    template: Option<JsonView>,
)
    requires
        parsed(data) matches Some((JsonView::Object(fields), _)) ==> sorted(fields) && stands_for(
            lookup(fields, "template"@),
            globals,
            template,
        ),
    ensures
        parsed(data) is None ==> request_of(data, shown, globals) == Err::<
            PageRequestView,
            SiteFailure,
        >(SiteFailure::Yaml),
        parsed(data) matches Some((front, body)) ==> {
            let link_failure = match relinked(bytes_of(body), globals) {
                Ok(_) => None,
                Err(LinkFailure::UnknownId(id)) => Some(SiteFailure::UnknownUuid(shown, id)),
                Err(LinkFailure::MalformedPosts) => Some(SiteFailure::MalformedPosts),
            };
            match request_of(data, shown, globals) {
                Ok(request) => front is Object && link_failure is None && template == Some(
                    JsonView::Str(request.template),
                ),
                Err(failure) => if !(front is Object) {
                    failure == SiteFailure::FrontmatterNotMapping
                } else if link_failure is Some {
                    Some(failure) == link_failure
                } else if template is None {
                    failure == SiteFailure::NoTemplate
                } else {
                    failure == SiteFailure::TemplateNotText && !(template->0 is Str)
                },
            }
        },
{
    if let Some((JsonView::Object(fields), body)) = parsed(data) {
        law_globals_replaced_by_key(fields, globals, "template"@);
        if let Some(value) = lookup(fields, "template"@) {
            lemma_stands_for(value, globals);
            lemma_stands_for_one(
                Some(value),
                globals,
                Some(substituted(value, globals)),
                template,
            );
        } else {
            assert(forall|key: Seq<char>|
                None::<JsonView> == Some(JsonView::Str(#[trigger] (seq!['@'] + key))) ==> member(
                    globals,
                    key,
                ) is None);
        }
    }
}

/// One value alone stands for another.
proof fn lemma_stands_for_one(
    before: Option<JsonView>,
    globals: JsonView,
    a: Option<JsonView>,
    b: Option<JsonView>,
)
    requires
        stands_for(before, globals, a),
        stands_for(before, globals, b),
    ensures
        a == b,
{
    if exists|key: Seq<char>|
        before == Some(JsonView::Str(#[trigger] (seq!['@'] + key))) && member(
            globals,
            key,
        ) is Some {
        let key = choose|key: Seq<char>|
            before == Some(JsonView::Str(#[trigger] (seq!['@'] + key))) && member(
                globals,
                key,
            ) is Some;
        let global = member(globals, key)->0;
        assert(a == Some(global));
        assert(b == Some(global));
    } else {
        assert forall|key: Seq<char>|
            before == Some(JsonView::Str(#[trigger] (seq!['@'] + key))) implies member(
            globals,
            key,
        ) is None by {}
    }
}

/// What comes of a page that was asked for: the very text that the template gave, under the stem
/// of the file with `.html` behind it; or an error, because the template gave none or the file has
/// no stem that is text. Only a template that is there gives a page.
pub proof fn law_pages_come_from_templates(
    templates: Map<Seq<char>, Seq<char>>,
    path: Option<Seq<u8>>,
    request: PageRequestView,
    outcome: Result<(Seq<char>, Seq<char>), SiteFailure>,
)
    requires
        page_outcome(templates, path, request, outcome),
    ensures
        match outcome {
            Ok((html, name)) => {
                &&& render_reply(templates, request.template, request.context, Some(html))
                &&& templates.contains_key(request.template)
                &&& file_stem(path) matches Ok(stem) && name == stem + ".html"@
            },
            Err(SiteFailure::Render) => render_reply(
                templates,
                request.template,
                request.context,
                None,
            ),
            Err(failure) => file_stem(path) matches Err(error) && failure == SiteFailure::Path(
                error,
            ) && exists|html: Seq<char>| #[trigger]
                render_reply(templates, request.template, request.context, Some(html)),
        },
{
    let reply = choose|reply: Option<Seq<char>>|
        #[trigger] page_reply(templates, request.template, request.context, reply) && outcome
            == finished(path, reply);
    match reply {
        Some(html) => {
            assert(render_reply(templates, request.template, request.context, Some(html)));
        },
        None => {},
    }
}

/// What a file comes to is settled by its extension, its text and what is asked for of it: a file
/// without an extension that is text stops the site, one that is not Markdown is left alone, and
/// every other is to become a page.
pub proof fn law_files_by_extension(
    path: FilePath,
    text: Result<String, String>,
    globals: JsonView,
)
    ensures
        match file_ext(path@) {
            Err(error) => file_plan(path, text, globals) == FilePlan::Fail(
                SiteFailure::Path(error),
            ),
            Ok(extension) => {
                &&& extension != "md"@ ==> file_plan(path, text, globals) is Skip
                &&& extension == "md"@ ==> match text {
                    Err(message) => file_plan(path, text, globals) == FilePlan::Fail(
                        SiteFailure::Io(message@),
                    ),
                    Ok(data) => match file_plan(path, text, globals) {
                        FilePlan::Skip => false,
                        FilePlan::Fail(failure) => request_of(data@, path.shown@, globals)
                            == Err::<PageRequestView, SiteFailure>(failure),
                        FilePlan::Page(request) => request_of(data@, path.shown@, globals)
                            == Ok::<PageRequestView, SiteFailure>(request),
                    },
                }
            },
        },
{
}

/// What front matter and body give: the body with the ids of its links replaced, the front matter
/// with its globals in place, and the text that this has under `template`.
pub proof fn law_parts_of_a_page(
    fields: Fields,
    body: Seq<char>,
    shown: Seq<char>,
    globals: JsonView,
)
    requires
        parts_of(JsonView::Object(fields), body, shown, globals) is Ok,
    ensures
        ({
            let parts = parts_of(JsonView::Object(fields), body, shown, globals)->Ok_0;
            &&& relinked(bytes_of(body), globals) matches Ok(new) && parts.text == decode_utf8(new)
            &&& parts.fields == globals_replaced(fields, globals)
            &&& lookup(parts.fields, "template"@) == Some(JsonView::Str(parts.template))
        }),
{
}

/// The defects are those of the front matter and of the posts; what a file system, a link, a
/// template or a name is at fault for is none.
pub proof fn law_defects(failure: SiteFailure)
    ensures
        is_defect(failure) <==> failure is FrontmatterNotMapping || failure is NoTemplate
            || failure is TemplateNotText || failure is MalformedPosts,
        failure is Path || failure is Io || failure is Yaml || failure is Render
            || failure is UnknownUuid ==> !is_defect(failure),
{
}

/// A page is its content and its name, and what is in its parts is what is in their fields.
pub proof fn law_pages_are_taken_whole(page: (String, String), parts: PageParts)
    ensures
        page_view(page).0 == page.0@,
        page_view(page).1 == page.1@,
        parts@.template == parts.template@,
        parts@.fields == parts.fields@,
        parts@.text == parts.text@,
{
}

} // verus!
