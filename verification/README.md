# site_builder

A static site builder. It takes a tree of Markdown files with YAML front matter, a directory of
Handlebars templates and a blog, and makes a tree of HTML pages of them.

- `src/` is the library, verified with Verus: which files become pages and under what names, what
  a template is filled in with, how links by id and shorthand are replaced, how posts are found,
  addressed and sorted, and in which steps a site is written.
- `app/` reads the configuration and the files, and writes the pages.
- `tests/` runs the library on concrete values.

Outside crates parse YAML, match regular expressions, turn Markdown into HTML and render
templates. The library calls them through functions marked `external_body`; the comment on each
says what is taken for granted of the call.
