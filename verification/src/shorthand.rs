//! Shorthand sequences, such as two hyphens for a long dash, and what they expand to.
//!
//! A table gives regular expressions and the text that each of their matches expands to. The
//! target of a Markdown link, `[words](target)`, is no prose: a match in it stays. The expressions
//! are looked for one after the other, each in what is left of the text after the last match.

use crate::json::{Fields, Json, JsonMap, JsonView};
use crate::text::{
    bytes_of, lemma_boundary_of_suffix, lemma_bytes_concat, lemma_bytes_empty, slice,
};
use vstd::prelude::*;
use vstd::string::*;
use vstd::utf8::*;

verus! {

/// `regex::Error`, which says why a pattern is no regular expression.
#[verifier::external_type_specification]
#[verifier::external_body]
pub struct ExRegexError(regex::Error);

/// `regex::Regex::new` may answer so, accepting or refusing, when it is given this pattern. The
/// answer is no function of the pattern: one whose program comes near the limit of its size is
/// accepted on one machine and refused on another.
pub uninterp spec fn regex_reply(pattern: Seq<char>, accepted: bool) -> bool;

/// The byte offsets at which the leftmost match that `regex::Regex::find` gives begins and ends.
pub uninterp spec fn regex_match(pattern: Seq<char>, text: Seq<u8>) -> Option<(int, int)>;

/// Why a text could not be expanded.
#[derive(Debug)]
pub enum ShorthandError {
    /// The table is no object.
    NotATable,
    /// The entry of this key is no text.
    NotText(String),
    /// This key is no regular expression.
    BadPattern(String, regex::Error),
    /// This key matches the empty text where the search for its next match begins, so that the
    /// search comes to no end.
    EmptyMatch(String),
}

/// The mathematical value of a [`ShorthandError`].
pub enum ShorthandFailure {
    NotATable,
    NotText(Seq<char>),
    BadPattern(Seq<char>),
    EmptyMatch(Seq<char>),
}

impl ShorthandError {
    pub open spec fn view(&self) -> ShorthandFailure {
        match self {
            ShorthandError::NotATable => ShorthandFailure::NotATable,
            ShorthandError::NotText(key) => ShorthandFailure::NotText(key@),
            ShorthandError::BadPattern(key, _) => ShorthandFailure::BadPattern(key@),
            ShorthandError::EmptyMatch(key) => ShorthandFailure::EmptyMatch(key@),
        }
    }
}

/// The bytes from `from` up to `to` are the target of a link: before them stand a `[`, one or
/// more bytes that are no `]`, and `](`; they hold no `)`, and one follows them.
pub open spec fn link_target_at(t: Seq<u8>, open: int, from: int, to: int) -> bool {
    &&& 0 <= open && open + 3 < from <= to < t.len()
    &&& t[open] == 91
    &&& forall|x: int| open < x < from - 2 ==> t[x] != 93
    &&& t[from - 2] == 93
    &&& t[from - 1] == 40
    &&& forall|x: int| from <= x < to ==> t[x] != 41
    &&& t[to] == 41
}

/// Some byte from `start` up to `end` lies in the target of a link.
pub open spec fn in_link_target(t: Seq<u8>, start: int, end: int) -> bool {
    exists|open: int, from: int, to: int|
        #[trigger] link_target_at(t, open, from, to) && start < to && from < end
}

/// What becomes of a match from `start` up to `end`: it gives way to `expansion`, unless it
/// touches the target of a link.
pub open spec fn match_expanded(
    t: Seq<u8>,
    start: int,
    end: int,
    expansion: Seq<u8>,
) -> Seq<u8> {
    if in_link_target(t, start, end) {
        t.subrange(start, end)
    } else {
        expansion
    }
}

/// A match of a table entry: where it begins and ends, and what the entry expands it to.
#[derive(Debug)]
pub struct Match<'a> {
    pub start: usize,
    pub end: usize,
    pub expansion: &'a str,
}

/// The mathematical value of a [`Match`].
pub struct MatchView {
    pub start: int,
    pub end: int,
    pub expansion: Seq<u8>,
}

impl Match<'_> {
    pub open spec fn view(&self) -> MatchView {
        MatchView {
            start: self.start as int,
            end: self.end as int,
            expansion: bytes_of(self.expansion@),
        }
    }
}

/// Matches, by what they hold.
pub open spec fn matches_view(matches: Seq<Match<'_>>) -> Seq<MatchView> {
    Seq::new(matches.len(), |i: int| matches[i]@)
}

/// Matches that lie in `t`, between characters, each after the one before.
pub open spec fn ordered(t: Seq<u8>, matches: Seq<MatchView>) -> bool {
    &&& forall|i: int|
        #![trigger matches[i]]
        0 <= i < matches.len() ==> {
            &&& 0 <= matches[i].start <= matches[i].end <= t.len()
            &&& is_char_boundary(t, matches[i].start)
            &&& is_char_boundary(t, matches[i].end)
        }
    &&& forall|i: int, j: int|
        #![trigger matches[i], matches[j]]
        0 <= i < j < matches.len() ==> matches[i].end <= matches[j].start
}

/// Where the last match ends; the beginning of the text where there is none.
pub open spec fn end_of(matches: Seq<MatchView>) -> int {
    if matches.len() == 0 {
        0
    } else {
        matches.last().end
    }
}

/// What becomes of `t` up to the end of the last match.
pub open spec fn replaced(t: Seq<u8>, matches: Seq<MatchView>) -> Seq<u8>
    decreases matches.len(),
{
    if matches.len() == 0 {
        Seq::empty()
    } else {
        let before = matches.drop_last();
        let last = matches.last();
        replaced(t, before) + t.subrange(end_of(before), last.start) + match_expanded(
            t,
            last.start,
            last.end,
            last.expansion,
        )
    }
}

/// `t` with each match become what [`match_expanded`] says.
pub open spec fn rewritten(t: Seq<u8>, matches: Seq<MatchView>) -> Seq<u8> {
    replaced(t, matches) + t.skip(end_of(matches))
}

/// The matches of `pattern` in `t` from `from` on, each found in what is left after the one
/// before. None where the search meets an empty match at the place where it begins: it would meet
/// it again and again.
pub open spec fn matches_from(
    t: Seq<u8>,
    from: int,
    pattern: Seq<char>,
    expansion: Seq<u8>,
) -> Option<Seq<MatchView>>
    decreases t.len() - from,
{
    match regex_match(pattern, t.skip(from)) {
        None => Some(Seq::empty()),
        Some((s, e)) => if 0 <= from && 0 <= s <= e && 0 < e && from + e <= t.len() {
            match matches_from(t, from + e, pattern, expansion) {
                None => None,
                Some(rest) => Some(
                    seq![MatchView { start: from + s, end: from + e, expansion }] + rest,
                ),
            }
        } else {
            None
        },
    }
}

/// What a search comes to: matches, or what is wrong with the table.
pub type Search = Result<Seq<MatchView>, ShorthandFailure>;

/// `search` may come of looking for the matches of one table entry in `t` from `from` on.
pub open spec fn entry_searched(
    t: Seq<u8>,
    from: int,
    key: Seq<char>,
    value: JsonView,
    search: Search,
) -> bool {
    match value {
        JsonView::Str(expansion) => {
            ||| regex_reply(key, false) && search == Err::<Seq<MatchView>, ShorthandFailure>(
                ShorthandFailure::BadPattern(key),
            )
            ||| regex_reply(key, true) && search == match matches_from(
                t,
                from,
                key,
                bytes_of(expansion),
            ) {
                Some(matches) => Ok::<Seq<MatchView>, ShorthandFailure>(matches),
                None => Err(ShorthandFailure::EmptyMatch(key)),
            }
        },
        _ => search == Err::<Seq<MatchView>, ShorthandFailure>(ShorthandFailure::NotText(key)),
    }
}

/// `search` may come of looking for the matches of `entries` in `t` after those in `done`: entry
/// by entry in the order of their keys, each in what is left after the last match of those before
/// it, up to the first entry that fails.
pub open spec fn searched(
    t: Seq<u8>,
    done: Seq<MatchView>,
    entries: Fields,
    search: Search,
) -> bool
    decreases entries.len(),
{
    if entries.len() == 0 {
        search == Ok::<Seq<MatchView>, ShorthandFailure>(done)
    } else {
        let (key, value) = entries[0];
        ||| search is Err && entry_searched(t, end_of(done), key, value, search)
        ||| exists|matches: Seq<MatchView>|
            #[trigger] entry_searched(t, end_of(done), key, value, Ok(matches)) && searched(
                t,
                done + matches,
                entries.drop_first(),
                search,
            )
    }
}

/// What a text becomes once a search came to its end.
pub open spec fn outcome_of(t: Seq<u8>, search: Search) -> Result<Seq<u8>, ShorthandFailure> {
    match search {
        Ok(matches) => Ok(rewritten(t, matches)),
        Err(failure) => Err(failure),
    }
}

/// `outcome` may come of expanding the shorthand of the table with these entries in `t`.
pub open spec fn expanded(
    t: Seq<u8>,
    entries: Fields,
    outcome: Result<Seq<u8>, ShorthandFailure>,
) -> bool {
    exists|search: Search|
        #[trigger] searched(t, Seq::empty(), entries, search) && outcome == outcome_of(t, search)
}

/// An entry of a shorthand table: its key can be a regular expression and its value is a text.
pub open spec fn entry_fits(key: Seq<char>, value: JsonView) -> bool {
    value is Str && regex_reply(key, true)
}

/// The first `n` of `entries` fit.
pub open spec fn entries_fit(entries: Fields, n: int) -> bool {
    forall|i: int| 0 <= i < n ==> entry_fits((#[trigger] entries[i]).0, entries[i].1)
}

/// A shorthand table: an object all of whose entries fit.
pub open spec fn table_fits(table: JsonView) -> bool {
    match table {
        JsonView::Object(entries) => entries_fit(entries, entries.len() as int),
        _ => false,
    }
}

/// `failure` may be what is wrong with a table: it is no object, or the first of its entries that
/// does not fit has no text or a key that is refused.
pub open spec fn table_refused(table: JsonView, failure: ShorthandFailure) -> bool {
    match table {
        JsonView::Object(entries) => exists|i: int| #[trigger] entry_refused(entries, i, failure),
        _ => failure == ShorthandFailure::NotATable,
    }
}

/// `failure` may be what is wrong with the entry at `i`, the first that does not fit.
pub open spec fn entry_refused(entries: Fields, i: int, failure: ShorthandFailure) -> bool {
    &&& 0 <= i < entries.len()
    &&& entries_fit(entries, i)
    &&& match entries[i].1 {
        JsonView::Str(_) => regex_reply(entries[i].0, false) && failure
            == ShorthandFailure::BadPattern(entries[i].0),
        _ => failure == ShorthandFailure::NotText(entries[i].0),
    }
}

/// What a result holds.
pub open spec fn outcome_view(r: Result<String, ShorthandError>) -> Result<
    Seq<u8>,
    ShorthandFailure,
> {
    match r {
        Ok(text) => Ok(bytes_of(text@)),
        Err(error) => Err(error@),
    }
}

/// What a search holds.
pub open spec fn search_view(r: Result<Vec<Match<'_>>, ShorthandError>) -> Search {
    match r {
        Ok(matches) => Ok(matches_view(matches@)),
        Err(error) => Err(error@),
    }
}

/// `regex::Regex::new` and, where it accepts the pattern, `regex::Regex::find`: the byte offsets
/// of the leftmost match, which lie in the text, in order, and between characters.
#[verifier::external_body]
fn find_match(pattern: &str, text: &str) -> (r: Result<Option<(usize, usize)>, regex::Error>)
    ensures
        regex_reply(pattern@, r is Ok),
        r matches Ok(found) ==> match found {
            Some((start, end)) => {
                &&& regex_match(pattern@, bytes_of(text@)) == Some((start as int, end as int))
                &&& start <= end <= bytes_of(text@).len()
                &&& is_char_boundary(bytes_of(text@), start as int)
                &&& is_char_boundary(bytes_of(text@), end as int)
            },
            None => regex_match(pattern@, bytes_of(text@)) is None,
        },
{
    let regex = regex::Regex::new(pattern)?;
    Ok(regex.find(text).map(|found| (found.start(), found.end())))
}

/// Where the link whose words begin after the `[` at `open` has its target.
fn link_target_after(t: &[u8], open: usize) -> (r: Option<(usize, usize)>)
    requires
        open < t@.len(),
        t@[open as int] == 91,
    ensures
        match r {
            Some((from, to)) => link_target_at(t@, open as int, from as int, to as int),
            None => forall|from: int, to: int| !link_target_at(t@, open as int, from, to),
        },
{
    let n: usize = t.len();
    let mut close: usize = open + 1;
    while close < n && t[close] != 93
        invariant
            open < close <= n,
            n == t@.len(),
            forall|x: int| open < x < close ==> t@[x] != 93,
        decreases n - close,
    {
        close += 1;
    }
    if close >= n || close == open + 1 || n - close < 2 || t[close + 1] != 40 {
        proof {
            assert forall|from: int, to: int| !link_target_at(t@, open as int, from, to) by {
                if link_target_at(t@, open as int, from, to) {
                    assert(t@[from - 2] == 93);
                    assert(close == from - 2);
                }
            }
        }
        return None;
    }
    let from: usize = close + 2;
    let mut to: usize = from;
    while to < n && t[to] != 41
        invariant
            from <= to <= n,
            n == t@.len(),
            forall|x: int| from <= x < to ==> t@[x] != 41,
        decreases n - to,
    {
        to += 1;
    }
    if to >= n {
        proof {
            assert forall|f: int, e: int| !link_target_at(t@, open as int, f, e) by {
                if link_target_at(t@, open as int, f, e) {
                    assert(t@[f - 2] == 93);
                    assert(close == f - 2);
                    assert(t@[e] == 41);
                }
            }
        }
        None
    } else {
        Some((from, to))
    }
}

proof fn lemma_target_unique(t: Seq<u8>, open: int, f1: int, t1: int, f2: int, t2: int)
    requires
        link_target_at(t, open, f1, t1),
        link_target_at(t, open, f2, t2),
    ensures
        f1 == f2,
        t1 == t2,
{
    if f1 < f2 {
        assert(t[f1 - 2] != 93);
    } else if f2 < f1 {
        assert(t[f2 - 2] != 93);
    }
    if t1 < t2 {
        assert(t[t1] != 41);
    } else if t2 < t1 {
        assert(t[t2] != 41);
    }
}

/// Whether some byte from `start` up to `end` lies in the target of a link.
fn touches_link_target(t: &[u8], start: usize, end: usize) -> (r: bool)
    requires
        end <= t@.len(),
    ensures
        r == in_link_target(t@, start as int, end as int),
{
    let mut open: usize = 0;
    while open < end
        invariant
            open <= end <= t@.len(),
            forall|o: int, f: int, e: int|
                o < open && #[trigger] link_target_at(t@, o, f, e) ==> !(start < e && f < end),
        decreases end - open,
    {
        if t[open] == 91 {
            if let Some((from, to)) = link_target_after(t, open) {
                if start < to && from < end {
                    return true;
                }
                proof {
                    assert forall|o: int, f: int, e: int|
                        o < open + 1 && #[trigger] link_target_at(t@, o, f, e) implies !(start < e
                        && f < end) by {
                        if o == open {
                            lemma_target_unique(t@, o, f, e, from as int, to as int);
                        }
                    }
                }
            }
        }
        open += 1;
    }
    proof {
        assert forall|o: int, f: int, e: int| #[trigger] link_target_at(t@, o, f, e) implies !(start
            < e && f < end) by {
            if o >= open {
                assert(f > o);
            }
        }
    }
    false
}

/// What becomes of the match of `text` from byte `start` up to byte `end`.
pub fn expand_match<'a>(text: &'a str, start: usize, end: usize, expansion: &'a str) -> (r: &'a str)
    requires
        start <= end <= bytes_of(text@).len(),
        is_char_boundary(bytes_of(text@), start as int),
        is_char_boundary(bytes_of(text@), end as int),
    ensures
        bytes_of(r@) == match_expanded(
            bytes_of(text@),
            start as int,
            end as int,
            bytes_of(expansion@),
        ),
{
    if touches_link_target(text.as_bytes(), start, end) {
        slice(text, start, end)
    } else {
        expansion
    }
}

/// Puts into `text` what its matches become.
pub fn rewrite(text: &str, matches: &Vec<Match<'_>>) -> (r: String)
    requires
        ordered(bytes_of(text@), matches_view(matches@)),
    ensures
        bytes_of(r@) == rewritten(bytes_of(text@), matches_view(matches@)),
{
    let ghost t = bytes_of(text@);
    let ghost all = matches_view(matches@);
    let mut new_text = String::new();
    let mut from: usize = 0;
    let mut i: usize = 0;
    let len: usize = text.as_bytes().len();
    proof {
        encode_utf8_valid_utf8(text@);
        is_char_boundary_start_end_of_seq(t);
        lemma_bytes_empty(new_text@);
        assert(bytes_of(new_text@) =~= Seq::empty());
        assert(all.take(0) =~= Seq::empty());
    }
    while i < matches.len()
        invariant
            i <= matches@.len(),
            t == bytes_of(text@),
            all == matches_view(matches@),
            ordered(t, all),
            from == end_of(all.take(i as int)),
            from <= t.len(),
            is_char_boundary(t, from as int),
            bytes_of(new_text@) == replaced(t, all.take(i as int)),
        decreases matches@.len() - i,
    {
        let found = &matches[i];
        proof {
            assert(all[i as int] == found@);
            assert(all.take(i + 1).drop_last() =~= all.take(i as int));
            assert(all.take(i + 1).last() == all[i as int]);
            if i > 0 {
                assert(all.take(i as int).last() == all[i - 1]);
            }
        }
        let head = slice(text, from, found.start);
        let middle = expand_match(text, found.start, found.end, found.expansion);
        proof {
            lemma_bytes_concat(new_text@, head@);
            lemma_bytes_concat(new_text@ + head@, middle@);
        }
        new_text.append(head);
        new_text.append(middle);
        from = found.end;
        i += 1;
    }
    proof {
        assert(all.take(i as int) =~= all);
        assert(t.subrange(from as int, len as int) =~= t.skip(from as int));
    }
    let tail = slice(text, from, len);
    proof {
        lemma_bytes_concat(new_text@, tail@);
    }
    new_text.append(tail);
    new_text
}

/// Adds to `done` the matches of one table entry in what is left of `text` after them.
fn search_entry<'a>(
    text: &str,
    pattern: &str,
    expansion: &'a str,
    done: Vec<Match<'a>>,
) -> (r: Result<Vec<Match<'a>>, ShorthandError>)
    requires
        ordered(bytes_of(text@), matches_view(done@)),
    ensures
        match r {
            Ok(all) => exists|matches: Seq<MatchView>|
                matches_view(all@) == matches_view(done@) + matches && #[trigger] entry_searched(
                    bytes_of(text@),
                    end_of(matches_view(done@)),
                    pattern@,
                    JsonView::Str(expansion@),
                    Ok(matches),
                ),
            Err(error) => entry_searched(
                bytes_of(text@),
                end_of(matches_view(done@)),
                pattern@,
                JsonView::Str(expansion@),
                Err(error@),
            ),
        },
        r matches Ok(all) ==> ordered(bytes_of(text@), matches_view(all@)),
{
    let ghost t = bytes_of(text@);
    let ghost to = bytes_of(expansion@);
    let ghost before = matches_view(done@);
    let ghost first = end_of(before);
    let ghost mut found_here: Seq<MatchView> = Seq::empty();
    let len: usize = text.as_bytes().len();
    let mut from: usize = 0;
    if done.len() > 0 {
        from = done[done.len() - 1].end;
        proof {
            assert(before.last() == before[before.len() - 1]);
        }
    }
    let mut all = done;
    proof {
        encode_utf8_valid_utf8(text@);
        is_char_boundary_start_end_of_seq(t);
        assert(before + found_here =~= before);
        assert(forall|x: Seq<MatchView>| #[trigger] (found_here + x) =~= x);
    }
    loop
        invariant
            t == bytes_of(text@),
            to == bytes_of(expansion@),
            len == t.len(),
            from <= len,
            is_char_boundary(t, from as int),
            matches_view(all@) == before + found_here,
            from == end_of(matches_view(all@)),
            before == matches_view(done@),
            first == end_of(before),
            ordered(t, matches_view(all@)),
            matches_from(t, first, pattern@, to) == match matches_from(
                t,
                from as int,
                pattern@,
                to,
            ) {
                Some(rest) => Some(found_here + rest),
                None => None,
            },
        decreases len - from,
    {
        let ghost so_far = matches_view(all@);
        proof {
            encode_utf8_valid_utf8(text@);
            is_char_boundary_start_end_of_seq(t);
            assert(t.subrange(from as int, len as int) =~= t.skip(from as int));
        }
        let rest = slice(text, from, len);
        let found = match find_match(pattern, rest) {
            Ok(found) => found,
            Err(error) => {
                return Err(ShorthandError::BadPattern(pattern.to_owned(), error));
            },
        };
        match found {
            None => {
                proof {
                    assert(found_here + Seq::<MatchView>::empty() =~= found_here);
                    assert(entry_searched(
                        t,
                        first,
                        pattern@,
                        JsonView::Str(expansion@),
                        Ok(found_here),
                    ));
                }
                return Ok(all);
            },
            Some((start, end)) => {
                if end == 0 {
                    return Err(ShorthandError::EmptyMatch(pattern.to_owned()));
                }
                proof {
                    encode_utf8_valid_utf8(rest@);
                    lemma_boundary_of_suffix(t, from as int, start as int);
                    lemma_boundary_of_suffix(t, from as int, end as int);
                }
                let next = Match { start: from + start, end: from + end, expansion };
                let ghost one = next@;
                all.push(next);
                proof {
                    let new = matches_view(all@);
                    assert(new =~= so_far.push(one));
                    assert(new =~= before + found_here.push(one));
                    assert forall|i: int, j: int| 0 <= i < j < new.len() implies new[i].end
                        <= new[j].start by {
                        if j == so_far.len() {
                            assert(so_far[i].end <= so_far.last().end) by {
                                assert(so_far.last() == so_far[so_far.len() - 1]);
                                if i < so_far.len() - 1 {
                                    assert(so_far[i].end <= so_far[so_far.len() - 1].start);
                                }
                            }
                        } else {
                            assert(new[i] == so_far[i] && new[j] == so_far[j]);
                        }
                    }
                    assert forall|i: int| 0 <= i < new.len() implies {
                        &&& 0 <= (#[trigger] new[i]).start <= new[i].end <= t.len()
                        &&& is_char_boundary(t, new[i].start)
                        &&& is_char_boundary(t, new[i].end)
                    } by {
                        if i < so_far.len() {
                            assert(new[i] == so_far[i]);
                        }
                    }
                    assert(forall|x: Seq<MatchView>|
                        #[trigger] (found_here + (seq![one] + x)) =~= found_here.push(one) + x);
                    found_here = found_here.push(one);
                }
                from = from + end;
            },
        }
    }
}

/// Adds to `done` the matches of the entries of a table from the one at `first` on.
fn search_entries<'a>(
    text: &str,
    entries: &'a JsonMap,
    first: usize,
    done: Vec<Match<'a>>,
) -> (r: Result<Vec<Match<'a>>, ShorthandError>)
    requires
        first <= entries@.len(),
        ordered(bytes_of(text@), matches_view(done@)),
    ensures
        searched(
            bytes_of(text@),
            matches_view(done@),
            entries@.skip(first as int),
            search_view(r),
        ),
        r matches Ok(all) ==> ordered(bytes_of(text@), matches_view(all@)),
    decreases entries@.len() - first,
{
    if first >= entries.len() {
        return Ok(done);
    }
    let ghost t = bytes_of(text@);
    let ghost before = matches_view(done@);
    let ghost rest = entries@.skip(first as int);
    let key = entries.key_at(first);
    proof {
        assert(rest[0] == entries@[first as int]);
        assert(rest.drop_first() =~= entries@.skip(first + 1));
    }
    match entries.value_at(first).as_str() {
        None => Err(ShorthandError::NotText(key.to_owned())),
        Some(expansion) => match search_entry(text, key, expansion, done) {
            Err(error) => Err(error),
            Ok(all) => {
                proof {
                    let matches = choose|matches: Seq<MatchView>|
                        matches_view(all@) == before + matches && #[trigger] entry_searched(
                            t,
                            end_of(before),
                            key@,
                            JsonView::Str(expansion@),
                            Ok(matches),
                        );
                    assert(entry_searched(t, end_of(before), rest[0].0, rest[0].1, Ok(matches)));
                }
                search_entries(text, entries, first + 1, all)
            },
        },
    }
}

/// Expands the shorthand of `table` in `text`: every match of a key gives way to its value,
/// unless it lies in the target of a link. A key is looked for in what is left of the text after
/// the last match of the keys before it.
///
/// A key that can be a regular expression can still be refused, for its size, and a search can
/// come to no end.
pub fn expand_shorthand(text: &str, table: &Json) -> (r: Result<String, ShorthandError>)
    requires
        table_fits(table@),
    ensures
        expanded(bytes_of(text@), table@->Object_0, outcome_view(r)),
        r matches Err(error) ==> error is BadPattern || error is EmptyMatch,
        r matches Ok(new_text) ==> targets_kept(bytes_of(text@), bytes_of(new_text@)),
{
    let entries: &JsonMap = match table {
        Json::Object(entries) => entries,
        _ => {
            return Err(ShorthandError::NotATable);
        },
    };
    let none: Vec<Match<'_>> = Vec::new();
    proof {
        assert(table@ == JsonView::Object(entries@));
        assert(entries@.skip(0) =~= entries@);
        assert(matches_view(none@) =~= Seq::empty());
    }
    let search = search_entries(text, entries, 0, none);
    let ghost searched_for = search_view(search);
    proof {
        assert(searched(bytes_of(text@), Seq::empty(), entries@, searched_for));
        lemma_search_failures(bytes_of(text@), Seq::empty(), entries@, searched_for);
    }
    match search {
        Ok(matches) => {
            proof {
                law_link_targets_kept(bytes_of(text@), matches_view(matches@));
            }
            Ok(rewrite(text, &matches))
        },
        Err(error) => Err(error),
    }
}

/// Where the entries of a table fit, a search fails at a key alone.
proof fn lemma_search_failures(
    t: Seq<u8>,
    done: Seq<MatchView>,
    entries: Fields,
    search: Search,
)
    requires
        searched(t, done, entries, search),
        entries_fit(entries, entries.len() as int),
    ensures
        search matches Err(failure) ==> failure is BadPattern || failure is EmptyMatch,
    decreases entries.len(),
{
    if entries.len() > 0 {
        let (key, value) = entries[0];
        assert(entry_fits(entries[0].0, entries[0].1));
        if !(search is Err && entry_searched(t, end_of(done), key, value, search)) {
            let matches = choose|matches: Seq<MatchView>|
                #[trigger] entry_searched(t, end_of(done), key, value, Ok(matches)) && searched(
                    t,
                    done + matches,
                    entries.drop_first(),
                    search,
                );
            let rest = entries.drop_first();
            assert forall|i: int| 0 <= i < rest.len() implies entry_fits(
                (#[trigger] rest[i]).0,
                rest[i].1,
            ) by {
                assert(rest[i] == entries[i + 1]);
            }
            lemma_search_failures(t, done + matches, rest, search);
        }
    }
}

/// What is wrong with a table, if anything is.
pub fn check_table(table: &Json) -> (r: Option<ShorthandError>)
    ensures
        match r {
            None => table_fits(table@),
            Some(error) => table_refused(table@, error@),
        },
{
    let entries: &JsonMap = match table {
        Json::Object(entries) => entries,
        _ => {
            return Some(ShorthandError::NotATable);
        },
    };
    let mut i: usize = 0;
    while i < entries.len()
        invariant
            i <= entries@.len(),
            table@ == JsonView::Object(entries@),
            entries_fit(entries@, i as int),
        decreases entries@.len() - i,
    {
        let key = entries.key_at(i);
        if entries.value_at(i).as_str().is_none() {
            let error = ShorthandError::NotText(key.to_owned());
            proof {
                assert(entry_refused(table@->Object_0, i as int, error@));
            }
            return Some(error);
        }
        if let Err(error) = find_match(key, "") {
            let error = ShorthandError::BadPattern(key.to_owned(), error);
            proof {
                assert(entry_refused(table@->Object_0, i as int, error@));
            }
            return Some(error);
        }
        i += 1;
    }
    None
}

/// Expands the shorthand of `table` in `text`, whatever the table holds.
pub fn try_expand_shorthand(text: &str, table: &Json) -> (r: Result<String, ShorthandError>)
    ensures
        table_fits(table@) && expanded(bytes_of(text@), table@->Object_0, outcome_view(r)) || (
        r matches Err(error) && table_refused(table@, error@)),
{
    match check_table(table) {
        Some(error) => Err(error),
        None => expand_shorthand(text, table),
    }
}

/// A text in which no key of a table has a match stays as it is, where every key is accepted.
pub proof fn law_no_match_no_change(
    t: Seq<u8>,
    entries: Fields,
    outcome: Result<Seq<u8>, ShorthandFailure>,
)
    requires
        forall|i: int|
            0 <= i < entries.len() ==> !regex_reply((#[trigger] entries[i]).0, false)
                && regex_match(entries[i].0, t) is None && entries[i].1 is Str,
        expanded(t, entries, outcome),
    ensures
        outcome == Ok::<Seq<u8>, ShorthandFailure>(t),
{
    let search = choose|search: Search|
        #[trigger] searched(t, Seq::empty(), entries, search) && outcome == outcome_of(t, search);
    lemma_no_match_found(t, entries, search);
    assert(rewritten(t, Seq::empty()) =~= t);
}

proof fn lemma_no_match_found(t: Seq<u8>, entries: Fields, search: Search)
    requires
        forall|i: int|
            0 <= i < entries.len() ==> !regex_reply((#[trigger] entries[i]).0, false)
                && regex_match(entries[i].0, t) is None && entries[i].1 is Str,
        searched(t, Seq::empty(), entries, search),
    ensures
        search == Ok::<Seq<MatchView>, ShorthandFailure>(Seq::empty()),
    decreases entries.len(),
{
    if entries.len() > 0 {
        assert(t.skip(0) =~= t);
        assert(entries[0].1 is Str);
        let none = Seq::<MatchView>::empty();
        let rest = entries.drop_first();
        assert forall|i: int| 0 <= i < rest.len() implies !regex_reply(
            (#[trigger] rest[i]).0,
            false,
        ) && regex_match(rest[i].0, t) is None && rest[i].1 is Str by {
            assert(rest[i] == entries[i + 1]);
        }
        assert(none + none =~= none);
        lemma_no_match_found(t, rest, search);
    }
}

/// Where every key of a table is accepted, one thing only can come of expanding a text.
pub proof fn law_accepted_keys_settle(
    t: Seq<u8>,
    entries: Fields,
    a: Result<Seq<u8>, ShorthandFailure>,
    b: Result<Seq<u8>, ShorthandFailure>,
)
    requires
        forall|i: int| 0 <= i < entries.len() ==> !regex_reply((#[trigger] entries[i]).0, false),
        expanded(t, entries, a),
        expanded(t, entries, b),
    ensures
        a == b,
{
    let none = Seq::<MatchView>::empty();
    let x = choose|x: Search| #[trigger] searched(t, none, entries, x) && a == outcome_of(t, x);
    let y = choose|y: Search| #[trigger] searched(t, none, entries, y) && b == outcome_of(t, y);
    lemma_searches_agree(t, none, entries, x, y);
}

proof fn lemma_searches_agree(
    t: Seq<u8>,
    done: Seq<MatchView>,
    entries: Fields,
    a: Search,
    b: Search,
)
    requires
        forall|i: int| 0 <= i < entries.len() ==> !regex_reply((#[trigger] entries[i]).0, false),
        searched(t, done, entries, a),
        searched(t, done, entries, b),
    ensures
        a == b,
    decreases entries.len(),
{
    if entries.len() > 0 {
        let (key, value) = entries[0];
        assert(!regex_reply(entries[0].0, false));
        let rest = entries.drop_first();
        assert forall|i: int| 0 <= i < rest.len() implies !regex_reply(
            (#[trigger] rest[i]).0,
            false,
        ) by {
            assert(rest[i] == entries[i + 1]);
        }
        if exists|m: Seq<MatchView>| #[trigger] entry_searched(t, end_of(done), key, value, Ok(m)) {
            let m = choose|m: Seq<MatchView>| #[trigger]
                entry_searched(t, end_of(done), key, value, Ok(m));
            lemma_searches_agree(t, done + m, rest, a, b);
        }
    }
}

/// `part` stands somewhere in `whole`.
pub open spec fn occurs_in(part: Seq<u8>, whole: Seq<u8>) -> bool {
    exists|p: int| #[trigger] occurs_at(part, whole, p)
}

/// `part` stands in `whole` at `p`.
pub open spec fn occurs_at(part: Seq<u8>, whole: Seq<u8>, p: int) -> bool {
    0 <= p && p + part.len() <= whole.len() && whole.subrange(p, p + part.len()) == part
}

proof fn lemma_occurs_in_longer(part: Seq<u8>, a: Seq<u8>, b: Seq<u8>)
    requires
        occurs_in(part, a),
    ensures
        occurs_in(part, a + b),
{
    let p = choose|p: int| #[trigger] occurs_at(part, a, p);
    assert((a + b).subrange(p, p + part.len()) =~= a.subrange(p, p + part.len()));
    assert(occurs_at(part, a + b, p));
}

/// What has become of the target from `f` up to `to` once the text up to `end` was rewritten into
/// `new`: all of it stands there, or the part of it before `end` stands last.
pub open spec fn target_held(t: Seq<u8>, f: int, to: int, end: int, new: Seq<u8>) -> bool {
    &&& to <= end ==> occurs_in(t.subrange(f, to), new)
    &&& f < end < to ==> new.len() >= end - f && new.skip(new.len() - (end - f)) == t.subrange(
        f,
        end,
    )
}

/// A target that is held stays so while bytes are copied.
proof fn lemma_target_held_copying(
    t: Seq<u8>,
    f: int,
    to: int,
    end: int,
    new: Seq<u8>,
    next: int,
)
    requires
        0 <= f < to <= t.len(),
        0 <= end <= next <= t.len(),
        target_held(t, f, to, end, new),
    ensures
        target_held(t, f, to, next, new + t.subrange(end, next)),
{
    let longer = new + t.subrange(end, next);
    let target = t.subrange(f, to);
    if to <= end {
        lemma_occurs_in_longer(target, new, t.subrange(end, next));
    } else {
        // Where the copy of the byte at `f` stands, or would.
        let p = new.len() - end + f;
        if f < end {
            assert forall|y: int| p <= y < new.len() implies #[trigger] new[y] == t[y - p + f] by {
                assert(new.skip(p)[y - p] == t.subrange(f, end)[y - p]);
            }
        }
        if to <= next {
            assert(longer.subrange(p, p + target.len()) =~= target);
            assert(occurs_at(target, longer, p));
        } else if f < next {
            assert(longer.skip(longer.len() - (next - f)) =~= t.subrange(f, next));
        }
    }
}

proof fn lemma_target_held(
    t: Seq<u8>,
    matches: Seq<MatchView>,
    open: int,
    f: int,
    to: int,
)
    requires
        link_target_at(t, open, f, to),
        f < to,
        ordered(t, matches),
    ensures
        0 <= end_of(matches) <= t.len(),
        target_held(t, f, to, end_of(matches), replaced(t, matches)),
    decreases matches.len(),
{
    if matches.len() > 0 {
        let before = matches.drop_last();
        let last = matches.last();
        assert(last == matches[matches.len() - 1]);
        assert forall|i: int| 0 <= i < before.len() implies #[trigger] before[i] == matches[i] by {}
        assert(ordered(t, before));
        lemma_target_held(t, before, open, f, to);
        let p = end_of(before);
        if before.len() > 0 {
            assert(before.last() == matches[before.len() - 1]);
        }
        let copied = replaced(t, before) + t.subrange(p, last.start);
        lemma_target_held_copying(t, f, to, p, replaced(t, before), last.start);
        if in_link_target(t, last.start, last.end) {
            lemma_target_held_copying(t, f, to, last.start, copied, last.end);
        } else {
            if last.start < to && f < last.end {
                assert(link_target_at(t, open, f, to));
                assert(in_link_target(t, last.start, last.end));
            }
            if to <= last.start {
                lemma_occurs_in_longer(t.subrange(f, to), copied, last.expansion);
            }
        }
    }
}

/// The target of every link of `t` stands whole in `new`.
pub open spec fn targets_kept(t: Seq<u8>, new: Seq<u8>) -> bool {
    forall|open: int, from: int, to: int| #[trigger]
        link_target_at(t, open, from, to) ==> occurs_in(t.subrange(from, to), new)
}

/// Rewriting leaves the target of every link whole.
pub proof fn law_link_targets_kept(t: Seq<u8>, matches: Seq<MatchView>)
    requires
        ordered(t, matches),
    ensures
        targets_kept(t, rewritten(t, matches)),
{
    let new = rewritten(t, matches);
    assert forall|open: int, from: int, to: int| #[trigger]
        link_target_at(t, open, from, to) implies occurs_in(t.subrange(from, to), new) by {
        if from < to {
            lemma_target_held(t, matches, open, from, to);
            let end = end_of(matches);
            lemma_target_held_copying(t, from, to, end, replaced(t, matches), t.len() as int);
            assert(t.subrange(end, t.len() as int) =~= t.skip(end));
        } else {
            assert(new.subrange(0, 0) =~= t.subrange(from, to));
            assert(occurs_at(t.subrange(from, to), new, 0));
        }
    }
}

/// A match that touches no link target gives way to the expansion, and one that does stays. The
/// target of a link is what stands between a `](` and the next `)`, where the words before are one
/// or more bytes after a `[` without a `]`.
pub proof fn law_prose_expands_and_targets_stay(
    t: Seq<u8>,
    start: int,
    end: int,
    expansion: Seq<u8>,
    open: int,
    from: int,
    to: int,
)
    requires
        0 <= start <= end <= t.len(),
    ensures
        (forall|o: int, f: int, e: int|
            #![trigger t[o], t[f], t[e]]
            0 <= o && o + 3 < f <= e < t.len() && t[o] == 91 && (forall|x: int|
                o < x < f - 2 ==> t[x] != 93) && t[f - 2] == 93 && t[f - 1] == 40 && (forall|
                x: int,
            |
                f <= x < e ==> t[x] != 41) && t[e] == 41 ==> !(start < e && f < end))
            ==> match_expanded(t, start, end, expansion) == expansion,
        0 <= open && open + 3 < from <= to < t.len() && t[open] == 91 && (forall|x: int|
            open < x < from - 2 ==> t[x] != 93) && t[from - 2] == 93 && t[from - 1] == 40 && (forall|
            x: int,
        |
            from <= x < to ==> t[x] != 41) && t[to] == 41 && start < to && from < end
            ==> match_expanded(t, start, end, expansion) == t.subrange(start, end),
{
    if in_link_target(t, start, end) {
        let (o, f, e) = choose|o: int, f: int, e: int|
            #[trigger] link_target_at(t, o, f, e) && start < e && f < end;
        let (x, y, z) = (t[o], t[f], t[e]);
    }
    if 0 <= open && open + 3 < from <= to < t.len() && t[open] == 91 && (forall|x: int|
        open < x < from - 2 ==> t[x] != 93) && t[from - 2] == 93 && t[from - 1] == 40 && (forall|
        x: int,
    |
        from <= x < to ==> t[x] != 41) && t[to] == 41 && start < to && from < end {
        assert(link_target_at(t, open, from, to));
    }
}

/// `from` is where the search for the match at `i` begins: where the one before it ends, or at
/// `first`.
pub open spec fn search_start(matches: Seq<MatchView>, first: int, i: int) -> int {
    if i == 0 {
        first
    } else {
        matches[i - 1].end
    }
}

/// The matches of a key are found one after the other: each is the match of the expression in
/// what is left after the one before, and after the last there is none. They all expand to the
/// same.
pub proof fn law_matches_follow_each_other(
    t: Seq<u8>,
    from: int,
    pattern: Seq<char>,
    expansion: Seq<u8>,
)
    requires
        matches_from(t, from, pattern, expansion) is Some,
    ensures
        ({
            let matches = matches_from(t, from, pattern, expansion)->0;
            &&& forall|i: int|
                0 <= i < matches.len() ==> {
                    let start = search_start(matches, from, i);
                    &&& (#[trigger] matches[i]).expansion == expansion
                    &&& start < matches[i].end
                    &&& regex_match(pattern, t.skip(start)) == Some(
                        (matches[i].start - start, matches[i].end - start),
                    )
                }
            &&& regex_match(
                pattern,
                t.skip(search_start(matches, from, matches.len() as int)),
            ) is None
        }),
    decreases t.len() - from,
{
    let matches = matches_from(t, from, pattern, expansion)->0;
    if let Some((s, e)) = regex_match(pattern, t.skip(from)) {
        let rest = matches_from(t, from + e, pattern, expansion)->0;
        let first = MatchView { start: from + s, end: from + e, expansion };
        law_matches_follow_each_other(t, from + e, pattern, expansion);
        assert(matches =~= seq![first] + rest);
        assert forall|i: int| 0 <= i < matches.len() implies {
            let start = search_start(matches, from, i);
            &&& (#[trigger] matches[i]).expansion == expansion
            &&& start < matches[i].end
            &&& regex_match(pattern, t.skip(start)) == Some(
                (matches[i].start - start, matches[i].end - start),
            )
        } by {
            if i > 0 {
                assert(matches[i] == rest[i - 1]);
                assert(search_start(matches, from, i) == search_start(rest, from + e, i - 1));
            }
        }
        assert(search_start(matches, from, matches.len() as int) == search_start(
            rest,
            from + e,
            rest.len() as int,
        ));
    }
}

/// `all` is `done` and then, for each entry of a table in turn, the matches of its key in what is
/// left after those before; those of the entry at `k` are from `ends[k]` up to `ends[k + 1]`.
pub open spec fn found_in_turn(
    t: Seq<u8>,
    done: Seq<MatchView>,
    entries: Fields,
    all: Seq<MatchView>,
    ends: Seq<int>,
) -> bool {
    &&& ends.len() == entries.len() + 1
    &&& ends[0] == done.len()
    &&& ends.last() == all.len()
    &&& done.len() <= all.len() && all.take(done.len() as int) == done
    &&& forall|k: int|
        #![trigger entries[k]]
        0 <= k < entries.len() ==> {
            &&& done.len() <= ends[k] <= ends[k + 1] <= all.len()
            &&& regex_reply(entries[k].0, true)
            &&& entries[k].1 matches JsonView::Str(expansion) && matches_from(
                t,
                end_of(all.take(ends[k])),
                entries[k].0,
                bytes_of(expansion),
            ) == Some(all.subrange(ends[k], ends[k + 1]))
        }
}

/// The keys of a table are looked for in turn, each in what is left of the text after the last
/// match of the keys before it, and the matches are all that are found in this way.
pub proof fn law_keys_take_turns(
    t: Seq<u8>,
    done: Seq<MatchView>,
    entries: Fields,
    all: Seq<MatchView>,
)
    requires
        searched(t, done, entries, Ok(all)),
    ensures
        exists|ends: Seq<int>| #[trigger] found_in_turn(t, done, entries, all, ends),
    decreases entries.len(),
{
    if entries.len() == 0 {
        assert(all.take(done.len() as int) =~= done);
        assert(found_in_turn(t, done, entries, all, seq![done.len() as int]));
    } else {
        let (key, value) = entries[0];
        let rest = entries.drop_first();
        let matches = choose|matches: Seq<MatchView>|
            #[trigger] entry_searched(t, end_of(done), key, value, Ok(matches)) && searched(
                t,
                done + matches,
                rest,
                Ok(all),
            );
        law_keys_take_turns(t, done + matches, rest, all);
        let later = choose|ends: Seq<int>| #[trigger]
            found_in_turn(t, done + matches, rest, all, ends);
        let ends = seq![done.len() as int] + later;
        let both = (done + matches).len() as int;
        assert(all.take(done.len() as int) =~= all.take(both).take(done.len() as int));
        assert((done + matches).take(done.len() as int) =~= done);
        assert(all.subrange(done.len() as int, both) =~= all.take(both).skip(done.len() as int));
        assert((done + matches).skip(done.len() as int) =~= matches);
        assert(ends.last() == later.last());
        assert forall|k: int| #![trigger entries[k]] 0 <= k < entries.len() implies {
            &&& done.len() <= ends[k] <= ends[k + 1] <= all.len()
            &&& regex_reply(entries[k].0, true)
            &&& entries[k].1 matches JsonView::Str(expansion) && matches_from(
                t,
                end_of(all.take(ends[k])),
                entries[k].0,
                bytes_of(expansion),
            ) == Some(all.subrange(ends[k], ends[k + 1]))
        } by {
            if k > 0 {
                assert(rest[k - 1] == entries[k]);
                assert(ends[k] == later[k - 1]);
                assert(ends[k + 1] == later[k]);
            }
        }
        assert(found_in_turn(t, done, entries, all, ends));
    }
}

/// Where each match of `t` stands in `new`, `at` gives: there is what became of it, and before the
/// first, between any two that follow each other and after the last the two texts agree.
pub open spec fn matches_replaced(
    t: Seq<u8>,
    matches: Seq<MatchView>,
    new: Seq<u8>,
    at: Seq<int>,
) -> bool {
    &&& at.len() == matches.len()
    &&& matches.len() == 0 ==> new == t
    &&& forall|i: int|
        #![trigger matches[i]]
        0 <= i < matches.len() ==> {
            let what = match_expanded(t, matches[i].start, matches[i].end, matches[i].expansion);
            &&& 0 <= at[i] && at[i] + what.len() <= new.len()
            &&& new.subrange(at[i], at[i] + what.len()) == what
            &&& i == 0 ==> at[i] == matches[i].start && new.take(at[i]) == t.take(matches[i].start)
            &&& i == matches.len() - 1 ==> new.skip(at[i] + what.len()) == t.skip(matches[i].end)
            &&& i + 1 < matches.len() ==> {
                let next = matches[i + 1];
                &&& at[i + 1] - (at[i] + what.len()) == next.start - matches[i].end
                &&& new.subrange(at[i] + what.len(), at[i + 1]) == t.subrange(
                    matches[i].end,
                    next.start,
                )
            }
        }
}

/// Where each match stands in the rewritten text.
pub open spec fn places(t: Seq<u8>, matches: Seq<MatchView>) -> Seq<int> {
    Seq::new(
        matches.len(),
        |i: int|
            replaced(t, matches.take(i)).len() + matches[i].start - end_of(matches.take(i)),
    )
}

proof fn lemma_replaced_prefix(t: Seq<u8>, matches: Seq<MatchView>, i: int)
    requires
        0 <= i <= matches.len(),
        ordered(t, matches),
    ensures
        replaced(t, matches).len() >= replaced(t, matches.take(i)).len(),
        replaced(t, matches).take(replaced(t, matches.take(i)).len() as int) == replaced(
            t,
            matches.take(i),
        ),
        0 <= end_of(matches) <= t.len(),
    decreases matches.len(),
{
    let head = replaced(t, matches.take(i));
    if i == matches.len() {
        assert(matches.take(i) =~= matches);
        assert(head.take(head.len() as int) =~= head);
        if matches.len() > 0 {
            assert(matches.last() == matches[matches.len() - 1]);
        }
    } else {
        let before = matches.drop_last();
        assert(matches.last() == matches[matches.len() - 1]);
        assert forall|k: int| 0 <= k < before.len() implies #[trigger] before[k] == matches[k] by {}
        assert(ordered(t, before));
        lemma_replaced_prefix(t, before, i);
        assert(before.take(i) =~= matches.take(i));
        assert(replaced(t, matches).take(head.len() as int) =~= replaced(t, before).take(
            head.len() as int,
        ));
    }
}

/// Rewriting changes the matches and nothing else: each becomes what it expands to, or stays, and
/// every other byte of the text stays, in its order.
pub proof fn law_only_matches_change(t: Seq<u8>, matches: Seq<MatchView>)
    requires
        ordered(t, matches),
    ensures
        exists|at: Seq<int>| #[trigger]
            matches_replaced(t, matches, rewritten(t, matches), at),
{
    let new = rewritten(t, matches);
    let at = places(t, matches);
    let n = matches.len() as int;
    if n == 0 {
        assert(new =~= t);
    }
    assert forall|i: int| #![trigger matches[i]] 0 <= i < matches.len() implies {
        let what = match_expanded(t, matches[i].start, matches[i].end, matches[i].expansion);
        &&& 0 <= at[i] && at[i] + what.len() <= new.len()
        &&& new.subrange(at[i], at[i] + what.len()) == what
        &&& i == 0 ==> at[i] == matches[i].start && new.take(at[i]) == t.take(matches[i].start)
        &&& i == matches.len() - 1 ==> new.skip(at[i] + what.len()) == t.skip(matches[i].end)
        &&& i + 1 < matches.len() ==> {
            let next = matches[i + 1];
            &&& at[i + 1] - (at[i] + what.len()) == next.start - matches[i].end
            &&& new.subrange(at[i] + what.len(), at[i + 1]) == t.subrange(
                matches[i].end,
                next.start,
            )
        }
    } by {
        lemma_match_in_place(t, matches, i);
    }
    assert(matches_replaced(t, matches, new, at));
}

proof fn lemma_match_in_place(t: Seq<u8>, matches: Seq<MatchView>, i: int)
    requires
        ordered(t, matches),
        0 <= i < matches.len(),
    ensures
        ({
            let new = rewritten(t, matches);
            let at = places(t, matches);
            let what = match_expanded(t, matches[i].start, matches[i].end, matches[i].expansion);
            &&& 0 <= at[i] && at[i] + what.len() <= new.len()
            &&& new.subrange(at[i], at[i] + what.len()) == what
            &&& i == 0 ==> at[i] == matches[i].start && new.take(at[i]) == t.take(matches[i].start)
            &&& i == matches.len() - 1 ==> new.skip(at[i] + what.len()) == t.skip(matches[i].end)
            &&& i + 1 < matches.len() ==> {
                let next = matches[i + 1];
                &&& at[i + 1] - (at[i] + what.len()) == next.start - matches[i].end
                &&& new.subrange(at[i] + what.len(), at[i + 1]) == t.subrange(
                    matches[i].end,
                    next.start,
                )
            }
        }),
{
    let new = rewritten(t, matches);
    let at = places(t, matches);
    let what = match_expanded(t, matches[i].start, matches[i].end, matches[i].expansion);
    let before = matches.take(i);
    let upto = matches.take(i + 1);
    let a = replaced(t, before);
    let b = replaced(t, upto);
    let p = end_of(before);
    assert(upto.drop_last() =~= before);
    assert(upto.last() == matches[i]);
    if i > 0 {
        assert(before.last() == matches[i - 1]);
    }
    let gap = t.subrange(p, matches[i].start);
    assert(b =~= a + gap + what);
    assert(at[i] == a.len() + gap.len());
    lemma_replaced_prefix(t, matches, i + 1);
    let whole = replaced(t, matches);
    assert forall|x: int| 0 <= x < b.len() implies #[trigger] new[x] == b[x] by {
        assert(whole.take(b.len() as int)[x] == b[x]);
    }
    assert(new.subrange(at[i], at[i] + what.len()) =~= what);
    if i == 0 {
        assert(before =~= Seq::empty());
        assert(new.take(at[i]) =~= t.take(matches[i].start));
    }
    if i == matches.len() - 1 {
        assert(upto =~= matches);
        assert(new.skip(at[i] + what.len()) =~= t.skip(matches[i].end));
    } else {
        let next = matches[i + 1];
        let after = matches.take(i + 2);
        let c = replaced(t, after);
        assert(after.drop_last() =~= upto);
        assert(after.last() == next);
        lemma_replaced_prefix(t, matches, i + 2);
        assert forall|x: int| 0 <= x < c.len() implies #[trigger] new[x] == c[x] by {
            assert(whole.take(c.len() as int)[x] == c[x]);
        }
        let between = t.subrange(matches[i].end, next.start);
        assert(at[i + 1] == b.len() + between.len());
        assert(new.subrange(at[i] + what.len(), at[i + 1]) =~= between);
    }
}

/// A search fails for what is wrong with one of the entries: its value is no text, its key is
/// refused, or its key meets an empty match where the search for its next match begins.
pub proof fn law_an_entry_fails_the_search(
    t: Seq<u8>,
    done: Seq<MatchView>,
    entries: Fields,
    failure: ShorthandFailure,
)
    requires
        searched(t, done, entries, Err(failure)),
    ensures
        exists|k: int|
            #![trigger entries[k]]
            0 <= k < entries.len() && match failure {
                ShorthandFailure::NotATable => false,
                ShorthandFailure::NotText(key) => entries[k].0 == key && !(entries[k].1 is Str),
                ShorthandFailure::BadPattern(key) => entries[k].0 == key && regex_reply(key, false),
                ShorthandFailure::EmptyMatch(key) => entries[k].0 == key && (
                entries[k].1 matches JsonView::Str(expansion) && exists|from: int| #[trigger]
                    matches_from(t, from, key, bytes_of(expansion)) is None),
            },
    decreases entries.len(),
{
    let (key, value) = entries[0];
    if entry_searched(t, end_of(done), key, value, Err(failure)) {
        assert(entries[0].0 == key);
    } else {
        let rest = entries.drop_first();
        let matches = choose|matches: Seq<MatchView>|
            #[trigger] entry_searched(t, end_of(done), key, value, Ok(matches)) && searched(
                t,
                done + matches,
                rest,
                Err(failure),
            );
        law_an_entry_fails_the_search(t, done + matches, rest, failure);
        let k = choose|k: int|
            #![trigger rest[k]]
            0 <= k < rest.len() && match failure {
                ShorthandFailure::NotATable => false,
                ShorthandFailure::NotText(key) => rest[k].0 == key && !(rest[k].1 is Str),
                ShorthandFailure::BadPattern(key) => rest[k].0 == key && regex_reply(key, false),
                ShorthandFailure::EmptyMatch(key) => rest[k].0 == key && (
                rest[k].1 matches JsonView::Str(expansion) && exists|from: int| #[trigger]
                    matches_from(t, from, key, bytes_of(expansion)) is None),
            };
        assert(entries[k + 1] == rest[k]);
    }
}

/// A table is refused for what is wrong with it: it is no object, or one of its values is no text
/// or one of its keys is refused. A table that fits has none of these but keys that might be.
pub proof fn law_tables_are_refused_for_cause(table: JsonView, failure: ShorthandFailure)
    ensures
        table_refused(table, failure) ==> match failure {
            ShorthandFailure::NotATable => !(table is Object),
            ShorthandFailure::NotText(key) => table matches JsonView::Object(entries) && exists|
                i: int,
            |
                0 <= i < entries.len() && (#[trigger] entries[i]).0 == key && !(entries[i].1 is Str),
            ShorthandFailure::BadPattern(key) => regex_reply(key, false) && (
            table matches JsonView::Object(entries) && exists|i: int|
                0 <= i < entries.len() && (#[trigger] entries[i]).0 == key),
            ShorthandFailure::EmptyMatch(_) => false,
        },
        table_fits(table) <==> (table matches JsonView::Object(entries) && forall|i: int|
            0 <= i < entries.len() ==> (#[trigger] entries[i]).1 is Str && regex_reply(
                entries[i].0,
                true,
            )),
{
    if table_refused(table, failure) {
        if let JsonView::Object(entries) = table {
            let i = choose|i: int| #[trigger] entry_refused(entries, i, failure);
            assert(entries[i].0 == entries[i].0);
        }
    }
    if let JsonView::Object(entries) = table {
        if table_fits(table) {
            assert forall|i: int| 0 <= i < entries.len() implies (#[trigger] entries[i]).1 is Str
                && regex_reply(entries[i].0, true) by {
                assert(entry_fits(entries[i].0, entries[i].1));
            }
        }
        if forall|i: int|
            0 <= i < entries.len() ==> (#[trigger] entries[i]).1 is Str && regex_reply(
                entries[i].0,
                true,
            ) {
            assert forall|i: int| 0 <= i < entries.len() implies entry_fits(
                (#[trigger] entries[i]).0,
                entries[i].1,
            ) by {}
        }
    }
}

/// What is expanded is what was found, written into the text.
pub proof fn law_expanding_is_searching_and_rewriting(
    t: Seq<u8>,
    entries: Fields,
    outcome: Result<Seq<u8>, ShorthandFailure>,
)
    requires
        expanded(t, entries, outcome),
    ensures
        match outcome {
            Ok(new) => exists|matches: Seq<MatchView>|
                searched(t, Seq::empty(), entries, Ok(matches)) && new == #[trigger] rewritten(
                    t,
                    matches,
                ),
            Err(failure) => searched(t, Seq::empty(), entries, Err(failure)),
        },
{
    let search = choose|search: Search|
        #[trigger] searched(t, Seq::empty(), entries, search) && outcome == outcome_of(t, search);
    if let Ok(matches) = search {
        assert(rewritten(t, matches) == outcome->Ok_0);
    }
}

/// Matches are taken one by one, and a result is taken whole.
pub proof fn law_matches_are_the_list(matches: Seq<Match<'_>>, text: String, error: ShorthandError)
    ensures
        matches_view(matches).len() == matches.len(),
        forall|i: int|
            0 <= i < matches.len() ==> {
                let found = #[trigger] matches_view(matches)[i];
                &&& found.start == matches[i].start
                &&& found.end == matches[i].end
                &&& found.expansion == bytes_of(matches[i].expansion@)
            },
        outcome_view(Ok(text)) == Ok::<Seq<u8>, ShorthandFailure>(bytes_of(text@)),
        outcome_view(Err(error)) == Err::<Seq<u8>, ShorthandFailure>(error@),
{
}

/// The search of a key fails only where it meets, at a place where it looks for the next match, one
/// that is empty and stands right there (or none that lies in the text).
pub proof fn law_only_empty_matches_fail(
    t: Seq<u8>,
    from: int,
    pattern: Seq<char>,
    expansion: Seq<u8>,
)
    requires
        0 <= from <= t.len(),
        matches_from(t, from, pattern, expansion) is None,
    ensures
        exists|p: int|
            from <= p <= t.len() && (regex_match(pattern, #[trigger] t.skip(p)) matches Some((s, e))
                && (e == 0 || !(0 <= s <= e <= t.len() - p))),
    decreases t.len() - from,
{
    if let Some((s, e)) = regex_match(pattern, t.skip(from)) {
        if 0 <= s <= e && 0 < e && from + e <= t.len() {
            law_only_empty_matches_fail(t, from + e, pattern, expansion);
        } else {
            assert(from <= from <= t.len());
        }
    }
}

} // verus!
