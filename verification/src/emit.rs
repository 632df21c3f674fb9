//! Writing a site: what is put where, and in which order.

use crate::site::{listing, Directory, Listing, Node, NodeView};
use vstd::prelude::*;
use vstd::string::*;

verus! {

/// One step of writing a site: whatever stands at `path` is taken away with all that is below it,
/// and then a page is put there or, where there is none, a directory is made.
#[derive(Debug)]
pub struct EmitStep<'a> {
    /// The names that lead there from the directory to which the site is written.
    pub path: Vec<&'a str>,
    /// The content of the page.
    pub page: Option<&'a str>,
}

/// The mathematical value of an [`EmitStep`].
#[verifier::ext_equal]
pub struct StepView {
    pub path: Seq<Seq<char>>,
    pub page: Option<Seq<char>>,
}

/// Names, by their characters.
pub open spec fn names(list: Seq<&str>) -> Seq<Seq<char>> {
    Seq::new(list.len(), |i: int| list[i]@)
}

impl EmitStep<'_> {
    pub open spec fn view(&self) -> StepView {
        StepView {
            path: names(self.path@),
            page: match self.page {
                Some(html) => Some(html@),
                None => None,
            },
        }
    }
}

/// Steps, by what they do.
pub open spec fn steps_view(steps: Seq<EmitStep<'_>>) -> Seq<StepView> {
    Seq::new(steps.len(), |i: int| steps[i]@)
}

/// The steps that write the node `name` of the directory at `place`.
pub open spec fn node_steps(
    name: Seq<char>,
    node: NodeView,
    place: Seq<Seq<char>>,
) -> Seq<StepView>
    decreases node,
{
    let path = place.push(name);
    match node {
        NodeView::Page(html) => seq![StepView { path, page: Some(html) }],
        NodeView::Dir(dir) => seq![StepView { path, page: None }] + emitted(dir, path),
    }
}

/// The steps that write the content of the directory at `place`: node by node, each directory
/// before what is in it.
pub open spec fn emitted(dir: Listing, place: Seq<Seq<char>>) -> Seq<StepView>
    decreases dir,
{
    if dir.len() == 0 {
        Seq::empty()
    } else {
        emitted(dir.drop_last(), place) + node_steps(dir.last().0, dir.last().1, place)
    }
}

fn joined<'a>(place: &Vec<&'a str>, name: &'a str) -> (r: Vec<&'a str>)
    ensures
        names(r@) == names(place@).push(name@),
{
    let mut path: Vec<&'a str> = Vec::new();
    let mut i: usize = 0;
    while i < place.len()
        invariant
            i <= place@.len(),
            path@ == place@.take(i as int),
        decreases place@.len() - i,
    {
        path.push(place[i]);
        proof {
            assert(path@ =~= place@.take(i + 1));
        }
        i += 1;
    }
    path.push(name);
    proof {
        assert(names(path@) =~= names(place@).push(name@));
    }
    path
}

fn emit_node<'a>(
    name: &'a str,
    node: &'a Node,
    place: &Vec<&'a str>,
    steps: &mut Vec<EmitStep<'a>>,
)
    ensures
        steps_view(final(steps)@) == steps_view(old(steps)@) + node_steps(
            name@,
            node@,
            names(place@),
        ),
    decreases node,
{
    let path = joined(place, name);
    match node {
        Node::Page(html) => {
            steps.push(EmitStep { path, page: Some(html.as_str()) });
            proof {
                assert(steps_view(steps@) =~= steps_view(old(steps)@) + node_steps(
                    name@,
                    node@,
                    names(place@),
                ));
            }
        },
        Node::Dir(dir) => {
            let here = joined(place, name);
            steps.push(EmitStep { path, page: None });
            let ghost first = StepView { path: names(path@), page: None };
            proof {
                assert(steps_view(steps@) =~= steps_view(old(steps)@) + seq![first]);
            }
            emit_into(dir, &here, steps);
            proof {
                assert(steps_view(steps@) =~= steps_view(old(steps)@) + node_steps(
                    name@,
                    node@,
                    names(place@),
                ));
            }
        },
    }
}

fn emit_into<'a>(dir: &'a Directory, place: &Vec<&'a str>, steps: &mut Vec<EmitStep<'a>>)
    ensures
        steps_view(final(steps)@) == steps_view(old(steps)@) + emitted(
            listing(dir@),
            names(place@),
        ),
    decreases dir,
{
    let ghost before = steps_view(steps@);
    let ghost all = listing(dir@);
    proof {
        assert(all.take(0) =~= Seq::empty());
        assert(before + Seq::<StepView>::empty() =~= before);
    }
    let mut i: usize = 0;
    while i < dir.len()
        invariant
            i <= dir@.len(),
            all == listing(dir@),
            before == steps_view(old(steps)@),
            steps_view(steps@) == before + emitted(all.take(i as int), names(place@)),
        decreases dir@.len() - i,
    {
        proof {
            assert(all.take(i + 1).drop_last() =~= all.take(i as int));
            assert(all.take(i + 1).last() == all[i as int]);
        }
        emit_node(dir[i].0.as_str(), &dir[i].1, place, steps);
        proof {
            assert(steps_view(steps@) =~= before + emitted(all.take(i + 1), names(place@)));
        }
        i += 1;
    }
    proof {
        assert(all.take(i as int) =~= all);
    }
}

/// The steps that write a site.
pub fn emit_directory<'a>(dir: &'a Directory) -> (r: Vec<EmitStep<'a>>)
    ensures
        steps_view(r@) == emitted(listing(dir@), Seq::empty()),
{
    let mut steps: Vec<EmitStep<'a>> = Vec::new();
    let place: Vec<&'a str> = Vec::new();
    proof {
        assert(names(place@) =~= Seq::empty());
    }
    emit_into(dir, &place, &mut steps);
    proof {
        assert(steps_view(steps@) =~= emitted(listing(dir@), Seq::empty()));
    }
    steps
}

/// What stands below a directory: at each path a page or, where there is none, a directory.
pub type Files = Map<Seq<Seq<char>>, Option<Seq<char>>>;

/// What a step makes of what stands there.
pub open spec fn performed(files: Files, step: StepView) -> Files {
    Map::new(
        |path: Seq<Seq<char>>|
            path == step.path || (files.contains_key(path) && !step.path.is_prefix_of(path)),
        |path: Seq<Seq<char>>|
            if path == step.path {
                step.page
            } else {
                files[path]
            },
    )
}

/// What steps make of what stands there, one after the other.
pub open spec fn performed_all(files: Files, steps: Seq<StepView>) -> Files
    decreases steps.len(),
{
    if steps.len() == 0 {
        files
    } else {
        performed(performed_all(files, steps.drop_last()), steps.last())
    }
}

/// What stands at `path`, if anything does.
pub open spec fn standing(files: Files, path: Seq<Seq<char>>) -> Option<Option<Seq<char>>> {
    if files.contains_key(path) {
        Some(files[path])
    } else {
        None
    }
}

/// The last node of `dir` with this name.
pub open spec fn node_named(dir: Listing, name: Seq<char>) -> Option<NodeView>
    decreases dir.len(),
{
    if dir.len() == 0 {
        None
    } else if dir.last().0 == name {
        Some(dir.last().1)
    } else {
        node_named(dir.drop_last(), name)
    }
}

/// What a node has at the end of `path`: itself where the path is empty, and otherwise what
/// stands there below it.
pub open spec fn within(node: NodeView, path: Seq<Seq<char>>) -> Option<Option<Seq<char>>>
    decreases path.len(),
{
    match node {
        NodeView::Page(html) => if path.len() == 0 {
            Some(Some(html))
        } else {
            None
        },
        NodeView::Dir(dir) => if path.len() == 0 {
            Some(None)
        } else {
            match node_named(dir, path[0]) {
                Some(inner) => within(inner, path.drop_first()),
                None => None,
            }
        },
    }
}

/// What should stand at `path` once `dir` was written at `place` where `files` stood: what the
/// node has that the path leads to or through; where it leads to none, what stood there.
pub open spec fn expected(
    files: Files,
    dir: Listing,
    place: Seq<Seq<char>>,
    path: Seq<Seq<char>>,
) -> Option<Option<Seq<char>>> {
    if place.is_prefix_of(path) && place.len() < path.len() {
        match node_named(dir, path[place.len() as int]) {
            Some(node) => within(node, path.skip(place.len() + 1int)),
            None => standing(files, path),
        }
    } else {
        standing(files, path)
    }
}

proof fn lemma_performed_concat(files: Files, a: Seq<StepView>, b: Seq<StepView>)
    ensures
        performed_all(files, a + b) == performed_all(performed_all(files, a), b),
    decreases b.len(),
{
    if b.len() == 0 {
        assert(a + b =~= a);
    } else {
        assert((a + b).drop_last() =~= a + b.drop_last());
        lemma_performed_concat(files, a, b.drop_last());
    }
}

proof fn lemma_node_stands(
    files: Files,
    name: Seq<char>,
    node: NodeView,
    place: Seq<Seq<char>>,
    path: Seq<Seq<char>>,
)
    ensures
        standing(performed_all(files, node_steps(name, node, place)), path) == if place.push(
            name,
        ).is_prefix_of(path) {
            within(node, path.skip(place.len() + 1int))
        } else {
            standing(files, path)
        },
    decreases node,
{
    let here = place.push(name);
    let steps = node_steps(name, node, place);
    reveal_with_fuel(performed_all, 2);
    match node {
        NodeView::Page(html) => {
            let step = StepView { path: here, page: Some(html) };
            assert(steps.drop_last() =~= Seq::empty());
            assert(performed_all(files, steps) == performed(files, step));
            if here.is_prefix_of(path) && path.len() == here.len() {
                assert(path =~= here);
            }
        },
        NodeView::Dir(dir) => {
            let step = StepView { path: here, page: None };
            let cleared = performed(files, step);
            let first = seq![step];
            assert(first.drop_last() =~= Seq::empty());
            assert(performed_all(files, first) == cleared);
            reveal_with_fuel(node_steps, 2);
            lemma_performed_concat(files, first, emitted(dir, here));
            law_site_stands(cleared, dir, here, path);
            if here.is_prefix_of(path) {
                if path.len() == here.len() {
                    assert(path =~= here);
                } else {
                    let rest = path.skip(place.len() + 1int);
                    assert(rest[0] == path[here.len() as int]);
                    assert(rest.drop_first() =~= path.skip(here.len() + 1int));
                }
            }
        },
    }
}

/// Once a site was written, every path below the place of writing holds what the site has there:
/// a page its content, a directory a directory, and nothing is left there of what stood below
/// them before. Of nodes with one name in one directory the last counts. What the site does not
/// name stands as it stood.
pub proof fn law_site_stands(
    files: Files,
    dir: Listing,
    place: Seq<Seq<char>>,
    path: Seq<Seq<char>>,
)
    ensures
        standing(performed_all(files, emitted(dir, place)), path) == expected(
            files,
            dir,
            place,
            path,
        ),
    decreases dir,
{
    if dir.len() > 0 {
        let rest = dir.drop_last();
        let (name, node) = dir.last();
        let here = place.push(name);
        reveal_with_fuel(emitted, 2);
        lemma_performed_concat(files, emitted(rest, place), node_steps(name, node, place));
        law_site_stands(files, rest, place, path);
        lemma_node_stands(
            performed_all(files, emitted(rest, place)),
            name,
            node,
            place,
            path,
        );
        if place.is_prefix_of(path) && place.len() < path.len() {
            if path[place.len() as int] == name {
                assert(here =~= path.subrange(0, here.len() as int));
            } else {
                assert(!here.is_prefix_of(path)) by {
                    if here.is_prefix_of(path) {
                        assert(path.subrange(0, here.len() as int)[place.len() as int] == name);
                    }
                }
            }
        } else {
            assert(!here.is_prefix_of(path)) by {
                if here.is_prefix_of(path) {
                    assert(place =~= path.subrange(0, place.len() as int)) by {
                        assert forall|x: int| 0 <= x < place.len() implies place[x] == path[x] by {
                            assert(here[x] == path.subrange(0, here.len() as int)[x]);
                        }
                    }
                }
            }
        }
    }
}

/// Writing a site once more changes nothing.
pub proof fn law_writing_twice_is_writing_once(files: Files, dir: Listing, place: Seq<Seq<char>>)
    ensures
        ({
            let steps = emitted(dir, place);
            performed_all(performed_all(files, steps), steps) == performed_all(files, steps)
        }),
{
    let steps = emitted(dir, place);
    let once = performed_all(files, steps);
    let twice = performed_all(once, steps);
    assert forall|path: Seq<Seq<char>>| #[trigger]
        standing(twice, path) == standing(once, path) by {
        law_site_stands(files, dir, place, path);
        law_site_stands(once, dir, place, path);
    }
    assert forall|path: Seq<Seq<char>>| twice.contains_key(path) == once.contains_key(path) by {
        assert(standing(twice, path) == standing(once, path));
    }
    assert forall|path: Seq<Seq<char>>| #[trigger] once.contains_key(path) implies twice[path]
        == once[path] by {
        assert(standing(twice, path) == standing(once, path));
    }
    assert(twice =~= once);
}

/// Some step before `end` makes the directory at `path`.
pub open spec fn made_before(steps: Seq<StepView>, end: int, path: Seq<Seq<char>>) -> bool {
    exists|j: int|
        0 <= j < end && #[trigger] steps[j] == (StepView { path, page: None })
}

/// Nothing is put into a directory before the directory is made.
pub proof fn law_directories_come_first(dir: Listing, place: Seq<Seq<char>>, i: int)
    requires
        0 <= i < emitted(dir, place).len(),
    ensures
        ({
            let steps = emitted(dir, place);
            let parent = steps[i].path.drop_last();
            &&& place.is_prefix_of(parent)
            &&& parent == place || made_before(steps, i, parent)
        }),
    decreases dir,
{
    if dir.len() > 0 {
        let rest = dir.drop_last();
        let (name, node) = dir.last();
        let head = emitted(rest, place);
        let steps = emitted(dir, place);
        reveal_with_fuel(emitted, 2);
        assert(steps == head + node_steps(name, node, place));
        let parent = steps[i].path.drop_last();
        if i < head.len() {
            law_directories_come_first(rest, place, i);
            assert(steps[i] == head[i]);
            if parent != place {
                let j = choose|j: int|
                    0 <= j < i && #[trigger] head[j] == (StepView { path: parent, page: None });
                assert(steps[j] == head[j]);
            }
        } else {
            let here = place.push(name);
            let k = i - head.len();
            assert(steps[i] == node_steps(name, node, place)[k]);
            assert(here.drop_last() =~= place);
            assert(place =~= place.subrange(0, place.len() as int));
            if let NodeView::Dir(sub) = node {
                let inner = emitted(sub, here);
                reveal_with_fuel(node_steps, 2);
                let made = StepView { path: here, page: None };
                assert(node_steps(name, node, place) == seq![made] + inner);
                if k > 0 {
                    assert(steps[i] == inner[k - 1]);
                    law_directories_come_first(sub, here, k - 1);
                    assert(place =~= parent.subrange(0, place.len() as int)) by {
                        assert forall|x: int| 0 <= x < place.len() implies place[x]
                            == parent[x] by {
                            assert(here[x] == parent.subrange(0, here.len() as int)[x]);
                        }
                    }
                    let at = head.len() as int;
                    assert(steps[at] == made);
                    if parent != here {
                        let j = choose|j: int|
                            0 <= j < k - 1 && #[trigger] inner[j] == (StepView {
                                path: parent,
                                page: None,
                            });
                        assert(steps[at + 1 + j] == inner[j]);
                    }
                }
            }
        }
    }
}

/// Writing the nodes of a directory is writing the first of them and then the others.
pub proof fn law_nodes_are_written_in_order(a: Listing, b: Listing, place: Seq<Seq<char>>)
    ensures
        emitted(a + b, place) == emitted(a, place) + emitted(b, place),
    decreases b.len(),
{
    if b.len() == 0 {
        assert(a + b =~= a);
        assert(emitted(a, place) + emitted(b, place) =~= emitted(a, place));
    } else {
        let rest = b.drop_last();
        assert((a + b).drop_last() =~= a + rest);
        assert((a + b).last() == b.last());
        law_nodes_are_written_in_order(a, rest, place);
        let last = node_steps(b.last().0, b.last().1, place);
        assert(emitted(a + b, place) =~= emitted(a, place) + (emitted(rest, place) + last));
    }
}

/// A page is written in one step, with its whole content, at its name; a directory is made at its
/// name, and then its nodes are written below it.
pub proof fn law_one_node_is_written(
    name: Seq<char>,
    html: Seq<char>,
    sub: Listing,
    place: Seq<Seq<char>>,
)
    ensures
        emitted(seq![(name, NodeView::Page(html))], place) == seq![
            StepView { path: place.push(name), page: Some(html) },
        ],
        emitted(seq![(name, NodeView::Dir(sub))], place) == seq![
            StepView { path: place.push(name), page: None },
        ] + emitted(sub, place.push(name)),
        emitted(Seq::empty(), place).len() == 0,
{
    lemma_emitted_one(name, NodeView::Page(html), place);
    lemma_emitted_one(name, NodeView::Dir(sub), place);
}

proof fn lemma_emitted_one(name: Seq<char>, node: NodeView, place: Seq<Seq<char>>)
    ensures
        emitted(seq![(name, node)], place) == node_steps(name, node, place),
{
    let one = seq![(name, node)];
    assert(one.drop_last() =~= Seq::empty());
    assert(one.last() == (name, node));
    reveal_with_fuel(emitted, 2);
    assert(Seq::<StepView>::empty() + node_steps(name, node, place) =~= node_steps(
        name,
        node,
        place,
    ));
}

/// Steps are taken one by one, each with all the names of its path and its whole page.
pub proof fn law_steps_are_what_they_say(steps: Seq<EmitStep<'_>>)
    ensures
        steps_view(steps).len() == steps.len(),
        forall|i: int|
            0 <= i < steps.len() ==> {
                let step = #[trigger] steps_view(steps)[i];
                &&& step.path.len() == steps[i].path@.len()
                &&& forall|k: int|
                    0 <= k < steps[i].path@.len() ==> #[trigger] step.path[k] == steps[i].path@[k]@
                &&& match steps[i].page {
                    Some(html) => step.page == Some(html@),
                    None => step.page is None,
                }
            },
{
}

} // verus!
