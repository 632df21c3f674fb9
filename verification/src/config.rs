//! The configuration of a site.

use crate::site::{left_out, texts};
use vstd::prelude::*;

verus! {

/// Where a site is made from and where it goes.
#[derive(Debug)]
pub struct Config {
    /// Path to the directory to which the site is written.
    pub target: String,
    /// Path to the directory with the content of the site.
    pub source: String,
    /// Path to the directory with the template files.
    pub templates: String,
    /// Path to the directory with the blog.
    pub blog: String,
    /// Names to leave out.
    pub ignore: Option<Vec<String>>,
}

/// The names that a configuration leaves out of the site: those that it lists, and that of the
/// templates.
pub open spec fn ignored(config: Config) -> Seq<Seq<char>> {
    match config.ignore {
        Some(names) => texts(names@).push(config.templates@),
        None => seq![config.templates@],
    }
}

impl Config {
    /// The names that are left out of the site.
    pub fn ignored_names(&self) -> (r: Vec<String>)
        ensures
            texts(r@) == ignored(*self),
    {
        let mut names: Vec<String> = Vec::new();
        if let Some(listed) = &self.ignore {
            let mut i: usize = 0;
            while i < listed.len()
                invariant
                    i <= listed@.len(),
                    names@.len() == i,
                    forall|j: int| 0 <= j < i ==> (#[trigger] names@[j])@ == listed@[j]@,
                decreases listed@.len() - i,
            {
                names.push(listed[i].clone());
                i += 1;
            }
            proof {
                assert(texts(names@) =~= texts(listed@));
            }
        }
        let ghost before = texts(names@);
        names.push(self.templates.clone());
        proof {
            assert(texts(names@) =~= before.push(self.templates@));
            assert(texts(names@) =~= ignored(*self));
        }
        names
    }
}

/// The templates and every name that the configuration lists are left out.
pub proof fn law_listed_names_are_left_out(config: Config, i: int)
    ensures
        left_out(config.templates@, ignored(config)),
        config.ignore matches Some(names) ==> (0 <= i < names@.len() ==> left_out(
            names@[i]@,
            ignored(config),
        )),
{
    let all = ignored(config);
    assert(all.last() == config.templates@);
    assert(all.contains(config.templates@));
    if let Some(names) = config.ignore {
        if 0 <= i < names@.len() {
            assert(all[i] == names@[i]@);
        }
    }
}

/// Whether `left` is the smaller number; what the helper `spacer` tells a template.
pub fn lt(left: u16, right: u16) -> (r: bool)
    ensures
        r == (left < right),
{
    left < right
}

/// A configuration leaves out the names that it lists and that of the templates, and no other.
pub proof fn law_only_listed_names_are_ignored(config: Config, name: Seq<char>)
    ensures
        ignored(config).contains(name) <==> name == config.templates@ || (
        config.ignore matches Some(names) && exists|i: int|
            0 <= i < names@.len() && (#[trigger] names@[i])@ == name),
{
    let all = ignored(config);
    assert(all.last() == config.templates@);
    assert(all[all.len() - 1] == config.templates@);
    if all.contains(name) {
        let k = choose|k: int| 0 <= k < all.len() && all[k] == name;
        if let Some(names) = config.ignore {
            if k < names@.len() {
                assert(names@[k]@ == name);
            }
        }
    }
    if let Some(names) = config.ignore {
        if exists|i: int| 0 <= i < names@.len() && (#[trigger] names@[i])@ == name {
            let i = choose|i: int| 0 <= i < names@.len() && (#[trigger] names@[i])@ == name;
            assert(all[i] == name);
        }
    }
}

} // verus!
