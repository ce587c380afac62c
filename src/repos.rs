//! Local mirrors of remote repositories: where each one lives, and which
//! ones this run has already refreshed.

use vstd::prelude::*;
use vstd::string::*;

use crate::text::{chars_of, has_prefix, has_prefix_at, str_eq};
use crate::submodules::has_suffix;

verus! {

/// `s` without the prefix `p`, if it has it.
pub open spec fn without_prefix(s: Seq<char>, p: Seq<char>) -> Seq<char> {
    if has_prefix(s, p) {
        s.subrange(p.len() as int, s.len() as int)
    } else {
        s
    }
}

/// `s` without the suffix `p`, if it has it.
pub open spec fn without_suffix(s: Seq<char>, p: Seq<char>) -> Seq<char> {
    if has_suffix(s, p) {
        s.take(s.len() - p.len())
    } else {
        s
    }
}

/// The short name of a remote: the url without the known hosting prefixes,
/// tried in turn, and without a trailing `.git`.
pub open spec fn slug_of(url: Seq<char>) -> Seq<char> {
    without_suffix(
        without_prefix(
            without_prefix(without_prefix(url, "https://github.com/"@), "git://github.com/"@),
            "https://git.chromium.org/"@,
        ),
        ".git"@,
    )
}

fn strip_prefix_str<'a>(s: &'a str, p: &str) -> (r: &'a str)
    ensures
        r@ == without_prefix(s@, p@),
{
    let v = chars_of(s);
    let pv = chars_of(p);
    assert(v@.subrange(0, v.len() as int) =~= v@);
    if has_prefix_at(&v, 0, &pv) {
        s.substring_char(pv.len(), v.len())
    } else {
        s
    }
}

fn strip_suffix_str<'a>(s: &'a str, p: &str) -> (r: &'a str)
    ensures
        r@ == without_suffix(s@, p@),
{
    let v = chars_of(s);
    let pv = chars_of(p);
    if pv.len() > v.len() {
        return s;
    }
    let start = v.len() - pv.len();
    if has_prefix_at(&v, start, &pv) {
        assert(v@.subrange(start as int, v.len() as int).take(pv.len() as int) =~= v@.subrange(
            start as int,
            v.len() as int,
        ));
        s.substring_char(0, start)
    } else {
        assert(v@.subrange(start as int, v.len() as int).take(pv.len() as int) =~= v@.subrange(
            start as int,
            v.len() as int,
        ));
        s
    }
}

/// The short name of a remote repository.
pub fn repo_slug(url: &str) -> (r: String)
    ensures
        r@ == slug_of(url@),
{
    let s = strip_prefix_str(url, "https://github.com/");
    let s = strip_prefix_str(s, "git://github.com/");
    let s = strip_prefix_str(s, "https://git.chromium.org/");
    let s = strip_suffix_str(s, ".git");
    String::from_str(s)
}

/// Where the mirror of a repository lives: `repos/SLUG`.
pub fn repo_path(slug: &str) -> (r: String)
    ensures
        r@ == "repos/"@ + slug@,
{
    let mut p = String::from_str("repos/");
    p.append(slug);
    p
}

/// The repositories refreshed so far in this run, by slug.
#[derive(Debug, Clone)]
pub struct RefreshTracker {
    updated: Vec<String>,
}

impl RefreshTracker {
    pub closed spec fn refreshed(&self) -> Set<Seq<char>> {
        self.updated@.map_values(|s: String| s@).to_set()
    }

    /// A tracker for a run that has refreshed nothing yet.
    pub fn new() -> (r: RefreshTracker)
        ensures
            r.refreshed() == Set::<Seq<char>>::empty(),
    {
        let r = RefreshTracker { updated: Vec::new() };
        assert(r.refreshed() =~= Set::<Seq<char>>::empty());
        r
    }

    /// Records that `slug` is being refreshed; returns whether it was not
    /// refreshed before in this run, that is, whether to refresh it now.
    pub fn mark(&mut self, slug: &str) -> (first: bool)
        ensures
            first == !old(self).refreshed().contains(slug@),
            final(self).refreshed() == old(self).refreshed().insert(slug@),
    {
        let ghost ids = self.updated@.map_values(|s: String| s@);
        let mut i: usize = 0;
        while i < self.updated.len()
            invariant
                i <= self.updated.len(),
                ids == self.updated@.map_values(|s: String| s@),
                forall|j: int| 0 <= j < i ==> ids[j] != slug@,
            decreases self.updated.len() - i,
        {
            if str_eq(self.updated[i].as_str(), slug) {
                assert(ids[i as int] == slug@);
                assert(self.refreshed().insert(slug@) =~= self.refreshed());
                return false;
            }
            i = i + 1;
        }
        self.updated.push(String::from_str(slug));
        proof {
            assert(self.updated@.map_values(|s: String| s@) =~= ids.push(slug@));
            ids.lemma_push_to_set_commute(slug@);
        }
        true
    }
}

} // verus!
