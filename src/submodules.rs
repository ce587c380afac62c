//! The submodules active in a tree: paths, pinned commits and remote urls.

use vstd::prelude::*;
use vstd::string::*;

use crate::text::{chars_of, find_seq_at, find_seq_from, str_eq};

verus! {

/// A nested repository pinned in a tree.
#[derive(Debug, Clone)]
pub struct Submodule {
    pub path: String,
    pub commit: String,
    /// The remote url.
    pub repository: String,
}

pub type SubmoduleModel = (Seq<char>, Seq<char>, Seq<char>);

impl View for Submodule {
    type V = SubmoduleModel;

    open spec fn view(&self) -> SubmoduleModel {
        (self.path@, self.commit@, self.repository@)
    }
}

/// Whether `s` ends with `p`.
pub open spec fn has_suffix(s: Seq<char>, p: Seq<char>) -> bool {
    p.len() <= s.len() && s.subrange(s.len() - p.len(), s.len() as int) == p
}

pub type Pairs = Seq<(Seq<char>, Seq<char>)>;

pub open spec fn pair_views(v: Seq<(String, String)>) -> Pairs {
    v.map_values(|e: (String, String)| (e.0@, e.1@))
}

/// The value of the last entry under `key`: a later entry overrides an
/// earlier one.
pub open spec fn config_value(entries: Pairs, key: Seq<char>) -> Option<Seq<char>>
    decreases entries.len(),
{
    if entries.len() == 0 {
        None
    } else if entries.last().0 == key {
        Some(entries.last().1)
    } else {
        config_value(entries.drop_last(), key)
    }
}

/// The key of the url that goes with a `NAME.path` key: `NAME.url`.
pub open spec fn url_key(path_key: Seq<char>) -> Seq<char> {
    path_key.take(path_key.len() - 5) + ".url"@
}

/// The url of the submodule at `path`: the last `NAME.path` entry whose
/// value is `path` and whose `NAME.url` is set decides.
pub open spec fn url_for_path(entries: Pairs, all: Pairs, path: Seq<char>) -> Option<Seq<char>>
    decreases entries.len(),
{
    if entries.len() == 0 {
        None
    } else {
        let e = entries.last();
        if has_suffix(e.0, ".path"@) && e.1 == path && config_value(all, url_key(e.0)) is Some {
            config_value(all, url_key(e.0))
        } else {
            url_for_path(entries.drop_last(), all, path)
        }
    }
}

/// The submodules of a tree: each gitlink entry, in order, whose path the
/// configuration gives a url for.
pub open spec fn submodules_of(config: Pairs, gitlinks: Pairs) -> Seq<SubmoduleModel>
    decreases gitlinks.len(),
{
    if gitlinks.len() == 0 {
        Seq::empty()
    } else {
        let g = gitlinks.last();
        let rest = submodules_of(config, gitlinks.drop_last());
        match url_for_path(config, config, g.0) {
            Some(u) => rest.push((g.0, g.1, u)),
            None => rest,
        }
    }
}

fn config_value_exec(entries: &Vec<(String, String)>, key: &str) -> (r: Option<String>)
    ensures
        match r {
            Some(v) => config_value(pair_views(entries@), key@) == Some(v@),
            None => config_value(pair_views(entries@), key@) is None,
        },
{
    let ghost es = pair_views(entries@);
    let mut j = entries.len();
    assert(es.take(j as int) =~= es);
    while j > 0
        invariant
            j <= entries.len(),
            es == pair_views(entries@),
            config_value(es.take(j as int), key@) == config_value(es, key@),
        decreases j,
    {
        assert(es.take(j as int).drop_last() =~= es.take(j - 1));
        if str_eq(entries[j - 1].0.as_str(), key) {
            return Some(entries[j - 1].1.clone());
        }
        j = j - 1;
    }
    None
}

fn ends_with_path(name: &str) -> (r: bool)
    ensures
        r == has_suffix(name@, ".path"@),
{
    let v = chars_of(name);
    let p = chars_of(".path");
    if p.len() > v.len() {
        return false;
    }
    let start = v.len() - p.len();
    let found = find_seq_at(&v, &p, start);
    proof {
        let s = v@.subrange(start as int, v.len() as int);
        if s == p@ {
            assert(find_seq_from(v@, p@, start as int) == Some(start as int));
        } else {
            assert(find_seq_from(v@, p@, start as int + 1) is None);
        }
    }
    found.is_some()
}

fn url_for_path_exec(config: &Vec<(String, String)>, path: &String) -> (r: Option<String>)
    ensures
        match r {
            Some(u) => url_for_path(pair_views(config@), pair_views(config@), path@) == Some(u@),
            None => url_for_path(pair_views(config@), pair_views(config@), path@) is None,
        },
{
    let ghost all = pair_views(config@);
    let mut j = config.len();
    assert(all.take(j as int) =~= all);
    while j > 0
        invariant
            j <= config.len(),
            all == pair_views(config@),
            url_for_path(all.take(j as int), all, path@) == url_for_path(all, all, path@),
        decreases j,
    {
        assert(all.take(j as int).drop_last() =~= all.take(j - 1));
        let e = &config[j - 1];
        if ends_with_path(e.0.as_str()) && e.1 == *path {
            proof {
                reveal_strlit(".path");
            }
            let n = e.0.as_str().unicode_len();
            let mut key = String::from_str(e.0.as_str().substring_char(0, n - 5));
            key.append(".url");
            match config_value_exec(config, key.as_str()) {
                Some(u) => {
                    return Some(u);
                },
                None => {},
            }
        }
        j = j - 1;
    }
    None
}

/// The submodules of a tree: for each gitlink entry `(path, commit)`, in
/// order, whose path a `NAME.path` entry of the submodule configuration
/// names, the submodule with the url of `NAME.url`. Gitlinks that the
/// configuration does not name are skipped.
pub fn resolve_submodules(config: &Vec<(String, String)>, gitlinks: &Vec<(String, String)>) -> (r:
    Vec<Submodule>)
    ensures
        r@.map_values(|s: Submodule| s@) == submodules_of(pair_views(config@), pair_views(gitlinks@)),
{
    let ghost gs = pair_views(gitlinks@);
    let mut out: Vec<Submodule> = Vec::new();
    let mut i: usize = 0;
    assert(gs.take(0) =~= Seq::<(Seq<char>, Seq<char>)>::empty());
    assert(out@.map_values(|s: Submodule| s@) =~= Seq::<SubmoduleModel>::empty());
    while i < gitlinks.len()
        invariant
            i <= gitlinks.len(),
            gs == pair_views(gitlinks@),
            out@.map_values(|s: Submodule| s@) == submodules_of(pair_views(config@), gs.take(i as int)),
        decreases gitlinks.len() - i,
    {
        let g = &gitlinks[i];
        assert(gs.take(i + 1).drop_last() =~= gs.take(i as int));
        let ghost before = out@.map_values(|s: Submodule| s@);
        match url_for_path_exec(config, &g.0) {
            Some(u) => {
                out.push(Submodule { path: g.0.clone(), commit: g.1.clone(), repository: u });
                assert(out@.map_values(|s: Submodule| s@) =~= before.push((g.0@, g.1@, u@)));
            },
            None => {},
        }
        i = i + 1;
    }
    assert(gs.take(i as int) =~= gs);
    out
}

/// Remotes of large third-party trees that are not counted.
pub open spec fn is_excluded_remote(u: Seq<char>) -> bool {
    u == "https://github.com/rust-lang/llvm.git"@ || u
        == "https://github.com/rust-lang/llvm-project.git"@ || u
        == "https://github.com/rust-lang/lld.git"@ || u
        == "https://github.com/rust-lang-nursery/clang.git"@ || u
        == "https://github.com/rust-lang-nursery/lldb.git"@ || u
        == "https://github.com/rust-lang/libuv.git"@ || u == "https://github.com/rust-lang/gyp.git"@
        || u == "https://github.com/rust-lang/jemalloc.git"@ || u
        == "https://github.com/rust-lang/compiler-rt.git"@ || u
        == "https://github.com/rust-lang/hoedown.git"@
}

/// The project's policy on submodules: only repositories of its own
/// organizations count, and not the excluded third-party trees, with or
/// without a `.git` suffix on the url.
pub open spec fn is_counted_remote(u: Seq<char>) -> bool {
    find_seq_from(u, "rust-lang"@, 0) is Some && !is_excluded_remote(u) && !is_excluded_remote(
        u + ".git"@,
    )
}

fn is_excluded_remote_exec(u: &str) -> (r: bool)
    ensures
        r == is_excluded_remote(u@),
{
    str_eq(u, "https://github.com/rust-lang/llvm.git") || str_eq(
        u,
        "https://github.com/rust-lang/llvm-project.git",
    ) || str_eq(u, "https://github.com/rust-lang/lld.git") || str_eq(
        u,
        "https://github.com/rust-lang-nursery/clang.git",
    ) || str_eq(u, "https://github.com/rust-lang-nursery/lldb.git") || str_eq(
        u,
        "https://github.com/rust-lang/libuv.git",
    ) || str_eq(u, "https://github.com/rust-lang/gyp.git") || str_eq(
        u,
        "https://github.com/rust-lang/jemalloc.git",
    ) || str_eq(u, "https://github.com/rust-lang/compiler-rt.git") || str_eq(
        u,
        "https://github.com/rust-lang/hoedown.git",
    )
}

/// Whether a submodule's remote counts under the project's policy.
pub fn is_counted_submodule(submodule: &Submodule) -> (r: bool)
    ensures
        r == is_counted_remote(submodule.repository@),
{
    let u = submodule.repository.as_str();
    let v = chars_of(u);
    let org = chars_of("rust-lang");
    if find_seq_at(&v, &org, 0).is_none() {
        return false;
    }
    let mut with_git = String::from_str(u);
    with_git.append(".git");
    !is_excluded_remote_exec(u) && !is_excluded_remote_exec(with_git.as_str())
}

} // verus!
