use thanks::repos::{repo_path, repo_slug, RefreshTracker};
use thanks::submodules::{is_counted_submodule, resolve_submodules, Submodule};

fn pairs(v: &[(&str, &str)]) -> Vec<(String, String)> {
    v.iter().map(|(a, b)| (a.to_string(), b.to_string())).collect()
}

#[test]
fn slugs_of_remotes() {
    assert_eq!(repo_slug("https://github.com/rust-lang/cargo.git"), "rust-lang/cargo");
    assert_eq!(repo_slug("git://github.com/rust-lang/book"), "rust-lang/book");
    assert_eq!(repo_slug("https://git.chromium.org/a/b.git"), "a/b");
    assert_eq!(repo_path("rust-lang/cargo"), "repos/rust-lang/cargo");
}

#[test]
fn refresh_at_most_once() {
    let mut t = RefreshTracker::new();
    assert!(t.mark("rust-lang/cargo"));
    assert!(!t.mark("rust-lang/cargo"));
    assert!(t.mark("rust-lang/book"));
}

#[test]
fn submodules_from_config_and_tree() {
    let config = pairs(&[
        ("submodule.book.path", "src/doc/book"),
        ("submodule.book.url", "https://github.com/rust-lang/book.git"),
        ("submodule.cargo.path", "src/tools/cargo"),
        ("submodule.cargo.url", "https://github.com/rust-lang/cargo.git"),
        ("submodule.gone.path", "src/gone"),
    ]);
    let links = pairs(&[("src/tools/cargo", "c1"), ("src/doc/book", "b1"), ("src/other", "o1"), ("src/gone", "g1")]);
    let subs = resolve_submodules(&config, &links);
    assert_eq!(subs.len(), 2);
    assert_eq!(subs[0].path, "src/tools/cargo");
    assert_eq!(subs[0].commit, "c1");
    assert_eq!(subs[0].repository, "https://github.com/rust-lang/cargo.git");
    assert_eq!(subs[1].repository, "https://github.com/rust-lang/book.git");
}

#[test]
fn submodule_policy() {
    let s = |u: &str| Submodule { path: "p".to_string(), commit: "c".to_string(), repository: u.to_string() };
    assert!(is_counted_submodule(&s("https://github.com/rust-lang/cargo.git")));
    assert!(!is_counted_submodule(&s("https://github.com/rust-lang/llvm-project.git")));
    assert!(!is_counted_submodule(&s("https://github.com/rust-lang/llvm-project")));
    assert!(!is_counted_submodule(&s("https://github.com/other/thing.git")));
}
