//! Author maps: for each canonical identity, the set of commits it is
//! credited for.

use vstd::prelude::*;
use vstd::seq_lib::*;

use crate::mailmap::{identity_key, Author};
use crate::text::fold_case;

verus! {

/// Case-folded name and email: what tells two identities apart.
pub type IdentityKey = (Seq<char>, Seq<char>);

/// For each identity, the commit ids credited to it; every set is non-empty.
pub type Contributions = Map<IdentityKey, Set<Seq<char>>>;

/// The commits credited to `k` in `m` (none when `k` is absent).
pub open spec fn commits_in(m: Contributions, k: IdentityKey) -> Set<Seq<char>> {
    if m.contains_key(k) {
        m[k]
    } else {
        Set::empty()
    }
}

/// `m` with commit `c` credited to `k`.
pub open spec fn add_commit(m: Contributions, k: IdentityKey, c: Seq<char>) -> Contributions {
    m.insert(k, commits_in(m, k).insert(c))
}

/// Identities of either map, each with the union of its commit sets.
pub open spec fn union(a: Contributions, b: Contributions) -> Contributions {
    Map::new(
        |k: IdentityKey| a.contains_key(k) || b.contains_key(k),
        |k: IdentityKey| commits_in(a, k).union(commits_in(b, k)),
    )
}

/// For each identity of `a`, its commits that `b` does not credit to it;
/// identities left with no commit are dropped.
pub open spec fn difference(a: Contributions, b: Contributions) -> Contributions {
    Map::new(
        |k: IdentityKey|
            a.contains_key(k) && a[k].difference(commits_in(b, k)) != Set::<Seq<char>>::empty(),
        |k: IdentityKey| a[k].difference(commits_in(b, k)),
    )
}

/// `a` credits at least what `b` credits.
pub open spec fn covers(a: Contributions, b: Contributions) -> bool {
    forall|k: IdentityKey| #[trigger]
        b.contains_key(k) ==> a.contains_key(k) && b[k].subset_of(a[k])
}

/// `m` restricted to the identities that satisfy `keep`.
pub open spec fn restrict(m: Contributions, keep: spec_fn(IdentityKey) -> bool) -> Contributions {
    Map::new(|k: IdentityKey| m.contains_key(k) && keep(k), |k: IdentityKey| m[k])
}

/// The texts of a list of commit ids.
pub open spec fn ids_of(v: Seq<String>) -> Seq<Seq<char>> {
    v.map_values(|s: String| s@)
}

/// `cs` lists each identity of `m` once, with the number of its commits.
pub open spec fn is_listing(m: Contributions, cs: Seq<(Author, usize)>) -> bool {
    &&& forall|i: int|
        0 <= i < cs.len() ==> m.contains_key(identity_key((#[trigger] cs[i]).0@)) && cs[i].1
            == m[identity_key(cs[i].0@)].len()
    &&& forall|i: int, j: int|
        0 <= i < cs.len() && 0 <= j < cs.len() && i != j ==> identity_key((#[trigger] cs[i]).0@)
            != identity_key((#[trigger] cs[j]).0@)
    &&& forall|k: IdentityKey| #[trigger]
        m.contains_key(k) ==> exists|i: int| 0 <= i < cs.len() && identity_key((#[trigger] cs[i]).0@) == k
}

/// One identity of a map: the spelling first seen, its key, and its commits.
#[derive(Clone, Debug)]
struct AuthorEntry {
    author: Author,
    key_name: String,
    key_email: String,
    commits: Vec<String>,
}

impl AuthorEntry {
    spec fn key(&self) -> IdentityKey {
        (self.key_name@, self.key_email@)
    }

    spec fn ids(&self) -> Seq<Seq<char>> {
        ids_of(self.commits@)
    }

    spec fn commit_set(&self) -> Set<Seq<char>> {
        self.ids().to_set()
    }
}

spec fn has_key(es: Seq<AuthorEntry>, n: int, k: IdentityKey) -> bool {
    exists|j: int| 0 <= j < n && #[trigger] es[j].key() == k
}

spec fn key_index(es: Seq<AuthorEntry>, n: int, k: IdentityKey) -> int {
    choose|j: int| 0 <= j < n && #[trigger] es[j].key() == k
}

/// The contributions of the first `n` entries.
spec fn prefix_view(es: Seq<AuthorEntry>, n: int) -> Contributions {
    Map::new(
        |k: IdentityKey| has_key(es, n, k),
        |k: IdentityKey| es[key_index(es, n, k)].commit_set(),
    )
}

spec fn keys_unique(es: Seq<AuthorEntry>) -> bool {
    forall|i: int, j: int|
        0 <= i < es.len() && 0 <= j < es.len() && i != j ==> #[trigger] es[i].key()
            != #[trigger] es[j].key()
}

spec fn entries_wf(es: Seq<AuthorEntry>) -> bool {
    &&& keys_unique(es)
    &&& forall|i: int|
        0 <= i < es.len() ==> (#[trigger] es[i]).key() == identity_key(es[i].author@)
            && es[i].commits.len() > 0 && es[i].ids().no_duplicates()
}

proof fn lemma_prefix_insert(es: Seq<AuthorEntry>, n: int)
    requires
        0 <= n < es.len(),
        keys_unique(es),
    ensures
        !prefix_view(es, n).contains_key(es[n].key()),
        prefix_view(es, n + 1) =~= prefix_view(es, n).insert(es[n].key(), es[n].commit_set()),
{
    let k = es[n].key();
    if has_key(es, n, k) {
        let j = key_index(es, n, k);
        assert(es[j].key() == es[n].key());
    }
    assert forall|q: IdentityKey| #[trigger] prefix_view(es, n + 1).contains_key(q) implies prefix_view(
        es,
        n,
    ).insert(k, es[n].commit_set()).contains_key(q) by {
        let j = key_index(es, n + 1, q);
        if j < n {
            assert(has_key(es, n, q));
        }
    }
    assert forall|q: IdentityKey| #[trigger] prefix_view(es, n).insert(
        k,
        es[n].commit_set(),
    ).contains_key(q) implies prefix_view(es, n + 1).contains_key(q) by {
        if q == k {
            assert(es[n].key() == q);
        } else {
            let j = key_index(es, n, q);
            assert(es[j].key() == q);
        }
    }
    assert forall|q: IdentityKey| #[trigger] prefix_view(es, n + 1).contains_key(q) implies prefix_view(
        es,
        n + 1,
    )[q] == prefix_view(es, n).insert(k, es[n].commit_set())[q] by {
        let j = key_index(es, n + 1, q);
        if q == k {
            assert(j == n);
        } else {
            assert(j != n);
            assert(has_key(es, n, q));
            let i = key_index(es, n, q);
            assert(i == j);
        }
    }
}

proof fn lemma_prefix_at(es: Seq<AuthorEntry>, n: int, i: int)
    requires
        0 <= i < n <= es.len(),
        keys_unique(es),
    ensures
        prefix_view(es, n).contains_key(es[i].key()),
        prefix_view(es, n)[es[i].key()] == es[i].commit_set(),
{
    let k = es[i].key();
    assert(has_key(es, n, k));
    let j = key_index(es, n, k);
    assert(i == j);
}

proof fn lemma_prefix_empty(es: Seq<AuthorEntry>)
    ensures
        prefix_view(es, 0) =~= Map::<IdentityKey, Set<Seq<char>>>::empty(),
{
}

/// The commits credited to each identity, with the first spelling seen of
/// each identity kept for display.
#[derive(Clone, Debug)]
pub struct AuthorMap {
    entries: Vec<AuthorEntry>,
}

impl View for AuthorMap {
    type V = Contributions;

    closed spec fn view(&self) -> Contributions {
        prefix_view(self.entries@, self.entries@.len() as int)
    }
}

fn contains_id(v: &Vec<String>, c: &String) -> (r: bool)
    ensures
        r == ids_of(v@).contains(c@),
{
    let mut i: usize = 0;
    while i < v.len()
        invariant
            i <= v.len(),
            forall|j: int| 0 <= j < i ==> v@[j]@ != c@,
        decreases v.len() - i,
    {
        if v[i] == *c {
            assert(ids_of(v@)[i as int] == c@);
            return true;
        }
        i = i + 1;
    }
    assert(!ids_of(v@).contains(c@)) by {
        if ids_of(v@).contains(c@) {
            let j = choose|j: int|
                0 <= j < v@.len() && #[trigger] ids_of(v@)[j] == c@;
            assert(v@[j]@ == c@);
        }
    }
    false
}

impl AuthorMap {
    /// Holds for every value this module hands out.
    pub closed spec fn wf(&self) -> bool {
        entries_wf(self.entries@)
    }

    /// A map that credits nobody.
    pub fn new() -> (r: AuthorMap)
        ensures
            r.wf(),
            r@ == Map::<IdentityKey, Set<Seq<char>>>::empty(),
    {
        let r = AuthorMap { entries: Vec::new() };
        proof {
            lemma_prefix_empty(r.entries@);
        }
        r
    }

    fn find_key(&self, key_name: &String, key_email: &String) -> (r: Option<usize>)
        requires
            self.wf(),
        ensures
            match r {
                Some(i) => i < self.entries.len() && self.entries@[i as int].key() == (
                    key_name@,
                    key_email@,
                ),
                None => !self@.contains_key((key_name@, key_email@)),
            },
    {
        let mut i: usize = 0;
        while i < self.entries.len()
            invariant
                i <= self.entries.len(),
                forall|j: int| 0 <= j < i ==> self.entries@[j].key() != (key_name@, key_email@),
            decreases self.entries.len() - i,
        {
            if self.entries[i].key_name == *key_name && self.entries[i].key_email == *key_email {
                return Some(i);
            }
            i = i + 1;
        }
        proof {
            if self@.contains_key((key_name@, key_email@)) {
                let j = key_index(
                    self.entries@,
                    self.entries@.len() as int,
                    (key_name@, key_email@),
                );
                assert(self.entries@[j].key() == (key_name@, key_email@));
            }
        }
        None
    }
}

} // verus!

verus! {

proof fn lemma_prefix_same(a: Seq<AuthorEntry>, b: Seq<AuthorEntry>, n: int)
    requires
        0 <= n <= a.len(),
        n <= b.len(),
        keys_unique(a),
        forall|j: int| 0 <= j < n ==> a[j] == b[j],
    ensures
        prefix_view(a, n) =~= prefix_view(b, n),
{
    assert forall|q: IdentityKey| has_key(a, n, q) <==> has_key(b, n, q) by {
        if has_key(a, n, q) {
            let j = key_index(a, n, q);
            assert(b[j].key() == q);
        }
        if has_key(b, n, q) {
            let j = key_index(b, n, q);
            assert(a[j].key() == q);
        }
    }
    assert forall|q: IdentityKey| #[trigger] prefix_view(a, n).contains_key(q) implies prefix_view(
        a,
        n,
    )[q] == prefix_view(b, n)[q] by {
        let j = key_index(a, n, q);
        let m = key_index(b, n, q);
        assert(a[j].key() == q);
        assert(b[m].key() == q);
        assert(a[m].key() == q);
        assert(j == m);
    }
}

proof fn lemma_prefix_update(es: Seq<AuthorEntry>, i: int, e: AuthorEntry)
    requires
        0 <= i < es.len(),
        keys_unique(es),
        e.key() == es[i].key(),
    ensures
        keys_unique(es.update(i, e)),
        prefix_view(es.update(i, e), es.len() as int) =~= prefix_view(es, es.len() as int).insert(
            e.key(),
            e.commit_set(),
        ),
{
    let n = es.len() as int;
    let us = es.update(i, e);
    assert(keys_unique(us)) by {
        assert forall|a: int, b: int|
            0 <= a < us.len() && 0 <= b < us.len() && a != b implies #[trigger] us[a].key()
            != #[trigger] us[b].key() by {
            assert(us[a].key() == es[a].key());
            assert(us[b].key() == es[b].key());
        }
    }
    assert forall|q: IdentityKey| has_key(us, n, q) <==> has_key(es, n, q) by {
        if has_key(us, n, q) {
            let j = key_index(us, n, q);
            assert(es[j].key() == q);
        }
        if has_key(es, n, q) {
            let j = key_index(es, n, q);
            assert(us[j].key() == q);
        }
    }
    lemma_prefix_at(us, n, i);
    assert forall|q: IdentityKey| #[trigger] prefix_view(us, n).contains_key(q) && q != e.key() implies prefix_view(
        us,
        n,
    )[q] == prefix_view(es, n)[q] by {
        let j = key_index(us, n, q);
        let m = key_index(es, n, q);
        assert(us[j].key() == q);
        assert(es[m].key() == q);
        assert(j != i);
        assert(us[m].key() == q);
        assert(j == m);
    }
}

impl AuthorMap {
    /// Credits `commit` to `author`, whose key is given.
    fn add_keyed(&mut self, author: &Author, key_name: &String, key_email: &String, commit: &String)
        requires
            old(self).wf(),
            (key_name@, key_email@) == identity_key(author@),
        ensures
            final(self).wf(),
            final(self)@ == add_commit(old(self)@, (key_name@, key_email@), commit@),
    {
        let ghost k = (key_name@, key_email@);
        let ghost es = self.entries@;
        match self.find_key(key_name, key_email) {
            Some(i) => {
                proof {
                    lemma_prefix_at(es, es.len() as int, i as int);
                }
                let present = contains_id(&self.entries[i].commits, commit);
                if !present {
                    let ghost before = self.entries@[i as int];
                    self.entries[i].commits.push(commit.clone());
                    proof {
                        let after = self.entries@[i as int];
                        assert(after.ids() =~= before.ids().push(commit@));
                        before.ids().lemma_push_to_set_commute(commit@);
                        assert(self.entries@ == es.update(i as int, after));
                        lemma_prefix_update(es, i as int, after);
                    }
                } else {
                    proof {
                        assert(es[i as int].commit_set().contains(commit@));
                        assert(es[i as int].commit_set().insert(commit@) =~= es[i as int].commit_set());
                        assert(self@ =~= add_commit(es_view(es), k, commit@));
                    }
                }
            },
            None => {
                let mut commits: Vec<String> = Vec::new();
                commits.push(commit.clone());
                let entry = AuthorEntry {
                    author: author.duplicate(),
                    key_name: key_name.clone(),
                    key_email: key_email.clone(),
                    commits,
                };
                self.entries.push(entry);
                proof {
                    let n = es.len() as int;
                    let ns = self.entries@;
                    assert(entry.ids() =~= seq![commit@]);
                    assert(entry.ids().no_duplicates());
                    assert(entry.commit_set() =~= Set::<Seq<char>>::empty().insert(commit@)) by {
                        assert(seq![commit@].to_set() =~= Set::<Seq<char>>::empty().insert(commit@)) by {
                            assert(seq![commit@] =~= Seq::<Seq<char>>::empty().push(commit@));
                            Seq::<Seq<char>>::empty().lemma_push_to_set_commute(commit@);
                        }
                    }
                    assert forall|j: int| 0 <= j < n implies ns[j].key() != k by {
                        if ns[j].key() == k {
                            assert(has_key(es, n, k));
                        }
                    }
                    assert(keys_unique(ns));
                    lemma_prefix_insert(ns, n);
                    lemma_prefix_same(ns, es, n);
                }
            },
        }
    }

    /// Credits `commit` to `author`. Crediting the same commit to the same
    /// identity twice has no further effect.
    pub fn add(&mut self, author: Author, commit: String)
        requires
            old(self).wf(),
        ensures
            final(self).wf(),
            final(self)@ == add_commit(old(self)@, identity_key(author@), commit@),
    {
        let key_name = fold_case(author.name.as_str());
        let key_email = fold_case(author.email.as_str());
        self.add_keyed(&author, &key_name, &key_email, &commit);
    }
}

spec fn es_view(es: Seq<AuthorEntry>) -> Contributions {
    prefix_view(es, es.len() as int)
}

} // verus!

verus! {

impl AuthorMap {
    /// Merges `other` into this map: every identity of either map keeps the
    /// union of its commit sets.
    pub fn extend(&mut self, other: AuthorMap)
        requires
            old(self).wf(),
            other.wf(),
        ensures
            final(self).wf(),
            final(self)@ == union(old(self)@, other@),
    {
        self.merge(&other);
    }

    /// Merges a copy of `other` into this map, as `extend` does.
    pub fn merge(&mut self, other: &AuthorMap)
        requires
            old(self).wf(),
            other.wf(),
        ensures
            final(self).wf(),
            final(self)@ == union(old(self)@, other@),
    {
        let ghost start = self@;
        let ghost os = other.entries@;
        proof {
            lemma_prefix_empty(os);
            assert(union(start, prefix_view(os, 0)) =~~= start);
        }
        let mut i: usize = 0;
        while i < other.entries.len()
            invariant
                self.wf(),
                entries_wf(os),
                os == other.entries@,
                i <= os.len(),
                self@ == union(start, prefix_view(os, i as int)),
            decreases os.len() - i,
        {
            let e = &other.entries[i];
            let ghost k = e.key();
            let ghost base = self@;
            let mut j: usize = 0;
            while j < e.commits.len()
                invariant
                    self.wf(),
                    j <= e.commits.len(),
                    *e == os[i as int],
                    k == e.key(),
                    entries_wf(os),
                    i < os.len(),
                    j == 0 ==> self@ == base,
                    j > 0 ==> self@ == base.insert(
                        k,
                        commits_in(base, k).union(e.ids().take(j as int).to_set()),
                    ),
                decreases e.commits.len() - j,
            {
                let ghost prev = self@;
                self.add_keyed(&e.author, &e.key_name, &e.key_email, &e.commits[j]);
                proof {
                    let c = e.commits@[j as int]@;
                    let t0 = e.ids().take(j as int);
                    let t1 = e.ids().take(j + 1);
                    assert(t1 =~= t0.push(c));
                    t0.lemma_push_to_set_commute(c);
                    let a = commits_in(base, k);
                    assert(self@ == add_commit(prev, (e.key_name@, e.key_email@), c));
                    assert(k == (e.key_name@, e.key_email@));
                    assert(self@ == prev.insert(k, commits_in(prev, k).insert(c)));
                    if j == 0 {
                        assert(t0 =~= Seq::<Seq<char>>::empty());
                        assert(t0.to_set() =~= Set::<Seq<char>>::empty());
                        assert(a.insert(c) =~= a.union(t1.to_set()));
                        assert(self@ =~~= base.insert(k, a.union(t1.to_set())));
                    } else {
                        assert(commits_in(prev, k) == a.union(t0.to_set()));
                        assert(a.union(t0.to_set()).insert(c) =~= a.union(t1.to_set()));
                        assert(self@ =~~= base.insert(k, a.union(t1.to_set())));
                    }
                }
                j = j + 1;
            }
            proof {
                assert(e.ids().take(e.commits.len() as int) =~= e.ids());
                lemma_prefix_insert(os, i as int);
                assert(self@ =~~= union(start, prefix_view(os, i + 1)));
            }
            i = i + 1;
        }
    }
}

} // verus!

verus! {

proof fn lemma_difference_step(p: Contributions, k: IdentityKey, s: Set<Seq<char>>, b: Contributions)
    requires
        !p.contains_key(k),
    ensures
        s.difference(commits_in(b, k)) != Set::<Seq<char>>::empty() ==> difference(p.insert(k, s), b)
            =~~= difference(p, b).insert(k, s.difference(commits_in(b, k))),
        s.difference(commits_in(b, k)) == Set::<Seq<char>>::empty() ==> difference(
            p.insert(k, s),
            b,
        ) =~~= difference(p, b),
{
}

impl AuthorMap {
    /// Removes from each identity the commits that `other` credits to it;
    /// identities left with no commit are dropped.
    pub fn subtract(&mut self, other: &AuthorMap)
        requires
            old(self).wf(),
            other.wf(),
        ensures
            final(self).wf(),
            final(self)@ == difference(old(self)@, other@),
    {
        *self = self.difference_of(other);
    }

    /// A new map: this one without what `other` credits, as `subtract` leaves
    /// it.
    pub fn difference_of(&self, other: &AuthorMap) -> (r: AuthorMap)
        requires
            self.wf(),
            other.wf(),
        ensures
            r.wf(),
            r@ == difference(self@, other@),
    {
        let ghost es = self.entries@;
        let mut kept: Vec<AuthorEntry> = Vec::new();
        let mut i: usize = 0;
        proof {
            lemma_prefix_empty(es);
            lemma_prefix_empty(kept@);
            assert(difference(prefix_view(es, 0), other@) =~~= prefix_view(kept@, 0));
        }
        while i < self.entries.len()
            invariant
                es == self.entries@,
                entries_wf(es),
                other.wf(),
                i <= es.len(),
                entries_wf(kept@),
                forall|m: int| 0 <= m < kept.len() ==> has_key(es, i as int, #[trigger] kept@[m].key()),
                prefix_view(kept@, kept.len() as int) == difference(prefix_view(es, i as int), other@),
            decreases es.len() - i,
        {
            let e = &self.entries[i];
            let ghost k = e.key();
            let theirs = other.find_key(&e.key_name, &e.key_email);
            let ghost gone = commits_in(other@, k);
            proof {
                if let Some(t) = theirs {
                    lemma_prefix_at(other.entries@, other.entries@.len() as int, t as int);
                }
            }
            let mut left: Vec<String> = Vec::new();
            let mut j: usize = 0;
            while j < e.commits.len()
                invariant
                    *e == es[i as int],
                    k == e.key(),
                    i < es.len(),
                    entries_wf(es),
                    other.wf(),
                    j <= e.commits.len(),
                    match theirs {
                        Some(t) => t < other.entries.len() && other.entries@[t as int].commit_set() == gone,
                        None => gone == Set::<Seq<char>>::empty(),
                    },
                    ids_of(left@).no_duplicates(),
                    forall|x: Seq<char>| #[trigger] ids_of(left@).contains(x) ==> e.ids().take(j as int).contains(x),
                    ids_of(left@).to_set() == e.ids().take(j as int).to_set().difference(gone),
                decreases e.commits.len() - j,
            {
                let c = &e.commits[j];
                let drop = match theirs {
                    Some(t) => contains_id(&other.entries[t].commits, c),
                    None => false,
                };
                let ghost before = ids_of(left@);
                proof {
                    let t0 = e.ids().take(j as int);
                    let t1 = e.ids().take(j + 1);
                    assert(t1 =~= t0.push(c@));
                    t0.lemma_push_to_set_commute(c@);
                    assert(!t0.contains(c@)) by {
                        if t0.contains(c@) {
                            let q = choose|q: int| 0 <= q < t0.len() && t0[q] == c@;
                            assert(e.ids()[q] == e.ids()[j as int]);
                        }
                    }
                }
                if !drop {
                    left.push(c.clone());
                    proof {
                        assert(ids_of(left@) =~= before.push(c@));
                        before.lemma_push_to_set_commute(c@);
                        assert(!before.contains(c@)) by {
                            if before.contains(c@) {
                                assert(e.ids().take(j as int).contains(c@));
                            }
                        }
                        assert forall|a: int, b: int|
                            0 <= a < ids_of(left@).len() && 0 <= b < ids_of(left@).len() && a != b
                            implies ids_of(left@)[a] != ids_of(left@)[b] by {
                            if a < before.len() && b < before.len() {
                                assert(before[a] != before[b]);
                            } else if a < before.len() {
                                assert(before.contains(before[a]));
                            } else {
                                assert(before.contains(before[b]));
                            }
                        }
                        assert(!gone.contains(c@));
                    }
                }
                proof {
                    let t1 = e.ids().take(j + 1);
                    assert(ids_of(left@).to_set() =~= t1.to_set().difference(gone));
                    assert forall|x: Seq<char>| #[trigger] ids_of(left@).contains(x) implies t1.contains(x) by {
                        if x != c@ {
                            assert(before.contains(x));
                            assert(e.ids().take(j as int).contains(x));
                            let q = choose|q: int| 0 <= q < j && e.ids().take(j as int)[q] == x;
                            assert(t1[q] == x);
                        } else {
                            assert(t1[j as int] == x);
                        }
                    }
                }
                j = j + 1;
            }
            proof {
                assert(e.ids().take(e.commits.len() as int) =~= e.ids());
                lemma_prefix_insert(es, i as int);
                lemma_difference_step(prefix_view(es, i as int), k, e.commit_set(), other@);
            }
            if left.len() > 0 {
                let entry = AuthorEntry {
                    author: e.author.duplicate(),
                    key_name: e.key_name.clone(),
                    key_email: e.key_email.clone(),
                    commits: left,
                };
                let ghost old_kept = kept@;
                kept.push(entry);
                proof {
                    let n = old_kept.len() as int;
                    assert(!has_key(es, i as int, k)) by {
                        if has_key(es, i as int, k) {
                            let q = key_index(es, i as int, k);
                            assert(es[q].key() == es[i as int].key());
                        }
                    }
                    assert forall|m: int| 0 <= m < n implies kept@[m].key() != k by {
                        assert(kept@[m] == old_kept[m]);
                    }
                    assert(keys_unique(kept@));
                    assert(entries_wf(kept@));
                    lemma_prefix_insert(kept@, n);
                    lemma_prefix_same(kept@, old_kept, n);
                    assert(ids_of(entry.commits@).len() > 0);
                    assert(entry.commit_set() != Set::<Seq<char>>::empty()) by {
                        assert(entry.commit_set().contains(ids_of(entry.commits@)[0]));
                    }
                    assert forall|m: int| 0 <= m < kept.len() implies has_key(es, i + 1, #[trigger] kept@[m].key()) by {
                        if m < n {
                            let q = key_index(es, i as int, kept@[m].key());
                            assert(es[q].key() == kept@[m].key());
                        } else {
                            assert(es[i as int].key() == kept@[m].key());
                        }
                    }
                }
            } else {
                proof {
                    assert(e.commit_set().difference(gone) =~= Set::<Seq<char>>::empty()) by {
                        assert(ids_of(left@) =~= Seq::<Seq<char>>::empty());
                    }
                    assert forall|m: int| 0 <= m < kept.len() implies has_key(es, i + 1, #[trigger] kept@[m].key()) by {
                        let q = key_index(es, i as int, kept@[m].key());
                        assert(es[q].key() == kept@[m].key());
                    }
                }
            }
            i = i + 1;
        }
        AuthorMap { entries: kept }
    }
}

} // verus!

verus! {

impl AuthorMap {
    /// Each identity of the map once, in the spelling first seen, with the
    /// number of commits credited to it.
    pub fn counts(&self) -> (r: Vec<(Author, usize)>)
        requires
            self.wf(),
        ensures
            is_listing(self@, r@),
    {
        let ghost es = self.entries@;
        let mut r: Vec<(Author, usize)> = Vec::new();
        let mut i: usize = 0;
        while i < self.entries.len()
            invariant
                es == self.entries@,
                entries_wf(es),
                i <= es.len(),
                r.len() == i,
                forall|m: int|
                    0 <= m < i ==> (#[trigger] r@[m]).0@ == es[m].author@ && r@[m].1
                        == es[m].commits.len(),
            decreases es.len() - i,
        {
            let e = &self.entries[i];
            r.push((e.author.duplicate(), e.commits.len()));
            i = i + 1;
        }
        proof {
            let n = es.len() as int;
            assert forall|m: int| 0 <= m < r.len() implies self@.contains_key(
                identity_key((#[trigger] r@[m]).0@),
            ) && r@[m].1 == self@[identity_key(r@[m].0@)].len() by {
                lemma_prefix_at(es, n, m);
                es[m].ids().unique_seq_to_set();
            }
            assert forall|k: IdentityKey| #[trigger] self@.contains_key(k) implies exists|m: int|
                0 <= m < r.len() && identity_key((#[trigger] r@[m]).0@) == k by {
                let m = key_index(es, n, k);
                assert(identity_key(r@[m].0@) == k);
            }
        }
        r
    }

    /// The number of identities credited.
    pub fn len(&self) -> (r: usize)
        requires
            self.wf(),
        ensures
            r == self@.dom().len(),
    {
        proof {
            lemma_dom_len(self.entries@, self.entries@.len() as int);
        }
        self.entries.len()
    }
}

proof fn lemma_dom_len(es: Seq<AuthorEntry>, n: int)
    requires
        0 <= n <= es.len(),
        keys_unique(es),
    ensures
        prefix_view(es, n).dom().finite(),
        prefix_view(es, n).dom().len() == n,
    decreases n,
{
    if n == 0 {
        lemma_prefix_empty(es);
    } else {
        lemma_dom_len(es, n - 1);
        lemma_prefix_insert(es, n - 1);
    }
}

/// Every identity of a map has at least one commit.
pub proof fn lemma_values_non_empty(m: AuthorMap)
    requires
        m.wf(),
    ensures
        forall|k: IdentityKey| #[trigger]
            m@.contains_key(k) ==> m@[k] != Set::<Seq<char>>::empty(),
{
    let es = m.entries@;
    let n = es.len() as int;
    assert forall|k: IdentityKey| #[trigger] m@.contains_key(k) implies m@[k] != Set::<
        Seq<char>,
    >::empty() by {
        let j = key_index(es, n, k);
        assert(es[j].ids().contains(es[j].ids()[0]));
        assert(m@[k].contains(es[j].ids()[0]));
    }
}

/// Merging author maps does not depend on their order.
pub proof fn lemma_union_commutative(a: AuthorMap, b: AuthorMap)
    ensures
        union(a@, b@) == union(b@, a@),
{
    assert(union(a@, b@) =~~= union(b@, a@));
}

/// Merging author maps does not depend on how they are grouped.
pub proof fn lemma_union_associative(a: AuthorMap, b: AuthorMap, c: AuthorMap)
    ensures
        union(union(a@, b@), c@) == union(a@, union(b@, c@)),
{
    assert(union(union(a@, b@), c@) =~~= union(a@, union(b@, c@)));
}

/// Taking `b` away from `a` and merging `b` back credits at least what `a`
/// credited.
pub proof fn lemma_difference_then_union_covers(a: AuthorMap, b: AuthorMap)
    requires
        a.wf(),
    ensures
        covers(union(difference(a@, b@), b@), a@),
{
    lemma_values_non_empty(a);
    let d = difference(a@, b@);
    let u = union(d, b@);
    assert forall|k: IdentityKey| #[trigger] a@.contains_key(k) implies u.contains_key(k)
        && a@[k].subset_of(u[k]) by {
        assert forall|c: Seq<char>| a@[k].contains(c) implies u[k].contains(c) by {
            if !commits_in(b@, k).contains(c) {
                assert(a@[k].difference(commits_in(b@, k)).contains(c));
                assert(d.contains_key(k));
            }
        }
        if !b@.contains_key(k) {
            assert(a@[k].difference(commits_in(b@, k)) =~= a@[k]);
        }
    }
}

/// Merging `b` into `a` and taking `b` away again gives back `a` on the
/// identities that only `a` credits.
pub proof fn lemma_union_then_difference_restores(a: AuthorMap, b: AuthorMap)
    requires
        a.wf(),
    ensures
        restrict(difference(union(a@, b@), b@), |k: IdentityKey| !b@.contains_key(k)) == restrict(
            a@,
            |k: IdentityKey| !b@.contains_key(k),
        ),
{
    lemma_values_non_empty(a);
    let l = restrict(difference(union(a@, b@), b@), |k: IdentityKey| !b@.contains_key(k));
    let r = restrict(a@, |k: IdentityKey| !b@.contains_key(k));
    assert forall|k: IdentityKey| #[trigger] r.contains_key(k) implies l.contains_key(k) && l[k]
        == r[k] by {
        assert(union(a@, b@)[k].difference(commits_in(b@, k)) =~= a@[k]);
    }
    assert(l =~~= r);
}

} // verus!
