//! Score tables of contributors: one row per email, ordered by commits,
//! with ranks.

use vstd::prelude::*;
use vstd::seq_lib::*;

use crate::author_map::{is_listing, AuthorMap};
use crate::mailmap::{Author, AuthorModel};

verus! {

/// One row of a score table.
#[derive(Debug, Clone)]
pub struct Entry {
    pub rank: u32,
    pub author: String,
    pub email: String,
    pub commits: usize,
}

pub type EntryModel = (u32, Seq<char>, Seq<char>, usize);

impl View for Entry {
    type V = EntryModel;

    open spec fn view(&self) -> EntryModel {
        (self.rank, self.author@, self.email@, self.commits)
    }
}

pub open spec fn entry_views(v: Seq<Entry>) -> Seq<EntryModel> {
    v.map_values(|e: Entry| e@)
}

/// `a` comes before `b` in character order (the order of `String`).
pub open spec fn text_lt(a: Seq<char>, b: Seq<char>) -> bool
    decreases a.len(),
{
    if a.len() == 0 {
        b.len() > 0
    } else if b.len() == 0 {
        false
    } else if a[0] != b[0] {
        a[0] < b[0]
    } else {
        text_lt(a.drop_first(), b.drop_first())
    }
}

proof fn lemma_text_lt_irreflexive(a: Seq<char>)
    ensures
        !text_lt(a, a),
    decreases a.len(),
{
    if a.len() > 0 {
        lemma_text_lt_irreflexive(a.drop_first());
    }
}

proof fn lemma_text_lt_transitive(a: Seq<char>, b: Seq<char>, c: Seq<char>)
    requires
        text_lt(a, b),
        text_lt(b, c),
    ensures
        text_lt(a, c),
    decreases a.len(),
{
    if a.len() > 0 && b.len() > 0 && c.len() > 0 && a[0] == b[0] && b[0] == c[0] {
        lemma_text_lt_transitive(a.drop_first(), b.drop_first(), c.drop_first());
    }
}

proof fn lemma_text_lt_total(a: Seq<char>, b: Seq<char>)
    ensures
        a == b || text_lt(a, b) || text_lt(b, a),
    decreases a.len(),
{
    if a.len() > 0 && b.len() > 0 && a[0] == b[0] {
        lemma_text_lt_total(a.drop_first(), b.drop_first());
        if a.drop_first() == b.drop_first() {
            assert(a.len() == a.drop_first().len() + 1);
            assert(b.len() == b.drop_first().len() + 1);
            assert(a.len() == b.len());
            assert forall|k: int| 0 <= k < a.len() implies a[k] == b[k] by {
                if k > 0 {
                    assert(a[k] == a.drop_first()[k - 1]);
                    assert(b[k] == b.drop_first()[k - 1]);
                }
            }
            assert(a =~= b);
        }
    } else if a.len() == 0 && b.len() == 0 {
        assert(a =~= b);
    }
}

/// `x` is listed before `y`: more commits, or as many and an author text
/// that comes first.
pub open spec fn listed_before(x: EntryModel, y: EntryModel) -> bool {
    x.3 > y.3 || (x.3 == y.3 && text_lt(x.1, y.1))
}

/// No row is listed before one that precedes it.
pub open spec fn is_listed(v: Seq<EntryModel>) -> bool {
    forall|i: int, j: int| 0 <= i < j < v.len() ==> !listed_before(#[trigger] v[j], #[trigger] v[i])
}

/// How many rows have more commits than row `i`.
pub open spec fn ahead_of(v: Seq<EntryModel>, i: int) -> int {
    v.filter(|e: EntryModel| e.3 > v[i].3).len() as int
}

/// Text order of two strings.
pub fn text_less(a: &str, b: &str) -> (r: bool)
    ensures
        r == text_lt(a@, b@),
{
    let va = crate::text::chars_of(a);
    let vb = crate::text::chars_of(b);
    let mut i: usize = 0;
    assert(va@.subrange(0, va.len() as int) =~= va@);
    assert(vb@.subrange(0, vb.len() as int) =~= vb@);
    while i < va.len() && i < vb.len() && va[i] == vb[i]
        invariant
            i <= va.len(),
            i <= vb.len(),
            text_lt(va@.subrange(i as int, va.len() as int), vb@.subrange(i as int, vb.len() as int))
                == text_lt(a@, b@),
            va@ == a@,
            vb@ == b@,
        decreases va.len() - i,
    {
        assert(va@.subrange(i as int, va.len() as int).drop_first() =~= va@.subrange(
            i + 1,
            va.len() as int,
        ));
        assert(vb@.subrange(i as int, vb.len() as int).drop_first() =~= vb@.subrange(
            i + 1,
            vb.len() as int,
        ));
        i = i + 1;
    }
    if i == va.len() {
        i < vb.len()
    } else if i == vb.len() {
        false
    } else {
        va[i] < vb[i]
    }
}

fn is_listed_before(x: &Entry, y: &Entry) -> (r: bool)
    ensures
        r == listed_before(x@, y@),
{
    x.commits > y.commits || (x.commits == y.commits && text_less(x.author.as_str(), y.author.as_str()))
}

} // verus!

verus! {

/// A row without its rank.
pub open spec fn row(e: EntryModel) -> (Seq<char>, Seq<char>, usize) {
    (e.1, e.2, e.3)
}

pub open spec fn rows(v: Seq<EntryModel>) -> Seq<(Seq<char>, Seq<char>, usize)> {
    v.map_values(|e: EntryModel| row(e))
}

/// Competition ranking: each row's rank is one more than the number of rows
/// with more commits, which in a listed table all come first.
pub open spec fn is_ranked(v: Seq<EntryModel>) -> bool {
    forall|i: int| 0 <= i < v.len() ==> #[trigger] ranked_at(v, i)
}

/// Row `i` holds its competition rank.
pub open spec fn ranked_at(v: Seq<EntryModel>, i: int) -> bool {
    &&& 1 <= v[i].0 <= i + 1
    &&& v[v[i].0 - 1].3 == v[i].3
    &&& forall|j: int| 0 <= j < v[i].0 - 1 ==> (#[trigger] v[j]).3 > v[i].3
}

proof fn lemma_listed_before_order(x: EntryModel, y: EntryModel, z: EntryModel)
    ensures
        listed_before(x, y) ==> !listed_before(y, x),
        listed_before(x, y) && listed_before(y, z) ==> listed_before(x, z),
        !listed_before(x, x),
{
    lemma_text_lt_irreflexive(x.1);
    if listed_before(x, y) && x.3 == y.3 && text_lt(y.1, x.1) {
        lemma_text_lt_transitive(x.1, y.1, x.1);
        lemma_text_lt_irreflexive(x.1);
    }
    if listed_before(x, y) && listed_before(y, z) && x.3 == y.3 && y.3 == z.3 {
        lemma_text_lt_transitive(x.1, y.1, z.1);
    }
}

fn copy_entry(e: &Entry) -> (r: Entry)
    ensures
        r@ == e@,
{
    Entry { rank: e.rank, author: e.author.clone(), email: e.email.clone(), commits: e.commits }
}

/// Orders the rows, most commits first and then by author text, and ranks
/// them: a row's rank is one more than the number of rows with more commits.
pub fn rank_scores(entries: &Vec<Entry>) -> (r: Vec<Entry>)
    requires
        entries.len() < u32::MAX,
    ensures
        rows(entry_views(r@)).to_multiset() == rows(entry_views(entries@)).to_multiset(),
        is_listed(entry_views(r@)),
        is_ranked(entry_views(r@)),
{
    broadcast use vstd::seq_lib::group_to_multiset_ensures;

    let ghost ins = entry_views(entries@);
    let mut out: Vec<Entry> = Vec::new();
    let mut i: usize = 0;
    proof {
        assert(rows(entry_views(out@)) =~= rows(ins.take(0)));
    }
    while i < entries.len()
        invariant
            i <= entries.len(),
            ins == entry_views(entries@),
            out.len() == i,
            is_listed(entry_views(out@)),
            rows(entry_views(out@)).to_multiset() == rows(ins.take(i as int)).to_multiset(),
        decreases entries.len() - i,
    {
        let e = copy_entry(&entries[i]);
        let mut p: usize = 0;
        while p < out.len() && !is_listed_before(&e, &out[p])
            invariant
                p <= out.len(),
                forall|k: int| 0 <= k < p ==> !listed_before(e@, #[trigger] entry_views(out@)[k]),
            decreases out.len() - p,
        {
            p = p + 1;
        }
        let ghost old_out = entry_views(out@);
        out.insert(p, e);
        proof {
            let nv = entry_views(out@);
            assert(nv =~= old_out.insert(p as int, e@));
            assert forall|a: int, b: int| 0 <= a < b < nv.len() implies !listed_before(
                #[trigger] nv[b],
                #[trigger] nv[a],
            ) by {
                if a == p {
                    if b > p {
                        lemma_listed_before_order(e@, old_out[p as int], old_out[b - 1]);
                        lemma_listed_before_order(old_out[b - 1], e@, old_out[p as int]);
                        lemma_listed_before_order(old_out[b - 1], old_out[p as int], e@);
                    }
                } else if b == p {
                    assert(nv[a] == old_out[a]);
                } else if a < p && b > p {
                    assert(nv[a] == old_out[a]);
                    assert(nv[b] == old_out[b - 1]);
                } else if b < p {
                    assert(nv[a] == old_out[a]);
                    assert(nv[b] == old_out[b]);
                } else {
                    assert(nv[a] == old_out[a - 1]);
                    assert(nv[b] == old_out[b - 1]);
                }
            }
            assert(rows(nv) =~= rows(old_out).insert(p as int, row(e@)));
            assert(rows(ins.take(i + 1)) =~= rows(ins.take(i as int)).push(row(e@)));
            vstd::seq_lib::to_multiset_insert(rows(old_out), p as int, row(e@));
            vstd::seq_lib::to_multiset_build(rows(ins.take(i as int)), row(e@));
        }
        i = i + 1;
    }
    assert(ins.take(i as int) =~= ins);
    let ghost sorted = entry_views(out@);
    let mut k: usize = 0;
    let mut current: u32 = 1;
    while k < out.len()
        invariant
            k <= out.len(),
            out.len() < u32::MAX,
            is_listed(sorted),
            sorted.len() == out.len(),
            forall|m: int| 0 <= m < out.len() ==> row(#[trigger] entry_views(out@)[m]) == row(sorted[m]),
            k > 0 ==> 1 <= current <= k && sorted[current - 1].3 == sorted[k - 1].3 && forall|j: int|
                0 <= j < current - 1 ==> (#[trigger] sorted[j]).3 > sorted[k - 1].3,
            is_ranked(entry_views(out@).take(k as int)),
        decreases out.len() - k,
    {
        if k == 0 || out[k].commits < out[k - 1].commits {
            current = (k + 1) as u32;
        }
        proof {
            if k > 0 {
                assert(!listed_before(sorted[k as int], sorted[k - 1]));
                assert(entry_views(out@)[k as int].3 == sorted[k as int].3);
                assert(entry_views(out@)[k - 1].3 == sorted[k - 1].3);
            }
            assert forall|j: int| 0 <= j < current - 1 implies (#[trigger] sorted[j]).3 > sorted[k as int].3 by {
                if k > 0 && current as int != k + 1 {
                    assert(sorted[j].3 > sorted[k - 1].3);
                } else {
                    assert(!listed_before(sorted[k as int], sorted[j]));
                    if sorted[j].3 == sorted[k as int].3 {
                        assert(j < k - 1);
                        assert(!listed_before(sorted[k - 1], sorted[j]));
                        assert(sorted[j].3 >= sorted[k - 1].3);
                        assert(entry_views(out@)[k - 1].3 > entry_views(out@)[k as int].3);
                    }
                }
            }
        }
        let ghost before = entry_views(out@);
        out[k].rank = current;
        proof {
            let now = entry_views(out@);
            assert(now =~= before.update(k as int, (current, before[k as int].1, before[k as int].2, before[k as int].3)));
            let t = now.take(k + 1);
            assert forall|i2: int| 0 <= i2 < k + 1 implies #[trigger] ranked_at(t, i2) by {
                if i2 < k {
                    let b = before.take(k as int);
                    assert(ranked_at(b, i2));
                    assert(t[i2] == b[i2]);
                    assert forall|j: int| 0 <= j < k implies t[j].3 == b[j].3 by {}
                    assert(t[t[i2].0 - 1].3 == b[b[i2].0 - 1].3);
                } else {
                    assert(t[i2] == now[k as int]);
                    assert forall|j: int| 0 <= j < t[i2].0 - 1 implies (#[trigger] t[j]).3 > t[i2].3 by {
                        assert(t[j].3 == sorted[j].3);
                    }
                    assert(t[t[i2].0 - 1].3 == sorted[current - 1].3);
                }
            }
        }
        k = k + 1;
    }
    proof {
        assert(entry_views(out@).take(k as int) =~= entry_views(out@));
        assert(rows(entry_views(out@)) =~= rows(sorted));
        assert forall|a: int, b: int| 0 <= a < b < out.len() implies !listed_before(
            #[trigger] entry_views(out@)[b],
            #[trigger] entry_views(out@)[a],
        ) by {
            assert(row(entry_views(out@)[a]) == row(sorted[a]));
            assert(row(entry_views(out@)[b]) == row(sorted[b]));
        }
    }
    out
}

} // verus!

verus! {

/// The emails of the rows, each once, in order of first appearance.
pub open spec fn emails_of(es: Seq<EntryModel>) -> Seq<Seq<char>>
    decreases es.len(),
{
    if es.len() == 0 {
        Seq::empty()
    } else {
        let r = emails_of(es.drop_last());
        if r.contains(es.last().2) {
            r
        } else {
            r.push(es.last().2)
        }
    }
}

/// The commits of all rows.
pub open spec fn total(es: Seq<EntryModel>) -> int
    decreases es.len(),
{
    if es.len() == 0 {
        0
    } else {
        total(es.drop_last()) + es.last().3
    }
}

/// The commits of the rows with email `m`.
pub open spec fn email_total(es: Seq<EntryModel>, m: Seq<char>) -> int
    decreases es.len(),
{
    if es.len() == 0 {
        0
    } else {
        email_total(es.drop_last(), m) + (if es.last().2 == m {
            es.last().3 as int
        } else {
            0
        })
    }
}

/// Among the rows with email `m`, the commits and author of the one with
/// most commits, ties going to the author text that comes last.
pub open spec fn best_row(es: Seq<EntryModel>, m: Seq<char>) -> Option<(usize, Seq<char>)>
    decreases es.len(),
{
    if es.len() == 0 {
        None
    } else {
        let b = best_row(es.drop_last(), m);
        let e = es.last();
        if e.2 != m {
            b
        } else {
            match b {
                None => Some((e.3, e.1)),
                Some((c, a)) => if e.3 > c || (e.3 == c && text_lt(a, e.1)) {
                    Some((e.3, e.1))
                } else {
                    b
                },
            }
        }
    }
}

/// One row per email: the author of its best row, and the commits of all
/// its rows.
pub open spec fn deduplicated(es: Seq<EntryModel>) -> Seq<EntryModel> {
    emails_of(es).map_values(
        |m: Seq<char>| (0u32, best_row(es, m)->Some_0.1, m, email_total(es, m) as usize),
    )
}

proof fn lemma_email_facts(es: Seq<EntryModel>, m: Seq<char>)
    ensures
        best_row(es, m) is Some <==> emails_of(es).contains(m),
        !emails_of(es).contains(m) ==> email_total(es, m) == 0,
        0 <= email_total(es, m) <= total(es),
        emails_of(es).no_duplicates(),
    decreases es.len(),
{
    if es.len() > 0 {
        lemma_email_facts(es.drop_last(), m);
        let r = emails_of(es.drop_last());
        if !r.contains(es.last().2) {
            assert(r.push(es.last().2)[r.len() as int] == es.last().2);
            assert(r.push(es.last().2).contains(es.last().2));
            assert forall|x: Seq<char>| r.contains(x) implies r.push(es.last().2).contains(x) by {
                let q = choose|q: int| 0 <= q < r.len() && r[q] == x;
                assert(r.push(es.last().2)[q] == x);
            }
            assert forall|x: Seq<char>| r.push(es.last().2).contains(x) implies r.contains(x) || x
                == es.last().2 by {
                let q = choose|q: int| 0 <= q < r.len() + 1 && r.push(es.last().2)[q] == x;
                if q < r.len() {
                    assert(r[q] == x);
                }
            }
        }
    }
}

proof fn lemma_total_prefix(es: Seq<EntryModel>, i: int)
    requires
        0 <= i <= es.len(),
    ensures
        total(es.take(i)) <= total(es),
    decreases es.len() - i,
{
    if i < es.len() {
        lemma_total_prefix(es, i + 1);
        assert(es.take(i + 1).drop_last() =~= es.take(i));
        assert(es.take(i + 1).last().3 >= 0);
    } else {
        assert(es.take(i) =~= es);
    }
}

/// One row per email, in order of first appearance: the commits of all the
/// rows with that email, and the author of the row with most commits (ties
/// going to the author text that comes last). Ranks are zero.
pub fn deduplicate_scores(entries: &Vec<Entry>) -> (r: Vec<Entry>)
    requires
        total(entry_views(entries@)) <= usize::MAX,
    ensures
        entry_views(r@) == deduplicated(entry_views(entries@)),
{
    let ghost ins = entry_views(entries@);
    let mut out: Vec<Entry> = Vec::new();
    let mut best: Vec<usize> = Vec::new();
    let mut i: usize = 0;
    proof {
        assert(ins.take(0) =~= Seq::<EntryModel>::empty());
        assert(entry_views(out@) =~= deduplicated(ins.take(0)));
    }
    while i < entries.len()
        invariant
            i <= entries.len(),
            ins == entry_views(entries@),
            total(ins) <= usize::MAX,
            entry_views(out@) == deduplicated(ins.take(i as int)),
            best.len() == out.len(),
            forall|k: int|
                0 <= k < out.len() ==> best_row(ins.take(i as int), #[trigger] out@[k].email@) == Some(
                    (best@[k], out@[k].author@),
                ),
        decreases entries.len() - i,
    {
        let e = &entries[i];
        let ghost pre = ins.take(i as int);
        let ghost post = ins.take(i + 1);
        proof {
            assert(post.drop_last() =~= pre);
            assert(post.last() == e@);
            lemma_total_prefix(ins, i + 1);
            lemma_email_facts(post, e.email@);
            lemma_email_facts(pre, e.email@);
        }
        let ghost old_out = entry_views(out@);
        let ghost old_raw = out@;
        let ghost old_best = best@;
        let mut k: usize = 0;
        while k < out.len() && out[k].email != e.email
            invariant
                k <= out.len(),
                forall|j: int| 0 <= j < k ==> out@[j].email@ != e.email@,
            decreases out.len() - k,
        {
            k = k + 1;
        }
        let ghost m = e.email@;
        if k < out.len() {
            proof {
                assert(entry_views(out@).len() == out@.len());
                assert(deduplicated(pre).len() == emails_of(pre).len());
                assert(k < emails_of(pre).len());
                assert(entry_views(out@)[k as int] == deduplicated(pre)[k as int]);
                assert(out@[k as int].email@ == m);
                assert(emails_of(pre)[k as int] == m);
                assert(out@[k as int].commits == email_total(pre, m) as usize);
                assert(email_total(post, m) == email_total(pre, m) + e.commits);
                assert(emails_of(pre).contains(m));
                assert(emails_of(post) == emails_of(pre));
            }
            let sum = out[k].commits + e.commits;
            out[k].commits = sum;
            if e.commits > best[k] || (e.commits == best[k] && text_less(
                out[k].author.as_str(),
                e.author.as_str(),
            )) {
                out[k].author = e.author.clone();
                best.set(k, e.commits);
            }
        } else {
            proof {
                assert forall|j: int| 0 <= j < emails_of(pre).len() implies emails_of(pre)[j] != m by {
                    assert(entry_views(out@).len() == out@.len());
                    assert(deduplicated(pre).len() == emails_of(pre).len());
                    assert(entry_views(out@)[j] == deduplicated(pre)[j]);
                    assert(out@[j].email@ == emails_of(pre)[j]);
                }
                assert(!emails_of(pre).contains(m));
            }
            out.push(Entry { rank: 0, author: e.author.clone(), email: e.email.clone(), commits: e.commits });
            best.push(e.commits);
        }
        proof {
            let nv = entry_views(out@);
            let d = deduplicated(post);
            assert(deduplicated(pre).len() == emails_of(pre).len());
            assert(old_out.len() == emails_of(pre).len());
            if k < old_raw.len() {
                assert(emails_of(post) == emails_of(pre));
            } else {
                assert(emails_of(post) == emails_of(pre).push(m));
            }
            assert(nv.len() == d.len());
            assert forall|j: int| 0 <= j < nv.len() implies nv[j] == d[j] by {
                let em = emails_of(post)[j];
                if j < old_out.len() {
                    assert(em == emails_of(pre)[j]);
                    assert(old_out[j] == deduplicated(pre)[j]);
                    if em != m {
                        assert(nv[j] == old_out[j]);
                    }
                } else {
                    assert(em == m);
                }
            }
            assert(nv =~= d);
            assert forall|j: int| 0 <= j < out.len() implies best_row(post, #[trigger] out@[j].email@)
                == Some((best@[j], out@[j].author@)) by {
                if j < old_raw.len() {
                    assert(best_row(pre, old_raw[j].email@) == Some((old_best[j], old_raw[j].author@)));
                    if j != k {
                        assert(out@[j] == old_raw[j]);
                        assert(best@[j] == old_best[j]);
                        if old_raw[j].email@ == m {
                            assert(entry_views(old_raw)[j] == deduplicated(pre)[j]);
                            assert(entry_views(old_raw)[k as int] == deduplicated(pre)[k as int]);
                            lemma_email_facts(pre, m);
                        }
                    } else {
                        assert(out@[j].email@ == m);
                        assert(old_raw[j].email@ == m);
                    }
                } else {
                    assert(out@[j].email@ == m);
                }
            }
        }
        i = i + 1;
    }
    proof {
        assert(ins.take(i as int) =~= ins);
    }
    out
}

} // verus!

verus! {

/// The row of an identity: its name (with its email in parentheses when
/// emails are shown), its email and its commits.
pub open spec fn score_row(a: AuthorModel, n: usize, show_emails: bool) -> EntryModel {
    (0, if show_emails {
        a.0 + " ("@ + a.1 + ")"@
    } else {
        a.0
    }, a.1, n)
}

pub open spec fn score_rows(cs: Seq<(Author, usize)>, show_emails: bool) -> Seq<EntryModel> {
    cs.map_values(|c: (Author, usize)| score_row(c.0@, c.1, show_emails))
}

/// The rows of a listing of identities and their commit counts.
pub fn score_entries(counts: &Vec<(Author, usize)>, show_emails: bool) -> (r: Vec<Entry>)
    ensures
        entry_views(r@) == score_rows(counts@, show_emails),
{
    let mut out: Vec<Entry> = Vec::new();
    let mut i: usize = 0;
    while i < counts.len()
        invariant
            i <= counts.len(),
            entry_views(out@) == score_rows(counts@, show_emails).take(i as int),
        decreases counts.len() - i,
    {
        let (a, n) = (&counts[i].0, counts[i].1);
        let author = if show_emails {
            let mut s = a.name.clone();
            s.append(" (");
            s.append(a.email.as_str());
            s.append(")");
            s
        } else {
            a.name.clone()
        };
        let ghost before = entry_views(out@);
        assert(author@ == score_row(counts@[i as int].0@, n, show_emails).1);
        out.push(Entry { rank: 0, author, email: a.email.clone(), commits: n });
        assert(entry_views(out@) =~= before.push(score_rows(counts@, show_emails)[i as int]));
        assert(entry_views(out@) =~= score_rows(counts@, show_emails).take(i + 1));
        i = i + 1;
    }
    assert(score_rows(counts@, show_emails).take(i as int) =~= score_rows(counts@, show_emails));
    out
}

fn total_fits(entries: &Vec<Entry>) -> (r: bool)
    ensures
        r == (total(entry_views(entries@)) <= usize::MAX),
{
    let ghost es = entry_views(entries@);
    let mut sum: usize = 0;
    let mut i: usize = 0;
    assert(es.take(0) =~= Seq::<EntryModel>::empty());
    while i < entries.len()
        invariant
            i <= entries.len(),
            es == entry_views(entries@),
            sum as int == total(es.take(i as int)),
        decreases entries.len() - i,
    {
        assert(es.take(i + 1).drop_last() =~= es.take(i as int));
        if entries[i].commits > usize::MAX - sum {
            proof {
                lemma_total_prefix(es, i + 1);
            }
            return false;
        }
        sum = sum + entries[i].commits;
        i = i + 1;
    }
    assert(es.take(i as int) =~= es);
    true
}

/// The score table of an author map: one row per email, ordered by commits
/// and then author text, with competition ranks. `None` when the commit
/// counts do not add up within `usize` or the table would have `u32::MAX`
/// rows or more.
pub fn author_map_to_scores(map: &AuthorMap, show_emails: bool) -> (r: Option<Vec<Entry>>)
    requires
        map.wf(),
    ensures
        exists|cs: Seq<(Author, usize)>|
            #![trigger score_rows(cs, show_emails)]
            is_listing(map@, cs) && match r {
                Some(v) => total(score_rows(cs, show_emails)) <= usize::MAX && rows(
                    entry_views(v@),
                ).to_multiset() == rows(deduplicated(score_rows(cs, show_emails))).to_multiset()
                    && is_listed(entry_views(v@)) && is_ranked(entry_views(v@)),
                None => total(score_rows(cs, show_emails)) > usize::MAX || deduplicated(
                    score_rows(cs, show_emails),
                ).len() >= u32::MAX,
            },
{
    let counts = map.counts();
    let entries = score_entries(&counts, show_emails);
    if !total_fits(&entries) {
        return None;
    }
    let unique = deduplicate_scores(&entries);
    if unique.len() >= u32::MAX as usize {
        return None;
    }
    let ranked = rank_scores(&unique);
    Some(ranked)
}

} // verus!
