//! The approver directory: from an approver's login to the identity credited
//! for the approvals made under it.

use vstd::prelude::*;

use crate::mailmap::{Author, AuthorModel};
use crate::text::str_eq;

verus! {

/// The Unicode lowercase of a text, as `str::to_lowercase` computes it.
pub uninterp spec fn lower_of(s: Seq<char>) -> Seq<char>;

/// Relies on `str::to_lowercase`: maps each character to its Unicode
/// lowercase; the result depends on the characters of `s` alone.
#[verifier::external_body]
fn lowercase(s: &str) -> (r: String)
    ensures
        r@ == lower_of(s@),
{
    s.to_lowercase()
}

/// A login that names no approver is not in the directory.
#[derive(Debug, Copy, Clone, PartialEq, Eq)]
pub struct UnknownReviewer;

impl UnknownReviewer {
    /// A description of the error.
    pub fn message(&self) -> (r: &'static str) {
        "login not in the directory"
    }
}

/// One person of a team listing.
#[derive(Debug, Clone)]
pub struct TeamPerson {
    pub name: String,
    pub email: Option<String>,
}

/// A team listing: each person under their login.
#[derive(Debug, Clone)]
pub struct TeamPeople {
    pub people: Vec<(String, TeamPerson)>,
}

/// Directory entries as texts: login and identity.
pub type DirectoryModel = Seq<(Seq<char>, AuthorModel)>;

/// The identity under `login`: the latest entry for it decides.
pub open spec fn lookup_in(es: DirectoryModel, login: Seq<char>) -> Option<AuthorModel>
    decreases es.len(),
{
    if es.len() == 0 {
        None
    } else if es.last().0 == login {
        Some(es.last().1)
    } else {
        lookup_in(es.drop_last(), login)
    }
}

/// The entries a team listing contributes: each person with an email, under
/// the lowercase of their login.
pub open spec fn team_entries(people: Seq<(String, TeamPerson)>) -> DirectoryModel
    decreases people.len(),
{
    if people.len() == 0 {
        Seq::empty()
    } else {
        let rest = team_entries(people.drop_last());
        let p = people.last();
        match p.1.email {
            Some(e) => rest.push((lower_of(p.0@), (p.1.name@, e@))),
            None => rest,
        }
    }
}

/// Logins that stand for no approver: placeholders that credit nobody.
pub open spec fn is_skipped(l: Seq<char>) -> bool {
    l == "3"@ || l == "burningtree"@ || l == "docs"@ || l == "just"@ || l == "me"@ || l == "new"@
        || l == "nobody"@ || l == "rollup"@ || l == "rustdoc"@ || l == "rustdoc-team"@ || l
        == "t-rustdoc"@ || l == "t-rustdoc-frontend"@ || l == "the-whole-team"@ || l
        == "tinyfix"@ || l == "update"@
}

/// What the directory says of an approver token: nobody for a placeholder,
/// the identity under its lowercase login, or an unknown approver.
pub open spec fn resolve(es: DirectoryModel, token: Seq<char>) -> Result<
    Option<AuthorModel>,
    UnknownReviewer,
> {
    let l = lower_of(token);
    if is_skipped(l) {
        Ok(None)
    } else {
        match lookup_in(es, l) {
            Some(a) => Ok(Some(a)),
            None => Err(UnknownReviewer),
        }
    }
}

fn is_skipped_login(l: &str) -> (r: bool)
    ensures
        r == is_skipped(l@),
{
    str_eq(l, "3") || str_eq(l, "burningtree") || str_eq(l, "docs") || str_eq(l, "just") || str_eq(
        l,
        "me",
    ) || str_eq(l, "new") || str_eq(l, "nobody") || str_eq(l, "rollup") || str_eq(l, "rustdoc")
        || str_eq(l, "rustdoc-team") || str_eq(l, "t-rustdoc") || str_eq(l, "t-rustdoc-frontend")
        || str_eq(l, "the-whole-team") || str_eq(l, "tinyfix") || str_eq(l, "update")
}

/// Logins mapped to identities.
#[derive(Debug, Clone)]
pub struct Reviewers {
    reviewers: Vec<(String, Author)>,
}

impl View for Reviewers {
    type V = DirectoryModel;

    closed spec fn view(&self) -> DirectoryModel {
        self.reviewers@.map_values(|e: (String, Author)| (e.0@, e.1@))
    }
}

impl Reviewers {
    /// A directory with nobody in it.
    pub fn empty() -> (r: Reviewers)
        ensures
            r@ == Seq::<(Seq<char>, AuthorModel)>::empty(),
    {
        let r = Reviewers { reviewers: Vec::new() };
        assert(r@ =~= Seq::<(Seq<char>, AuthorModel)>::empty());
        r
    }

    /// The identity under `login`, if any.
    pub fn get(&self, login: &str) -> (r: Option<Author>)
        ensures
            match r {
                Some(a) => lookup_in(self@, login@) == Some(a@),
                None => lookup_in(self@, login@) is None,
            },
    {
        let ghost es = self@;
        let mut j: usize = self.reviewers.len();
        proof {
            assert(es.take(j as int) =~= es);
        }
        while j > 0
            invariant
                j <= self.reviewers.len(),
                es == self@,
                lookup_in(es.take(j as int), login@) == lookup_in(es, login@),
            decreases j,
        {
            let e = &self.reviewers[j - 1];
            assert(es.take(j as int).last() == (e.0@, e.1@));
            if str_eq(e.0.as_str(), login) {
                return Some(e.1.duplicate());
            }
            assert(es.take(j as int).drop_last() =~= es.take(j - 1));
            j = j - 1;
        }
        None
    }

    /// Puts `author` under `login`; returns whether `login` had an identity
    /// before.
    pub fn insert(&mut self, login: String, author: Author) -> (replaced: bool)
        ensures
            replaced == lookup_in(old(self)@, login@) is Some,
            final(self)@ == old(self)@.push((login@, author@)),
    {
        let replaced = self.get(login.as_str()).is_some();
        self.reviewers.push((login, author));
        assert(self@ =~= old(self)@.push((login@, author@)));
        replaced
    }

    /// Puts the identity of `aliased` also under `login`; returns whether
    /// `aliased` had one. Without one, nothing changes.
    pub fn insert_alias(&mut self, login: String, aliased: &str) -> (found: bool)
        ensures
            found == lookup_in(old(self)@, aliased@) is Some,
            found ==> final(self)@ == old(self)@.push(
                (login@, lookup_in(old(self)@, aliased@)->Some_0),
            ),
            !found ==> final(self)@ == old(self)@,
    {
        match self.get(aliased) {
            Some(author) => {
                self.insert(login, author);
                true
            },
            None => false,
        }
    }

    /// The directory that a team listing gives: each person with an email,
    /// under the lowercase of their login.
    pub fn new(team: &TeamPeople) -> (r: Reviewers)
        ensures
            r@ == team_entries(team.people@),
    {
        let mut r = Reviewers::empty();
        let mut i: usize = 0;
        proof {
            assert(team.people@.take(0) =~= Seq::<(String, TeamPerson)>::empty());
        }
        while i < team.people.len()
            invariant
                i <= team.people.len(),
                r@ == team_entries(team.people@.take(i as int)),
            decreases team.people.len() - i,
        {
            let p = &team.people[i];
            assert(team.people@.take(i + 1).drop_last() =~= team.people@.take(i as int));
            assert(team.people@.take(i + 1).last() == *p);
            match &p.1.email {
                Some(email) => {
                    let login = lowercase(p.0.as_str());
                    r.insert(login, Author::new(p.1.name.clone(), email.clone()));
                },
                None => {},
            }
            i = i + 1;
        }
        assert(team.people@.take(i as int) =~= team.people@);
        r
    }

    /// Resolves an approver token: placeholders credit nobody, a known login
    /// (compared in lowercase) gives its identity, and anything else is an
    /// unknown approver.
    pub fn to_author(&self, reviewer: &str) -> (r: Result<Option<Author>, UnknownReviewer>)
        ensures
            match r {
                Ok(Some(a)) => resolve(self@, reviewer@) == Ok::<Option<AuthorModel>, UnknownReviewer>(Some(a@)),
                Ok(None) => resolve(self@, reviewer@) == Ok::<Option<AuthorModel>, UnknownReviewer>(None),
                Err(e) => resolve(self@, reviewer@) == Err::<Option<AuthorModel>, UnknownReviewer>(e),
            },
    {
        let login = lowercase(reviewer);
        if is_skipped_login(login.as_str()) {
            return Ok(None);
        }
        match self.get(login.as_str()) {
            Some(a) => Ok(Some(a)),
            None => Err(UnknownReviewer),
        }
    }
}

} // verus!
