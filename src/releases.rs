//! Releases: their versions, the in-progress pseudo-releases after the last
//! one, and the per-release author maps.

use vstd::prelude::*;

use crate::author_map::{difference, union, AuthorMap, Contributions};

verus! {

/// A semantic version: numbers, pre-release and build texts.
#[derive(Debug, Clone)]
pub struct Version {
    pub major: u64,
    pub minor: u64,
    pub patch: u64,
    pub pre: String,
    pub build: String,
}

pub type VersionModel = (u64, u64, u64, Seq<char>, Seq<char>);

impl View for Version {
    type V = VersionModel;

    open spec fn view(&self) -> VersionModel {
        (self.major, self.minor, self.patch, self.pre@, self.build@)
    }
}

/// The version that the `semver` crate reads from a text, if any.
pub uninterp spec fn semver_parse(s: Seq<char>) -> Option<VersionModel>;

/// Relies on `semver::Version::parse`: the version a text spells, as its
/// numbers and its pre-release and build texts; the result depends on the
/// text alone.
#[verifier::external_body]
fn parse_semver(s: &str) -> (r: Option<Version>)
    ensures
        match r {
            Some(v) => semver_parse(s@) == Some(v@),
            None => semver_parse(s@) is None,
        },
{
    match semver::Version::parse(s) {
        Ok(v) => Some(
            Version {
                major: v.major,
                minor: v.minor,
                patch: v.patch,
                pre: v.pre.as_str().to_string(),
                build: v.build.as_str().to_string(),
            },
        ),
        Err(_) => None,
    }
}

/// Relies on `String::from_iter`: a string of the given characters, in
/// order.
#[verifier::external_body]
fn string_of(v: &Vec<char>) -> (r: String)
    ensures
        r@ == v@,
{
    v.iter().collect()
}

/// The version a release tag names: the tag read as a version, or else the
/// tag with `.0` appended.
pub open spec fn tag_version(tag: Seq<char>) -> Option<VersionModel> {
    match semver_parse(tag) {
        Some(v) => Some(v),
        None => semver_parse(tag + ".0"@),
    }
}

/// Reads the version a release tag names, trying `TAG.0` for a short tag.
pub fn release_version(tag: &str) -> (r: Option<Version>)
    ensures
        match r {
            Some(v) => tag_version(tag@) == Some(v@),
            None => tag_version(tag@) is None,
        },
{
    match parse_semver(tag) {
        Some(v) => Some(v),
        None => {
            let mut longer = String::from_str(tag);
            longer.append(".0");
            parse_semver(longer.as_str())
        },
    }
}

/// A decimal digit.
pub open spec fn digit(d: nat) -> char {
    if d == 0 {
        '0'
    } else if d == 1 {
        '1'
    } else if d == 2 {
        '2'
    } else if d == 3 {
        '3'
    } else if d == 4 {
        '4'
    } else if d == 5 {
        '5'
    } else if d == 6 {
        '6'
    } else if d == 7 {
        '7'
    } else if d == 8 {
        '8'
    } else {
        '9'
    }
}

/// The decimal digits of `n`, most significant first.
pub open spec fn decimal(n: nat) -> Seq<char>
    decreases n,
{
    if n < 10 {
        seq![digit(n)]
    } else {
        decimal(n / 10).push(digit(n % 10))
    }
}

/// The text of a version: `MAJOR.MINOR.PATCH`, then `-PRE` and `+BUILD` when
/// those are not empty.
pub open spec fn version_text(v: VersionModel) -> Seq<char> {
    decimal(v.0 as nat) + seq!['.'] + decimal(v.1 as nat) + seq!['.'] + decimal(v.2 as nat) + (if v.3.len()
        > 0 {
        seq!['-'] + v.3
    } else {
        Seq::empty()
    }) + (if v.4.len() > 0 {
        seq!['+'] + v.4
    } else {
        Seq::empty()
    })
}

fn digit_char(d: u64) -> (c: char)
    requires
        d < 10,
    ensures
        c == digit(d as nat),
{
    if d == 0 {
        '0'
    } else if d == 1 {
        '1'
    } else if d == 2 {
        '2'
    } else if d == 3 {
        '3'
    } else if d == 4 {
        '4'
    } else if d == 5 {
        '5'
    } else if d == 6 {
        '6'
    } else if d == 7 {
        '7'
    } else if d == 8 {
        '8'
    } else {
        '9'
    }
}

fn push_decimal(out: &mut Vec<char>, n: u64)
    ensures
        final(out)@ == old(out)@ + decimal(n as nat),
    decreases n,
{
    if n >= 10 {
        push_decimal(out, n / 10);
    }
    out.push(digit_char(n % 10));
    assert(out@ =~= old(out)@ + decimal(n as nat));
}

fn push_text(out: &mut Vec<char>, s: &str)
    ensures
        final(out)@ == old(out)@ + s@,
{
    let v = crate::text::chars_of(s);
    let mut i: usize = 0;
    while i < v.len()
        invariant
            i <= v.len(),
            out@ == old(out)@ + v@.take(i as int),
        decreases v.len() - i,
    {
        out.push(v[i]);
        assert(v@.take(i + 1) =~= v@.take(i as int).push(v@[i as int]));
        i = i + 1;
    }
    assert(v@.take(i as int) =~= v@);
}

impl Version {
    /// The version as text, `MAJOR.MINOR.PATCH[-PRE][+BUILD]`.
    pub fn to_text(&self) -> (r: String)
        ensures
            r@ == version_text(self@),
    {
        let mut out: Vec<char> = Vec::new();
        push_decimal(&mut out, self.major);
        out.push('.');
        push_decimal(&mut out, self.minor);
        out.push('.');
        push_decimal(&mut out, self.patch);
        if self.pre.as_str().unicode_len() > 0 {
            out.push('-');
            push_text(&mut out, self.pre.as_str());
        }
        if self.build.as_str().unicode_len() > 0 {
            out.push('+');
            push_text(&mut out, self.build.as_str());
        }
        assert(out@ =~= version_text(self@));
        string_of(&out)
    }

    /// The next minor version: minor plus one, patch zero, no pre-release
    /// or build text.
    pub fn next_minor(&self) -> (r: Version)
        requires
            self.minor < u64::MAX,
        ensures
            r@ == next_minor_spec(self@),
    {
        Version {
            major: self.major,
            minor: self.minor + 1,
            patch: 0,
            pre: String::new(),
            build: String::new(),
        }
    }
}

pub open spec fn next_minor_spec(v: VersionModel) -> VersionModel {
    (v.0, (v.1 + 1) as u64, 0, Seq::empty(), Seq::empty())
}

} // verus!

verus! {

/// A release: its display name, version, tag, pinned commit, and whether it
/// is still in development.
#[derive(Debug, Clone)]
pub struct VersionTag {
    pub name: String,
    pub version: Version,
    pub raw_tag: String,
    pub commit: String,
    pub in_progress: bool,
}

pub type VersionTagModel = (Seq<char>, VersionModel, Seq<char>, Seq<char>, bool);

impl View for VersionTag {
    type V = VersionTagModel;

    open spec fn view(&self) -> VersionTagModel {
        (self.name@, self.version@, self.raw_tag@, self.commit@, self.in_progress)
    }
}

impl VersionTag {
    /// The release a tag names, if the tag reads as a version: named
    /// `Rust VERSION`, pinned at `commit`, and finished.
    pub fn from_tag(tag: String, commit: String) -> (r: Option<VersionTag>)
        ensures
            match r {
                Some(t) => tag_version(tag@) == Some(t.version@) && t.name@ == "Rust "@
                    + version_text(t.version@) && t.raw_tag@ == tag@ && t.commit@ == commit@
                    && !t.in_progress,
                None => tag_version(tag@) is None,
            },
    {
        match release_version(tag.as_str()) {
            Some(version) => {
                let mut name = String::from_str("Rust ");
                name.append(version.to_text().as_str());
                Some(VersionTag { name, version, raw_tag: tag, commit, in_progress: false })
            },
            None => None,
        }
    }
}

/// Appends the two releases in development after the last one: `Beta`, one
/// minor version ahead at branch `beta`, and `Master`, one more ahead at
/// branch `master`.
pub fn with_in_progress(versions: Vec<VersionTag>, beta_commit: String, master_commit: String) -> (r:
    Vec<VersionTag>)
    requires
        versions.len() > 0,
        versions@.last().version.minor < u64::MAX - 1,
    ensures
        r.len() == versions.len() + 2,
        forall|i: int| 0 <= i < versions.len() ==> (#[trigger] r@[i])@ == versions@[i]@,
        r@[versions.len() as int]@ == (
            "Beta"@,
            next_minor_spec(versions@.last().version@),
            "beta"@,
            beta_commit@,
            true,
        ),
        r@[versions.len() + 1]@ == (
            "Master"@,
            next_minor_spec(next_minor_spec(versions@.last().version@)),
            "master"@,
            master_commit@,
            true,
        ),
{
    let mut r = versions;
    let beta_version = r[r.len() - 1].version.next_minor();
    let master_version = beta_version.next_minor();
    r.push(
        VersionTag {
            name: String::from_str("Beta"),
            version: beta_version,
            raw_tag: String::from_str("beta"),
            commit: beta_commit,
            in_progress: true,
        },
    );
    r.push(
        VersionTag {
            name: String::from_str("Master"),
            version: master_version,
            raw_tag: String::from_str("master"),
            commit: master_commit,
            in_progress: true,
        },
    );
    r
}

/// The union of a list of author maps.
pub open spec fn union_all(ms: Seq<Contributions>) -> Contributions
    decreases ms.len(),
{
    if ms.len() == 0 {
        Map::empty()
    } else {
        union(union_all(ms.drop_last()), ms.last())
    }
}

/// What a release adds: everything credited up to it, less what was
/// credited up to the release before it, if any.
pub open spec fn exclusive_of(up_to: Contributions, previous: Option<Contributions>) -> Contributions {
    match previous {
        Some(p) => difference(up_to, p),
        None => up_to,
    }
}

/// The union of the main repository's author map and those of its
/// submodules: everything credited up to one release.
pub fn up_to_map(main: AuthorMap, submodules: Vec<AuthorMap>) -> (r: AuthorMap)
    requires
        main.wf(),
        forall|i: int| 0 <= i < submodules.len() ==> (#[trigger] submodules@[i]).wf(),
    ensures
        r.wf(),
        r@ == union(main@, union_all(submodules@.map_values(|m: AuthorMap| m@))),
{
    let ghost views = submodules@.map_values(|m: AuthorMap| m@);
    let mut acc = AuthorMap::new();
    let mut i: usize = 0;
    proof {
        assert(views.take(0) =~= Seq::<Contributions>::empty());
    }
    while i < submodules.len()
        invariant
            i <= submodules.len(),
            views == submodules@.map_values(|m: AuthorMap| m@),
            forall|j: int| 0 <= j < submodules.len() ==> (#[trigger] submodules@[j]).wf(),
            acc.wf(),
            acc@ == union_all(views.take(i as int)),
        decreases submodules.len() - i,
    {
        acc.merge(&submodules[i]);
        assert(views.take(i + 1).drop_last() =~= views.take(i as int));
        i = i + 1;
    }
    assert(views.take(i as int) =~= views);
    let mut r = main;
    r.extend(acc);
    r
}

/// Walks the releases in ascending order, turning what each one has
/// credited in total into what it adds over the release before it.
pub struct ReleaseAggregator {
    previous: Option<AuthorMap>,
    releases: Vec<(VersionTag, AuthorMap)>,
    history: Ghost<Seq<Contributions>>,
}

impl ReleaseAggregator {
    pub closed spec fn wf(&self) -> bool {
        &&& match self.previous {
            Some(p) => p.wf(),
            None => true,
        }
        &&& forall|i: int| 0 <= i < self.releases.len() ==> (#[trigger] self.releases@[i]).1.wf()
        &&& self.exclusive() == exclusives(self.history@)
        &&& self.previous_view() == if self.history@.len() == 0 {
            None
        } else {
            Some(self.history@.last())
        }
    }

    /// Everything credited up to each recorded release, in order.
    pub closed spec fn up_tos(&self) -> Seq<Contributions> {
        self.history@
    }

    /// Everything credited up to the last release recorded.
    pub closed spec fn previous_view(&self) -> Option<Contributions> {
        match self.previous {
            Some(p) => Some(p@),
            None => None,
        }
    }

    /// The releases recorded, in order.
    pub closed spec fn tags(&self) -> Seq<VersionTagModel> {
        self.releases@.map_values(|r: (VersionTag, AuthorMap)| r.0@)
    }

    /// What each recorded release adds, in order.
    pub closed spec fn exclusive(&self) -> Seq<Contributions> {
        self.releases@.map_values(|r: (VersionTag, AuthorMap)| r.1@)
    }

    /// An aggregator with no release recorded.
    pub fn new() -> (r: ReleaseAggregator)
        ensures
            r.wf(),
            r.previous_view() is None,
            r.tags() == Seq::<VersionTagModel>::empty(),
            r.exclusive() == Seq::<Contributions>::empty(),
            r.up_tos() == Seq::<Contributions>::empty(),
    {
        let r = ReleaseAggregator {
            previous: None,
            releases: Vec::new(),
            history: Ghost(Seq::empty()),
        };
        assert(r.tags() =~= Seq::<VersionTagModel>::empty());
        assert(r.exclusive() =~= Seq::<Contributions>::empty());
        assert(exclusives(r.history@) =~= Seq::<Contributions>::empty());
        r
    }

    /// Records the next release with everything credited up to it; what it
    /// adds is that less everything credited up to the release before.
    pub fn record(&mut self, release: VersionTag, up_to: AuthorMap)
        requires
            old(self).wf(),
            up_to.wf(),
        ensures
            final(self).wf(),
            final(self).previous_view() == Some(up_to@),
            final(self).tags() == old(self).tags().push(release@),
            final(self).exclusive() == old(self).exclusive().push(
                exclusive_of(up_to@, old(self).previous_view()),
            ),
            final(self).up_tos() == old(self).up_tos().push(up_to@),
    {
        let empty = AuthorMap::new();
        let exclusive = match &self.previous {
            Some(p) => up_to.difference_of(p),
            None => {
                let e = up_to.difference_of(&empty);
                proof {
                    crate::author_map::lemma_values_non_empty(up_to);
                    assert forall|k: crate::author_map::IdentityKey| #[trigger]
                        up_to@.contains_key(k) implies up_to@[k].difference(
                        crate::author_map::commits_in(empty@, k),
                    ) =~= up_to@[k] by {}
                    assert(e@ =~~= up_to@);
                }
                e
            },
        };
        let ghost t0 = self.tags();
        let ghost x0 = self.exclusive();
        let ghost h0 = self.history@;
        self.releases.push((release, exclusive));
        self.previous = Some(up_to);
        self.history = Ghost(h0.push(up_to@));
        assert(self.tags() =~= t0.push(release@));
        assert(self.exclusive() =~= x0.push(exclusive_of(up_to@, old(self).previous_view())));
        assert(exclusives(h0.push(up_to@)) =~= exclusives(h0).push(
            exclusive_of(up_to@, old(self).previous_view()),
        ));
    }

    /// The union of what every recorded release adds.
    pub fn all_time(&self) -> (r: AuthorMap)
        requires
            self.wf(),
        ensures
            r.wf(),
            r@ == union_all(self.exclusive()),
            r@ == union_all(exclusives(self.up_tos())),
    {
        let ghost xs = self.exclusive();
        let mut acc = AuthorMap::new();
        let mut i: usize = 0;
        proof {
            assert(xs.take(0) =~= Seq::<Contributions>::empty());
        }
        while i < self.releases.len()
            invariant
                i <= self.releases.len(),
                xs == self.exclusive(),
                self.wf(),
                acc.wf(),
                acc@ == union_all(xs.take(i as int)),
            decreases self.releases.len() - i,
        {
            acc.merge(&self.releases[i].1);
            assert(xs.take(i + 1).drop_last() =~= xs.take(i as int));
            i = i + 1;
        }
        assert(xs.take(i as int) =~= xs);
        acc
    }

    /// The recorded releases with what each adds, in order.
    pub fn into_releases(self) -> (r: Vec<(VersionTag, AuthorMap)>)
        requires
            self.wf(),
        ensures
            r@.map_values(|x: (VersionTag, AuthorMap)| x.0@) == self.tags(),
            r@.map_values(|x: (VersionTag, AuthorMap)| x.1@) == self.exclusive(),
            forall|i: int| 0 <= i < r.len() ==> (#[trigger] r@[i]).1.wf(),
    {
        self.releases
    }
}

} // verus!

verus! {

/// What each release adds, given everything credited up to each release.
pub open spec fn exclusives(ups: Seq<Contributions>) -> Seq<Contributions> {
    Seq::new(
        ups.len(),
        |i: int|
            if i == 0 {
                exclusive_of(ups[0], None)
            } else {
                exclusive_of(ups[i], Some(ups[i - 1]))
            },
    )
}

/// Every identity of `m` has at least one commit.
pub open spec fn no_empty_sets(m: Contributions) -> bool {
    forall|k: crate::author_map::IdentityKey| #[trigger]
        m.contains_key(k) ==> m[k] != Set::<Seq<char>>::empty()
}

proof fn lemma_union_with_difference(a: Contributions, b: Contributions)
    requires
        crate::author_map::covers(b, a),
        no_empty_sets(b),
    ensures
        union(a, difference(b, a)) == b,
{
    let u = union(a, difference(b, a));
    assert forall|k: crate::author_map::IdentityKey| #[trigger] b.contains_key(k) implies u.contains_key(
        k,
    ) && u[k] == b[k] by {
        if !a.contains_key(k) {
            assert(b[k].difference(crate::author_map::commits_in(a, k)) =~= b[k]);
        }
        assert(crate::author_map::commits_in(a, k).union(
            crate::author_map::commits_in(difference(b, a), k),
        ) =~= b[k]);
    }
    assert(u =~~= b);
}

/// When everything credited up to each release covers everything credited
/// up to the release before, the union of what the releases add is
/// everything credited up to the last release.
pub proof fn lemma_all_time_is_last_up_to(ups: Seq<Contributions>)
    requires
        ups.len() > 0,
        forall|i: int| 0 < i < ups.len() ==> crate::author_map::covers(#[trigger] ups[i], ups[i - 1]),
        forall|i: int| 0 <= i < ups.len() ==> no_empty_sets(#[trigger] ups[i]),
    ensures
        union_all(exclusives(ups)) == ups.last(),
    decreases ups.len(),
{
    let ex = exclusives(ups);
    if ups.len() == 1 {
        assert(ex.drop_last() =~= Seq::<Contributions>::empty());
        assert(union_all(ex.drop_last()) == Map::<crate::author_map::IdentityKey, Set<Seq<char>>>::empty());
        assert(ex.last() == ups[0]);
        assert(union(Map::empty(), ups[0]) =~~= ups[0]);
        assert(union_all(ex) == union(union_all(ex.drop_last()), ex.last()));
    } else {
        let shorter = ups.drop_last();
        assert forall|i: int| 0 < i < shorter.len() implies crate::author_map::covers(
            #[trigger] shorter[i],
            shorter[i - 1],
        ) by {
            assert(shorter[i] == ups[i]);
            assert(shorter[i - 1] == ups[i - 1]);
        }
        assert forall|i: int| 0 <= i < shorter.len() implies no_empty_sets(#[trigger] shorter[i]) by {
            assert(shorter[i] == ups[i]);
        }
        lemma_all_time_is_last_up_to(shorter);
        assert(ex.drop_last() =~= exclusives(shorter));
        let n = ups.len() - 1;
        assert(crate::author_map::covers(ups[n], ups[n - 1]));
        assert(no_empty_sets(ups[n]));
        lemma_union_with_difference(ups[n - 1], ups[n]);
        assert(ex.last() == difference(ups[n], ups[n - 1]));
        assert(shorter.last() == ups[n - 1]);
        assert(union_all(ex) == union(union_all(ex.drop_last()), ex.last()));
    }
}

} // verus!
