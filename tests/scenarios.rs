use thanks::attribution::{
    build_author_map, commit_coauthors, coauthor_of_line, commit_credits, is_rollup_commit,
    parse_bors_reviewer, reviewer_list_of, reviewer_tokens_of, AttributionError, BotPolicy,
    CommitInfo,
};
use thanks::author_map::AuthorMap;
use thanks::mailmap::{parse_line, Author, Mailmap};
use thanks::releases::{release_version, up_to_map, with_in_progress, ReleaseAggregator, VersionTag};
use thanks::reviewers::{Reviewers, TeamPeople, TeamPerson, UnknownReviewer};

fn who(name: &str, email: &str) -> Author {
    Author::new(name.to_string(), email.to_string())
}

fn mailmap(doc: &str) -> Mailmap {
    Mailmap::from_string(doc.to_string()).unwrap()
}

fn same_text(a: &Author, name: &str, email: &str) -> bool {
    a.name == name && a.email == email
}

fn policy() -> BotPolicy {
    BotPolicy { bots: vec!["bors".to_string()], merge_service: "GitHub".to_string() }
}

fn commit(id: &str, author: Author, summary: &str, message: &str, parents: usize) -> CommitInfo {
    CommitInfo {
        id: id.to_string(),
        committer: author.clone(),
        author,
        summary: summary.to_string(),
        message: message.to_string(),
        parent_count: parents,
    }
}

fn directory() -> Reviewers {
    let mut r = Reviewers::empty();
    r.insert("yvonne".to_string(), who("Yvonne", "y@example.com"));
    r.insert("zed".to_string(), who("Zed", "z@example.com"));
    r
}

fn count_of(map: &AuthorMap, name: &str) -> Option<usize> {
    map.counts().into_iter().find(|(a, _)| a.name == name).map(|(_, n)| n)
}

#[test]
fn full_rule_matches_name_and_email() {
    let mm = mailmap("PN <PE> CN <CE>");
    assert!(same_text(&mm.canonicalize(&who("CN", "CE")), "PN", "PE"));
    assert!(same_text(&mm.canonicalize(&who("CN", "other")), "CN", "other"));
}

#[test]
fn email_only_rule_renames() {
    let mm = mailmap("PN <E>");
    assert!(same_text(&mm.canonicalize(&who("anything", "E")), "PN", "E"));
    assert!(same_text(&mm.canonicalize(&who("anything", "e")), "PN", "E"));
}

#[test]
fn rule_with_two_emails_rewrites_both() {
    let mm = mailmap("PN <PE> <CE>");
    assert!(same_text(&mm.canonicalize(&who("anything", "CE")), "PN", "PE"));
}

#[test]
fn rule_without_name_keeps_name() {
    let mm = mailmap("<PE> <CE>");
    assert!(same_text(&mm.canonicalize(&who("X", "CE")), "X", "PE"));
}

#[test]
fn name_match_ignores_case() {
    let mm = mailmap("PN <PE> cn <ce>");
    assert!(same_text(&mm.canonicalize(&who("CN", "CE")), "PN", "PE"));
}

#[test]
fn canonicalize_twice_gives_same_result() {
    let mm = mailmap("PN <PE> CN <CE>\nQN <QE> <ce>");
    let id = who("CN", "CE");
    let first = mm.canonicalize(&id);
    let second = mm.canonicalize(&id);
    assert!(same_text(&first, &second.name, &second.email));
    assert!(same_text(&first, "PN", "PE"));
}

#[test]
fn first_matching_rule_wins() {
    let mm = mailmap("A <a@x> <c@x>\nB <b@x> <c@x>");
    assert_eq!(mm.len(), 2);
    assert!(same_text(&mm.canonicalize(&who("anyone", "c@x")), "A", "a@x"));
}

#[test]
fn parsed_rules_default_current_email() {
    let e = parse_line("<PE>", 1).unwrap();
    assert_eq!(e.canonical_email, Some("PE"));
    assert_eq!(e.current_email, Some("PE"));
    let e = parse_line("Name", 1);
    assert_eq!(e, None);
    let e = parse_line("Only Name <", 1).unwrap();
    assert_eq!(e.canonical_name, Some("Only Name"));
    assert_eq!(e.canonical_email, None);
    assert_eq!(e.current_email, None);
}

#[test]
fn comments_blank_lines_and_surplus_tokens() {
    let mm = mailmap("# a comment\n\n   \nA <a> B <b> <c> C D <d>\r\nE <e> # trailing");
    assert_eq!(mm.len(), 2);
    assert!(same_text(&mm.canonicalize(&who("B", "b")), "A", "a"));
    assert!(same_text(&mm.canonicalize(&who("x", "c")), "x", "c"));
    assert!(same_text(&mm.canonicalize(&who("x", "e")), "E", "e"));
}

#[test]
fn canonical_identity_is_fixed() {
    let mm = mailmap("PN <PE> <CE>\nPN <PE>");
    let id = who("PN", "PE");
    let once = mm.canonicalize(&id);
    assert!(same_text(&once, "PN", "PE"));
    let twice = mm.canonicalize(&once);
    assert!(same_text(&twice, "PN", "PE"));
}

#[test]
fn author_map_union_is_commutative_and_associative() {
    let mut a = AuthorMap::new();
    a.add(who("A", "a"), "1".to_string());
    a.add(who("B", "b"), "2".to_string());
    let mut b = AuthorMap::new();
    b.add(who("a", "A"), "3".to_string());
    b.add(who("C", "c"), "2".to_string());
    let mut c = AuthorMap::new();
    c.add(who("C", "c"), "4".to_string());

    let mut ab = a.clone();
    ab.merge(&b);
    let mut ba = b.clone();
    ba.merge(&a);
    assert_eq!(ab.len(), 3);
    assert_eq!(ba.len(), 3);
    assert_eq!(count_of(&ab, "A"), Some(2));
    assert_eq!(count_of(&ba, "a"), Some(2));

    let mut ab_c = ab.clone();
    ab_c.merge(&c);
    let mut bc = b.clone();
    bc.merge(&c);
    let mut a_bc = a.clone();
    a_bc.extend(bc);
    assert_eq!(count_of(&ab_c, "C"), Some(2));
    assert_eq!(count_of(&a_bc, "C"), Some(2));
    assert_eq!(ab_c.len(), a_bc.len());
}

#[test]
fn author_map_difference_and_union() {
    let mut a = AuthorMap::new();
    a.add(who("A", "a"), "1".to_string());
    a.add(who("A", "a"), "2".to_string());
    a.add(who("B", "b"), "3".to_string());
    let mut b = AuthorMap::new();
    b.add(who("A", "a"), "1".to_string());
    b.add(who("B", "b"), "3".to_string());
    b.add(who("D", "d"), "9".to_string());

    let diff = a.difference_of(&b);
    assert_eq!(diff.len(), 1);
    assert_eq!(count_of(&diff, "A"), Some(1));

    let mut back = diff.clone();
    back.merge(&b);
    assert_eq!(count_of(&back, "A"), Some(2));
    assert_eq!(count_of(&back, "B"), Some(1));

    let mut only_a = AuthorMap::new();
    only_a.add(who("Q", "q"), "5".to_string());
    let mut joined = only_a.clone();
    joined.merge(&b);
    joined.subtract(&b);
    assert_eq!(joined.len(), 1);
    assert_eq!(count_of(&joined, "Q"), Some(1));
}

#[test]
fn same_commit_counts_once() {
    let mut m = AuthorMap::new();
    m.add(who("A", "a"), "1".to_string());
    m.add(who("a", "A"), "1".to_string());
    assert_eq!(m.len(), 1);
    assert_eq!(count_of(&m, "A"), Some(1));
}

#[test]
fn rollup_merge_credits_reviewers_not_rollup_author() {
    let dir = directory();
    let mm = mailmap("");
    let commits = vec![
        commit("r1", who("X", "x@example.com"), "Rollup merge of #10 - a/b, r=q", "Rollup merge of #10 - a/b, r=q\n", 2),
        commit(
            "m1",
            who("bors", "bors@example.com"),
            "Auto merge of #11 - x:rollup, r=Y,Z",
            "Auto merge of #11 - x:rollup, r=yvonne,Zed\n\nRollup of 1 pull request\n",
            2,
        ),
    ];
    let got = build_author_map(&commits, &dir, &mm, &policy()).unwrap();
    let counts = got.authors.counts();
    assert_eq!(count_of(&got.authors, "Yvonne"), Some(1));
    assert_eq!(count_of(&got.authors, "Zed"), Some(1));
    assert_eq!(count_of(&got.authors, "X"), None);
    assert_eq!(count_of(&got.authors, "bors"), Some(1));
    assert_eq!(counts.len(), 3);
    assert!(got.unknown_reviewers.is_empty());
}

#[test]
fn unchanged_submodule_adds_nothing_to_later_release() {
    let mut sub = AuthorMap::new();
    sub.add(who("S", "s"), "s1".to_string());
    sub.add(who("S", "s"), "s2".to_string());
    let mut main_p = AuthorMap::new();
    main_p.add(who("M", "m"), "m1".to_string());
    let mut main_r = main_p.clone();
    main_r.add(who("N", "n"), "m2".to_string());

    let up_p = up_to_map(main_p, vec![sub.clone()]);
    let up_r = up_to_map(main_r, vec![sub]);
    let mut agg = ReleaseAggregator::new();
    agg.record(VersionTag::from_tag("1.0.0".to_string(), "c1".to_string()).unwrap(), up_p);
    agg.record(VersionTag::from_tag("1.1.0".to_string(), "c2".to_string()).unwrap(), up_r);
    let all = agg.all_time();
    assert_eq!(all.len(), 3);
    let releases = agg.into_releases();
    assert_eq!(releases.len(), 2);
    assert_eq!(releases[0].1.len(), 2);
    assert_eq!(count_of(&releases[1].1, "S"), None);
    assert_eq!(count_of(&releases[1].1, "N"), Some(1));
    assert_eq!(releases[1].1.len(), 1);
}

#[test]
fn co_author_trailers_are_credited() {
    let dir = directory();
    let mm = mailmap("Canon <c@x> <co@x>");
    let commits = vec![commit(
        "c1",
        who("A", "a@x"),
        "Fix things",
        "Fix things\n\nco-authored-by: Co Author <co@x>\nCo-Authored-By: Other <o@x>\n",
        1,
    )];
    let got = build_author_map(&commits, &dir, &mm, &policy()).unwrap();
    assert_eq!(got.authors.len(), 3);
    assert_eq!(count_of(&got.authors, "Canon"), Some(1));
    assert_eq!(count_of(&got.authors, "Other"), Some(1));
    let co = commit_coauthors("x\nCo-authored-by: P <p>\nCo-authored-by: Q <q>");
    assert_eq!(co.len(), 2);
    assert!(same_text(&co[0], "Q", "q"));
    assert!(same_text(&co[1], "P", "p"));
}

#[test]
fn co_author_line_takes_last_bracket() {
    let a = coauthor_of_line("Co-authored-by: A <b> C <d@e>").unwrap();
    assert!(same_text(&a, "A <b> C", "d@e"));
    assert!(coauthor_of_line("Co-authored-by: nobody").is_none());
    assert!(coauthor_of_line("Signed-off-by: A <a>").is_none());
}

#[test]
fn reviewer_list_forms() {
    assert_eq!(reviewer_list_of("Auto merge of #1 - a:b, r=x,y tail\n"), Some("x,y"));
    assert_eq!(reviewer_list_of("Merge\n\nReviewed-by: alice\n"), Some("alice"));
    assert_eq!(reviewer_list_of("automated merge\n"), None);
    let t = reviewer_tokens_of(" @alice + bob` ,, <try>, carol.");
    assert_eq!(t, vec!["alice", "bob", "carol"]);
}

#[test]
fn unknown_reviewer_is_set_aside() {
    let dir = directory();
    assert_eq!(dir.to_author("YVONNE").unwrap().unwrap().name, "Yvonne");
    assert!(dir.to_author("rollup").unwrap().is_none());
    assert_eq!(dir.to_author("stranger").unwrap_err(), UnknownReviewer);
    let c = commit("m", who("bors", "b"), "Auto merge", "Auto merge of #1, r=stranger,zed\n", 2);
    let m = parse_bors_reviewer(&dir, &policy(), &c).unwrap();
    assert_eq!(m.credited.len(), 1);
    assert_eq!(m.unknown, vec!["stranger".to_string()]);
}

#[test]
fn unparseable_bot_merge_fails() {
    let dir = directory();
    let c = commit("m9", who("bors", "b"), "Merge", "Merge something\n", 2);
    match commit_credits(&dir, &policy(), &c) {
        Err(AttributionError::UnparseableMerge { commit }) => assert_eq!(commit, "m9"),
        Ok(_) => panic!("expected an error"),
    }
    let ok = commit("m8", who("bors", "b"), "automated merge", "automated merge\n", 2);
    assert_eq!(commit_credits(&dir, &policy(), &ok).unwrap().authors.len(), 1);
    let fast_forward = commit("m7", who("bors", "b"), "Merge", "Merge something\n", 1);
    assert!(commit_credits(&dir, &policy(), &fast_forward).is_ok());
}

#[test]
fn rollup_summary_detected() {
    let c = commit("r", who("X", "x"), "Rollup merge of #5 - x", "", 2);
    assert!(is_rollup_commit(&c));
    let d = commit("r", who("X", "x"), "rollup merge of #5 - x", "", 2);
    assert!(!is_rollup_commit(&d));
}

#[test]
fn team_listing_builds_directory() {
    let team = TeamPeople {
        people: vec![
            ("Alice".to_string(), TeamPerson { name: "Alice A".to_string(), email: Some("a@x".to_string()) }),
            ("bob".to_string(), TeamPerson { name: "Bob".to_string(), email: None }),
        ],
    };
    let mut dir = Reviewers::new(&team);
    assert_eq!(dir.get("alice").unwrap().email, "a@x");
    assert!(dir.get("bob").is_none());
    assert!(dir.insert_alias("al".to_string(), "alice"));
    assert!(!dir.insert_alias("bo".to_string(), "bob"));
    assert_eq!(dir.to_author("Al").unwrap().unwrap().name, "Alice A");
}

#[test]
fn versions_from_tags() {
    let v = release_version("1.0").unwrap();
    assert_eq!((v.major, v.minor, v.patch), (1, 0, 0));
    assert!(release_version("not-a-version").is_none());
    let t = VersionTag::from_tag("1.2.3-beta.1".to_string(), "abc".to_string()).unwrap();
    assert_eq!(t.name, "Rust 1.2.3-beta.1");
    let all = with_in_progress(vec![t], "b".to_string(), "m".to_string());
    assert_eq!(all.len(), 3);
    assert_eq!(all[1].name, "Beta");
    assert_eq!(all[1].version.to_text(), "1.3.0");
    assert_eq!(all[2].version.to_text(), "1.4.0");
    assert!(all[2].in_progress);
    assert_eq!(all[2].raw_tag, "master");
}
