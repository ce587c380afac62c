use thanks::author_map::AuthorMap;
use thanks::error::{ErrorContext, ErrorMessage};
use thanks::mailmap::{Author, Mailmap};
use thanks::pages::CommonData;
use thanks::releases::Version;
use thanks::scores::{author_map_to_scores, deduplicate_scores, rank_scores, text_less, Entry};

fn row(author: &str, email: &str, commits: usize) -> Entry {
    Entry { rank: 0, author: author.to_string(), email: email.to_string(), commits }
}

#[test]
fn dedup_merges_rows_with_one_email() {
    let rows = vec![
        row("Ann", "a@x", 3),
        row("Bob", "b@x", 5),
        row("Annie", "a@x", 7),
        row("Anna", "a@x", 7),
    ];
    let out = deduplicate_scores(&rows);
    assert_eq!(out.len(), 2);
    assert_eq!(out[0].email, "a@x");
    assert_eq!(out[0].commits, 17);
    assert_eq!(out[0].author, "Annie");
    assert_eq!(out[1].author, "Bob");
    assert_eq!(out[1].commits, 5);
}

#[test]
fn ranks_follow_competition_order() {
    let rows = vec![row("c", "c", 2), row("a", "a", 5), row("b", "b", 5), row("d", "d", 1)];
    let out = rank_scores(&rows);
    let names: Vec<&str> = out.iter().map(|e| e.author.as_str()).collect();
    assert_eq!(names, vec!["a", "b", "c", "d"]);
    let ranks: Vec<u32> = out.iter().map(|e| e.rank).collect();
    assert_eq!(ranks, vec![1, 1, 3, 4]);
}

#[test]
fn empty_tables() {
    assert!(deduplicate_scores(&vec![]).is_empty());
    assert!(rank_scores(&vec![]).is_empty());
    let map = AuthorMap::new();
    assert_eq!(map.len(), 0);
    assert!(author_map_to_scores(&map, false).unwrap().is_empty());
    let mm = Mailmap::from_string(String::new()).unwrap();
    assert_eq!(mm.len(), 0);
    let a = mm.canonicalize(&Author::new("N".to_string(), "e".to_string()));
    assert_eq!((a.name.as_str(), a.email.as_str()), ("N", "e"));
}

#[test]
fn score_table_of_author_map() {
    let mut map = AuthorMap::new();
    map.add(Author::new("Ann".to_string(), "a@x".to_string()), "1".to_string());
    map.add(Author::new("Ann".to_string(), "a@x".to_string()), "2".to_string());
    map.add(Author::new("Bo".to_string(), "b@x".to_string()), "3".to_string());
    let table = author_map_to_scores(&map, true).unwrap();
    assert_eq!(table.len(), 2);
    assert_eq!(table[0].author, "Ann (a@x)");
    assert_eq!(table[0].commits, 2);
    assert_eq!(table[0].rank, 1);
    assert_eq!(table[1].author, "Bo (b@x)");
    assert_eq!(table[1].rank, 2);
    let plain = author_map_to_scores(&map, false).unwrap();
    assert_eq!(plain[0].author, "Ann");
}

#[test]
fn text_order_is_by_character() {
    assert!(text_less("Ab", "b"));
    assert!(text_less("a", "ab"));
    assert!(!text_less("b", "a"));
    assert!(!text_less("same", "same"));
    assert!(text_less("Z", "a"));
}

#[test]
fn version_text_forms() {
    let v = Version { major: 10, minor: 0, patch: 207, pre: "rc.1".to_string(), build: "b5".to_string() };
    assert_eq!(v.to_text(), "10.0.207-rc.1+b5");
    let w = v.next_minor();
    assert_eq!(w.to_text(), "10.1.0");
}

#[test]
fn page_data_and_errors() {
    let c = CommonData::new("T".to_string());
    assert!(c.show_thanks_in_logo);
    let c = c.without_thanks_in_logo();
    assert!(!c.show_thanks_in_logo);
    assert_eq!(c.title, "T");
    let e = ErrorContext("doing x".to_string(), Box::new(ErrorMessage("broke".to_string())));
    assert_eq!(e.context(), "doing x");
    assert_eq!(e.source().message(), "broke");
}
