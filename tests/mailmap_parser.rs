use thanks::mailmap::{parse_line, read_comment, read_email, read_name, Author, MapEntry, Mailmap};

fn a(name: &str, email: &str) -> Author {
    Author {
        name: name.into(),
        email: email.into(),
    }
}

fn map(line: &str) -> Mailmap {
    Mailmap::from_string(line.into()).unwrap()
}

#[test]
fn test_comment_1() {
    let mut input = "# foo";
    read_comment(&mut input);
    assert_eq!(input, "");
}

#[test]
fn test_comment_2() {
    let mut input = "bar # foo";
    read_comment(&mut input);
    assert_eq!(input, "bar # foo");
}

#[test]
fn test_email_1() {
    let mut input = "<foo@example.com>";
    let ret = read_email(&mut input);
    assert_eq!(input, "");
    assert_eq!(ret, Some("foo@example.com"));
}

#[test]
fn test_email_2() {
    let mut input = "<foo@example.com> <foo2@example.com>";
    let ret = read_email(&mut input);
    assert_eq!(input, " <foo2@example.com>");
    assert_eq!(ret, Some("foo@example.com"));
}

#[test]
fn test_email_3() {
    let mut input = "Bar <foo@example.com> <foo2@example.com>";
    let ret = read_email(&mut input);
    assert_eq!(input, "Bar <foo@example.com> <foo2@example.com>");
    assert_eq!(ret, None);
}

#[test]
fn test_name_1() {
    let mut input = "Canonical Name <foo@example.com>";
    let ret = read_name(&mut input);
    assert_eq!(input, "<foo@example.com>");
    assert_eq!(ret, Some("Canonical Name"));
}

#[test]
fn test_line_1() {
    assert_eq!(
        parse_line("Joe Bob <email1> <email2>", 0),
        Some(MapEntry {
            canonical_name: Some("Joe Bob"),
            canonical_email: Some("email1"),
            current_name: None,
            current_email: Some("email2"),
        })
    );
}

#[test]
fn test_line_2() {
    assert_eq!(
        parse_line("Joe Bob <email1>", 0),
        Some(MapEntry {
            canonical_name: Some("Joe Bob"),
            canonical_email: Some("email1"),
            current_name: None,
            current_email: Some("email1"),
        })
    );
}

#[test]
fn mailmap_comment_1() {
    let mut input = "# foo";
    read_comment(&mut input);
    assert_eq!(input, "");
}

#[test]
fn mailmap_comment_2() {
    let mut input = "bar # foo";
    read_comment(&mut input);
    assert_eq!(input, "bar # foo");
}

#[test]
fn mailmap_email_1() {
    let mut input = "<foo@example.com>";
    let ret = read_email(&mut input);
    assert_eq!(input, "");
    assert_eq!(ret, Some("foo@example.com"));
}

#[test]
fn mailmap_email_2() {
    let mut input = "<foo@example.com> <foo2@example.com>";
    let ret = read_email(&mut input);
    assert_eq!(input, " <foo2@example.com>");
    assert_eq!(ret, Some("foo@example.com"));
}

#[test]
fn mailmap_email_3() {
    let mut input = "Bar <foo@example.com> <foo2@example.com>";
    let ret = read_email(&mut input);
    assert_eq!(input, "Bar <foo@example.com> <foo2@example.com>");
    assert_eq!(ret, None);
}

#[test]
fn mailmap_name_1() {
    let mut input = "Canonical Name <foo@example.com>";
    let ret = read_name(&mut input);
    assert_eq!(input, "<foo@example.com>");
    assert_eq!(ret, Some("Canonical Name"));
}

#[test]
fn mailmap_line_1() {
    assert_eq!(
        parse_line("Joe Bob <email1> <email2>", 0),
        Some(MapEntry {
            canonical_name: Some("Joe Bob"),
            canonical_email: Some("email1"),
            current_name: None,
            current_email: Some("email2"),
        })
    );
}

#[test]
fn mailmap_line_2() {
    assert_eq!(
        parse_line("Joe Bob <email1>", 0),
        Some(MapEntry {
            canonical_name: Some("Joe Bob"),
            canonical_email: Some("email1"),
            current_name: None,
            current_email: Some("email1"),
        })
    );
}

#[test]
fn map_1() {
    let mm = map("PN <PE> CN <CE>");
    assert_eq!(mm.canonicalize(&a("CN", "CE")), a("PN", "PE"));
}

#[test]
fn map_2() {
    let mm = map("PN <C/PE>");
    assert_eq!(mm.canonicalize(&a("any", "C/PE")), a("PN", "C/PE"));
}

#[test]
fn map_3() {
    let mm = map("PN <PE> <CE>");
    assert_eq!(mm.canonicalize(&a("any", "CE")), a("PN", "PE"));
}

#[test]
fn map_4() {
    let mm = map("<PE> <CE>");
    assert_eq!(mm.canonicalize(&a("any", "CE")), a("any", "PE"));
}
