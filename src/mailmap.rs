//! The mailmap: a list of rules, parsed from a text document, that maps the
//! identities found in commits to canonical ones.

use vstd::prelude::*;
use vstd::string::*;

use crate::text::{
    chars_of, eq_ignore_case, find, find_at, folded, lemma_find_from, lemma_find_suffix,
    lemma_skip_space_bounds, lines, starts_with_char, strip_cr, trim, trim_start, trim_start_str,
    trim_str,
};

verus! {

/// A contributor identity. Two identities are the same person when their
/// names and their emails are equal up to case.
#[derive(Clone, Debug)]
pub struct Author {
    pub name: String,
    pub email: String,
}

/// An identity as a pair of texts: name, then email.
pub type AuthorModel = (Seq<char>, Seq<char>);

impl View for Author {
    type V = AuthorModel;

    open spec fn view(&self) -> AuthorModel {
        (self.name@, self.email@)
    }
}

/// What identifies a person: the case-folded name and email.
pub open spec fn identity_key(a: AuthorModel) -> (Seq<char>, Seq<char>) {
    (folded(a.0), folded(a.1))
}

impl Author {
    pub fn new(name: String, email: String) -> (r: Author)
        ensures
            r.name@ == name@,
            r.email@ == email@,
    {
        Author { name, email }
    }

    /// A copy of this identity with the same texts.
    pub fn duplicate(&self) -> (r: Author)
        ensures
            r@ == self@,
    {
        Author { name: self.name.clone(), email: self.email.clone() }
    }

    /// Case-insensitive identity comparison.
    pub fn same_identity(&self, other: &Author) -> (r: bool)
        ensures
            r == (identity_key(self@) == identity_key(other@)),
    {
        eq_ignore_case(self.name.as_str(), other.name.as_str()) && eq_ignore_case(
            self.email.as_str(),
            other.email.as_str(),
        )
    }
}

impl PartialEq for Author {
    fn eq(&self, other: &Author) -> (r: bool) {
        self.same_identity(other)
    }
}

impl vstd::std_specs::cmp::PartialEqSpecImpl for Author {
    open spec fn obeys_eq_spec() -> bool {
        true
    }

    open spec fn eq_spec(&self, other: &Author) -> bool {
        identity_key(self@) == identity_key(other@)
    }
}

impl Eq for Author {

}

/// The four optional fields of a rule, as texts.
pub struct RuleModel {
    pub canonical_name: Option<Seq<char>>,
    pub canonical_email: Option<Seq<char>>,
    pub current_name: Option<Seq<char>>,
    pub current_email: Option<Seq<char>>,
}

pub open spec fn empty_rule() -> RuleModel {
    RuleModel { canonical_name: None, canonical_email: None, current_name: None, current_email: None }
}

pub open spec fn str_opt(o: Option<&str>) -> Option<Seq<char>> {
    match o {
        Some(s) => Some(s@),
        None => None,
    }
}

pub open spec fn string_opt(o: Option<String>) -> Option<Seq<char>> {
    match o {
        Some(s) => Some(s@),
        None => None,
    }
}

/// A rule as it was read from one line, borrowing its texts from the line.
#[derive(Copy, Clone, Debug, PartialEq, Eq)]
pub struct MapEntry<'a> {
    pub canonical_name: Option<&'a str>,
    pub canonical_email: Option<&'a str>,
    pub current_name: Option<&'a str>,
    pub current_email: Option<&'a str>,
}

impl<'a> MapEntry<'a> {
    pub open spec fn model(&self) -> RuleModel {
        RuleModel {
            canonical_name: str_opt(self.canonical_name),
            canonical_email: str_opt(self.canonical_email),
            current_name: str_opt(self.current_name),
            current_email: str_opt(self.current_email),
        }
    }

    /// The same rule, holding its own copies of the texts.
    pub fn to_rule(self) -> (r: Rule)
        ensures
            r.model() == self.model(),
    {
        Rule {
            canonical_name: owned(self.canonical_name),
            canonical_email: owned(self.canonical_email),
            current_name: owned(self.current_name),
            current_email: owned(self.current_email),
        }
    }
}

fn owned(o: Option<&str>) -> (r: Option<String>)
    ensures
        string_opt(r) == str_opt(o),
{
    match o {
        Some(s) => Some(s.to_owned()),
        None => None,
    }
}

/// A parsed mailmap rule.
#[derive(Clone, Debug)]
pub struct Rule {
    pub canonical_name: Option<String>,
    pub canonical_email: Option<String>,
    pub current_name: Option<String>,
    pub current_email: Option<String>,
}

impl Rule {
    pub open spec fn model(&self) -> RuleModel {
        RuleModel {
            canonical_name: string_opt(self.canonical_name),
            canonical_email: string_opt(self.canonical_email),
            current_name: string_opt(self.current_name),
            current_email: string_opt(self.current_email),
        }
    }
}

} // verus!

verus! {

/// After leading spaces, the text starts with `#`.
pub open spec fn is_comment(s: Seq<char>) -> bool {
    trim(s).len() > 0 && trim(s)[0] == '#'
}

/// An email token `<...>` at the start of `s`: its text and how many
/// characters it spans.
pub open spec fn email_token(s: Seq<char>) -> Option<(Seq<char>, int)> {
    if s.len() > 0 && s[0] == '<' {
        match find(s, '>') {
            Some(j) => Some((s.subrange(1, j), j + 1)),
            None => None,
        }
    } else {
        None
    }
}

/// A name token at the start of `s`: the trimmed, non-empty text before the
/// next `<`, and how many characters precede that `<`.
pub open spec fn name_token(s: Seq<char>) -> Option<(Seq<char>, int)> {
    match find(s, '<') {
        Some(j) => if trim(s.take(j)).len() > 0 {
            Some((trim(s.take(j)), j))
        } else {
            None
        },
        None => None,
    }
}

/// The rule once one more email token has been read.
pub open spec fn add_email(e: RuleModel, t: Seq<char>) -> RuleModel {
    if e.canonical_email is None {
        RuleModel { canonical_email: Some(t), ..e }
    } else if e.current_email is None {
        RuleModel { current_email: Some(t), ..e }
    } else {
        e
    }
}

/// The rule once one more name token has been read.
pub open spec fn add_name(e: RuleModel, t: Seq<char>) -> RuleModel {
    if e.canonical_name is None {
        RuleModel { canonical_name: Some(t), ..e }
    } else if e.current_name is None {
        RuleModel { current_name: Some(t), ..e }
    } else {
        e
    }
}

/// Reads the tokens of `s` from left to right into `e`, stopping at a
/// comment, at the end of the text, or at a token that is neither an email
/// nor a name.
pub open spec fn scan(s: Seq<char>, e: RuleModel) -> RuleModel
    decreases s.len(),
{
    let r = trim_start(s);
    if is_comment(r) || trim(r).len() == 0 {
        e
    } else {
        match email_token(r) {
            Some((t, n)) => if 0 < n <= r.len() <= s.len() {
                scan(r.subrange(n, r.len() as int), add_email(e, t))
            } else {
                e
            },
            None => match name_token(r) {
                Some((t, n)) => if 0 < n <= r.len() <= s.len() {
                    scan(r.subrange(n, r.len() as int), add_name(e, t))
                } else {
                    e
                },
                None => e,
            },
        }
    }
}

/// A rule with a canonical email and no current email matches on the
/// canonical email.
pub open spec fn with_default_current(e: RuleModel) -> RuleModel {
    if e.canonical_email is Some && e.current_email is None {
        RuleModel { current_email: e.canonical_email, ..e }
    } else {
        e
    }
}

/// The rule that one line of a mailmap holds, if any.
pub open spec fn parse_line_spec(s: Seq<char>) -> Option<RuleModel> {
    let e = with_default_current(scan(s, empty_rule()));
    if e.canonical_name is None && e.canonical_email is None && e.current_name is None
        && e.current_email is None {
        None
    } else {
        Some(e)
    }
}

/// A rule that matches on an email also says what that email becomes.
pub open spec fn rule_well_formed(e: RuleModel) -> bool {
    e.current_email is Some ==> e.canonical_email is Some
}

pub open spec fn entry_opt_model(r: Option<MapEntry>) -> Option<RuleModel> {
    match r {
        Some(e) => Some(e.model()),
        None => None,
    }
}

/// If `line` is a comment, empties it.
pub fn read_comment(line: &mut &str) -> (r: bool)
    ensures
        r == is_comment(old(line)@),
        r ==> final(line)@.len() == 0,
        !r ==> final(line)@ == old(line)@,
{
    let t = trim_str(*line);
    if starts_with_char(t, '#') {
        *line = "";
        proof {
            reveal_strlit("");
        }
        true
    } else {
        false
    }
}

/// Reads an email token `<...>` at the start of `line`, moving past it.
pub fn read_email<'a>(line: &mut &'a str) -> (r: Option<&'a str>)
    ensures
        match email_token(old(line)@) {
            Some((t, n)) => r is Some && r->0@ == t && final(line)@ == old(line)@.subrange(
                n,
                old(line)@.len() as int,
            ),
            None => r is None && final(line)@ == old(line)@,
        },
{
    let s: &'a str = *line;
    if !starts_with_char(s, '<') {
        return None;
    }
    let v = chars_of(s);
    match find_at(&v, '>', 0) {
        Some(end) => {
            proof {
                lemma_find_from(v@, '>', 0);
            }
            let ret = s.substring_char(1, end);
            *line = s.substring_char(end + 1, v.len());
            Some(ret)
        },
        None => None,
    }
}

/// Reads the text before the next `<` as a name, moving up to that `<`. An
/// empty name counts as no name.
pub fn read_name<'a>(line: &mut &'a str) -> (r: Option<&'a str>)
    ensures
        match find(old(line)@, '<') {
            Some(j) => final(line)@ == old(line)@.subrange(j, old(line)@.len() as int) && if trim(
                old(line)@.take(j),
            ).len() > 0 {
                r is Some && r->0@ == trim(old(line)@.take(j))
            } else {
                r is None
            },
            None => r is None && final(line)@ == old(line)@,
        },
{
    let s: &'a str = *line;
    let v = chars_of(s);
    let end = match find_at(&v, '<', 0) {
        Some(end) => end,
        None => {
            return None;
        },
    };
    let ret = trim_str(s.substring_char(0, end));
    *line = s.substring_char(end, v.len());
    if ret.unicode_len() == 0 {
        None
    } else {
        Some(ret)
    }
}

} // verus!

verus! {

/// Parses one line of a mailmap into a rule. `_line_no` is the line's number
/// in its document. Surplus names or emails beyond the second are ignored.
pub fn parse_line<'a>(line: &'a str, _line_no: usize) -> (r: Option<MapEntry<'a>>)
    ensures
        entry_opt_model(r) == parse_line_spec(line@),
        r is Some ==> rule_well_formed(r->0.model()),
{
    let mut rest: &'a str = line;
    let mut entry = MapEntry {
        canonical_name: None,
        canonical_email: None,
        current_name: None,
        current_email: None,
    };
    loop
        invariant_except_break
            scan(line@, empty_rule()) == scan(rest@, entry.model()),
        invariant
            rule_well_formed(entry.model()),
        ensures
            scan(line@, empty_rule()) == entry.model(),
            rule_well_formed(entry.model()),
        decreases rest@.len(),
    {
        let ghost s = rest@;
        rest = trim_start_str(rest);
        proof {
            lemma_skip_space_bounds(s, 0);
        }
        let ghost r = rest@;
        if read_comment(&mut rest) || trim_str(rest).is_empty() {
            assert(scan(s, entry.model()) == entry.model());
            break ;
        }
        if let Some(email) = read_email(&mut rest) {
            proof {
                lemma_find_from(r, '>', 0);
            }
            if entry.canonical_email.is_none() {
                entry.canonical_email = Some(email);
            } else if entry.current_email.is_none() {
                entry.current_email = Some(email);
            }
        } else if let Some(name) = read_name(&mut rest) {
            proof {
                lemma_find_from(r, '<', 0);
                assert(r.take(0).len() == 0);
                assert(trim(r.take(0)) =~= Seq::<char>::empty());
            }
            if entry.canonical_name.is_none() {
                entry.canonical_name = Some(name);
            } else if entry.current_name.is_none() {
                entry.current_name = Some(name);
            }
        } else {
            assert(scan(s, entry.model()) == entry.model());
            break ;
        }
    }
    if entry.canonical_email.is_some() && entry.current_email.is_none() {
        entry.current_email = entry.canonical_email;
    }
    if entry.canonical_name.is_some() || entry.canonical_email.is_some()
        || entry.current_name.is_some() || entry.current_email.is_some() {
        Some(entry)
    } else {
        None
    }
}

} // verus!

verus! {

/// The rules that a sequence of lines holds, in order.
pub open spec fn rules_of(ls: Seq<Seq<char>>) -> Seq<RuleModel>
    decreases ls.len(),
{
    if ls.len() == 0 {
        Seq::empty()
    } else {
        let rest = rules_of(ls.drop_first());
        match parse_line_spec(ls[0]) {
            Some(r) => seq![r] + rest,
            None => rest,
        }
    }
}

/// The rules of a mailmap document, in file order.
pub open spec fn mailmap_of(doc: Seq<char>) -> Seq<RuleModel> {
    rules_of(lines(doc))
}

/// Whether a rule applies to an identity: its current email equals the
/// identity's email up to case, and its current name, if any, equals the
/// identity's name up to case.
pub open spec fn rule_matches(r: RuleModel, a: AuthorModel) -> bool {
    match r.current_email {
        Some(e) => folded(e) == folded(a.1) && match r.current_name {
            Some(n) => folded(n) == folded(a.0),
            None => true,
        },
        None => false,
    }
}

/// What a matching rule turns an identity into.
pub open spec fn apply_rule(r: RuleModel, a: AuthorModel) -> AuthorModel {
    (
        match r.canonical_name {
            Some(n) => n,
            None => a.0,
        },
        match r.canonical_email {
            Some(e) => e,
            None => a.1,
        },
    )
}

/// The canonical form of `a` under the rules from index `i` on: the first
/// matching rule decides, and without one `a` stays as it is.
pub open spec fn canonical_from(rules: Seq<RuleModel>, a: AuthorModel, i: int) -> AuthorModel
    decreases rules.len() - i,
{
    if i < 0 || i >= rules.len() {
        a
    } else if rule_matches(rules[i], a) {
        apply_rule(rules[i], a)
    } else {
        canonical_from(rules, a, i + 1)
    }
}

/// The canonical form of `a` under `rules`.
pub open spec fn canonical(rules: Seq<RuleModel>, a: AuthorModel) -> AuthorModel {
    canonical_from(rules, a, 0)
}

/// An ordered list of identity rules; the first rule that matches decides.
#[derive(Clone, Debug)]
pub struct Mailmap {
    entries: Vec<Rule>,
}

impl View for Mailmap {
    type V = Seq<RuleModel>;

    closed spec fn view(&self) -> Seq<RuleModel> {
        self.entries@.map_values(|r: Rule| r.model())
    }
}

impl Mailmap {
    /// Parses a mailmap document. Every line is read; lines that hold no
    /// rule are skipped, and the rules keep their order in the file.
    pub fn from_string(file: String) -> (r: Result<Mailmap, crate::error::ErrorMessage>)
        ensures
            r is Ok,
            r matches Ok(m) ==> m@ == mailmap_of(file@),
            r matches Ok(m) ==> forall|i: int|
                0 <= i < m@.len() ==> rule_well_formed(#[trigger] m@[i]),
    {
        let doc = file.as_str();
        let v = chars_of(doc);
        let mut entries: Vec<Rule> = Vec::new();
        let mut pos: usize = 0;
        let mut line_no: usize = 0;
        proof {
            assert(v@.subrange(0, v.len() as int) =~= v@);
            assert(entries@.map_values(|r: Rule| r.model()) + mailmap_of(v@) =~= mailmap_of(v@));
        }
        while pos < v.len()
            invariant
                pos <= v.len(),
                v@ == doc@,
                doc@ == file@,
                mailmap_of(v@) == entries@.map_values(|r: Rule| r.model()) + rules_of(
                    lines(v@.subrange(pos as int, v.len() as int)),
                ),
                forall|i: int|
                    0 <= i < entries.len() ==> rule_well_formed(#[trigger] entries@[i].model()),
            decreases v.len() - pos,
        {
            let ghost rest = v@.subrange(pos as int, v.len() as int);
            proof {
                lemma_find_suffix(v@, '\n', pos as int);
            }
            let found = find_at(&v, '\n', pos);
            let end = match found {
                Some(j) => j,
                None => v.len(),
            };
            let mut stop = end;
            if found.is_some() && stop > pos && v[stop - 1] == '\r' {
                stop = stop - 1;
            }
            let line = doc.substring_char(pos, stop);
            let ghost ls = lines(rest);
            proof {
                if found is Some {
                    assert(line@ =~= strip_cr(rest.take(end - pos)));
                    assert(v@.subrange(end + 1, v.len() as int) =~= rest.subrange(
                        end - pos + 1,
                        rest.len() as int,
                    ));
                    assert(ls.drop_first() =~= lines(v@.subrange(end + 1, v.len() as int)));
                } else {
                    assert(line@ =~= rest);
                    assert(ls.drop_first() =~= Seq::<Seq<char>>::empty());
                }
                assert(ls[0] == line@);
            }
            line_no = if line_no < usize::MAX {
                line_no + 1
            } else {
                line_no
            };
            let parsed = parse_line(line, line_no);
            let ghost before = entries@.map_values(|r: Rule| r.model());
            match parsed {
                Some(entry) => {
                    entries.push(entry.to_rule());
                    proof {
                        assert(entries@.map_values(|r: Rule| r.model()) =~= before.push(
                            entry.model(),
                        ));
                    }
                },
                None => {},
            }
            pos = match found {
                Some(j) => j + 1,
                None => v.len(),
            };
            proof {
                let tail = rules_of(lines(v@.subrange(pos as int, v.len() as int)));
                assert(rules_of(ls) == match parse_line_spec(ls[0]) {
                    Some(r) => seq![r] + rules_of(ls.drop_first()),
                    None => rules_of(ls.drop_first()),
                });
                if found is None {
                    assert(v@.subrange(pos as int, v.len() as int) =~= Seq::<char>::empty());
                    assert(tail =~= Seq::<RuleModel>::empty());
                }
                assert(rules_of(ls.drop_first()) == tail);
                match parsed {
                    Some(entry) => {
                        assert(before + (seq![entry.model()] + tail) =~= before.push(entry.model())
                            + tail);
                    },
                    None => {},
                }
            }
        }
        proof {
            assert(v@.subrange(pos as int, v.len() as int) =~= Seq::<char>::empty());
            assert(entries@.map_values(|r: Rule| r.model()) + Seq::<RuleModel>::empty()
                =~= entries@.map_values(|r: Rule| r.model()));
        }
        Ok(Mailmap { entries })
    }
}

} // verus!

verus! {

impl Mailmap {
    /// The canonical form of `author`: the first rule that matches it decides;
    /// the rule's canonical name replaces the name when the rule has one, and
    /// its canonical email replaces the email. Without a match, `author` is
    /// returned unchanged.
    pub fn canonicalize(&self, author: &Author) -> (r: Author)
        ensures
            r@ == canonical(self@, author@),
    {
        let mut i: usize = 0;
        while i < self.entries.len()
            invariant
                i <= self.entries.len(),
                canonical_from(self@, author@, i as int) == canonical(self@, author@),
            decreases self.entries.len() - i,
        {
            let entry = &self.entries[i];
            assert(self@[i as int] == entry.model());
            if let Some(email) = &entry.current_email {
                let hit = eq_ignore_case(author.email.as_str(), email.as_str()) && match &entry.current_name {
                    Some(n) => eq_ignore_case(author.name.as_str(), n.as_str()),
                    None => true,
                };
                if hit {
                    let name = match &entry.canonical_name {
                        Some(n) => n.clone(),
                        None => author.name.clone(),
                    };
                    let email = match &entry.canonical_email {
                        Some(e) => e.clone(),
                        None => author.email.clone(),
                    };
                    return Author { name, email };
                }
            }
            i = i + 1;
        }
        author.duplicate()
    }

    /// The number of rules.
    pub fn len(&self) -> (r: usize)
        ensures
            r == self@.len(),
    {
        self.entries.len()
    }
}

/// Canonicalization is a function of the mailmap document and the identity:
/// equal inputs give equal outputs, with no state carried between calls.
pub proof fn lemma_canonicalize_is_pure(doc: Seq<char>, a: AuthorModel, b: AuthorModel)
    requires
        a == b,
    ensures
        canonical(mailmap_of(doc), a) == canonical(mailmap_of(doc), b),
{
}

proof fn lemma_canonical_from_first(rules: Seq<RuleModel>, a: AuthorModel, k: int, i: int)
    requires
        0 <= k <= i < rules.len(),
        rule_matches(rules[i], a),
        forall|m: int| k <= m < i ==> !rule_matches(#[trigger] rules[m], a),
    ensures
        canonical_from(rules, a, k) == apply_rule(rules[i], a),
    decreases i - k,
{
    if k < i {
        lemma_canonical_from_first(rules, a, k + 1, i);
    }
}

/// The first matching rule decides: when rule `i` is the first that matches
/// `a`, the result is what rule `i` makes of `a`, and no later rule `j` that
/// also matches has any say.
pub proof fn lemma_first_match_wins(doc: Seq<char>, a: AuthorModel, i: int, j: int)
    requires
        0 <= i < j < mailmap_of(doc).len(),
        rule_matches(mailmap_of(doc)[i], a),
        rule_matches(mailmap_of(doc)[j], a),
    ensures
        (forall|m: int| 0 <= m < i ==> !rule_matches(#[trigger] mailmap_of(doc)[m], a))
            ==> canonical(mailmap_of(doc), a) == apply_rule(mailmap_of(doc)[i], a),
        canonical(mailmap_of(doc), a) == canonical(mailmap_of(doc).take(i + 1), a),
{
    let rules = mailmap_of(doc);
    let first = choose|m: int| 0 <= m <= i && rule_matches(rules[m], a) && forall|l: int|
        0 <= l < m ==> !rule_matches(#[trigger] rules[l], a);
    lemma_first_index_exists(rules, a, i);
    lemma_canonical_from_first(rules, a, 0, first);
    let short = rules.take(i + 1);
    assert forall|l: int| 0 <= l < first implies !rule_matches(#[trigger] short[l], a) by {
        assert(short[l] == rules[l]);
    }
    assert(short[first] == rules[first]);
    lemma_canonical_from_first(short, a, 0, first);
    if forall|m: int| 0 <= m < i ==> !rule_matches(#[trigger] rules[m], a) {
        lemma_canonical_from_first(rules, a, 0, i);
    }
}

proof fn lemma_first_index_exists(rules: Seq<RuleModel>, a: AuthorModel, i: int)
    requires
        0 <= i < rules.len(),
        rule_matches(rules[i], a),
    ensures
        exists|m: int|
            0 <= m <= i && rule_matches(rules[m], a) && forall|l: int|
                0 <= l < m ==> !rule_matches(#[trigger] rules[l], a),
    decreases i,
{
    if exists|m: int| 0 <= m < i && rule_matches(#[trigger] rules[m], a) {
        let m = choose|m: int| 0 <= m < i && rule_matches(#[trigger] rules[m], a);
        lemma_first_index_exists(rules, a, m);
    } else {
        assert(forall|l: int| 0 <= l < i ==> !rule_matches(#[trigger] rules[l], a));
    }
}

/// An identity that already has the form its first matching rule produces is
/// canonical: canonicalizing it leaves it unchanged, and so does
/// canonicalizing it again.
pub proof fn lemma_canonical_input_is_fixed(doc: Seq<char>, a: AuthorModel, i: int)
    requires
        0 <= i < mailmap_of(doc).len(),
        rule_matches(mailmap_of(doc)[i], a),
        forall|m: int| 0 <= m < i ==> !rule_matches(#[trigger] mailmap_of(doc)[m], a),
        a == apply_rule(mailmap_of(doc)[i], a),
    ensures
        canonical(mailmap_of(doc), a) == a,
        canonical(mailmap_of(doc), canonical(mailmap_of(doc), a)) == canonical(
            mailmap_of(doc),
            a,
        ),
{
    lemma_canonical_from_first(mailmap_of(doc), a, 0, i);
}

/// Every rule that a mailmap document yields says what a matched email
/// becomes.
pub proof fn lemma_parsed_rules_well_formed(doc: Seq<char>)
    ensures
        forall|i: int|
            0 <= i < mailmap_of(doc).len() ==> rule_well_formed(#[trigger] mailmap_of(doc)[i]),
{
    lemma_rules_of_well_formed(lines(doc));
}

proof fn lemma_scan_well_formed(s: Seq<char>, e: RuleModel)
    requires
        rule_well_formed(e),
    ensures
        rule_well_formed(scan(s, e)),
    decreases s.len(),
{
    let r = trim_start(s);
    if is_comment(r) || trim(r).len() == 0 {
    } else {
        match email_token(r) {
            Some((t, n)) => if 0 < n <= r.len() <= s.len() {
                lemma_scan_well_formed(r.subrange(n, r.len() as int), add_email(e, t));
            },
            None => match name_token(r) {
                Some((t, n)) => if 0 < n <= r.len() <= s.len() {
                    lemma_scan_well_formed(r.subrange(n, r.len() as int), add_name(e, t));
                },
                None => {},
            },
        }
    }
}

proof fn lemma_rules_of_well_formed(ls: Seq<Seq<char>>)
    ensures
        forall|i: int|
            0 <= i < rules_of(ls).len() ==> rule_well_formed(#[trigger] rules_of(ls)[i]),
    decreases ls.len(),
{
    if ls.len() > 0 {
        lemma_rules_of_well_formed(ls.drop_first());
        lemma_scan_well_formed(ls[0], empty_rule());
        let rest = rules_of(ls.drop_first());
        match parse_line_spec(ls[0]) {
            Some(r) => {
                assert forall|i: int| 0 <= i < rules_of(ls).len() implies rule_well_formed(
                    #[trigger] rules_of(ls)[i],
                ) by {
                    if i > 0 {
                        assert(rules_of(ls)[i] == rest[i - 1]);
                    }
                }
            },
            None => {},
        }
    }
}

} // verus!
