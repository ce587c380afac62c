//! Commit attribution: which identities a commit credits, and the author map
//! of a range of commits.

use vstd::prelude::*;
use vstd::string::*;

use crate::author_map::{add_commit, AuthorMap, Contributions};
use crate::mailmap::{canonical, identity_key, Author, AuthorModel, Mailmap, RuleModel};
use crate::reviewers::{resolve, DirectoryModel, Reviewers};
use crate::text::{
    chars_of, find_at, find_from, find_seq_at, find_seq_from, has_prefix, has_prefix_at,
    lines, split_lines, str_eq, strip_leading, strip_leading_str,
    strip_trailing, strip_trailing_str, trim, trim_str,
};

verus! {

/// Index of the first line at or after `i` that contains `p`.
pub open spec fn first_line_containing(ls: Seq<Seq<char>>, p: Seq<char>, i: int) -> Option<int>
    decreases ls.len() - i,
{
    if i < 0 || i >= ls.len() {
        None
    } else if find_seq_from(ls[i], p, 0) is Some {
        Some(i)
    } else {
        first_line_containing(ls, p, i + 1)
    }
}

/// Index of the first line at or after `i` that begins with `p`.
pub open spec fn first_line_prefixed(ls: Seq<Seq<char>>, p: Seq<char>, i: int) -> Option<int>
    decreases ls.len() - i,
{
    if i < 0 || i >= ls.len() {
        None
    } else if has_prefix(ls[i], p) {
        Some(i)
    } else {
        first_line_prefixed(ls, p, i + 1)
    }
}

/// The text after the first `marker` of `l`, up to the next space or the end
/// of the line.
pub open spec fn inline_list(l: Seq<char>, marker: Seq<char>) -> Seq<char> {
    let start = find_seq_from(l, marker, 0)->Some_0 + marker.len();
    let end = match find_from(l, ' ', start) {
        Some(e) => e,
        None => l.len() as int,
    };
    l.subrange(start, end)
}

/// The approver list of a merge message: after ` r=` on the first line that
/// has it, or else the rest of the first line that begins `Approved-by: `.
pub open spec fn reviewer_list(msg: Seq<char>) -> Option<Seq<char>> {
    let ls = lines(msg);
    match first_line_containing(ls, " r="@, 0) {
        Some(i) => Some(inline_list(ls[i], " r="@)),
        None => match first_line_prefixed(ls, "Reviewed-by: "@, 0) {
            Some(i) => Some(ls[i].subrange("Reviewed-by: "@.len() as int, ls[i].len() as int)),
            None => None,
        },
    }
}

/// Finds the approver list of a merge message.
pub fn reviewer_list_of<'a>(message: &'a str) -> (r: Option<&'a str>)
    ensures
        match r {
            Some(l) => reviewer_list(message@) == Some(l@),
            None => reviewer_list(message@) is None,
        },
{
    let ls = split_lines(message);
    let ghost lv = ls@.map_values(|l: &str| l@);
    let marker = chars_of(" r=");
    let mut i: usize = 0;
    while i < ls.len()
        invariant
            i <= ls.len(),
            lv == lines(message@),
            lv == ls@.map_values(|l: &str| l@),
            marker@ == " r="@,
            first_line_containing(lv, " r="@, i as int) == first_line_containing(lv, " r="@, 0),
        decreases ls.len() - i,
    {
        let v = chars_of(ls[i]);
        assert(lv[i as int] == v@);
        match find_seq_at(&v, &marker, 0) {
            Some(k) => {
                let start = k + marker.len();
                let end = match find_at(&v, ' ', start) {
                    Some(e) => e,
                    None => v.len(),
                };
                return Some(ls[i].substring_char(start, end));
            },
            None => {},
        }
        i = i + 1;
    }
    let prefix = chars_of("Reviewed-by: ");
    let mut i: usize = 0;
    while i < ls.len()
        invariant
            i <= ls.len(),
            lv == lines(message@),
            lv == ls@.map_values(|l: &str| l@),
            prefix@ == "Reviewed-by: "@,
            first_line_containing(lv, " r="@, 0) is None,
            first_line_prefixed(lv, "Reviewed-by: "@, i as int) == first_line_prefixed(
                lv,
                "Reviewed-by: "@,
                0,
            ),
        decreases ls.len() - i,
    {
        let v = chars_of(ls[i]);
        assert(lv[i as int] == v@);
        assert(v@.subrange(0, v.len() as int) =~= v@);
        if has_prefix_at(&v, 0, &prefix) {
            return Some(ls[i].substring_char(prefix.len(), v.len()));
        }
        i = i + 1;
    }
    None
}

/// A character that separates approver tokens.
pub open spec fn is_separator(c: char) -> bool {
    c == ',' || c == '+'
}

/// Index of the first separator of `s` at or after `i` (or `s.len()`).
pub open spec fn next_separator(s: Seq<char>, i: int) -> int
    decreases s.len() - i,
{
    if i < 0 || i >= s.len() {
        s.len() as int
    } else if is_separator(s[i]) {
        i
    } else {
        next_separator(s, i + 1)
    }
}

/// The pieces of `s` from index `i` on, split at every separator.
pub open spec fn pieces_from(s: Seq<char>, i: int) -> Seq<Seq<char>>
    decreases s.len() + 1 - i,
{
    if i < 0 || i > s.len() {
        Seq::empty()
    } else {
        let j = next_separator(s, i);
        if i <= j < s.len() {
            seq![s.subrange(i, j)] + pieces_from(s, j + 1)
        } else {
            seq![s.subrange(i, s.len() as int)]
        }
    }
}

/// A piece of an approver list as a token: without surrounding spaces, then
/// without leading `@` and trailing backticks, then without surrounding
/// spaces again.
pub open spec fn clean_token(p: Seq<char>) -> Seq<char> {
    trim(strip_trailing(strip_leading(trim(p), '@'), '`'))
}

/// Tokens that name nobody: empty ones, and the marker of an aborted try
/// build.
pub open spec fn is_kept_token(t: Seq<char>) -> bool {
    t.len() > 0 && t != "<try>"@
}

/// The cleaned pieces, in order, without the ones that name nobody.
pub open spec fn kept_tokens(ps: Seq<Seq<char>>) -> Seq<Seq<char>>
    decreases ps.len(),
{
    if ps.len() == 0 {
        Seq::empty()
    } else {
        let rest = kept_tokens(ps.drop_last());
        let t = clean_token(ps.last());
        if is_kept_token(t) {
            rest.push(t)
        } else {
            rest
        }
    }
}

/// The approver tokens of an approver list: trailing dots dropped, split at
/// `,` and `+`, cleaned, and without the tokens that name nobody.
pub open spec fn reviewer_tokens(list: Seq<char>) -> Seq<Seq<char>> {
    kept_tokens(pieces_from(strip_trailing(list, '.'), 0))
}

fn next_separator_at(v: &Vec<char>, i: usize) -> (r: usize)
    requires
        i <= v.len(),
    ensures
        r as int == next_separator(v@, i as int),
        i <= r <= v.len(),
{
    let mut k = i;
    while k < v.len() && v[k] != ',' && v[k] != '+'
        invariant
            i <= k <= v.len(),
            next_separator(v@, k as int) == next_separator(v@, i as int),
        decreases v.len() - k,
    {
        k = k + 1;
    }
    k
}

/// Splits an approver list into its approver tokens.
pub fn reviewer_tokens_of<'a>(list: &'a str) -> (r: Vec<&'a str>)
    ensures
        r@.map_values(|t: &str| t@) == reviewer_tokens(list@),
{
    let s = strip_trailing_str(list, '.');
    let v = chars_of(s);
    let mut pieces: Vec<&'a str> = Vec::new();
    let mut pos: usize = 0;
    proof {
        assert(pieces@.map_values(|t: &str| t@) + pieces_from(v@, 0) =~= pieces_from(v@, 0));
    }
    loop
        invariant_except_break
            pos <= v.len(),
            pieces@.map_values(|t: &str| t@) + pieces_from(v@, pos as int) == pieces_from(v@, 0),
        invariant
            v@ == s@,
        ensures
            pieces@.map_values(|t: &str| t@) == pieces_from(v@, 0),
        decreases v.len() + 1 - pos,
    {
        let j = next_separator_at(&v, pos);
        let ghost before = pieces@.map_values(|t: &str| t@);
        if j < v.len() {
            pieces.push(s.substring_char(pos, j));
            proof {
                assert(pieces@.map_values(|t: &str| t@) =~= before.push(v@.subrange(pos as int, j as int)));
                assert(before + pieces_from(v@, pos as int) =~= before.push(
                    v@.subrange(pos as int, j as int),
                ) + pieces_from(v@, j + 1));
            }
            pos = j + 1;
        } else {
            pieces.push(s.substring_char(pos, v.len()));
            proof {
                assert(pieces@.map_values(|t: &str| t@) =~= before.push(
                    v@.subrange(pos as int, v.len() as int),
                ));
                assert(before + pieces_from(v@, pos as int) =~= pieces@.map_values(|t: &str| t@));
            }
            break ;
        }
    }
    let ghost pv = pieces@.map_values(|t: &str| t@);
    let mut out: Vec<&'a str> = Vec::new();
    let mut i: usize = 0;
    proof {
        assert(pv.take(0) =~= Seq::<Seq<char>>::empty());
        assert(out@.map_values(|t: &str| t@) =~= Seq::<Seq<char>>::empty());
    }
    while i < pieces.len()
        invariant
            i <= pieces.len(),
            pv == pieces@.map_values(|t: &str| t@),
            out@.map_values(|t: &str| t@) == kept_tokens(pv.take(i as int)),
        decreases pieces.len() - i,
    {
        let t = trim_str(strip_trailing_str(strip_leading_str(trim_str(pieces[i]), '@'), '`'));
        assert(pv.take(i + 1).drop_last() =~= pv.take(i as int));
        assert(pv.take(i + 1).last() == pieces@[i as int]@);
        let ghost before = out@.map_values(|t: &str| t@);
        if t.unicode_len() > 0 && !str_eq(t, "<try>") {
            out.push(t);
            assert(out@.map_values(|t: &str| t@) =~= before.push(t@));
        }
        i = i + 1;
    }
    assert(pv.take(i as int) =~= pv);
    out
}

} // verus!

verus! {

/// Equal characters, or the same ASCII letter in either case.
pub open spec fn ascii_eq_ignore_case(a: char, b: char) -> bool {
    a == b || ('A' <= a && a <= 'Z' && (a as u32) + 32 == (b as u32)) || ('A' <= b && b <= 'Z'
        && (b as u32) + 32 == (a as u32))
}

/// `s` begins with `p`, ASCII letters compared without case.
pub open spec fn has_prefix_ignore_case(s: Seq<char>, p: Seq<char>) -> bool {
    p.len() <= s.len() && forall|k: int| 0 <= k < p.len() ==> ascii_eq_ignore_case(s[k], p[k])
}

/// The largest index at most `i` where `s` holds `c`.
pub open spec fn rfind_upto(s: Seq<char>, c: char, i: int) -> Option<int>
    decreases i + 1,
{
    if i < 0 {
        None
    } else if i < s.len() && s[i] == c {
        Some(i)
    } else {
        rfind_upto(s, c, i - 1)
    }
}

/// The largest index at most `i` where `s` holds ` <`.
pub open spec fn rfind_open_upto(s: Seq<char>, i: int) -> Option<int>
    decreases i + 1,
{
    if i < 0 {
        None
    } else if i + 1 < s.len() && s[i] == ' ' && s[i + 1] == '<' {
        Some(i)
    } else {
        rfind_open_upto(s, i - 1)
    }
}

/// The co-author a trailer line `Co-authored-by: NAME <EMAIL>` names, its
/// prefix compared without case. The email ends at the last `>` of the line
/// and the name at the last ` <` before it.
pub open spec fn coauthor_of(line: Seq<char>) -> Option<AuthorModel> {
    let p = "Co-authored-by: "@;
    if has_prefix_ignore_case(line, p) {
        let r = line.subrange(p.len() as int, line.len() as int);
        match rfind_upto(r, '>', r.len() - 1) {
            Some(j) => match rfind_open_upto(r, j - 2) {
                Some(i) => Some((r.take(i), r.subrange(i + 2, j))),
                None => None,
            },
            None => None,
        }
    } else {
        None
    }
}

/// The co-authors of a list of lines, read from the last line to the first.
pub open spec fn coauthors_rev(ls: Seq<Seq<char>>) -> Seq<AuthorModel>
    decreases ls.len(),
{
    if ls.len() == 0 {
        Seq::empty()
    } else {
        let first = match coauthor_of(ls.last()) {
            Some(a) => seq![a],
            None => Seq::empty(),
        };
        first + coauthors_rev(ls.drop_last())
    }
}

fn ascii_eq_ignore_case_exec(a: char, b: char) -> (r: bool)
    ensures
        r == ascii_eq_ignore_case(a, b),
{
    let x = a as u32;
    let y = b as u32;
    a == b || ('A' <= a && a <= 'Z' && x + 32 == y) || ('A' <= b && b <= 'Z' && y + 32 == x)
}

fn rfind_upto_exec(v: &Vec<char>, c: char, i: usize) -> (r: Option<usize>)
    requires
        i < v.len(),
    ensures
        match r {
            Some(k) => rfind_upto(v@, c, i as int) == Some(k as int) && k <= i,
            None => rfind_upto(v@, c, i as int) is None,
        },
{
    let mut k: usize = i + 1;
    while k > 0
        invariant
            k <= i + 1,
            i < v.len(),
            rfind_upto(v@, c, k - 1) == rfind_upto(v@, c, i as int),
        decreases k,
    {
        if v[k - 1] == c {
            return Some(k - 1);
        }
        k = k - 1;
    }
    None
}

fn rfind_open_upto_exec(v: &Vec<char>, i: usize) -> (r: Option<usize>)
    requires
        i < v.len(),
    ensures
        match r {
            Some(k) => rfind_open_upto(v@, i as int) == Some(k as int) && k <= i,
            None => rfind_open_upto(v@, i as int) is None,
        },
{
    let mut k: usize = i + 1;
    while k > 0
        invariant
            k <= i + 1,
            i < v.len(),
            rfind_open_upto(v@, k - 1) == rfind_open_upto(v@, i as int),
        decreases k,
    {
        if k < v.len() && v[k - 1] == ' ' && v[k] == '<' {
            return Some(k - 1);
        }
        k = k - 1;
    }
    None
}

/// Reads a `Co-authored-by:` trailer line.
pub fn coauthor_of_line(line: &str) -> (r: Option<Author>)
    ensures
        match r {
            Some(a) => coauthor_of(line@) == Some(a@),
            None => coauthor_of(line@) is None,
        },
{
    let p = chars_of("Co-authored-by: ");
    let v = chars_of(line);
    if p.len() > v.len() {
        return None;
    }
    let mut k: usize = 0;
    while k < p.len()
        invariant
            k <= p.len(),
            p.len() <= v.len(),
            p@ == "Co-authored-by: "@,
            v@ == line@,
            forall|m: int| 0 <= m < k ==> ascii_eq_ignore_case(v@[m], p@[m]),
        decreases p.len() - k,
    {
        if !ascii_eq_ignore_case_exec(v[k], p[k]) {
            return None;
        }
        k = k + 1;
    }
    let rest = line.substring_char(p.len(), v.len());
    let r = chars_of(rest);
    if r.len() == 0 {
        return None;
    }
    match rfind_upto_exec(&r, '>', r.len() - 1) {
        Some(j) => {
            if j < 2 {
                assert(rfind_open_upto(r@, j - 2) is None);
                return None;
            }
            match rfind_open_upto_exec(&r, j - 2) {
                Some(i) => {
                    let name = rest.substring_char(0, i);
                    let email = rest.substring_char(i + 2, j);
                    Some(Author::new(name.to_owned(), email.to_owned()))
                },
                None => None,
            }
        },
        None => None,
    }
}

/// The co-authors that the trailer lines of a commit message name, from the
/// last line to the first.
pub fn commit_coauthors(message: &str) -> (r: Vec<Author>)
    ensures
        r@.map_values(|a: Author| a@) == coauthors_rev(lines(message@)),
{
    let ls = split_lines(message);
    let ghost lv = ls@.map_values(|l: &str| l@);
    let mut out: Vec<Author> = Vec::new();
    let mut i: usize = ls.len();
    proof {
        assert(lv.take(i as int) =~= lv);
        assert(out@.map_values(|a: Author| a@) + coauthors_rev(lv) =~= coauthors_rev(lv));
    }
    while i > 0
        invariant
            i <= ls.len(),
            lv == ls@.map_values(|l: &str| l@),
            out@.map_values(|a: Author| a@) + coauthors_rev(lv.take(i as int)) == coauthors_rev(lv),
        decreases i,
    {
        let ghost before = out@.map_values(|a: Author| a@);
        let ghost t = lv.take(i as int);
        assert(t.drop_last() =~= lv.take(i - 1));
        assert(t.last() == ls@[i - 1]@);
        match coauthor_of_line(ls[i - 1]) {
            Some(a) => {
                out.push(a);
                proof {
                    assert(out@.map_values(|a: Author| a@) =~= before.push(a@));
                    assert(before + coauthors_rev(t) =~= before.push(a@) + coauthors_rev(
                        lv.take(i - 1),
                    ));
                }
            },
            None => {
                assert(coauthors_rev(t) =~= coauthors_rev(lv.take(i - 1)));
            },
        }
        i = i - 1;
    }
    assert(out@.map_values(|a: Author| a@) + coauthors_rev(lv.take(0)) =~= out@.map_values(
        |a: Author| a@,
    ));
    out
}

} // verus!

verus! {

/// What the attribution reads of a commit.
#[derive(Debug, Clone)]
pub struct CommitInfo {
    /// The commit's id, in hexadecimal.
    pub id: String,
    pub author: Author,
    pub committer: Author,
    /// The first paragraph of the message, on one line.
    pub summary: String,
    pub message: String,
    pub parent_count: usize,
}

/// The automation accounts of a project: logins of merge bots, and the name
/// of the service that commits batched merges.
#[derive(Debug, Clone)]
pub struct BotPolicy {
    pub bots: Vec<String>,
    pub merge_service: String,
}

/// Why a range of commits could not be attributed.
#[derive(Debug, Clone)]
pub enum AttributionError {
    /// A merge by an automation account whose message names no approver in
    /// any known form.
    UnparseableMerge { commit: String },
}

/// A batched merge of several approved changes: its summary begins with
/// `Rollup merge of #`.
pub open spec fn is_rollup_spec(summary: Seq<char>) -> bool {
    has_prefix(summary, "Rollup merge of #"@)
}

pub open spec fn is_bot(p: BotPolicy, name: Seq<char>) -> bool {
    exists|i: int| 0 <= i < p.bots.len() && (#[trigger] p.bots@[i])@ == name
}

/// A merge made by automation: a bot authored or committed it, or the merge
/// service committed a batched merge.
pub open spec fn is_integrator_merge(c: CommitInfo, p: BotPolicy) -> bool {
    is_bot(p, c.author.name@) || is_bot(p, c.committer.name@) || (c.committer.name@
        == p.merge_service@ && is_rollup_spec(c.summary@))
}

/// The approver tokens of a commit: none unless it is an integrator merge
/// with more than one parent; `None` when such a merge names no approver and
/// its message is not the one known legacy placeholder.
pub open spec fn merge_tokens(c: CommitInfo, p: BotPolicy) -> Option<Seq<Seq<char>>> {
    if !is_integrator_merge(c, p) || c.parent_count == 1 {
        Some(Seq::empty())
    } else {
        match reviewer_list(c.message@) {
            Some(l) => Some(reviewer_tokens(l)),
            None => if c.message@ == "automated merge\n"@ {
                Some(Seq::empty())
            } else {
                None
            },
        }
    }
}

/// The identities that the directory gives for `ts`, in order.
pub open spec fn resolved(dir: DirectoryModel, ts: Seq<Seq<char>>) -> Seq<AuthorModel>
    decreases ts.len(),
{
    if ts.len() == 0 {
        Seq::empty()
    } else {
        let rest = resolved(dir, ts.drop_last());
        match resolve(dir, ts.last()) {
            Ok(Some(a)) => rest.push(a),
            _ => rest,
        }
    }
}

/// The tokens of `ts` that the directory does not know, in order.
pub open spec fn unresolved(dir: DirectoryModel, ts: Seq<Seq<char>>) -> Seq<Seq<char>>
    decreases ts.len(),
{
    if ts.len() == 0 {
        Seq::empty()
    } else {
        let rest = unresolved(dir, ts.drop_last());
        match resolve(dir, ts.last()) {
            Err(_) => rest.push(ts.last()),
            _ => rest,
        }
    }
}

/// The raw identities a commit credits: its author unless it is a batched
/// merge, the approvers of an integrator merge, and its co-authors.
pub open spec fn credited(c: CommitInfo, p: BotPolicy, dir: DirectoryModel) -> Option<
    Seq<AuthorModel>,
> {
    match merge_tokens(c, p) {
        Some(ts) => Some(
            (if is_rollup_spec(c.summary@) {
                Seq::empty()
            } else {
                seq![c.author@]
            }) + resolved(dir, ts) + coauthors_rev(lines(c.message@)),
        ),
        None => None,
    }
}

/// The approver tokens of a commit that the directory does not know.
pub open spec fn unknown_of(c: CommitInfo, p: BotPolicy, dir: DirectoryModel) -> Seq<Seq<char>> {
    match merge_tokens(c, p) {
        Some(ts) => unresolved(dir, ts),
        None => Seq::empty(),
    }
}

pub open spec fn author_views(v: Seq<Author>) -> Seq<AuthorModel> {
    v.map_values(|a: Author| a@)
}

pub open spec fn str_views(v: Seq<String>) -> Seq<Seq<char>> {
    v.map_values(|s: String| s@)
}

/// Whether `summary` marks a batched merge.
pub fn is_rollup_commit(commit: &CommitInfo) -> (r: bool)
    ensures
        r == is_rollup_spec(commit.summary@),
{
    let v = chars_of(commit.summary.as_str());
    let p = chars_of("Rollup merge of #");
    assert(v@.subrange(0, v.len() as int) =~= v@);
    has_prefix_at(&v, 0, &p)
}

fn is_bot_name(policy: &BotPolicy, name: &String) -> (r: bool)
    ensures
        r == is_bot(*policy, name@),
{
    let mut i: usize = 0;
    while i < policy.bots.len()
        invariant
            i <= policy.bots.len(),
            forall|j: int| 0 <= j < i ==> policy.bots@[j]@ != name@,
        decreases policy.bots.len() - i,
    {
        if policy.bots[i] == *name {
            return true;
        }
        i = i + 1;
    }
    false
}

/// Whether a commit is a merge made by automation.
pub fn is_integrator_merge_commit(policy: &BotPolicy, commit: &CommitInfo) -> (r: bool)
    ensures
        r == is_integrator_merge(*commit, *policy),
{
    is_bot_name(policy, &commit.author.name) || is_bot_name(policy, &commit.committer.name) || (
    commit.committer.name == policy.merge_service && is_rollup_commit(commit))
}

/// The approvers an integrator merge credits.
#[derive(Debug, Clone)]
pub struct MergeReviewers {
    pub credited: Vec<Author>,
    pub unknown: Vec<String>,
}

/// Resolves the approvers that a commit's message names, when the commit is
/// an integrator merge. Tokens the directory does not know are set aside in
/// `unknown`; a merge whose message names no approver in a known form is an
/// error.
pub fn parse_bors_reviewer(reviewers: &Reviewers, policy: &BotPolicy, commit: &CommitInfo) -> (r:
    Result<MergeReviewers, AttributionError>)
    ensures
        match r {
            Ok(m) => merge_tokens(*commit, *policy) matches Some(ts) && author_views(m.credited@)
                == resolved(reviewers@, ts) && str_views(m.unknown@) == unresolved(
                reviewers@,
                ts,
            ),
            Err(e) => merge_tokens(*commit, *policy) is None && e == (
            AttributionError::UnparseableMerge { commit: commit.id }),
        },
{
    let mut out = MergeReviewers { credited: Vec::new(), unknown: Vec::new() };
    proof {
        assert(author_views(out.credited@) =~= resolved(reviewers@, Seq::empty()));
        assert(str_views(out.unknown@) =~= unresolved(reviewers@, Seq::empty()));
    }
    if !is_integrator_merge_commit(policy, commit) || commit.parent_count == 1 {
        return Ok(out);
    }
    let list = match reviewer_list_of(commit.message.as_str()) {
        Some(l) => l,
        None => {
            if str_eq(commit.message.as_str(), "automated merge\n") {
                return Ok(out);
            }
            return Err(AttributionError::UnparseableMerge { commit: commit.id.clone() });
        },
    };
    let tokens = reviewer_tokens_of(list);
    let ghost ts = tokens@.map_values(|t: &str| t@);
    let mut i: usize = 0;
    proof {
        assert(ts.take(0) =~= Seq::<Seq<char>>::empty());
    }
    while i < tokens.len()
        invariant
            i <= tokens.len(),
            ts == tokens@.map_values(|t: &str| t@),
            author_views(out.credited@) == resolved(reviewers@, ts.take(i as int)),
            str_views(out.unknown@) == unresolved(reviewers@, ts.take(i as int)),
        decreases tokens.len() - i,
    {
        let t = tokens[i];
        assert(ts.take(i + 1).drop_last() =~= ts.take(i as int));
        assert(ts.take(i + 1).last() == t@);
        let ghost c0 = author_views(out.credited@);
        let ghost u0 = str_views(out.unknown@);
        match reviewers.to_author(t) {
            Ok(Some(a)) => {
                out.credited.push(a);
                assert(author_views(out.credited@) =~= c0.push(a@));
            },
            Ok(None) => {},
            Err(_) => {
                out.unknown.push(t.to_owned());
                assert(str_views(out.unknown@) =~= u0.push(t@));
            },
        }
        i = i + 1;
    }
    assert(ts.take(i as int) =~= ts);
    Ok(out)
}

/// What one commit credits.
#[derive(Debug, Clone)]
pub struct CommitCredits {
    /// Raw identities, before canonicalization.
    pub authors: Vec<Author>,
    /// Approver tokens the directory does not know.
    pub unknown_reviewers: Vec<String>,
}

/// The raw identities a commit credits: its author (unless it is a batched
/// merge), the approvers of an integrator merge, and its co-authors.
pub fn commit_credits(reviewers: &Reviewers, policy: &BotPolicy, commit: &CommitInfo) -> (r:
    Result<CommitCredits, AttributionError>)
    ensures
        match r {
            Ok(c) => credited(*commit, *policy, reviewers@) == Some(author_views(c.authors@))
                && str_views(c.unknown_reviewers@) == unknown_of(*commit, *policy, reviewers@),
            Err(e) => credited(*commit, *policy, reviewers@) is None && e == (
            AttributionError::UnparseableMerge { commit: commit.id }),
        },
{
    let mut authors: Vec<Author> = Vec::new();
    if !is_rollup_commit(commit) {
        authors.push(commit.author.duplicate());
    }
    let ghost own = author_views(authors@);
    proof {
        if is_rollup_spec(commit.summary@) {
            assert(own =~= Seq::<AuthorModel>::empty());
        } else {
            assert(own =~= seq![commit.author@]);
        }
    }
    let merge = parse_bors_reviewer(reviewers, policy, commit)?;
    let MergeReviewers { credited: mut revs, unknown } = merge;
    let ghost rv = author_views(revs@);
    authors.append(&mut revs);
    let mut co = commit_coauthors(commit.message.as_str());
    let ghost cv = author_views(co@);
    let ghost mid = author_views(authors@);
    authors.append(&mut co);
    proof {
        assert(mid =~= own + rv);
        assert(author_views(authors@) =~= own + rv + cv);
    }
    Ok(CommitCredits { authors, unknown_reviewers: unknown })
}

} // verus!

verus! {

/// `m` with commit `c` credited to the canonical form of each of `ids`.
pub open spec fn credit_all(
    m: Contributions,
    rules: Seq<RuleModel>,
    ids: Seq<AuthorModel>,
    c: Seq<char>,
) -> Contributions
    decreases ids.len(),
{
    if ids.len() == 0 {
        m
    } else {
        add_commit(credit_all(m, rules, ids.drop_last(), c), identity_key(canonical(rules, ids.last())), c)
    }
}

/// The author map of a list of commits, or `None` when one of them cannot
/// be attributed.
pub open spec fn range_credits(
    cs: Seq<CommitInfo>,
    p: BotPolicy,
    dir: DirectoryModel,
    rules: Seq<RuleModel>,
) -> Option<Contributions>
    decreases cs.len(),
{
    if cs.len() == 0 {
        Some(Map::empty())
    } else {
        match range_credits(cs.drop_last(), p, dir, rules) {
            Some(m) => match credited(cs.last(), p, dir) {
                Some(ids) => Some(credit_all(m, rules, ids, cs.last().id@)),
                None => None,
            },
            None => None,
        }
    }
}

/// The unknown approver tokens of a list of commits, each with its commit.
pub open spec fn range_unknown(cs: Seq<CommitInfo>, p: BotPolicy, dir: DirectoryModel) -> Seq<
    (Seq<char>, Seq<char>),
>
    decreases cs.len(),
{
    if cs.len() == 0 {
        Seq::empty()
    } else {
        let c = cs.last();
        range_unknown(cs.drop_last(), p, dir) + unknown_of(c, p, dir).map_values(
            |t: Seq<char>| (c.id@, t),
        )
    }
}

/// The attribution of a range of commits.
#[derive(Debug, Clone)]
pub struct Attribution {
    pub authors: AuthorMap,
    /// Approver tokens the directory does not know, with their commit ids.
    pub unknown_reviewers: Vec<(String, String)>,
}

/// Credits each commit of `commits` to the canonical form of every identity
/// it credits. Fails at the first commit that cannot be attributed.
pub fn build_author_map(
    commits: &Vec<CommitInfo>,
    reviewers: &Reviewers,
    mailmap: &Mailmap,
    policy: &BotPolicy,
) -> (r: Result<Attribution, AttributionError>)
    ensures
        match r {
            Ok(a) => a.authors.wf() && range_credits(commits@, *policy, reviewers@, mailmap@)
                == Some(a.authors@) && a.unknown_reviewers@.map_values(
                |u: (String, String)| (u.0@, u.1@),
            ) == range_unknown(commits@, *policy, reviewers@),
            Err(e) => range_credits(commits@, *policy, reviewers@, mailmap@) is None && exists|
                i: int,
            |
                0 <= i < commits.len() && credited(#[trigger] commits@[i], *policy, reviewers@)
                    is None && e == (AttributionError::UnparseableMerge { commit: commits@[i].id }),
        },
{
    let ghost cs = commits@;
    let mut map = AuthorMap::new();
    let mut unknown: Vec<(String, String)> = Vec::new();
    let mut i: usize = 0;
    proof {
        assert(cs.take(0) =~= Seq::<CommitInfo>::empty());
        assert(unknown@.map_values(|u: (String, String)| (u.0@, u.1@)) =~= Seq::<
            (Seq<char>, Seq<char>),
        >::empty());
    }
    while i < commits.len()
        invariant
            i <= commits.len(),
            cs == commits@,
            map.wf(),
            range_credits(cs.take(i as int), *policy, reviewers@, mailmap@) == Some(map@),
            unknown@.map_values(|u: (String, String)| (u.0@, u.1@)) == range_unknown(
                cs.take(i as int),
                *policy,
                reviewers@,
            ),
        decreases commits.len() - i,
    {
        let commit = &commits[i];
        assert(cs.take(i + 1).drop_last() =~= cs.take(i as int));
        assert(cs.take(i + 1).last() == *commit);
        let credits = match commit_credits(reviewers, policy, commit) {
            Ok(c) => c,
            Err(e) => {
                assert(range_credits(cs.take(i + 1), *policy, reviewers@, mailmap@) is None);
                proof {
                    lemma_range_credits_fails(cs, *policy, reviewers@, mailmap@, i as int + 1);
                    assert(cs.take(cs.len() as int) =~= cs);
                }
                return Err(e);
            },
        };
        let ghost base = map@;
        let ghost ids = author_views(credits.authors@);
        let mut j: usize = 0;
        proof {
            assert(ids.take(0) =~= Seq::<AuthorModel>::empty());
        }
        while j < credits.authors.len()
            invariant
                j <= credits.authors.len(),
                ids == author_views(credits.authors@),
                map.wf(),
                map@ == credit_all(base, mailmap@, ids.take(j as int), commit.id@),
            decreases credits.authors.len() - j,
        {
            let canon = mailmap.canonicalize(&credits.authors[j]);
            assert(ids.take(j + 1).drop_last() =~= ids.take(j as int));
            assert(ids.take(j + 1).last() == credits.authors@[j as int]@);
            map.add(canon, commit.id.clone());
            j = j + 1;
        }
        assert(ids.take(j as int) =~= ids);
        let ghost u0 = unknown@.map_values(|u: (String, String)| (u.0@, u.1@));
        let ghost us = str_views(credits.unknown_reviewers@);
        let mut k: usize = 0;
        while k < credits.unknown_reviewers.len()
            invariant
                k <= credits.unknown_reviewers.len(),
                us == str_views(credits.unknown_reviewers@),
                unknown@.map_values(|u: (String, String)| (u.0@, u.1@)) == u0 + us.take(
                    k as int,
                ).map_values(|t: Seq<char>| (commit.id@, t)),
            decreases credits.unknown_reviewers.len() - k,
        {
            let ghost before = unknown@.map_values(|u: (String, String)| (u.0@, u.1@));
            unknown.push((commit.id.clone(), credits.unknown_reviewers[k].clone()));
            proof {
                assert(us.take(k + 1) =~= us.take(k as int).push(us[k as int]));
                assert(unknown@.map_values(|u: (String, String)| (u.0@, u.1@)) =~= before.push(
                    (commit.id@, us[k as int]),
                ));
                assert(u0 + us.take(k + 1).map_values(|t: Seq<char>| (commit.id@, t)) =~= before.push(
                    (commit.id@, us[k as int]),
                ));
            }
            k = k + 1;
        }
        assert(us.take(k as int) =~= us);
        i = i + 1;
    }
    assert(cs.take(i as int) =~= cs);
    Ok(Attribution { authors: map, unknown_reviewers: unknown })
}

proof fn lemma_range_credits_fails(
    cs: Seq<CommitInfo>,
    p: BotPolicy,
    dir: DirectoryModel,
    rules: Seq<RuleModel>,
    n: int,
)
    requires
        0 <= n <= cs.len(),
        range_credits(cs.take(n), p, dir, rules) is None,
    ensures
        range_credits(cs.take(cs.len() as int), p, dir, rules) is None,
    decreases cs.len() - n,
{
    if n < cs.len() {
        assert(cs.take(n + 1).drop_last() =~= cs.take(n));
        lemma_range_credits_fails(cs, p, dir, rules, n + 1);
    }
}

} // verus!
