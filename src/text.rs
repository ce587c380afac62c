//! Character-level helpers over string views, with the specifications that
//! the parsers of this crate are stated in.

use vstd::prelude::*;
use vstd::string::*;

verus! {

/// Characters with the Unicode `White_Space` property: the ones that
/// `char::is_whitespace` accepts and that `str::trim` removes.
pub open spec fn is_space_spec(c: char) -> bool {
    let u = c as u32;
    (0x9 <= u && u <= 0xd) || u == 0x20 || u == 0x85 || u == 0xa0 || u == 0x1680 || (0x2000 <= u
        && u <= 0x200a) || u == 0x2028 || u == 0x2029 || u == 0x202f || u == 0x205f || u == 0x3000
}

/// Index of the first non-space character at or after `i` (or `s.len()`).
pub open spec fn skip_space(s: Seq<char>, i: int) -> int
    decreases s.len() - i,
{
    if 0 <= i < s.len() && is_space_spec(s[i]) {
        skip_space(s, i + 1)
    } else {
        i
    }
}

/// End of `s.take(j)` once trailing spaces are removed.
pub open spec fn back_space(s: Seq<char>, j: int) -> int
    decreases j,
{
    if 0 < j <= s.len() && is_space_spec(s[j - 1]) {
        back_space(s, j - 1)
    } else {
        j
    }
}

/// `s` without its leading spaces.
pub open spec fn trim_start(s: Seq<char>) -> Seq<char> {
    s.subrange(skip_space(s, 0), s.len() as int)
}

/// `s` without its leading and trailing spaces.
pub open spec fn trim(s: Seq<char>) -> Seq<char> {
    let t = trim_start(s);
    t.subrange(0, back_space(t, t.len() as int))
}

/// Index of the first `c` in `s` at or after `i`.
pub open spec fn find_from(s: Seq<char>, c: char, i: int) -> Option<int>
    decreases s.len() - i,
{
    if i < 0 || i >= s.len() {
        None
    } else if s[i] == c {
        Some(i)
    } else {
        find_from(s, c, i + 1)
    }
}

/// Index of the first `c` in `s`.
pub open spec fn find(s: Seq<char>, c: char) -> Option<int> {
    find_from(s, c, 0)
}

pub proof fn lemma_skip_space_bounds(s: Seq<char>, i: int)
    requires
        0 <= i <= s.len(),
    ensures
        i <= skip_space(s, i) <= s.len(),
        forall|k: int| i <= k < skip_space(s, i) ==> is_space_spec(#[trigger] s[k]),
        skip_space(s, i) < s.len() ==> !is_space_spec(s[skip_space(s, i)]),
    decreases s.len() - i,
{
    if i < s.len() && is_space_spec(s[i]) {
        lemma_skip_space_bounds(s, i + 1);
    }
}

pub proof fn lemma_back_space_bounds(s: Seq<char>, j: int)
    requires
        0 <= j <= s.len(),
    ensures
        0 <= back_space(s, j) <= j,
        forall|k: int| back_space(s, j) <= k < j ==> is_space_spec(#[trigger] s[k]),
        back_space(s, j) > 0 ==> !is_space_spec(s[back_space(s, j) - 1]),
    decreases j,
{
    if 0 < j && is_space_spec(s[j - 1]) {
        lemma_back_space_bounds(s, j - 1);
    }
}

pub proof fn lemma_find_from(s: Seq<char>, c: char, i: int)
    requires
        0 <= i,
    ensures
        match find_from(s, c, i) {
            Some(k) => i <= k < s.len() && s[k] == c && forall|m: int| i <= m < k ==> s[m] != c,
            None => forall|m: int| i <= m < s.len() ==> s[m] != c,
        },
    decreases s.len() - i,
{
    if i < s.len() && s[i] != c {
        lemma_find_from(s, c, i + 1);
    }
}

/// Whether `c` has the Unicode `White_Space` property.
pub fn is_space(c: char) -> (r: bool)
    ensures
        r == is_space_spec(c),
{
    let u = c as u32;
    (0x9 <= u && u <= 0xd) || u == 0x20 || u == 0x85 || u == 0xa0 || u == 0x1680 || (0x2000 <= u
        && u <= 0x200a) || u == 0x2028 || u == 0x2029 || u == 0x202f || u == 0x205f || u == 0x3000
}

/// The characters of `s`, in order.
pub fn chars_of(s: &str) -> (v: Vec<char>)
    ensures
        v@ == s@,
{
    let mut v: Vec<char> = Vec::new();
    for c in it: s.chars()
        invariant
            v@ == it.seq().take(it.index() as int),
    {
        v.push(c);
    }
    proof {
        broadcast use vstd::string::group_string_axioms;
    }
    assert(v@ =~= s@);
    v
}

} // verus!

verus! {

/// Index of the first non-space character of `v` at or after `i`.
pub fn skip_space_at(v: &Vec<char>, i: usize) -> (r: usize)
    requires
        i <= v.len(),
    ensures
        r as int == skip_space(v@, i as int),
        i <= r <= v.len(),
{
    let mut k = i;
    while k < v.len() && is_space(v[k])
        invariant
            i <= k <= v.len(),
            skip_space(v@, k as int) == skip_space(v@, i as int),
        decreases v.len() - k,
    {
        k = k + 1;
    }
    proof {
        lemma_skip_space_bounds(v@, i as int);
    }
    k
}

/// End of `v.take(j)` once its trailing spaces are removed.
pub fn back_space_at(v: &Vec<char>, j: usize) -> (r: usize)
    requires
        j <= v.len(),
    ensures
        r as int == back_space(v@, j as int),
        r <= j,
{
    let mut k = j;
    while k > 0 && is_space(v[k - 1])
        invariant
            k <= j <= v.len(),
            back_space(v@, k as int) == back_space(v@, j as int),
        decreases k,
    {
        k = k - 1;
    }
    proof {
        lemma_back_space_bounds(v@, j as int);
    }
    k
}

/// Index of the first `c` in `v` at or after `i`.
pub fn find_at(v: &Vec<char>, c: char, i: usize) -> (r: Option<usize>)
    requires
        i <= v.len(),
    ensures
        match r {
            Some(k) => find_from(v@, c, i as int) == Some(k as int) && i <= k < v.len(),
            None => find_from(v@, c, i as int) is None,
        },
{
    let mut k = i;
    while k < v.len()
        invariant
            i <= k <= v.len(),
            find_from(v@, c, k as int) == find_from(v@, c, i as int),
        decreases v.len() - k,
    {
        if v[k] == c {
            return Some(k);
        }
        k = k + 1;
    }
    None
}

/// `s` without its leading spaces.
pub fn trim_start_str<'a>(s: &'a str) -> (r: &'a str)
    ensures
        r@ == trim_start(s@),
{
    let v = chars_of(s);
    let a = skip_space_at(&v, 0);
    s.substring_char(a, v.len())
}

/// `s` without its leading and trailing spaces.
pub fn trim_str<'a>(s: &'a str) -> (r: &'a str)
    ensures
        r@ == trim(s@),
{
    let t = trim_start_str(s);
    let w = chars_of(t);
    let b = back_space_at(&w, w.len());
    t.substring_char(0, b)
}

/// Whether `s` is non-empty and begins with `c`.
pub fn starts_with_char(s: &str, c: char) -> (r: bool)
    ensures
        r == (s@.len() > 0 && s@[0] == c),
{
    let n = s.unicode_len();
    n > 0 && s.get_char(0) == c
}

} // verus!

verus! {

/// Unicode case folding of `s`, as the `unicase` crate computes it.
pub uninterp spec fn folded(s: Seq<char>) -> Seq<char>;

/// Relies on `unicase::UniCase::to_folded_case`: maps each character to its
/// Unicode case folding (ASCII lowercase for ASCII text); the result depends
/// on the characters of `s` alone.
#[verifier::external_body]
pub(crate) fn fold_case(s: &str) -> (r: String)
    ensures
        r@ == folded(s@),
{
    unicase::UniCase::new(s).to_folded_case()
}

/// Case-insensitive equality: both sides fold to the same text.
pub fn eq_ignore_case(a: &str, b: &str) -> (r: bool)
    ensures
        r == (folded(a@) == folded(b@)),
{
    let fa = fold_case(a);
    let fb = fold_case(b);
    fa == fb
}

} // verus!

verus! {

/// Whether `s` begins with `p`.
pub open spec fn has_prefix(s: Seq<char>, p: Seq<char>) -> bool {
    p.len() <= s.len() && s.take(p.len() as int) == p
}

/// Index of the first occurrence of `p` in `s` at or after `i`.
pub open spec fn find_seq_from(s: Seq<char>, p: Seq<char>, i: int) -> Option<int>
    decreases s.len() + 1 - i,
{
    if i < 0 || i + p.len() > s.len() {
        None
    } else if s.subrange(i, i + p.len()) == p {
        Some(i)
    } else {
        find_seq_from(s, p, i + 1)
    }
}

/// `s` without the leading characters equal to `c`.
pub open spec fn strip_leading(s: Seq<char>, c: char) -> Seq<char>
    decreases s.len(),
{
    if s.len() > 0 && s[0] == c {
        strip_leading(s.drop_first(), c)
    } else {
        s
    }
}

/// `s` without the trailing characters equal to `c`.
pub open spec fn strip_trailing(s: Seq<char>, c: char) -> Seq<char>
    decreases s.len(),
{
    if s.len() > 0 && s.last() == c {
        strip_trailing(s.drop_last(), c)
    } else {
        s
    }
}

/// Whether two texts are equal.
pub fn str_eq(a: &str, b: &str) -> (r: bool)
    ensures
        r == (a@ == b@),
{
    let va = chars_of(a);
    let vb = chars_of(b);
    if va.len() != vb.len() {
        return false;
    }
    let mut i: usize = 0;
    while i < va.len()
        invariant
            i <= va.len(),
            va@ == a@,
            vb@ == b@,
            va.len() == vb.len(),
            forall|j: int| 0 <= j < i ==> va@[j] == vb@[j],
        decreases va.len() - i,
    {
        if va[i] != vb[i] {
            assert(a@[i as int] != b@[i as int]);
            return false;
        }
        i = i + 1;
    }
    assert(va@ =~= vb@);
    true
}

/// Whether `v`, from index `i` on, begins with `p`.
pub fn has_prefix_at(v: &Vec<char>, i: usize, p: &Vec<char>) -> (r: bool)
    requires
        i <= v.len(),
    ensures
        r == has_prefix(v@.subrange(i as int, v.len() as int), p@),
{
    if p.len() > v.len() - i {
        return false;
    }
    let mut j: usize = 0;
    while j < p.len()
        invariant
            j <= p.len(),
            i + p.len() <= v.len(),
            forall|m: int| 0 <= m < j ==> v@[i + m] == p@[m],
        decreases p.len() - j,
    {
        if v[i + j] != p[j] {
            assert(v@.subrange(i as int, v.len() as int).take(p.len() as int)[j as int] != p@[j as int]);
            return false;
        }
        j = j + 1;
    }
    assert(v@.subrange(i as int, v.len() as int).take(p.len() as int) =~= p@);
    true
}

/// Index of the first occurrence of `p` in `v` at or after `i`.
pub fn find_seq_at(v: &Vec<char>, p: &Vec<char>, i: usize) -> (r: Option<usize>)
    requires
        i <= v.len(),
    ensures
        match r {
            Some(k) => find_seq_from(v@, p@, i as int) == Some(k as int) && k + p.len() <= v.len(),
            None => find_seq_from(v@, p@, i as int) is None,
        },
{
    let mut k = i;
    while p.len() <= v.len() - k
        invariant
            i <= k,
            k <= v.len(),
            find_seq_from(v@, p@, k as int) == find_seq_from(v@, p@, i as int),
        decreases v.len() - k,
    {
        if has_prefix_at(v, k, p) {
            assert(v@.subrange(k as int, k + p.len()) =~= v@.subrange(k as int, v.len() as int).take(
                p.len() as int,
            ));
            return Some(k);
        }
        assert(v@.subrange(k as int, k + p.len()) =~= v@.subrange(k as int, v.len() as int).take(
            p.len() as int,
        ));
        if k == v.len() {
            assert(find_seq_from(v@, p@, k + 1) is None);
            return None;
        }
        k = k + 1;
    }
    None
}

/// `s` without its leading `c` characters.
pub fn strip_leading_str<'a>(s: &'a str, c: char) -> (r: &'a str)
    ensures
        r@ == strip_leading(s@, c),
{
    let v = chars_of(s);
    let mut i: usize = 0;
    proof {
        assert(v@.subrange(0, v.len() as int) =~= v@);
    }
    while i < v.len() && v[i] == c
        invariant
            i <= v.len(),
            strip_leading(v@.subrange(i as int, v.len() as int), c) == strip_leading(v@, c),
        decreases v.len() - i,
    {
        assert(v@.subrange(i as int, v.len() as int).drop_first() =~= v@.subrange(
            i + 1,
            v.len() as int,
        ));
        i = i + 1;
    }
    proof {
        assert(v@.subrange(0, v.len() as int) =~= v@);
    }
    s.substring_char(i, v.len())
}

/// `s` without its trailing `c` characters.
pub fn strip_trailing_str<'a>(s: &'a str, c: char) -> (r: &'a str)
    ensures
        r@ == strip_trailing(s@, c),
{
    let v = chars_of(s);
    let mut j: usize = v.len();
    proof {
        assert(v@.take(v.len() as int) =~= v@);
    }
    while j > 0 && v[j - 1] == c
        invariant
            j <= v.len(),
            strip_trailing(v@.take(j as int), c) == strip_trailing(v@, c),
        decreases j,
    {
        assert(v@.take(j as int).drop_last() =~= v@.take(j - 1));
        j = j - 1;
    }
    s.substring_char(0, j)
}

} // verus!

verus! {

/// A line without the `\r` that preceded its `\n`.
pub open spec fn strip_cr(l: Seq<char>) -> Seq<char> {
    if l.len() > 0 && l.last() == '\r' {
        l.drop_last()
    } else {
        l
    }
}

/// The lines of a document, as `str::lines` splits them: at `\n` or `\r\n`,
/// with the final line ending optional.
pub open spec fn lines(s: Seq<char>) -> Seq<Seq<char>>
    decreases s.len(),
{
    if s.len() == 0 {
        Seq::empty()
    } else {
        match find(s, '\n') {
            Some(j) => if 0 <= j < s.len() {
                seq![strip_cr(s.take(j))] + lines(s.subrange(j + 1, s.len() as int))
            } else {
                Seq::empty()
            },
            None => seq![s],
        }
    }
}

pub proof fn lemma_find_suffix(s: Seq<char>, c: char, i: int)
    requires
        0 <= i <= s.len(),
    ensures
        match find_from(s, c, i) {
            Some(k) => find(s.subrange(i, s.len() as int), c) == Some(k - i),
            None => find(s.subrange(i, s.len() as int), c) is None,
        },
{
    let t = s.subrange(i, s.len() as int);
    lemma_find_from(s, c, i);
    lemma_find_from(t, c, 0);
    match find_from(s, c, i) {
        Some(k) => {
            match find(t, c) {
                Some(m) => {
                    assert(t[k - i] == c);
                    assert(s[m + i] == c);
                },
                None => {
                    assert(t[k - i] == c);
                },
            }
        },
        None => {
            match find(t, c) {
                Some(m) => {
                    assert(s[m + i] == c);
                },
                None => {},
            }
        },
    }
}

/// The lines of `s`, as `lines` splits them.
pub fn split_lines<'a>(s: &'a str) -> (r: Vec<&'a str>)
    ensures
        r@.map_values(|l: &str| l@) == lines(s@),
{
    let v = chars_of(s);
    let mut out: Vec<&'a str> = Vec::new();
    let mut pos: usize = 0;
    proof {
        assert(v@.subrange(0, v.len() as int) =~= v@);
        assert(out@.map_values(|l: &str| l@) + lines(s@) =~= lines(s@));
    }
    while pos < v.len()
        invariant
            pos <= v.len(),
            v@ == s@,
            lines(s@) == out@.map_values(|l: &str| l@) + lines(
                v@.subrange(pos as int, v.len() as int),
            ),
        decreases v.len() - pos,
    {
        let ghost rest = v@.subrange(pos as int, v.len() as int);
        proof {
            lemma_find_suffix(v@, '\n', pos as int);
        }
        let found = find_at(&v, '\n', pos);
        let end = match found {
            Some(j) => j,
            None => v.len(),
        };
        let mut stop = end;
        if found.is_some() && stop > pos && v[stop - 1] == '\r' {
            stop = stop - 1;
        }
        let line = s.substring_char(pos, stop);
        let ghost ls = lines(rest);
        proof {
            if found is Some {
                assert(line@ =~= strip_cr(rest.take(end - pos)));
                assert(v@.subrange(end + 1, v.len() as int) =~= rest.subrange(
                    end - pos + 1,
                    rest.len() as int,
                ));
                assert(ls.drop_first() =~= lines(v@.subrange(end + 1, v.len() as int)));
            } else {
                assert(line@ =~= rest);
                assert(ls.drop_first() =~= Seq::<Seq<char>>::empty());
            }
            assert(ls[0] == line@);
        }
        let ghost before = out@.map_values(|l: &str| l@);
        out.push(line);
        pos = match found {
            Some(j) => j + 1,
            None => v.len(),
        };
        proof {
            assert(out@.map_values(|l: &str| l@) =~= before.push(line@));
            if found is None {
                assert(v@.subrange(pos as int, v.len() as int) =~= Seq::<char>::empty());
            }
            assert(ls =~= seq![line@] + lines(v@.subrange(pos as int, v.len() as int)));
            assert(before + ls =~= before.push(line@) + lines(
                v@.subrange(pos as int, v.len() as int),
            ));
        }
    }
    proof {
        assert(v@.subrange(pos as int, v.len() as int) =~= Seq::<char>::empty());
        assert(out@.map_values(|l: &str| l@) + Seq::<Seq<char>>::empty() =~= out@.map_values(
            |l: &str| l@,
        ));
    }
    out
}

} // verus!
