//! Character-level helpers shared by the parser and the reducers.

use vstd::prelude::*;
use vstd::string::StrSliceExecFns;

verus! {

/// True when `needle` occurs as a contiguous run inside `hay`.
pub open spec fn is_substring_of(needle: Seq<char>, hay: Seq<char>) -> bool {
    exists|i: int|
        0 <= i <= hay.len() - needle.len() && #[trigger] hay.subrange(i, i + needle.len() as int)
            == needle
}

/// The characters of `s`, in order.
pub fn chars_of(s: &str) -> (r: Vec<char>)
    ensures
        r@ == s@,
{
    let n = s.unicode_len();
    let mut r: Vec<char> = Vec::new();
    let mut i: usize = 0;
    while i < n
        invariant
            n == s@.len(),
            i <= n,
            r@ == s@.subrange(0, i as int),
        decreases n - i,
    {
        r.push(s.get_char(i));
        proof {
            assert(r@ =~= s@.subrange(0, i + 1));
        }
        i += 1;
    }
    proof {
        assert(s@.subrange(0, n as int) =~= s@);
    }
    r
}

/// Whether `needle` matches `hay` starting at position `i`.
fn matches_at(hay: &Vec<char>, needle: &Vec<char>, i: usize) -> (r: bool)
    requires
        i + needle@.len() <= hay@.len(),
    ensures
        r == (hay@.subrange(i as int, i + needle@.len() as int) == needle@),
{
    proof {
        vstd::std_specs::vec::axiom_spec_len(hay);
    }
    let mut j: usize = 0;
    while j < needle.len()
        invariant
            i + needle@.len() <= hay@.len(),
            hay@.len() <= usize::MAX,
            j <= needle@.len(),
            forall|k: int| 0 <= k < j ==> hay@[i + k] == needle@[k],
        decreases needle@.len() - j,
    {
        proof {
            assert(i + j < hay@.len());
        }
        if hay[i + j] != needle[j] {
            proof {
                let sub = hay@.subrange(i as int, i + needle@.len() as int);
                assert(sub[j as int] != needle@[j as int]);
            }
            return false;
        }
        j += 1;
    }
    proof {
        assert(hay@.subrange(i as int, i + needle@.len() as int) =~= needle@);
    }
    true
}

/// Substring search, exact against `is_substring_of`.
pub fn contains_chars(hay: &Vec<char>, needle: &Vec<char>) -> (r: bool)
    ensures
        r == is_substring_of(needle@, hay@),
{
    if needle.len() > hay.len() {
        return false;
    }
    if needle.len() == 0 {
        proof {
            assert(hay@.subrange(0, 0 + needle@.len() as int) =~= needle@);
        }
        return true;
    }
    let last = hay.len() - needle.len();
    let mut i: usize = 0;
    while i <= last
        invariant
            1 <= needle@.len() <= hay@.len(),
            hay@.len() <= usize::MAX,
            last == hay@.len() - needle@.len(),
            i <= last + 1,
            forall|k: int|
                0 <= k < i ==> #[trigger] hay@.subrange(k, k + needle@.len() as int) != needle@,
        decreases last + 1 - i,
    {
        if matches_at(hay, needle, i) {
            return true;
        }
        i += 1;
    }
    false
}

/// Substring search on string slices.
pub fn contains_str(hay: &str, needle: &str) -> (r: bool)
    ensures
        r == is_substring_of(needle@, hay@),
{
    let h = chars_of(hay);
    let n = chars_of(needle);
    contains_chars(&h, &n)
}

/// ASCII whitespace, as the statement splitter and parsers treat it.
pub open spec fn is_ws(c: char) -> bool {
    c == ' ' || c == '\t' || c == '\n' || c == '\r'
}

/// A word character: letters, digits or underscore.
pub open spec fn is_word_char_spec(c: char) -> bool {
    ('a' <= c && c <= 'z') || ('A' <= c && c <= 'Z') || ('0' <= c && c <= '9') || c == '_'
}

/// Exec test for [`is_ws`].
pub fn is_ws_char(c: char) -> (r: bool)
    ensures
        r == is_ws(c),
{
    c == ' ' || c == '\t' || c == '\n' || c == '\r'
}

/// Exec test for [`is_word_char_spec`].
pub fn is_word_char(c: char) -> (r: bool)
    ensures
        r == is_word_char_spec(c),
{
    ('a' <= c && c <= 'z') || ('A' <= c && c <= 'Z') || ('0' <= c && c <= '9') || c == '_'
}

/// Case-insensitive match of one text character against an upper-case
/// keyword character.
pub open spec fn upper_eq(c: char, k: char) -> bool {
    c == k || ('A' <= k && k <= 'Z' && c as int == k as int + 32)
}

/// Exec test for [`upper_eq`].
pub fn upper_eq_char(c: char, k: char) -> (r: bool)
    ensures
        r == upper_eq(c, k),
{
    if c == k {
        true
    } else if 'A' <= k && k <= 'Z' {
        (c as u32) == (k as u32) + 32
    } else {
        false
    }
}

/// The characters of `cs`, collected into a string.
///
/// Relies on `String`'s `FromIterator` over `char`: collecting characters
/// yields a string holding exactly those characters in order.
#[verifier::external_body]
pub fn string_from_chars(cs: &Vec<char>) -> (r: String)
    ensures
        r@ == cs@,
{
    cs.iter().collect()
}

/// The substring `[a, b)` of a character vector, as a string.
pub fn substring_chars(cs: &Vec<char>, a: usize, b: usize) -> (r: String)
    requires
        a <= b <= cs@.len(),
    ensures
        r@ == cs@.subrange(a as int, b as int),
{
    let mut piece: Vec<char> = Vec::new();
    let mut p = a;
    while p < b
        invariant
            a <= p <= b <= cs@.len(),
            piece@ == cs@.subrange(a as int, p as int),
        decreases b - p,
    {
        piece.push(cs[p]);
        proof {
            assert(piece@ =~= cs@.subrange(a as int, p + 1));
        }
        p += 1;
    }
    string_from_chars(&piece)
}

/// Exact string equality.
pub fn str_eq(a: &str, b: &str) -> (r: bool)
    ensures
        r == (a@ == b@),
{
    let va = chars_of(a);
    let vb = chars_of(b);
    if va.len() != vb.len() {
        return false;
    }
    let mut i: usize = 0;
    while i < va.len()
        invariant
            va@ == a@,
            vb@ == b@,
            va@.len() == vb@.len(),
            i <= va@.len(),
            forall|k: int| 0 <= k < i ==> va@[k] == vb@[k],
        decreases va@.len() - i,
    {
        if va[i] != vb[i] {
            return false;
        }
        i += 1;
    }
    proof {
        assert(a@ =~= b@);
    }
    true
}

/// How many times `c` occurs in `s`.
pub open spec fn count_char(s: Seq<char>, c: char) -> int
    decreases s.len(),
{
    if s.len() == 0 {
        0
    } else {
        count_char(s.drop_last(), c) + if s.last() == c {
            1int
        } else {
            0int
        }
    }
}

/// Occurrences in a sequence split anywhere add up.
pub proof fn lemma_count_split(s: Seq<char>, c: char, k: int)
    requires
        0 <= k <= s.len(),
    ensures
        count_char(s, c) == count_char(s.subrange(0, k), c) + count_char(
            s.subrange(k, s.len() as int),
            c,
        ),
    decreases s.len(),
{
    if k == s.len() {
        assert(s.subrange(0, k) =~= s);
        assert(s.subrange(k, s.len() as int) =~= Seq::<char>::empty());
    } else {
        let pre = s.drop_last();
        lemma_count_split(pre, c, k);
        assert(pre.subrange(0, k) =~= s.subrange(0, k));
        assert(s.subrange(k, s.len() as int).drop_last() =~= pre.subrange(k, pre.len() as int));
        assert(s.subrange(k, s.len() as int).last() == s.last());
    }
}

/// Occurrences in a concatenation add up.
pub proof fn lemma_count_concat(a: Seq<char>, b: Seq<char>, c: char)
    ensures
        count_char(a + b, c) == count_char(a, c) + count_char(b, c),
{
    lemma_count_split(a + b, c, a.len() as int);
    assert((a + b).subrange(0, a.len() as int) =~= a);
    assert((a + b).subrange(a.len() as int, (a + b).len() as int) =~= b);
}

/// Whether `c` is one of the two parenthesis characters.
pub open spec fn is_paren(c: char) -> bool {
    c == '(' || c == ')'
}

/// The first parenthesis character found scanning forward, if any.
pub open spec fn first_paren_chars(s: Seq<char>) -> Option<char>
    decreases s.len(),
{
    if s.len() == 0 {
        None
    } else if is_paren(s[0]) {
        Some(s[0])
    } else {
        first_paren_chars(s.drop_first())
    }
}

/// The first parenthesis character found scanning backward, if any.
pub open spec fn last_paren_chars(s: Seq<char>) -> Option<char>
    decreases s.len(),
{
    if s.len() == 0 {
        None
    } else if is_paren(s.last()) {
        Some(s.last())
    } else {
        last_paren_chars(s.drop_last())
    }
}

/// Forward scanning looks at the left part first.
pub proof fn lemma_first_paren_concat(a: Seq<char>, b: Seq<char>)
    ensures
        first_paren_chars(a + b) == match first_paren_chars(a) {
            Some(c) => Some(c),
            None => first_paren_chars(b),
        },
    decreases a.len(),
{
    if a.len() == 0 {
        assert(a + b =~= b);
    } else {
        assert((a + b)[0] == a[0]);
        if !is_paren(a[0]) {
            assert((a + b).drop_first() =~= a.drop_first() + b);
            lemma_first_paren_concat(a.drop_first(), b);
        }
    }
}

/// Backward scanning looks at the right part first.
pub proof fn lemma_last_paren_concat(a: Seq<char>, b: Seq<char>)
    ensures
        last_paren_chars(a + b) == match last_paren_chars(b) {
            Some(c) => Some(c),
            None => last_paren_chars(a),
        },
    decreases b.len(),
{
    if b.len() == 0 {
        assert(a + b =~= a);
    } else {
        assert((a + b).last() == b.last());
        if !is_paren(b.last()) {
            assert((a + b).drop_last() =~= a + b.drop_last());
            lemma_last_paren_concat(a, b.drop_last());
        }
    }
}

/// The count of a one-character sequence.
pub proof fn lemma_count_singleton(c: char, d: char)
    ensures
        count_char(seq![c], d) == if c == d {
            1int
        } else {
            0int
        },
{
    let s = seq![c];
    assert(s.len() == 1);
    assert(s.last() == c);
    assert(s.drop_last() =~= Seq::<char>::empty());
    assert(count_char(s.drop_last(), d) == 0);
}

/// A sequence without parenthesis characters counts none of either.
proof fn lemma_no_paren_count(s: Seq<char>)
    requires
        forall|j: int| 0 <= j < s.len() ==> !is_paren(#[trigger] s[j]),
    ensures
        count_char(s, '(') == 0,
        count_char(s, ')') == 0,
    decreases s.len(),
{
    if s.len() > 0 {
        lemma_no_paren_count(s.drop_last());
    }
}

/// A found first parenthesis has a position, with no parenthesis before it.
pub proof fn lemma_first_paren_index(s: Seq<char>, c: char)
    requires
        first_paren_chars(s) == Some(c),
    ensures
        exists|k: int|
            0 <= k < s.len() && s[k] == c && is_paren(c) && forall|j: int|
                0 <= j < k ==> !is_paren(#[trigger] s[j]),
    decreases s.len(),
{
    if is_paren(s[0]) {
        assert(s[0] == c && forall|j: int| 0 <= j < 0 ==> !is_paren(#[trigger] s[j]));
    } else {
        lemma_first_paren_index(s.drop_first(), c);
        let k = choose|k: int|
            0 <= k < s.drop_first().len() && s.drop_first()[k] == c && is_paren(c) && forall|
                j: int,
            |
                0 <= j < k ==> !is_paren(#[trigger] s.drop_first()[j]);
        assert(s[k + 1] == c && forall|j: int| 0 <= j < k + 1 ==> !is_paren(#[trigger] s[j])) by {
            assert(forall|j: int| 1 <= j < k + 1 ==> s[j] == s.drop_first()[j - 1]);
        }
    }
}

/// A found last parenthesis has a position, with no parenthesis after it.
pub proof fn lemma_last_paren_index(s: Seq<char>, c: char)
    requires
        last_paren_chars(s) == Some(c),
    ensures
        exists|k: int|
            0 <= k < s.len() && s[k] == c && is_paren(c) && forall|j: int|
                k < j < s.len() ==> !is_paren(#[trigger] s[j]),
    decreases s.len(),
{
    if is_paren(s.last()) {
        assert(s[s.len() - 1] == c);
    } else {
        lemma_last_paren_index(s.drop_last(), c);
        let k = choose|k: int|
            0 <= k < s.drop_last().len() && s.drop_last()[k] == c && is_paren(c) && forall|j: int|
                k < j < s.drop_last().len() ==> !is_paren(#[trigger] s.drop_last()[j]);
        assert(s[k] == c && forall|j: int| k < j < s.len() ==> !is_paren(#[trigger] s[j])) by {
            assert(forall|j: int| k < j < s.len() - 1 ==> s[j] == s.drop_last()[j]);
            assert(is_paren(s[s.len() - 1]) == false);
        }
    }
}

/// With no parenthesis anywhere, forward scanning finds nothing.
pub proof fn lemma_first_paren_none(s: Seq<char>)
    requires
        forall|j: int| 0 <= j < s.len() ==> !is_paren(#[trigger] s[j]),
    ensures
        first_paren_chars(s) == None::<char>,
    decreases s.len(),
{
    if s.len() > 0 {
        assert(forall|j: int|
            0 <= j < s.drop_first().len() ==> !is_paren(#[trigger] s.drop_first()[j]));
        lemma_first_paren_none(s.drop_first());
    }
}

/// Forward scanning finds the parenthesis at the earliest position.
pub proof fn lemma_first_paren_found(s: Seq<char>, k: int)
    requires
        0 <= k < s.len(),
        is_paren(s[k]),
        forall|j: int| 0 <= j < k ==> !is_paren(#[trigger] s[j]),
    ensures
        first_paren_chars(s) == Some(s[k]),
    decreases s.len(),
{
    if k > 0 {
        assert(forall|j: int| 0 <= j < k - 1 ==> s.drop_first()[j] == s[j + 1]);
        lemma_first_paren_found(s.drop_first(), k - 1);
    }
}

/// With no parenthesis anywhere, backward scanning finds nothing.
pub proof fn lemma_last_paren_none(s: Seq<char>)
    requires
        forall|j: int| 0 <= j < s.len() ==> !is_paren(#[trigger] s[j]),
    ensures
        last_paren_chars(s) == None::<char>,
    decreases s.len(),
{
    if s.len() > 0 {
        assert(forall|j: int|
            0 <= j < s.drop_last().len() ==> !is_paren(#[trigger] s.drop_last()[j]));
        lemma_last_paren_none(s.drop_last());
    }
}

/// Backward scanning finds the parenthesis at the latest position.
pub proof fn lemma_last_paren_found(s: Seq<char>, k: int)
    requires
        0 <= k < s.len(),
        is_paren(s[k]),
        forall|j: int| k < j < s.len() ==> !is_paren(#[trigger] s[j]),
    ensures
        last_paren_chars(s) == Some(s[k]),
    decreases s.len(),
{
    if k < s.len() - 1 {
        assert(forall|j: int| k < j < s.drop_last().len() ==> s.drop_last()[j] == s[j]);
        lemma_last_paren_found(s.drop_last(), k);
    }
}

/// If any parenthesis occurs, forward scanning finds one.
pub proof fn lemma_has_paren_first_some(s: Seq<char>, k: int)
    requires
        0 <= k < s.len(),
        is_paren(s[k]),
    ensures
        first_paren_chars(s) is Some,
    decreases s.len(),
{
    if !is_paren(s[0]) {
        assert(s.drop_first()[k - 1] == s[k]);
        lemma_has_paren_first_some(s.drop_first(), k - 1);
    }
}

/// If any parenthesis occurs, backward scanning finds one.
pub proof fn lemma_has_paren_last_some(s: Seq<char>, k: int)
    requires
        0 <= k < s.len(),
        is_paren(s[k]),
    ensures
        last_paren_chars(s) is Some,
    decreases s.len(),
{
    if !is_paren(s.last()) {
        assert(s.drop_last()[k] == s[k]);
        lemma_has_paren_last_some(s.drop_last(), k);
    }
}

/// Well-nested parenthesis text: equally many `(` and `)`, and no prefix
/// closes more than it has opened.
pub open spec fn well_nested(s: Seq<char>) -> bool {
    &&& count_char(s, '(') == count_char(s, ')')
    &&& forall|k: int|
        0 <= k <= s.len() ==> count_char(#[trigger] s.subrange(0, k), '(') >= count_char(
            s.subrange(0, k),
            ')',
        )
}

/// In well-nested text the first parenthesis seen scanning forward is never
/// `)`, and the first seen scanning backward is never `(`.
pub proof fn lemma_well_nested_ends(s: Seq<char>)
    requires
        well_nested(s),
    ensures
        first_paren_chars(s) != Some(')'),
        last_paren_chars(s) != Some('('),
{
    if first_paren_chars(s) == Some(')') {
        lemma_first_paren_index(s, ')');
        let k = choose|k: int|
            0 <= k < s.len() && s[k] == ')' && forall|j: int|
                0 <= j < k ==> !is_paren(#[trigger] s[j]);
        let pre = s.subrange(0, k);
        let pre1 = s.subrange(0, k + 1);
        assert(forall|j: int| 0 <= j < pre.len() ==> !is_paren(#[trigger] pre[j]));
        lemma_no_paren_count(pre);
        assert(pre1.drop_last() =~= pre);
        assert(pre1.last() == ')');
        assert(count_char(pre1, '(') == 0);
        assert(count_char(pre1, ')') == 1);
    }
    if last_paren_chars(s) == Some('(') {
        lemma_last_paren_index(s, '(');
        let k = choose|k: int|
            0 <= k < s.len() && s[k] == '(' && forall|j: int|
                k < j < s.len() ==> !is_paren(#[trigger] s[j]);
        let suf = s.subrange(k, s.len() as int);
        let post = s.subrange(k + 1, s.len() as int);
        assert(forall|j: int| 0 <= j < post.len() ==> !is_paren(#[trigger] post[j]));
        lemma_no_paren_count(post);
        lemma_count_split(s, '(', k);
        lemma_count_split(s, ')', k);
        lemma_count_split(suf, '(', 1);
        lemma_count_split(suf, ')', 1);
        assert(suf.subrange(1, suf.len() as int) =~= post);
        assert(suf.subrange(0, 1) =~= seq![s[k]]);
        lemma_count_singleton(s[k], '(');
        lemma_count_singleton(s[k], ')');
        assert(count_char(suf, '(') == 1);
        assert(count_char(suf, ')') == 0);
        assert(count_char(s.subrange(0, k), ')') == count_char(s.subrange(0, k), '(') + 1);
    }
}

} // verus!
