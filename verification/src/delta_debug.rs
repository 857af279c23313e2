//! Statement-granularity delta debugging.
//!
//! The classical ddmin loop: split the candidate list into `granularity`
//! nearly equal chunks, test each chunk and its complement against the
//! oracle, keep whichever still reproduces, adapt the granularity, and on
//! convergence sweep out single elements until the result is 1-minimal.

use crate::oracle::Oracle;
use crate::oracle::OracleError;
use crate::utils::copy_strings;
use crate::utils::lemma_script_of_strings;
use crate::utils::script_of;
use crate::utils::vec_statement_to_string;
use vstd::arithmetic::div_mod::lemma_div_decreases;
use vstd::arithmetic::div_mod::lemma_div_pos_is_pos;
use vstd::arithmetic::div_mod::lemma_fundamental_div_mod;
use vstd::arithmetic::div_mod::lemma_mod_division_less_than_divisor;
use vstd::arithmetic::div_mod::lemma_remainder_lower;
use vstd::prelude::*;

verus! {

/// Items a reducer can split, compare and copy.  Identity is the item's
/// deep view; both methods are exact with respect to it.
pub trait Elem: DeepView + Sized {
    /// Whether the two items carry the same value.
    fn same(&self, other: &Self) -> (r: bool)
        ensures
            r == (self.deep_view() == other.deep_view()),
    ;

    /// A copy of the item.
    fn duplicate(&self) -> (r: Self)
        ensures
            r.deep_view() == self.deep_view(),
    ;
}

impl Elem for String {
    fn same(&self, other: &Self) -> (r: bool) {
        *self == *other
    }

    fn duplicate(&self) -> (r: Self) {
        self.clone()
    }
}

impl Elem for u64 {
    fn same(&self, other: &Self) -> (r: bool) {
        *self == *other
    }

    fn duplicate(&self) -> (r: Self) {
        *self
    }
}

/// Whether `items` holds a value equal to `x`.
pub fn contains_elem<T: Elem>(items: &Vec<T>, x: &T) -> (r: bool)
    ensures
        r == items.deep_view().contains(x.deep_view()),
{
    let mut i: usize = 0;
    while i < items.len()
        invariant
            i <= items@.len(),
            forall|k: int| 0 <= k < i ==> items.deep_view()[k] != x.deep_view(),
        decreases items@.len() - i,
    {
        if items[i].same(x) {
            proof {
                assert(items.deep_view()[i as int] == x.deep_view());
            }
            return true;
        }
        i += 1;
    }
    proof {
        assert(forall|k: int|
            0 <= k < items.deep_view().len() ==> items.deep_view()[k] != x.deep_view());
    }
    false
}

/// The size of chunk `i` when a sequence of length `len` is split into `n`
/// nearly equal chunks: the first `len % n` chunks get one extra element.
pub open spec fn chunk_len(len: int, n: int, i: int) -> int {
    len / n + if i < len % n {
        1int
    } else {
        0int
    }
}

/// The total size of the chunks before chunk `i`.
pub open spec fn chunks_before(len: int, n: int, i: int) -> int
    decreases i,
{
    if i <= 0 {
        0
    } else {
        chunks_before(len, n, i - 1) + chunk_len(len, n, i - 1)
    }
}

/// Closed form of `chunks_before`.
proof fn lemma_chunks_before(len: int, n: int, i: int)
    requires
        0 <= len,
        1 <= n,
        0 <= i <= n,
    ensures
        chunks_before(len, n, i) == i * (len / n) + if i <= len % n {
            i
        } else {
            len % n
        },
    decreases i,
{
    lemma_fundamental_div_mod(len, n);
    lemma_mod_division_less_than_divisor(len, n);
    lemma_div_pos_is_pos(len, n);
    if i == 0 {
        assert(0 * (len / n) == 0) by (nonlinear_arith);
    } else {
        lemma_chunks_before(len, n, i - 1);
        assert(i * (len / n) == (i - 1) * (len / n) + len / n) by (nonlinear_arith);
    }
}

/// The `n` chunks of a split cover `len` exactly.
proof fn lemma_chunks_total(len: int, n: int)
    requires
        0 <= len,
        1 <= n,
    ensures
        chunks_before(len, n, n) == len,
{
    lemma_chunks_before(len, n, n);
    lemma_fundamental_div_mod(len, n);
    lemma_mod_division_less_than_divisor(len, n);
    assert(n * (len / n) == (len / n) * n) by (nonlinear_arith);
}

/// Every chunk of a split into at least two chunks is strictly smaller than
/// the whole.
proof fn lemma_chunk_is_smaller(len: int, n: int, i: int)
    requires
        2 <= n <= len,
        0 <= i,
    ensures
        1 <= chunk_len(len, n, i) < len,
{
    lemma_fundamental_div_mod(len, n);
    lemma_mod_division_less_than_divisor(len, n);
    lemma_div_pos_is_pos(len, n);
    lemma_remainder_lower(len, n);
    lemma_div_decreases(len, n);
    vstd::arithmetic::div_mod::lemma_div_is_ordered(n, len, n);
    vstd::arithmetic::div_mod::lemma_div_by_self(n);
    let base = len / n;
    let rem = len % n;
    assert(base >= 1);
    if i < rem {
        // chunk is base + 1; were base + 1 >= len, then len = n * base + rem
        // would exceed len, since n >= 2 and rem >= 1.
        if base + 1 >= len {
            assert(n * base >= 2 * base) by (nonlinear_arith)
                requires
                    n >= 2,
                    base >= 0,
            ;
            assert(false);
        }
    } else {
        assert(base < len);
    }
}

/// Split `tests` into `n` contiguous, nearly equal chunks: exactly `n`
/// parts, whose concatenation in order is `tests`, where the first
/// `len % n` parts hold one element more than the rest.
pub fn split_tests<T: Elem>(tests: &Vec<T>, n: usize) -> (parts: Vec<Vec<T>>)
    requires
        1 <= n,
    ensures
        parts.deep_view().len() == n,
        parts.deep_view().flatten() == tests.deep_view(),
        forall|i: int|
            0 <= i < n ==> (#[trigger] parts.deep_view()[i]).len() == chunk_len(
                tests@.len() as int,
                n as int,
                i,
            ),
        forall|i: int, j: int|
            0 <= i < n && 0 <= j < parts.deep_view()[i].len() ==> tests.deep_view().contains(
                #[trigger] parts.deep_view()[i][j],
            ),
{
    let ghost glen = tests@.len() as int;
    let ghost gn = n as int;
    proof {
        lemma_chunks_total(glen, gn);
    }
    let len = tests.len();
    let rem = len % n;
    let base = len / n;
    let mut parts: Vec<Vec<T>> = Vec::new();
    let mut start: usize = 0;
    let mut i: usize = 0;
    while i < n
        invariant
            1 <= gn,
            glen == tests@.len(),
            gn == n,
            rem == glen % gn,
            base == glen / gn,
            i <= n,
            start == chunks_before(glen, gn, i as int),
            start <= len,
            len == tests@.len(),
            parts.deep_view().len() == i,
            parts.deep_view().flatten() == tests.deep_view().subrange(0, start as int),
            forall|k: int|
                0 <= k < i ==> (#[trigger] parts.deep_view()[k]).len() == chunk_len(
                    glen,
                    gn,
                    k,
                ),
            forall|k: int, j: int|
                0 <= k < i && 0 <= j < parts.deep_view()[k].len() ==> tests.deep_view().contains(
                    #[trigger] parts.deep_view()[k][j],
                ),
        decreases n - i,
    {
        proof {
            lemma_chunks_before(glen, gn, i as int);
            lemma_chunks_before(glen, gn, i + 1);
            lemma_chunks_total(glen, gn);
            lemma_fundamental_div_mod(glen, gn);
            lemma_mod_division_less_than_divisor(glen, gn);
            lemma_div_pos_is_pos(glen, gn);
            assert(glen % gn >= 1 ==> glen / gn + 1 <= glen) by {
                assert(gn * (glen / gn) >= glen / gn) by (nonlinear_arith)
                    requires
                        gn >= 1,
                        glen / gn >= 0,
                ;
            }
        }
        let size = if i < rem {
            base + 1
        } else {
            base
        };
        proof {
            assert(start + size == chunks_before(glen, gn, i + 1));
            assert(chunks_before(glen, gn, i + 1) <= glen) by {
                lemma_chunks_before(glen, gn, i + 1);
                if i + 1 <= glen % gn {
                    assert((i + 1) * (glen / gn) + (i + 1) <= gn * (glen / gn) + glen % gn)
                        by (nonlinear_arith)
                        requires
                            0 <= i + 1 <= gn,
                            0 <= glen / gn,
                            i + 1 <= glen % gn,
                    ;
                } else {
                    assert((i + 1) * (glen / gn) + glen % gn <= gn * (glen / gn) + glen % gn)
                        by (nonlinear_arith)
                        requires
                            0 <= i + 1 <= gn,
                            0 <= glen / gn,
                    ;
                }
            }
        }
        let mut part: Vec<T> = Vec::new();
        let mut j: usize = 0;
        while j < size
            invariant
                j <= size,
                len == tests@.len(),
                start + size <= tests@.len(),
                part.deep_view() == tests.deep_view().subrange(
                    start as int,
                    start as int + j as int,
                ),
                forall|q: int|
                    0 <= q < part.deep_view().len() ==> tests.deep_view().contains(
                        #[trigger] part.deep_view()[q],
                    ),
            decreases size - j,
        {
            let item = tests[start + j].duplicate();
            part.push(item);
            proof {
                assert(part.deep_view() =~= tests.deep_view().subrange(
                    start as int,
                    start as int + j as int,
                ).push(tests.deep_view()[start as int + j as int]));
                assert(part.deep_view() =~= tests.deep_view().subrange(
                    start as int,
                    start as int + (j + 1) as int,
                ));
            }
            j += 1;
        }
        let ghost prev_parts = parts.deep_view();
        parts.push(part);
        proof {
            assert(parts.deep_view() =~= prev_parts.push(part.deep_view()));
            prev_parts.lemma_flatten_push(part.deep_view());
            assert(prev_parts.flatten() + part.deep_view() =~= tests.deep_view().subrange(
                0,
                (start + size) as int,
            ));
        }
        start += size;
        i += 1;
    }
    proof {
        assert(tests.deep_view().subrange(0, start as int) =~= tests.deep_view());
    }
    parts
}

/// Everything in `data` that does not occur in `delta`, in order.
/// Duplicate-valued items are compared by value, so every copy of a value
/// present in `delta` is excluded.
pub fn get_nabla<T: Elem>(data: &Vec<T>, delta: &Vec<T>) -> (r: Vec<T>)
    ensures
        r.deep_view() == data.deep_view().filter(
            |x: T::V| !delta.deep_view().contains(x),
        ),
        is_subseq_of(r.deep_view(), data.deep_view()),
{
    let ghost pred = |x: T::V| !delta.deep_view().contains(x);
    let mut out: Vec<T> = Vec::new();
    let mut i: usize = 0;
    while i < data.len()
        invariant
            i <= data@.len(),
            out.deep_view() == data.deep_view().subrange(0, i as int).filter(pred),
            pred == (|x: T::V| !delta.deep_view().contains(x)),
        decreases data@.len() - i,
    {
        let ghost prefix = data.deep_view().subrange(0, i as int);
        let ghost next = data.deep_view().subrange(0, i + 1);
        proof {
            reveal(Seq::filter);
            assert(next.drop_last() =~= prefix);
            assert(next.last() == data.deep_view()[i as int]);
        }
        if !contains_elem(delta, &data[i]) {
            let item = data[i].duplicate();
            out.push(item);
            proof {
                assert(out.deep_view() =~= prefix.filter(pred).push(data.deep_view()[i as int]));
            }
        }
        i += 1;
    }
    proof {
        assert(data.deep_view().subrange(0, data@.len() as int) =~= data.deep_view());
        lemma_subseq_filter(data.deep_view(), pred);
    }
    out
}

/// Chunk sizes differ by at most one.
pub proof fn lemma_chunk_sizes_near(len: int, n: int, i: int, j: int)
    ensures
        chunk_len(len, n, i) - chunk_len(len, n, j) <= 1,
        chunk_len(len, n, j) - chunk_len(len, n, i) <= 1,
{
}

/// Every chunk of a split into at least one chunk is non-empty.
pub proof fn lemma_chunk_covers(len: int, n: int, i: int)
    requires
        1 <= n <= len,
        0 <= i,
    ensures
        chunk_len(len, n, i) >= 1,
{
    lemma_div_pos_is_pos(len, n);
    vstd::arithmetic::div_mod::lemma_div_is_ordered(n, len, n);
    vstd::arithmetic::div_mod::lemma_div_by_self(n);
    lemma_mod_division_less_than_divisor(len, n);
}

/// A member of a filtered sequence is a member of the original and
/// satisfies the predicate.
pub proof fn lemma_filter_member<V>(s: Seq<V>, pred: spec_fn(V) -> bool, x: V)
    requires
        s.filter(pred).contains(x),
    ensures
        s.contains(x),
        pred(x),
    decreases s.len(),
{
    reveal(Seq::filter);
    if s.len() > 0 {
        let sub = s.drop_last();
        if pred(s.last()) && x == s.last() {
            assert(s[s.len() - 1] == x);
        } else {
            lemma_filter_member(sub, pred, x);
            let i = choose|i: int| 0 <= i < sub.len() && sub[i] == x;
            assert(s[i] == x);
        }
    }
}

/// Filtering preserves freedom from duplicates.
pub proof fn lemma_filter_no_dup<V>(s: Seq<V>, pred: spec_fn(V) -> bool)
    requires
        s.no_duplicates(),
    ensures
        s.filter(pred).no_duplicates(),
    decreases s.len(),
{
    reveal(Seq::filter);
    if s.len() > 0 {
        let sub = s.drop_last();
        assert(sub.no_duplicates());
        lemma_filter_no_dup(sub, pred);
        if pred(s.last()) {
            assert(!sub.contains(s.last())) by {
                if sub.contains(s.last()) {
                    let i = choose|i: int| 0 <= i < sub.len() && sub[i] == s.last();
                    assert(s[i] == s[s.len() - 1]);
                }
            }
            if sub.filter(pred).contains(s.last()) {
                lemma_filter_member(sub, pred, s.last());
            }
            assert(s.filter(pred) == sub.filter(pred).push(s.last()));
        }
    }
}

/// Filtering out at least one occurring element makes the sequence strictly
/// shorter.
proof fn lemma_filter_excludes<V>(s: Seq<V>, pred: spec_fn(V) -> bool, x: V)
    requires
        s.contains(x),
        !pred(x),
    ensures
        s.filter(pred).len() < s.len(),
    decreases s.len(),
{
    reveal(Seq::filter);
    let sub = s.drop_last();
    if x == s.last() {
        assert(s.filter(pred) == sub.filter(pred));
        sub.lemma_filter_len(pred);
    } else {
        let i = choose|i: int| 0 <= i < s.len() && s[i] == x;
        assert(sub[i] == x);
        lemma_filter_excludes(sub, pred, x);
    }
}

/// The complement law: on duplicate-free data, a chosen duplicate-free part
/// of it and its complement (everything in the data that is not in the
/// part) together are a permutation of the data.
pub proof fn lemma_nabla_complement<V>(data: Seq<V>, delta: Seq<V>)
    requires
        data.no_duplicates(),
        delta.no_duplicates(),
        forall|x: V| delta.contains(x) ==> data.contains(x),
    ensures
        (delta + data.filter(|x: V| !delta.contains(x))).to_multiset() == data.to_multiset(),
{
    broadcast use vstd::seq_lib::group_to_multiset_ensures;
    broadcast use vstd::seq_lib::lemma_multiset_commutative;
    broadcast use Seq::lemma_filter_contains;

    let pred = |x: V| !delta.contains(x);
    let nabla = data.filter(pred);
    lemma_filter_no_dup(data, pred);
    data.lemma_multiset_has_no_duplicates();
    delta.lemma_multiset_has_no_duplicates();
    nabla.lemma_multiset_has_no_duplicates();
    assert forall|x: V| #[trigger] (delta + nabla).to_multiset().count(x)
        == data.to_multiset().count(x) by {
        assert((delta + nabla).to_multiset().count(x) == delta.to_multiset().count(x)
            + nabla.to_multiset().count(x));
        if delta.contains(x) {
            assert(data.contains(x));
            if nabla.contains(x) {
                lemma_filter_member(data, pred, x);
            }
        } else if data.contains(x) {
            let i = choose|i: int| 0 <= i < data.len() && data[i] == x;
            assert(data.filter(pred).contains(data[i]));
        } else {
            if nabla.contains(x) {
                lemma_filter_member(data, pred, x);
            }
        }
    }
    assert((delta + nabla).to_multiset() =~= data.to_multiset());
}

/// Whether `a` is a subsequence of `b`: every element of `a` occurs in
/// `b`, in the same relative order.
pub open spec fn is_subseq_of<V>(a: Seq<V>, b: Seq<V>) -> bool
    decreases a.len() + b.len(),
{
    if a.len() == 0 {
        true
    } else if b.len() == 0 {
        false
    } else if a.last() == b.last() {
        is_subseq_of(a.drop_last(), b.drop_last())
    } else {
        is_subseq_of(a, b.drop_last())
    }
}

/// Every sequence is a subsequence of itself.
pub proof fn lemma_subseq_refl<V>(a: Seq<V>)
    ensures
        is_subseq_of(a, a),
    decreases a.len(),
{
    if a.len() > 0 {
        lemma_subseq_refl(a.drop_last());
    }
}

/// A subsequence of a prefix is a subsequence of the whole.
pub proof fn lemma_subseq_grow<V>(a: Seq<V>, b: Seq<V>)
    requires
        b.len() > 0,
        is_subseq_of(a, b.drop_last()),
    ensures
        is_subseq_of(a, b),
    decreases a.len() + b.len(),
{
    if a.len() > 0 {
        if a.last() == b.last() {
            lemma_subseq_shrink(a, b.drop_last());
        }
    }
}

/// Dropping the last element of a subsequence keeps it a subsequence.
pub proof fn lemma_subseq_shrink<V>(a: Seq<V>, b: Seq<V>)
    requires
        a.len() > 0,
        is_subseq_of(a, b),
    ensures
        is_subseq_of(a.drop_last(), b),
    decreases a.len() + b.len(),
{
    if a.last() == b.last() {
        if a.drop_last().len() > 0 {
            lemma_subseq_grow(a.drop_last(), b);
        }
    } else {
        lemma_subseq_shrink(a, b.drop_last());
        lemma_subseq_grow(a.drop_last(), b);
    }
}

/// Subsequence is transitive.
pub proof fn lemma_subseq_trans<V>(a: Seq<V>, b: Seq<V>, c: Seq<V>)
    requires
        is_subseq_of(a, b),
        is_subseq_of(b, c),
    ensures
        is_subseq_of(a, c),
    decreases b.len() + c.len(),
{
    if a.len() == 0 {
    } else {
        if b.last() == c.last() {
            if a.last() == b.last() {
                lemma_subseq_trans(a.drop_last(), b.drop_last(), c.drop_last());
            } else {
                lemma_subseq_trans(a, b.drop_last(), c.drop_last());
                lemma_subseq_grow(a, c);
            }
        } else {
            lemma_subseq_trans(a, b, c.drop_last());
            lemma_subseq_grow(a, c);
        }
    }
}

/// A filtered sequence is a subsequence of the original.
pub proof fn lemma_subseq_filter<V>(s: Seq<V>, pred: spec_fn(V) -> bool)
    ensures
        is_subseq_of(s.filter(pred), s),
    decreases s.len(),
{
    reveal(Seq::filter);
    if s.len() > 0 {
        lemma_subseq_filter(s.drop_last(), pred);
        if pred(s.last()) {
            assert(s.filter(pred) == s.drop_last().filter(pred).push(s.last()));
            assert(s.filter(pred).last() == s.last());
            assert(s.filter(pred).drop_last() =~= s.drop_last().filter(pred));
        } else {
            lemma_subseq_grow(s.filter(pred), s);
        }
    }
}

/// Removing one element leaves a subsequence.
pub proof fn lemma_subseq_remove<V>(b: Seq<V>, i: int)
    requires
        0 <= i < b.len(),
    ensures
        is_subseq_of(b.remove(i), b),
    decreases b.len(),
{
    if i == b.len() - 1 {
        assert(b.remove(i) =~= b.drop_last());
        lemma_subseq_refl(b.drop_last());
        lemma_subseq_grow(b.drop_last(), b);
    } else {
        assert(b.remove(i).last() == b.last());
        assert(b.remove(i).drop_last() =~= b.drop_last().remove(i));
        lemma_subseq_remove(b.drop_last(), i);
    }
}

/// A subsequence stays one when the whole grows on the right.
pub proof fn lemma_subseq_append_right<V>(a: Seq<V>, b: Seq<V>, y: Seq<V>)
    requires
        is_subseq_of(a, b),
    ensures
        is_subseq_of(a, b + y),
    decreases y.len(),
{
    if y.len() == 0 {
        assert(b + y =~= b);
    } else {
        lemma_subseq_append_right(a, b, y.drop_last());
        assert((b + y).drop_last() =~= b + y.drop_last());
        lemma_subseq_grow(a, b + y);
    }
}

/// A subsequence stays one when the whole grows on the left.
pub proof fn lemma_subseq_prepend<V>(a: Seq<V>, b: Seq<V>, x: Seq<V>)
    requires
        is_subseq_of(a, b),
    ensures
        is_subseq_of(a, x + b),
    decreases a.len() + b.len(),
{
    if a.len() == 0 {
    } else {
        assert(b.len() > 0);
        assert((x + b).last() == b.last());
        assert((x + b).drop_last() =~= x + b.drop_last());
        if a.last() == b.last() {
            lemma_subseq_shrink(a, b);
            lemma_subseq_prepend(a.drop_last(), b.drop_last(), x);
        } else {
            lemma_subseq_prepend(a, b.drop_last(), x);
        }
    }
}

/// Filtering never increases how often a value occurs.
pub proof fn lemma_filter_ms_count<V>(s: Seq<V>, pred: spec_fn(V) -> bool, x: V)
    ensures
        s.filter(pred).to_multiset().count(x) <= s.to_multiset().count(x),
    decreases s.len(),
{
    broadcast use vstd::seq_lib::group_to_multiset_ensures;

    reveal(Seq::filter);
    if s.len() > 0 {
        lemma_filter_ms_count(s.drop_last(), pred, x);
        assert(s =~= s.drop_last().push(s.last()));
        assert(s.to_multiset() == s.drop_last().to_multiset().insert(s.last()));
        if pred(s.last()) {
            assert(s.filter(pred) == s.drop_last().filter(pred).push(s.last()));
            assert(s.filter(pred).to_multiset() == s.drop_last().filter(
                pred,
            ).to_multiset().insert(s.last()));
        }
    }
}

/// Every element of a subsequence occurs in the whole.
pub proof fn lemma_subseq_member<V>(a: Seq<V>, b: Seq<V>, x: V)
    requires
        is_subseq_of(a, b),
        a.contains(x),
    ensures
        b.contains(x),
    decreases a.len() + b.len(),
{
    if a.last() == b.last() {
        if x == a.last() {
            assert(b[b.len() - 1] == x);
        } else {
            let k = choose|k: int| 0 <= k < a.len() && a[k] == x;
            assert(a.drop_last()[k] == x);
            lemma_subseq_member(a.drop_last(), b.drop_last(), x);
            let j = choose|j: int| 0 <= j < b.drop_last().len() && b.drop_last()[j] == x;
            assert(b[j] == x);
        }
    } else {
        lemma_subseq_member(a, b.drop_last(), x);
        let j = choose|j: int| 0 <= j < b.drop_last().len() && b.drop_last()[j] == x;
        assert(b[j] == x);
    }
}

/// A middle piece of a concatenation is a subsequence of the whole.
pub proof fn lemma_subseq_embed<V>(x: Seq<V>, c: Seq<V>, y: Seq<V>)
    ensures
        is_subseq_of(c, x + c + y),
{
    lemma_subseq_refl(c);
    lemma_subseq_prepend(c, c, x);
    lemma_subseq_append_right(c, x + c, y);
}

/// A split decomposes its input around any one chunk.
pub proof fn lemma_chunk_split(tests: &Vec<Vec<String>>, round: Seq<Seq<char>>, ci: int)
    requires
        0 <= ci < tests.deep_view().len(),
        tests.deep_view().flatten() == round,
    ensures
        round == tests.deep_view().subrange(0, ci).flatten() + tests.deep_view()[ci]
            + tests.deep_view().subrange(ci + 1, tests.deep_view().len() as int).flatten(),
{
    let parts = tests.deep_view();
    assert(parts =~= parts.subrange(0, ci) + (seq![parts[ci]] + parts.subrange(
        ci + 1,
        parts.len() as int,
    )));
    vstd::seq_lib::lemma_flatten_concat(
        parts.subrange(0, ci),
        seq![parts[ci]] + parts.subrange(ci + 1, parts.len() as int),
    );
    vstd::seq_lib::lemma_flatten_concat(
        seq![parts[ci]],
        parts.subrange(ci + 1, parts.len() as int),
    );
    seq![parts[ci]].lemma_flatten_singleton();
    assert(round =~= parts.subrange(0, ci).flatten() + parts[ci] + parts.subrange(
        ci + 1,
        parts.len() as int,
    ).flatten());
}

/// A sequence of statement texts is 1-minimal for an oracle when removing
/// any single statement yields a script the oracle no longer calls
/// interesting.
pub open spec fn one_minimal<O: Oracle>(o: O, ts: Seq<Seq<char>>) -> bool {
    forall|i: int| 0 <= i < ts.len() ==> !o.judges(script_of(#[trigger] ts.remove(i)))
}

/// The 1-minimality sweep: repeatedly remove single statements that keep
/// the script interesting, until no single removal does.
///
/// On success the result is a subsequence of the input and 1-minimal; a
/// result that differs from the input was itself verified interesting by
/// the oracle; and an input that is already 1-minimal comes back
/// unchanged, so the sweep is idempotent.  An empty input needs no oracle
/// and succeeds.
pub fn find_one_minimal<O: Oracle>(statements: &Vec<String>, oracle: &O) -> (r: Result<
    Vec<String>,
    OracleError,
>)
    ensures
        statements@.len() == 0 ==> r is Ok,
        r matches Ok(v) ==> {
            &&& v@.len() <= statements@.len()
            &&& is_subseq_of(v.deep_view(), statements.deep_view())
            &&& one_minimal(*oracle, v.deep_view())
            &&& (v.deep_view() == statements.deep_view() || oracle.judges(
                script_of(v.deep_view()),
            ))
            &&& (one_minimal(*oracle, statements.deep_view()) ==> v.deep_view()
                == statements.deep_view())
        },
    decreases statements@.len(),
{
    let current = copy_strings(statements);
    let mut i: usize = 0;
    while i < current.len()
        invariant
            current.deep_view() == statements.deep_view(),
            current@.len() == statements@.len(),
            i <= current@.len(),
            forall|k: int|
                0 <= k < i ==> !oracle.judges(
                    script_of(#[trigger] statements.deep_view().remove(k)),
                ),
        decreases current@.len() - i,
    {
        let mut truncated = copy_strings(&current);
        truncated.remove(i);
        proof {
            assert(truncated.deep_view() =~= statements.deep_view().remove(i as int));
        }
        let input = vec_statement_to_string(&truncated, ";");
        proof {
            lemma_script_of_strings(&truncated);
        }
        match oracle.check(&input) {
            Ok(true) => {
                proof {
                    if one_minimal(*oracle, statements.deep_view()) {
                        assert(!oracle.judges(
                            script_of(statements.deep_view().remove(i as int)),
                        ));
                    }
                    lemma_subseq_remove(statements.deep_view(), i as int);
                }
                let rec = find_one_minimal(&truncated, oracle);
                proof {
                    if rec is Ok {
                        lemma_subseq_trans(
                            rec->Ok_0.deep_view(),
                            truncated.deep_view(),
                            statements.deep_view(),
                        );
                    }
                }
                return rec;
            },
            Ok(false) => {},
            Err(e) => {
                return Err(e);
            },
        }
        i += 1;
    }
    proof {
        lemma_subseq_refl(current.deep_view());
    }
    Ok(current)
}

/// Delta debugging over whole statements: the classical ddmin search,
/// followed by the 1-minimality sweep.
///
/// On success the result is a subsequence of the input (survivors keep
/// their relative order), so it never has more statements; a result that
/// differs from the input was verified interesting by the oracle at the
/// moment it was committed; and the result is 1-minimal.  An empty input
/// needs no oracle and succeeds.
pub fn delta_debug<O: Oracle>(data: Vec<String>, granularity: usize, oracle: &O) -> (r: Result<
    Vec<String>,
    OracleError,
>)
    ensures
        data@.len() == 0 ==> r is Ok,
        r matches Ok(v) ==> {
            &&& v@.len() <= data@.len()
            &&& is_subseq_of(v.deep_view(), data.deep_view())
            &&& (v.deep_view() == data.deep_view() || oracle.judges(script_of(v.deep_view())))
            &&& one_minimal(*oracle, v.deep_view())
        },
{
    let ghost orig = data.deep_view();
    let mut current = data;
    let mut granularity = granularity;
    proof {
        lemma_subseq_refl(orig);
    }
    while granularity > 1 && granularity <= current.len()
        invariant
            orig == data.deep_view(),
            orig.len() == data@.len(),
            current@.len() <= orig.len(),
            current.deep_view().len() == current@.len(),
            is_subseq_of(current.deep_view(), orig),
            current.deep_view() == orig || oracle.judges(script_of(current.deep_view())),
        decreases current@.len(), 2 * current@.len() - granularity,
    {
        let ghost round = current.deep_view();
        let ghost g0 = granularity;
        let tests = split_tests(&current, granularity);
        let mut reduced = false;
        let mut ci: usize = 0;
        while ci < tests.len()
            invariant_except_break
                !reduced,
                current.deep_view() == round,
            invariant
                orig == data.deep_view(),
                orig.len() == data@.len(),
                ci <= tests@.len(),
                2 <= g0 <= round.len(),
                round.len() <= orig.len(),
                is_subseq_of(round, orig),
                round == orig || oracle.judges(script_of(round)),
                tests.deep_view().len() == g0,
                tests.deep_view().flatten() == round,
                forall|k: int|
                    0 <= k < g0 ==> (#[trigger] tests.deep_view()[k]).len() == chunk_len(
                        round.len() as int,
                        g0 as int,
                        k,
                    ),
                forall|k: int, j: int|
                    0 <= k < g0 && 0 <= j < tests.deep_view()[k].len() ==> round.contains(
                        #[trigger] tests.deep_view()[k][j],
                    ),
                reduced ==> current@.len() < round.len() && is_subseq_of(
                    current.deep_view(),
                    round,
                ) && oracle.judges(script_of(current.deep_view())),
                !reduced ==> granularity == g0,
                granularity >= 1,
                current.deep_view().len() == current@.len(),
            ensures
                reduced ==> current@.len() < round.len() && is_subseq_of(
                    current.deep_view(),
                    round,
                ) && oracle.judges(script_of(current.deep_view())),
                !reduced ==> current.deep_view() == round && granularity == g0,
            decreases tests@.len() - ci,
        {
            let delta = &tests[ci];
            proof {
                assert(delta.deep_view() == tests.deep_view()[ci as int]);
                lemma_chunk_is_smaller(round.len() as int, g0 as int, ci as int);
            }
            let nabla = get_nabla(&current, delta);
            let input_delta = vec_statement_to_string(delta, ";");
            let input_nabla = vec_statement_to_string(&nabla, ";");
            proof {
                lemma_script_of_strings(delta);
                lemma_script_of_strings(&nabla);
            }
            match oracle.check(&input_delta) {
                Err(e) => {
                    return Err(e);
                },
                Ok(true) => {
                    proof {
                        lemma_chunk_split(&tests, round, ci as int);
                        lemma_subseq_embed(
                            tests.deep_view().subrange(0, ci as int).flatten(),
                            tests.deep_view()[ci as int],
                            tests.deep_view().subrange(
                                ci + 1,
                                tests.deep_view().len() as int,
                            ).flatten(),
                        );
                    }
                    current = copy_strings(delta);
                    reduced = true;
                    break ;
                },
                Ok(false) => {
                    match oracle.check(&input_nabla) {
                        Err(e) => {
                            return Err(e);
                        },
                        Ok(true) => {
                            proof {
                                let pred = |x: Seq<char>| !delta.deep_view().contains(x);
                                assert(round.contains(tests.deep_view()[ci as int][0]));
                                assert(!pred(delta.deep_view()[0]));
                                lemma_filter_excludes(round, pred, delta.deep_view()[0]);
                                lemma_subseq_filter(round, pred);
                            }
                            current = nabla;
                            granularity = granularity - 1;
                            reduced = true;
                            break ;
                        },
                        Ok(false) => {},
                    }
                },
            }
            ci += 1;
        }
        proof {
            if reduced {
                lemma_subseq_trans(current.deep_view(), round, orig);
            }
        }
        if !reduced {
            if granularity <= current.len() / 2 {
                granularity = granularity * 2;
            } else {
                break ;
            }
        }
    }
    let result = find_one_minimal(&current, oracle);
    proof {
        if result is Ok {
            lemma_subseq_trans(result->Ok_0.deep_view(), current.deep_view(), orig);
        }
    }
    result
}

} // verus!

