//! Splitting a script into statements and recognising their structure.
//!
//! The script format: `;`-terminated statements, where runs of `;;` act as
//! a single terminator, carriage returns are dropped, newlines become
//! spaces, and statements that are empty after trimming are discarded.

use crate::statements::parsers;
use crate::statements::types::Statement;
use crate::statements::types::StmtV;
use crate::statements::types::view_stmts;
use crate::statements::types::lemma_view_stmts_index;
use crate::statements::types::lemma_view_stmts_len;
use crate::text::chars_of;
use crate::text::is_ws;
use crate::text::is_ws_char;
use crate::text::string_from_chars;
use vstd::prelude::*;

verus! {

/// A statement could not be recognised.
#[derive(Clone, Copy, Debug, PartialEq, Eq, Structural)]
pub struct ParseError {}

/// Normalisation before splitting: carriage returns dropped, newlines
/// turned into spaces.
pub open spec fn normalize_chars(s: Seq<char>) -> Seq<char>
    decreases s.len(),
{
    if s.len() == 0 {
        Seq::empty()
    } else {
        normalize_chars(s.drop_last()) + (if s.last() == '\r' {
            Seq::<char>::empty()
        } else if s.last() == '\n' {
            seq![' ']
        } else {
            seq![s.last()]
        })
    }
}

/// The position of the first `;`, or the length when there is none.
pub open spec fn first_semi(s: Seq<char>) -> int
    decreases s.len(),
{
    if s.len() == 0 {
        0
    } else if s[0] == ';' {
        0
    } else {
        1 + first_semi(s.drop_first())
    }
}

/// `first_semi` stays in bounds and points at a `;` when one exists.
pub proof fn lemma_first_semi(s: Seq<char>)
    ensures
        0 <= first_semi(s) <= s.len(),
        first_semi(s) < s.len() ==> s[first_semi(s)] == ';',
        forall|j: int| 0 <= j < first_semi(s) ==> s[j] != ';',
    decreases s.len(),
{
    if s.len() > 0 && s[0] != ';' {
        lemma_first_semi(s.drop_first());
        assert(forall|j: int| 1 <= j < s.len() ==> s[j] == s.drop_first()[j - 1]);
    }
}

/// `first_semi` of a sequence whose first `;` is known.
pub proof fn lemma_first_semi_at(s: Seq<char>, k: int)
    requires
        0 <= k <= s.len(),
        forall|j: int| 0 <= j < k ==> s[j] != ';',
        k < s.len() ==> s[k] == ';',
    ensures
        k < s.len() ==> first_semi(s) == k,
        k == s.len() ==> first_semi(s) == s.len(),
    decreases s.len(),
{
    if s.len() > 0 && s[0] != ';' {
        assert(forall|j: int| 0 <= j < k - 1 ==> s.drop_first()[j] == s[j + 1]);
        lemma_first_semi_at(s.drop_first(), if k > 0 {
            k - 1
        } else {
            0
        });
    }
}

/// The pieces of `s` between `;` separators, in order.
pub open spec fn split_parts(s: Seq<char>) -> Seq<Seq<char>>
    decreases s.len(),
{
    let k = first_semi(s);
    if 0 <= k < s.len() {
        seq![s.subrange(0, k)] + split_parts(s.subrange(k + 1, s.len() as int))
    } else {
        seq![s]
    }
}

/// `s` without leading and trailing whitespace.
pub open spec fn trim_spec(s: Seq<char>) -> Seq<char>
    decreases s.len(),
{
    if s.len() == 0 {
        s
    } else if is_ws(s[0]) {
        trim_spec(s.drop_first())
    } else if is_ws(s.last()) {
        trim_spec(s.drop_last())
    } else {
        s
    }
}

/// `trim_spec` is the subrange between the outermost non-whitespace
/// characters.
pub proof fn lemma_trim_bounds(s: Seq<char>, lo: int, hi: int)
    requires
        0 <= lo <= hi <= s.len(),
        forall|j: int| 0 <= j < lo ==> is_ws(#[trigger] s[j]),
        forall|j: int| hi <= j < s.len() ==> is_ws(#[trigger] s[j]),
        lo < hi ==> !is_ws(s[lo]) && !is_ws(s[hi - 1]),
        lo == hi ==> forall|j: int| 0 <= j < s.len() ==> is_ws(#[trigger] s[j]),
    ensures
        trim_spec(s) == s.subrange(lo, hi),
    decreases s.len(),
{
    if s.len() == 0 {
        assert(s.subrange(0, 0) =~= s);
    } else if is_ws(s[0]) {
        let t = s.drop_first();
        assert(forall|j: int| 0 <= j < s.len() - 1 ==> t[j] == s[j + 1]);
        if lo == hi {
            lemma_trim_bounds(t, 0, 0);
            assert(t.subrange(0, 0) =~= s.subrange(lo, hi));
        } else {
            assert(lo >= 1);
            lemma_trim_bounds(t, lo - 1, hi - 1);
            assert(t.subrange(lo - 1, hi - 1) =~= s.subrange(lo, hi));
        }
    } else if is_ws(s.last()) {
        let t = s.drop_last();
        assert(lo < hi ==> hi <= s.len() - 1);
        if lo == hi {
            assert(!is_ws(s[0]));
            assert(false);
        } else {
            lemma_trim_bounds(t, lo, hi);
            assert(t.subrange(lo, hi) =~= s.subrange(lo, hi));
        }
    } else {
        if lo == hi {
            assert(!is_ws(s[0]));
            assert(false);
        } else {
            assert(lo == 0);
            assert(hi == s.len());
            assert(s.subrange(0, s.len() as int) =~= s);
        }
    }
}

/// Trim every piece and drop the pieces that end up empty.
pub open spec fn keep_trimmed(parts: Seq<Seq<char>>) -> Seq<Seq<char>>
    decreases parts.len(),
{
    if parts.len() == 0 {
        Seq::empty()
    } else {
        let rest = keep_trimmed(parts.drop_last());
        let t = trim_spec(parts.last());
        if t.len() == 0 {
            rest
        } else {
            rest.push(t)
        }
    }
}

/// The statement texts of a script: normalised, split on `;`, trimmed,
/// with empty pieces dropped.
pub open spec fn statements_spec(input: Seq<char>) -> Seq<Seq<char>> {
    keep_trimmed(split_parts(normalize_chars(input)))
}

/// Normalise a script's characters.
#[verifier::loop_isolation(false)]
fn normalize(input: &str) -> (r: Vec<char>)
    ensures
        r@ == normalize_chars(input@),
{
    let cs = chars_of(input);
    let mut r: Vec<char> = Vec::new();
    let mut i: usize = 0;
    while i < cs.len()
        invariant
            cs@ == input@,
            i <= cs@.len(),
            r@ == normalize_chars(input@.subrange(0, i as int)),
        decreases cs@.len() - i,
    {
        let c = cs[i];
        proof {
            assert(input@.subrange(0, i + 1).drop_last() =~= input@.subrange(0, i as int));
            assert(input@.subrange(0, i + 1).last() == input@[i as int]);
        }
        if c == '\r' {
            proof {
                assert(r@ =~= normalize_chars(input@.subrange(0, i + 1)));
            }
        } else if c == '\n' {
            r.push(' ');
            proof {
                assert(r@ =~= normalize_chars(input@.subrange(0, i + 1)));
            }
        } else {
            r.push(c);
            proof {
                assert(r@ =~= normalize_chars(input@.subrange(0, i + 1)));
            }
        }
        i += 1;
    }
    proof {
        assert(input@.subrange(0, input@.len() as int) =~= input@);
    }
    r
}

/// Trim a piece of text.
#[verifier::loop_isolation(false)]
fn trim_piece(piece: &Vec<char>) -> (r: Vec<char>)
    ensures
        r@ == trim_spec(piece@),
{
    let mut lo: usize = 0;
    while lo < piece.len() && is_ws_char(piece[lo])
        invariant
            lo <= piece@.len(),
            forall|j: int| 0 <= j < lo ==> is_ws(#[trigger] piece@[j]),
        decreases piece@.len() - lo,
    {
        lo += 1;
    }
    let mut hi: usize = piece.len();
    while hi > lo && is_ws_char(piece[hi - 1])
        invariant
            lo <= hi <= piece@.len(),
            forall|j: int| 0 <= j < lo ==> is_ws(#[trigger] piece@[j]),
            forall|j: int| hi <= j < piece@.len() ==> is_ws(#[trigger] piece@[j]),
        decreases hi,
    {
        hi -= 1;
    }
    let mut out: Vec<char> = Vec::new();
    let mut i: usize = lo;
    while i < hi
        invariant
            lo <= i <= hi <= piece@.len(),
            out@ == piece@.subrange(lo as int, i as int),
        decreases hi - i,
    {
        out.push(piece[i]);
        proof {
            assert(out@ =~= piece@.subrange(lo as int, i + 1));
        }
        i += 1;
    }
    proof {
        if lo == hi {
            assert(forall|j: int| 0 <= j < piece@.len() ==> is_ws(#[trigger] piece@[j]));
        }
        lemma_trim_bounds(piece@, lo as int, hi as int);
    }
    out
}

/// Split a script into its trimmed, non-empty statement texts.
#[verifier::loop_isolation(false)]
pub fn split_statements(input: &str) -> (r: Vec<String>)
    ensures
        r.deep_view() == statements_spec(input@),
{
    let norm = normalize(input);
    let ghost full = norm@;
    let mut out: Vec<String> = Vec::new();
    let mut start: usize = 0;
    let mut i: usize = 0;
    while i < norm.len()
        invariant
            full == norm@,
            start <= i <= full.len(),
            forall|j: int| start <= j < i ==> full[j] != ';',
            start > 0 ==> full[start - 1] == ';',
            out.deep_view() == full_prefix_stmts(full, start as int),
        decreases full.len() - i,
    {
        if norm[i] == ';' {
            let mut piece: Vec<char> = Vec::new();
            let mut p: usize = start;
            while p < i
                invariant
                    start <= p <= i <= full.len(),
                    full == norm@,
                    piece@ == full.subrange(start as int, p as int),
                decreases i - p,
            {
                piece.push(norm[p]);
                proof {
                    assert(piece@ =~= full.subrange(start as int, p + 1));
                }
                p += 1;
            }
            let t = trim_piece(&piece);
            let ghost old_out = out.deep_view();
            if t.len() > 0 {
                let s = string_from_chars(&t);
                out.push(s);
                proof {
                    assert(out.deep_view() =~= old_out.push(trim_spec(
                        full.subrange(start as int, i as int),
                    )));
                }
            }
            proof {
                lemma_prefix_stmts_step(full, start as int, i as int);
            }
            start = i + 1;
        }
        i += 1;
    }
    let mut piece: Vec<char> = Vec::new();
    let mut p: usize = start;
    while p < norm.len()
        invariant
            start <= p <= full.len(),
            full == norm@,
            piece@ == full.subrange(start as int, p as int),
        decreases full.len() - p,
    {
        piece.push(norm[p]);
        proof {
            assert(piece@ =~= full.subrange(start as int, p + 1));
        }
        p += 1;
    }
    let t = trim_piece(&piece);
    let ghost old_out = out.deep_view();
    if t.len() > 0 {
        let s = string_from_chars(&t);
        out.push(s);
        proof {
            assert(out.deep_view() =~= old_out.push(trim_spec(
                full.subrange(start as int, full.len() as int),
            )));
        }
    }
    proof {
        lemma_prefix_stmts_end(full, start as int);
    }
    out
}

/// The kept statements of the prefix of `s` before position `start`,
/// where `start` is 0 or just past a `;`.
pub open spec fn full_prefix_stmts(s: Seq<char>, start: int) -> Seq<Seq<char>> {
    if start == 0 {
        Seq::empty()
    } else {
        keep_trimmed(split_parts(s.subrange(0, start - 1)))
    }
}

/// One flush step: consuming the piece `[start, k)` followed by the `;` at
/// `k` extends the kept statements by the trimmed piece, if non-empty.
proof fn lemma_prefix_stmts_step(s: Seq<char>, start: int, k: int)
    requires
        0 <= start <= k < s.len(),
        s[k] == ';',
        forall|j: int| start <= j < k ==> s[j] != ';',
        start > 0 ==> s[start - 1] == ';',
    ensures
        ({
            let t = trim_spec(s.subrange(start, k));
            full_prefix_stmts(s, k + 1) == if t.len() == 0 {
                full_prefix_stmts(s, start)
            } else {
                full_prefix_stmts(s, start).push(t)
            }
        }),
    decreases start,
{
    if start == 0 {
        let pre = s.subrange(0, k);
        lemma_first_semi_at(pre, k);
        assert(first_semi(pre) == pre.len());
        assert(split_parts(pre) =~= seq![pre]);
        let single = seq![pre];
        assert(single.drop_last() =~= Seq::<Seq<char>>::empty());
        assert(single.last() == pre);
        assert(keep_trimmed(Seq::<Seq<char>>::empty()) =~= Seq::<Seq<char>>::empty());
        assert(keep_trimmed(single) == if trim_spec(pre).len() == 0 {
            keep_trimmed(single.drop_last())
        } else {
            keep_trimmed(single.drop_last()).push(trim_spec(pre))
        });
        assert(keep_trimmed(split_parts(pre)) == if trim_spec(pre).len() == 0 {
            Seq::<Seq<char>>::empty()
        } else {
            Seq::<Seq<char>>::empty().push(trim_spec(pre))
        });
        assert(s.subrange(0, k) =~= s.subrange(start, k));
    } else {
        lemma_split_decompose(s.subrange(0, k), start);
        assert(s.subrange(0, k).subrange(0, start - 1) =~= s.subrange(0, start - 1));
        assert(s.subrange(0, k).subrange(start, k) =~= s.subrange(start, k));
    }
}

/// The head of a split, before the final separator.
pub open spec fn headpre_of(s: Seq<char>, start: int) -> Seq<char> {
    s.subrange(0, start - 1)
}

/// Splitting text whose last piece begins at `start` (just past a `;`)
/// decomposes into the split of the head and that piece.
proof fn lemma_split_decompose(s: Seq<char>, start: int)
    requires
        1 <= start <= s.len(),
        s[start - 1] == ';',
        forall|j: int| start <= j < s.len() ==> s[j] != ';',
    ensures
        keep_trimmed(split_parts(s)) == ({
            let t = trim_spec(s.subrange(start, s.len() as int));
            if t.len() == 0 {
                keep_trimmed(split_parts(s.subrange(0, start - 1)))
            } else {
                keep_trimmed(split_parts(s.subrange(0, start - 1))).push(t)
            }
        }),
    decreases s.len(),
{
    let k = first_semi(s);
    lemma_first_semi(s);
    assert(k < s.len());
    if k == start - 1 {
        // the head holds no `;`: it is a single piece
        let head = s.subrange(0, k);
        let tail = s.subrange(k + 1, s.len() as int);
        lemma_first_semi_at(head, k);
        assert(first_semi(head) == head.len());
        assert(split_parts(head) =~= seq![head]);
        lemma_first_semi_at(tail, tail.len() as int);
        assert(split_parts(tail) =~= seq![tail]);
        assert(split_parts(s) =~= seq![head, tail]);
        assert(seq![head, tail].drop_last() =~= seq![head]);
        assert(seq![head, tail].last() == tail);
        assert(seq![head].drop_last() =~= Seq::<Seq<char>>::empty());
        assert(seq![head].last() == head);
        assert(tail =~= s.subrange(start, s.len() as int));
        assert(headpre_of(s, start) == head) by {
            assert(s.subrange(0, start - 1) =~= head);
        }
        let t = trim_spec(s.subrange(start, s.len() as int));
        assert(keep_trimmed(split_parts(s)) == if t.len() == 0 {
            keep_trimmed(split_parts(s.subrange(0, start - 1)))
        } else {
            keep_trimmed(split_parts(s.subrange(0, start - 1))).push(t)
        });
    } else {
        assert(k < start - 1);
        let tail = s.subrange(k + 1, s.len() as int);
        assert(forall|j: int|
            start - k - 1 <= j < tail.len() ==> tail[j] == s[j + k + 1] && s[j + k + 1] != ';');
        assert(tail[start - k - 2] == ';');
        lemma_split_decompose(tail, start - k - 1);
        let t = trim_spec(tail.subrange(start - k - 1, tail.len() as int));
        assert(tail.subrange(start - k - 1, tail.len() as int) =~= s.subrange(
            start,
            s.len() as int,
        ));
        // split of s is head piece + split of tail, on both sides
        let head = s.subrange(0, k);
        assert(split_parts(s) == seq![head] + split_parts(tail));
        lemma_keep_trimmed_concat(seq![head], split_parts(tail));
        lemma_keep_trimmed_concat(seq![head], split_parts(tail.subrange(0, start - k - 2)));
        let headpre = s.subrange(0, start - 1);
        lemma_first_semi_at(headpre, k);
        assert(headpre.subrange(0, k) =~= head);
        assert(split_parts(headpre) == seq![head] + split_parts(
            headpre.subrange(k + 1, headpre.len() as int),
        ));
        assert(headpre.subrange(k + 1, headpre.len() as int) =~= tail.subrange(
            0,
            start - k - 2,
        ));
        assert(keep_trimmed(split_parts(s)) == keep_trimmed(seq![head]) + keep_trimmed(
            split_parts(tail),
        ));
        assert(keep_trimmed(split_parts(headpre)) == keep_trimmed(seq![head]) + keep_trimmed(
            split_parts(tail.subrange(0, start - k - 2)),
        ));
        if t.len() == 0 {
        } else {
            assert(keep_trimmed(seq![head]) + keep_trimmed(
                split_parts(tail.subrange(0, start - k - 2)),
            ).push(t) =~= (keep_trimmed(seq![head]) + keep_trimmed(
                split_parts(tail.subrange(0, start - k - 2)),
            )).push(t));
        }
    }
}

/// `keep_trimmed` distributes over concatenation.
proof fn lemma_keep_trimmed_concat(a: Seq<Seq<char>>, b: Seq<Seq<char>>)
    ensures
        keep_trimmed(a + b) == keep_trimmed(a) + keep_trimmed(b),
    decreases b.len(),
{
    if b.len() == 0 {
        assert(a + b =~= a);
        assert(keep_trimmed(a) + keep_trimmed(b) =~= keep_trimmed(a));
    } else {
        assert((a + b).drop_last() =~= a + b.drop_last());
        assert((a + b).last() == b.last());
        lemma_keep_trimmed_concat(a, b.drop_last());
        let t = trim_spec(b.last());
        if t.len() == 0 {
        } else {
            assert(keep_trimmed(a) + keep_trimmed(b.drop_last()).push(t) =~= (keep_trimmed(a)
                + keep_trimmed(b.drop_last())).push(t));
        }
    }
}

/// The final flush: consuming the last piece `[start, len)` completes the
/// split.
proof fn lemma_prefix_stmts_end(s: Seq<char>, start: int)
    requires
        0 <= start <= s.len(),
        forall|j: int| start <= j < s.len() ==> s[j] != ';',
        start > 0 ==> s[start - 1] == ';',
    ensures
        ({
            let t = trim_spec(s.subrange(start, s.len() as int));
            keep_trimmed(split_parts(s)) == if t.len() == 0 {
                full_prefix_stmts(s, start)
            } else {
                full_prefix_stmts(s, start).push(t)
            }
        }),
{
    if start == 0 {
        lemma_first_semi_at(s, s.len() as int);
        assert(split_parts(s) =~= seq![s]);
        assert(seq![s].drop_last() =~= Seq::<Seq<char>>::empty());
        assert(seq![s].last() == s);
        assert(keep_trimmed(Seq::<Seq<char>>::empty()) =~= Seq::<Seq<char>>::empty());
        assert(s.subrange(0, s.len() as int) =~= s);
        let t = trim_spec(s.subrange(start, s.len() as int));
        assert(keep_trimmed(seq![s]) == if t.len() == 0 {
            Seq::<Seq<char>>::empty()
        } else {
            Seq::<Seq<char>>::empty().push(t)
        });
    } else {
        lemma_split_decompose(s, start);
    }
}

/// A statement text as the splitter itself produces it: non-empty, framed
/// by non-whitespace, and free of separators and line breaks.
pub open spec fn clean_text(t: Seq<char>) -> bool {
    &&& t.len() > 0
    &&& !is_ws(t[0])
    &&& !is_ws(t[t.len() - 1])
    &&& forall|j: int| 0 <= j < t.len() ==> t[j] != ';' && #[trigger] t[j] != '\r' && t[j] != '\n'
}

/// Normalisation leaves text without carriage returns or newlines alone.
proof fn lemma_normalize_id(s: Seq<char>)
    requires
        forall|j: int| 0 <= j < s.len() ==> #[trigger] s[j] != '\r' && s[j] != '\n',
    ensures
        normalize_chars(s) == s,
    decreases s.len(),
{
    if s.len() > 0 {
        assert(forall|j: int| 0 <= j < s.len() - 1 ==> s.drop_last()[j] == s[j]);
        lemma_normalize_id(s.drop_last());
        assert(normalize_chars(s) =~= s);
    } else {
        assert(normalize_chars(s) =~= s);
    }
}

/// Trimming a clean text is the identity.
proof fn lemma_trim_id(t: Seq<char>)
    requires
        t.len() > 0,
        !is_ws(t[0]),
        !is_ws(t[t.len() - 1]),
    ensures
        trim_spec(t) == t,
{
}

/// A script rendered from clean texts splits back into exactly those
/// texts.
proof fn lemma_split_clean(texts: Seq<Seq<char>>)
    requires
        forall|i: int| 0 <= i < texts.len() ==> clean_text(#[trigger] texts[i]),
    ensures
        keep_trimmed(
            split_parts(crate::utils::join_texts(texts, seq![';']) + seq![';']),
        ) == texts,
    decreases texts.len(),
{
    let semi = seq![';'];
    let empty_parts = Seq::<Seq<char>>::empty();
    assert(keep_trimmed(empty_parts) =~= empty_parts);
    if texts.len() == 0 {
        let s = crate::utils::join_texts(texts, semi) + semi;
        assert(s =~= seq![';']);
        lemma_first_semi_at(s, 0);
        assert(s.subrange(0, 0) =~= Seq::<char>::empty());
        assert(s.subrange(1, 1) =~= Seq::<char>::empty());
        lemma_first_semi_at(s.subrange(1, 1), 0);
        assert(split_parts(s.subrange(1, 1)) =~= seq![Seq::<char>::empty()]);
        assert(split_parts(s) =~= seq![Seq::<char>::empty(), Seq::<char>::empty()]);
        let two = seq![Seq::<char>::empty(), Seq::<char>::empty()];
        assert(two.drop_last() =~= seq![Seq::<char>::empty()]);
        assert(seq![Seq::<char>::empty()].drop_last() =~= empty_parts);
        assert(keep_trimmed(seq![Seq::<char>::empty()]) =~= empty_parts);
        assert(keep_trimmed(two) =~= empty_parts);
        assert(keep_trimmed(split_parts(s)) =~= texts);
    } else if texts.len() == 1 {
        let t0 = texts[0];
        let s = crate::utils::join_texts(texts, semi) + semi;
        assert(s =~= t0 + semi) by {
            assert(crate::utils::join_texts(texts, semi) == t0);
        }
        assert(forall|j: int| 0 <= j < t0.len() ==> #[trigger] s[j] == t0[j]);
        assert(s[t0.len() as int] == ';');
        lemma_first_semi_at(s, t0.len() as int);
        assert(s.subrange(0, t0.len() as int) =~= t0);
        assert(s.subrange(t0.len() as int + 1, s.len() as int) =~= Seq::<char>::empty());
        lemma_first_semi_at(Seq::<char>::empty(), 0);
        assert(split_parts(Seq::<char>::empty()) =~= seq![Seq::<char>::empty()]);
        assert(split_parts(s) =~= seq![t0, Seq::<char>::empty()]);
        let two = seq![t0, Seq::<char>::empty()];
        assert(two.drop_last() =~= seq![t0]);
        assert(two.last() =~= Seq::<char>::empty());
        assert(seq![t0].drop_last() =~= empty_parts);
        lemma_trim_id(t0);
        assert(keep_trimmed(seq![t0]) =~= seq![t0]);
        assert(keep_trimmed(two) =~= seq![t0]);
        assert(keep_trimmed(split_parts(s)) =~= texts);
    } else {
        let t0 = texts[0];
        let rest = texts.drop_first();
        let tail = crate::utils::join_texts(rest, semi) + semi;
        let s = crate::utils::join_texts(texts, semi) + semi;
        assert(s =~= t0 + semi + tail) by {
            assert(crate::utils::join_texts(texts, semi) == t0 + semi
                + crate::utils::join_texts(rest, semi));
        }
        assert(forall|j: int| 0 <= j < t0.len() ==> #[trigger] s[j] == t0[j]);
        assert(s[t0.len() as int] == ';');
        lemma_first_semi_at(s, t0.len() as int);
        assert(s.subrange(0, t0.len() as int) =~= t0);
        assert(s.subrange(t0.len() as int + 1, s.len() as int) =~= tail);
        assert(split_parts(s) == seq![t0] + split_parts(tail));
        assert(forall|i: int| 0 <= i < rest.len() ==> rest[i] == texts[i + 1]);
        lemma_split_clean(rest);
        lemma_keep_trimmed_concat(seq![t0], split_parts(tail));
        lemma_trim_id(t0);
        assert(seq![t0].drop_last() =~= empty_parts);
        assert(keep_trimmed(seq![t0]) =~= seq![t0]);
        assert(keep_trimmed(split_parts(s)) =~= texts) by {
            assert(seq![t0] + rest =~= texts);
        }
    }
}

/// A script rendered from clean texts has no carriage returns or newlines.
proof fn lemma_clean_script_chars(texts: Seq<Seq<char>>)
    requires
        forall|i: int| 0 <= i < texts.len() ==> clean_text(#[trigger] texts[i]),
    ensures
        forall|j: int|
            0 <= j < (crate::utils::join_texts(texts, seq![';']) + seq![';']).len()
                ==> #[trigger] (crate::utils::join_texts(texts, seq![';']) + seq![';'])[j]
                != '\r' && (crate::utils::join_texts(texts, seq![';']) + seq![';'])[j] != '\n',
    decreases texts.len(),
{
    let semi = seq![';'];
    let s = crate::utils::join_texts(texts, semi) + semi;
    if texts.len() == 0 {
        assert(s =~= seq![';']);
    } else if texts.len() == 1 {
        let t0 = texts[0];
        assert(s =~= t0 + semi) by {
            assert(crate::utils::join_texts(texts, semi) == t0);
        }
        assert forall|j: int| 0 <= j < s.len() implies #[trigger] s[j] != '\r' && s[j]
            != '\n' by {
            if j < t0.len() {
                assert(s[j] == t0[j]);
            } else {
                assert(s[j] == ';');
            }
        }
    } else {
        let t0 = texts[0];
        let rest = texts.drop_first();
        let tail = crate::utils::join_texts(rest, semi) + semi;
        assert(s =~= t0 + semi + tail) by {
            assert(crate::utils::join_texts(texts, semi) == t0 + semi
                + crate::utils::join_texts(rest, semi));
        }
        assert(forall|i: int| 0 <= i < rest.len() ==> rest[i] == texts[i + 1]);
        lemma_clean_script_chars(rest);
        assert forall|j: int| 0 <= j < s.len() implies #[trigger] s[j] != '\r' && s[j]
            != '\n' by {
            if j < t0.len() {
                assert(s[j] == t0[j]);
            } else if j == t0.len() {
                assert(s[j] == ';');
            } else {
                assert(s[j] == tail[j - t0.len() - 1]);
            }
        }
    }
}

/// The splitter inverts the renderer on clean statement texts.
pub proof fn lemma_statements_roundtrip(texts: Seq<Seq<char>>)
    requires
        forall|i: int| 0 <= i < texts.len() ==> clean_text(#[trigger] texts[i]),
    ensures
        statements_spec(crate::utils::script_of(texts)) == texts,
{
    let semi = seq![';'];
    let s = crate::utils::join_texts(texts, semi) + semi;
    assert(crate::utils::script_of(texts) == s);
    lemma_clean_script_chars(texts);
    lemma_normalize_id(s);
    lemma_split_clean(texts);
}

/// The statement texts of a vector of statements.
pub open spec fn originals_of(v: Seq<StmtV>) -> Seq<Seq<char>>
    decreases v.len(),
{
    if v.len() == 0 {
        Seq::empty()
    } else {
        originals_of(v.drop_last()).push(v.last().original)
    }
}

/// `originals_of`, element by element.
pub proof fn lemma_originals_index(v: Seq<StmtV>, i: int)
    requires
        0 <= i < v.len(),
    ensures
        originals_of(v).len() == v.len(),
        originals_of(v)[i] == v[i].original,
    decreases v.len(),
{
    lemma_originals_len(v);
    if i < v.len() - 1 {
        lemma_originals_index(v.drop_last(), i);
    }
}

/// `originals_of` preserves length.
pub proof fn lemma_originals_len(v: Seq<StmtV>)
    ensures
        originals_of(v).len() == v.len(),
    decreases v.len(),
{
    if v.len() > 0 {
        lemma_originals_len(v.drop_last());
    }
}

/// Parse a script into its ordered statement list.
///
/// The statement texts of the result are exactly the script's normalised,
/// trimmed, non-empty `;`-separated pieces, in order; each statement's
/// structure is recognised on a best-effort basis, with `Unknown` as the
/// fallback.  Parsing never fails.
#[verifier::loop_isolation(false)]
pub fn generate_ast(sql: &str) -> (r: Result<Vec<Statement>, ParseError>)
    ensures
        r is Ok,
        r matches Ok(v) ==> originals_of(view_stmts(v@)) == statements_spec(sql@),
{
    let raws = split_statements(sql);
    let mut parsed: Vec<Statement> = Vec::new();
    let mut i: usize = 0;
    while i < raws.len()
        invariant
            i <= raws@.len(),
            parsed@.len() == i,
            forall|k: int|
                0 <= k < i ==> (#[trigger] view_stmts(parsed@)[k]).original
                    == raws.deep_view()[k] && view_stmts(parsed@).len() == parsed@.len(),
        decreases raws@.len() - i,
    {
        let raw = &raws[i];
        let stmt = parsers::parse_any(raw.as_str());
        let ghost old_parsed = parsed@;
        parsed.push(stmt);
        proof {
            lemma_view_stmts_len(parsed@);
            assert(parsed@.drop_last() =~= old_parsed);
            assert(view_stmts(parsed@) == view_stmts(old_parsed).push(
                view_stmts(parsed@).last(),
            ));
            assert forall|k: int|
                0 <= k < i + 1 implies (#[trigger] view_stmts(parsed@)[k]).original
                == raws.deep_view()[k] && view_stmts(parsed@).len() == parsed@.len() by {
                lemma_view_stmts_index(parsed@, k);
                if k < i {
                    lemma_view_stmts_index(old_parsed, k);
                }
            }
        }
        i += 1;
    }
    proof {
        lemma_view_stmts_len(parsed@);
        assert forall|k: int|
            0 <= k < parsed@.len() implies originals_of(view_stmts(parsed@))[k]
            == statements_spec(sql@)[k] by {
            lemma_originals_index(view_stmts(parsed@), k);
        }
        lemma_originals_len(view_stmts(parsed@));
        assert(originals_of(view_stmts(parsed@)) =~= statements_spec(sql@));
    }
    Ok(parsed)
}

} // verus!
