//! Token-granularity delta debugging within one statement.
//!
//! The same split/test/adapt loop as statement-level ddmin, applied to the
//! whitespace-and-parenthesis tokens of a single statement.  Before a
//! candidate fragment is tested it is repaired: when the first parenthesis
//! found scanning forward is `)` a synthetic `(` is prepended, and when the
//! first found scanning backward is `(` a synthetic `)` is appended, so the
//! fragment can be spliced back into its statement's slot in the script.

use crate::delta_debug::is_subseq_of;
use crate::oracle::Oracle;
use crate::oracle::OracleError;
use crate::text::chars_of;
use crate::text::count_char;
use crate::text::first_paren_chars;
use crate::text::is_paren;
use crate::text::last_paren_chars;
use crate::text::lemma_count_concat;
use crate::text::lemma_first_paren_found;
use crate::text::lemma_first_paren_none;
use crate::text::lemma_last_paren_found;
use crate::text::lemma_last_paren_none;
use crate::text::lemma_well_nested_ends;
use crate::text::well_nested;
use crate::utils::copy_strings;
use crate::utils::join_texts;
use crate::utils::lemma_join_push;
use crate::utils::lemma_script_of_strings;
use crate::utils::script_of;
use crate::utils::vec_statement_to_string;
use vstd::prelude::*;
use vstd::seq_lib::lemma_flatten_concat;
use vstd::string::StrSliceExecFns;
use vstd::string::StringExecFns;

pub use crate::delta_debug::get_nabla;
pub use crate::delta_debug::split_tests;

verus! {

/// The statement text of a token fragment: the tokens joined with single
/// spaces, terminated by `;` (appended when not already present).
pub open spec fn statement_of_tokens(ts: Seq<Seq<char>>) -> Seq<char> {
    let j = join_texts(ts, seq![' ']);
    if j.len() > 0 && j.last() == ';' {
        j
    } else {
        j.push(';')
    }
}

/// The whole-script candidate for a token fragment: the script with the
/// statement at `index` replaced by the fragment's statement text.
pub open spec fn tokens_candidate(orig: Seq<Seq<char>>, index: int, ts: Seq<Seq<char>>) -> Seq<
    char,
> {
    script_of(orig.update(index, statement_of_tokens(ts)))
}

/// The parenthesis repair: prepend a `(` token when the first parenthesis
/// scanning forward is `)`, and append a `)` token when the first scanning
/// backward is `(`.
pub open spec fn repaired(ts: Seq<Seq<char>>) -> Seq<Seq<char>> {
    let f = ts.flatten();
    let pre: Seq<Seq<char>> = if first_paren_chars(f) == Some(')') {
        seq![seq!['(']]
    } else {
        Seq::empty()
    };
    let post: Seq<Seq<char>> = if last_paren_chars(f) == Some('(') {
        seq![seq![')']]
    } else {
        Seq::empty()
    };
    pre + ts + post
}

/// A token fragment is 1-minimal for its slot when removing any single
/// token (and repairing) yields a whole-script candidate the oracle no
/// longer calls interesting.
pub open spec fn one_minimal_tokens<O: Oracle>(
    o: O,
    orig: Seq<Seq<char>>,
    index: int,
    ts: Seq<Seq<char>>,
) -> bool {
    forall|i: int|
        0 <= i < ts.len() ==> !o.judges(
            tokens_candidate(orig, index, repaired(#[trigger] ts.remove(i))),
        )
}

/// The non-parenthesis tokens of a fragment: the content the repair never
/// invents, since its synthetic tokens are exactly `(` and `)`.
pub open spec fn word_tokens(ts: Seq<Seq<char>>) -> Seq<Seq<char>>
    decreases ts.len(),
{
    if ts.len() == 0 {
        Seq::empty()
    } else {
        let rest = word_tokens(ts.drop_last());
        if ts.last() == seq!['('] || ts.last() == seq![')'] {
            rest
        } else {
            rest.push(ts.last())
        }
    }
}

/// Non-parenthesis tokens distribute over concatenation.
proof fn lemma_word_tokens_concat(a: Seq<Seq<char>>, b: Seq<Seq<char>>)
    ensures
        word_tokens(a + b) == word_tokens(a) + word_tokens(b),
    decreases b.len(),
{
    if b.len() == 0 {
        assert(a + b =~= a);
        assert(word_tokens(a) + word_tokens(b) =~= word_tokens(a));
    } else {
        assert((a + b).drop_last() =~= a + b.drop_last());
        assert((a + b).last() == b.last());
        lemma_word_tokens_concat(a, b.drop_last());
        if !(b.last() == seq!['('] || b.last() == seq![')']) {
            assert(word_tokens(a) + word_tokens(b.drop_last()).push(b.last()) =~= (word_tokens(
                a,
            ) + word_tokens(b.drop_last())).push(b.last()));
        }
    }
}

/// Keeping a subsequence and dropping the parenthesis tokens of both sides
/// preserves the subsequence relation.
pub proof fn lemma_subseq_word_mono(a: Seq<Seq<char>>, b: Seq<Seq<char>>)
    requires
        is_subseq_of(a, b),
    ensures
        is_subseq_of(word_tokens(a), word_tokens(b)),
    decreases a.len() + b.len(),
{
    if a.len() == 0 {
    } else {
        if a.last() == b.last() {
            lemma_subseq_word_mono(a.drop_last(), b.drop_last());
            if !(a.last() == seq!['('] || a.last() == seq![')']) {
                assert(word_tokens(a) == word_tokens(a.drop_last()).push(a.last()));
                assert(word_tokens(b) == word_tokens(b.drop_last()).push(b.last()));
                assert(word_tokens(a).drop_last() =~= word_tokens(a.drop_last()));
                assert(word_tokens(b).drop_last() =~= word_tokens(b.drop_last()));
            }
        } else {
            lemma_subseq_word_mono(a, b.drop_last());
            if !(b.last() == seq!['('] || b.last() == seq![')']) {
                assert(word_tokens(b) == word_tokens(b.drop_last()).push(b.last()));
                assert(word_tokens(b).drop_last() =~= word_tokens(b.drop_last()));
                crate::delta_debug::lemma_subseq_grow(word_tokens(a), word_tokens(b));
            }
        }
    }
}

/// The repair leaves the non-parenthesis tokens unchanged.
pub proof fn lemma_repair_word_tokens(ts: Seq<Seq<char>>)
    ensures
        word_tokens(repaired(ts)) == word_tokens(ts),
{
    let f = ts.flatten();
    let pre: Seq<Seq<char>> = if first_paren_chars(f) == Some(')') {
        seq![seq!['(']]
    } else {
        Seq::empty()
    };
    let post: Seq<Seq<char>> = if last_paren_chars(f) == Some('(') {
        seq![seq![')']]
    } else {
        Seq::empty()
    };
    assert(repaired(ts) == (pre + ts) + post);
    lemma_word_tokens_concat(pre + ts, post);
    lemma_word_tokens_concat(pre, ts);
    assert(word_tokens(Seq::<Seq<char>>::empty()) =~= Seq::<Seq<char>>::empty());
    assert(word_tokens(pre) =~= Seq::<Seq<char>>::empty()) by {
        if pre.len() == 1 {
            assert(pre.drop_last() =~= Seq::<Seq<char>>::empty());
            assert(word_tokens(pre.drop_last()) == word_tokens(Seq::<Seq<char>>::empty()));
            assert(pre.last() == seq!['(']);
        }
    }
    assert(word_tokens(post) =~= Seq::<Seq<char>>::empty()) by {
        if post.len() == 1 {
            assert(post.drop_last() =~= Seq::<Seq<char>>::empty());
            assert(word_tokens(post.drop_last()) == word_tokens(Seq::<Seq<char>>::empty()));
            assert(post.last() == seq![')']);
        }
    }
    assert(word_tokens(repaired(ts)) =~= word_tokens(ts));
}

/// The characters of the repaired fragment: the original characters with
/// the synthetic parentheses, if any, at the edges.
proof fn lemma_repaired_flat(ts: Seq<Seq<char>>)
    ensures
        repaired(ts).flatten() == (if first_paren_chars(ts.flatten()) == Some(')') {
            seq!['(']
        } else {
            Seq::<char>::empty()
        }) + ts.flatten() + (if last_paren_chars(ts.flatten()) == Some('(') {
            seq![')']
        } else {
            Seq::<char>::empty()
        }),
{
    let f = ts.flatten();
    let pre: Seq<Seq<char>> = if first_paren_chars(f) == Some(')') {
        seq![seq!['(']]
    } else {
        Seq::empty()
    };
    let post: Seq<Seq<char>> = if last_paren_chars(f) == Some('(') {
        seq![seq![')']]
    } else {
        Seq::empty()
    };
    lemma_flatten_concat(pre + ts, post);
    lemma_flatten_concat(pre, ts);
    if pre.len() == 1 {
        pre.lemma_flatten_singleton();
    } else {
        assert(pre.flatten() =~= Seq::<char>::empty());
    }
    if post.len() == 1 {
        post.lemma_flatten_singleton();
    } else {
        assert(post.flatten() =~= Seq::<char>::empty());
    }
    assert(repaired(ts).flatten() =~= pre.flatten() + f + post.flatten());
}

/// Repairing a well-nested fragment is a no-op.
pub proof fn lemma_repair_noop(ts: Seq<Seq<char>>)
    requires
        well_nested(ts.flatten()),
    ensures
        repaired(ts) == ts,
{
    lemma_well_nested_ends(ts.flatten());
    assert(repaired(ts) =~= ts);
}

/// The repair balances the parenthesis counts exactly when the fragment's
/// imbalance matches what the repair inserts: one missing `(` when the
/// first parenthesis is `)`, and one missing `)` when the last is `(`.
/// In particular a well-nested fragment stays balanced.
pub proof fn lemma_repair_balances(ts: Seq<Seq<char>>)
    requires
        ({
            let f = ts.flatten();
            count_char(f, '(') + (if first_paren_chars(f) == Some(')') {
                1int
            } else {
                0int
            }) == count_char(f, ')') + (if last_paren_chars(f) == Some('(') {
                1int
            } else {
                0int
            })
        }),
    ensures
        count_char(repaired(ts).flatten(), '(') == count_char(repaired(ts).flatten(), ')'),
{
    let f = ts.flatten();
    let pre: Seq<char> = if first_paren_chars(f) == Some(')') {
        seq!['(']
    } else {
        Seq::empty()
    };
    let post: Seq<char> = if last_paren_chars(f) == Some('(') {
        seq![')']
    } else {
        Seq::empty()
    };
    lemma_repaired_flat(ts);
    lemma_count_concat(pre + f, post, '(');
    lemma_count_concat(pre, f, '(');
    lemma_count_concat(pre + f, post, ')');
    lemma_count_concat(pre, f, ')');
    crate::text::lemma_count_singleton('(', '(');
    crate::text::lemma_count_singleton('(', ')');
    crate::text::lemma_count_singleton(')', '(');
    crate::text::lemma_count_singleton(')', ')');
}

/// When forward scanning finds no parenthesis, there is none at all.
proof fn lemma_first_none_no_paren(s: Seq<char>)
    requires
        first_paren_chars(s) == None::<char>,
    ensures
        forall|j: int| 0 <= j < s.len() ==> !is_paren(#[trigger] s[j]),
    decreases s.len(),
{
    if s.len() > 0 {
        lemma_first_none_no_paren(s.drop_first());
        assert(forall|j: int| 1 <= j < s.len() ==> s[j] == s.drop_first()[j - 1]);
    }
}

/// Repairing twice is the same as repairing once.
pub proof fn lemma_repair_idempotent(ts: Seq<Seq<char>>)
    ensures
        repaired(repaired(ts)) == repaired(ts),
{
    let f = ts.flatten();
    let fp = first_paren_chars(f);
    let lp = last_paren_chars(f);
    let pre: Seq<char> = if fp == Some(')') {
        seq!['(']
    } else {
        Seq::empty()
    };
    let post: Seq<char> = if lp == Some('(') {
        seq![')']
    } else {
        Seq::empty()
    };
    lemma_repaired_flat(ts);
    let rf = repaired(ts).flatten();
    assert(rf == pre + f + post);
    crate::text::lemma_first_paren_concat(pre + f, post);
    crate::text::lemma_first_paren_concat(pre, f);
    crate::text::lemma_last_paren_concat(pre + f, post);
    crate::text::lemma_last_paren_concat(pre, f);
    if fp is None && lp is Some {
        let c = lp->0;
        crate::text::lemma_last_paren_index(f, c);
        let k = choose|k: int|
            0 <= k < f.len() && f[k] == c && is_paren(c) && forall|j: int|
                k < j < f.len() ==> !is_paren(#[trigger] f[j]);
        crate::text::lemma_has_paren_first_some(f, k);
    }
    if lp is None && fp is Some {
        let c = fp->0;
        crate::text::lemma_first_paren_index(f, c);
        let k = choose|k: int|
            0 <= k < f.len() && f[k] == c && is_paren(c) && forall|j: int|
                0 <= j < k ==> !is_paren(#[trigger] f[j]);
        crate::text::lemma_has_paren_last_some(f, k);
    }
    if fp == Some(')') {
        assert(pre[0] == '(');
        assert(first_paren_chars(pre) == Some('('));
    } else if fp is Some {
        assert(pre =~= Seq::<char>::empty());
        assert(pre + f =~= f);
        assert(first_paren_chars(pre + f) == fp);
    } else {
        assert(pre =~= Seq::<char>::empty());
        assert(post =~= Seq::<char>::empty());
        assert(pre + f =~= f);
        assert((pre + f) + post =~= f);
    }
    if lp == Some('(') {
        assert(post.last() == ')');
        assert(last_paren_chars(post) == Some(')'));
    } else if lp is Some {
        assert(post =~= Seq::<char>::empty());
        assert((pre + f) + post =~= pre + f);
        assert(last_paren_chars(f) == lp);
    }
    assert(first_paren_chars(rf) != Some(')'));
    assert(last_paren_chars(rf) != Some('('));
    assert(repaired(repaired(ts)) =~= repaired(ts));
}

/// The first `(` or `)` in the concatenated characters of `items`, scanning
/// forward, or nothing.
pub fn find_first_paren(items: &Vec<String>) -> (r: Option<char>)
    ensures
        r == first_paren_chars(items.deep_view().flatten()),
{
    let ghost all = items.deep_view();
    let mut i: usize = 0;
    while i < items.len()
        invariant
            i <= all.len(),
            all == items.deep_view(),
            first_paren_chars(all.subrange(0, i as int).flatten()) == None::<char>,
            forall|q: int, j: int|
                0 <= q < i && 0 <= j < all[q].len() ==> !is_paren(#[trigger] all[q][j]),
        decreases all.len() - i,
    {
        let cs = chars_of(items[i].as_str());
        proof {
            assert(cs@ == all[i as int]);
        }
        let mut j: usize = 0;
        while j < cs.len()
            invariant
                j <= cs@.len(),
                cs@ == all[i as int],
                all == items.deep_view(),
                0 <= i < all.len(),
                first_paren_chars(all.subrange(0, i as int).flatten()) == None::<char>,
                forall|q: int| 0 <= q < j ==> !is_paren(#[trigger] cs@[q]),
            decreases cs@.len() - j,
        {
            let c = cs[j];
            if c == '(' || c == ')' {
                proof {
                    lemma_first_paren_found(cs@, j as int);
                    let prefix = all.subrange(0, i as int);
                    let rest = all.subrange(i as int, all.len() as int);
                    assert(all =~= prefix + rest);
                    lemma_flatten_concat(prefix, rest);
                    assert(rest =~= seq![all[i as int]] + all.subrange(
                        i + 1,
                        all.len() as int,
                    ));
                    lemma_flatten_concat(
                        seq![all[i as int]],
                        all.subrange(i + 1, all.len() as int),
                    );
                    seq![all[i as int]].lemma_flatten_singleton();
                    crate::text::lemma_first_paren_concat(prefix.flatten(), rest.flatten());
                    crate::text::lemma_first_paren_concat(
                        all[i as int],
                        all.subrange(i + 1, all.len() as int).flatten(),
                    );
                }
                return Some(c);
            }
            j += 1;
        }
        proof {
            lemma_first_paren_none(cs@);
            let prefix = all.subrange(0, i as int);
            assert(all.subrange(0, i + 1) =~= prefix.push(all[i as int]));
            prefix.lemma_flatten_push(all[i as int]);
            crate::text::lemma_first_paren_concat(prefix.flatten(), all[i as int]);
        }
        i += 1;
    }
    proof {
        assert(all.subrange(0, all.len() as int) =~= all);
    }
    None
}

/// The first `(` or `)` in the concatenated characters of `items`, scanning
/// backward from the end, or nothing.
pub fn find_last_paren(items: &Vec<String>) -> (r: Option<char>)
    ensures
        r == last_paren_chars(items.deep_view().flatten()),
{
    let ghost all = items.deep_view();
    let mut i: usize = items.len();
    while i > 0
        invariant
            i <= all.len(),
            all == items.deep_view(),
            last_paren_chars(all.subrange(i as int, all.len() as int).flatten())
                == None::<char>,
        decreases i,
    {
        i -= 1;
        let cs = chars_of(items[i].as_str());
        proof {
            assert(cs@ == all[i as int]);
        }
        let mut j: usize = cs.len();
        while j > 0
            invariant
                j <= cs@.len(),
                cs@ == all[i as int],
                all == items.deep_view(),
                0 <= i < all.len(),
                last_paren_chars(all.subrange(i + 1, all.len() as int).flatten())
                    == None::<char>,
                forall|q: int| j <= q < cs@.len() ==> !is_paren(#[trigger] cs@[q]),
            decreases j,
        {
            j -= 1;
            let c = cs[j];
            if c == '(' || c == ')' {
                proof {
                    lemma_last_paren_found(cs@, j as int);
                    let prefix = all.subrange(0, i as int);
                    let suffix = all.subrange(i + 1, all.len() as int);
                    assert(all =~= (prefix + seq![all[i as int]]) + suffix);
                    lemma_flatten_concat(prefix + seq![all[i as int]], suffix);
                    lemma_flatten_concat(prefix, seq![all[i as int]]);
                    seq![all[i as int]].lemma_flatten_singleton();
                    crate::text::lemma_last_paren_concat(
                        (prefix + seq![all[i as int]]).flatten(),
                        suffix.flatten(),
                    );
                    crate::text::lemma_last_paren_concat(prefix.flatten(), all[i as int]);
                }
                return Some(c);
            }
        }
        proof {
            lemma_last_paren_none(cs@);
            let suffix = all.subrange(i + 1, all.len() as int);
            assert(all.subrange(i as int, all.len() as int) =~= seq![all[i as int]] + suffix);
            lemma_flatten_concat(seq![all[i as int]], suffix);
            seq![all[i as int]].lemma_flatten_singleton();
            crate::text::lemma_last_paren_concat(all[i as int], suffix.flatten());
        }
    }
    proof {
        assert(all.subrange(0, all.len() as int) =~= all);
    }
    None
}

/// Apply the parenthesis repair to a token fragment.
pub fn string_w_para(queries: &Vec<String>) -> (r: Vec<String>)
    ensures
        r.deep_view() == repaired(queries.deep_view()),
{
    let ghost ts = queries.deep_view();
    let mut quer = copy_strings(queries);
    let fp = find_first_paren(queries);
    let prepend = match fp {
        Some(c) => c == ')',
        None => false,
    };
    if prepend {
        quer.insert(0, String::from_str("("));
    }
    let lp = find_last_paren(queries);
    let append = match lp {
        Some(c) => c == '(',
        None => false,
    };
    if append {
        quer.push(String::from_str(")"));
    }
    proof {
        reveal_strlit("(");
        reveal_strlit(")");
        assert("("@ =~= seq!['(']);
        assert(")"@ =~= seq![')']);
        assert(quer.deep_view() =~= repaired(ts));
    }
    quer
}

/// Join tokens with single spaces and terminate with `;`.
fn join_tokens(v: &Vec<String>) -> (r: String)
    ensures
        r@ == statement_of_tokens(v.deep_view()),
{
    let ghost all = v.deep_view();
    let mut s = String::new();
    let mut i: usize = 0;
    while i < v.len()
        invariant
            i <= all.len(),
            all == v.deep_view(),
            s@ == join_texts(all.subrange(0, i as int), seq![' ']),
        decreases all.len() - i,
    {
        if i > 0 {
            s.append(" ");
        }
        s.append(v[i].as_str());
        proof {
            reveal_strlit(" ");
            assert(" "@ =~= seq![' ']);
            assert(all.subrange(0, i + 1) =~= all.subrange(0, i as int).push(all[i as int]));
            lemma_join_push(all.subrange(0, i as int), seq![' '], all[i as int]);
        }
        i += 1;
    }
    proof {
        assert(all.subrange(0, all.len() as int) =~= all);
    }
    let n = s.unicode_len();
    if n > 0 {
        let c = s.as_str().get_char(n - 1);
        if c == ';' {
            return s;
        }
    }
    let ghost j = s@;
    s.append(";");
    proof {
        reveal_strlit(";");
        assert(s@ =~= j.push(';'));
    }
    s
}

/// The whole-script candidate text for an (already repaired) token
/// fragment: the fragment's statement text spliced into slot `index` of
/// the script.
fn spliced_candidate(tokens: &Vec<String>, index: usize, original_query: &Vec<String>) -> (r:
    String)
    requires
        index < original_query@.len(),
    ensures
        r@ == tokens_candidate(
            original_query.deep_view(),
            index as int,
            tokens.deep_view(),
        ),
{
    let joined = join_tokens(tokens);
    let ghost jv = joined@;
    let mut spliced = copy_strings(original_query);
    spliced[index] = joined;
    proof {
        assert(spliced.deep_view() =~= original_query.deep_view().update(
            index as int,
            statement_of_tokens(tokens.deep_view()),
        ));
    }
    let out = vec_statement_to_string(&spliced, ";");
    proof {
        lemma_script_of_strings(&spliced);
    }
    out
}

/// The 1-minimality sweep at token granularity: remove single tokens whose
/// removal keeps the spliced whole script interesting, until none does.
fn sweep_tokens<O: Oracle>(
    tokens: &Vec<String>,
    index: usize,
    original_query: &Vec<String>,
    oracle: &O,
) -> (r: Result<Vec<String>, OracleError>)
    requires
        index < original_query@.len(),
    ensures
        tokens@.len() == 0 ==> r is Ok,
        r matches Ok(v) ==> {
            &&& v@.len() <= tokens@.len()
            &&& is_subseq_of(word_tokens(v.deep_view()), word_tokens(tokens.deep_view()))
            &&& one_minimal_tokens(
                *oracle,
                original_query.deep_view(),
                index as int,
                v.deep_view(),
            )
            &&& (v.deep_view() == tokens.deep_view() || oracle.judges(
                tokens_candidate(
                    original_query.deep_view(),
                    index as int,
                    repaired(v.deep_view()),
                ),
            ))
            &&& (one_minimal_tokens(
                *oracle,
                original_query.deep_view(),
                index as int,
                tokens.deep_view(),
            ) ==> v.deep_view() == tokens.deep_view())
        },
    decreases tokens@.len(),
{
    let ghost orig = original_query.deep_view();
    let current = copy_strings(tokens);
    let mut i: usize = 0;
    while i < current.len()
        invariant
            index < original_query@.len(),
            orig == original_query.deep_view(),
            current.deep_view() == tokens.deep_view(),
            current@.len() == tokens@.len(),
            i <= current@.len(),
            forall|k: int|
                0 <= k < i ==> !oracle.judges(
                    tokens_candidate(
                        orig,
                        index as int,
                        repaired(#[trigger] tokens.deep_view().remove(k)),
                    ),
                ),
        decreases current@.len() - i,
    {
        let mut truncated = copy_strings(&current);
        truncated.remove(i);
        proof {
            assert(truncated.deep_view() =~= tokens.deep_view().remove(i as int));
        }
        let rep = string_w_para(&truncated);
        let input = spliced_candidate(&rep, index, original_query);
        match oracle.check(&input) {
            Ok(true) => {
                proof {
                    if one_minimal_tokens(*oracle, orig, index as int, tokens.deep_view()) {
                        assert(!oracle.judges(
                            tokens_candidate(
                                orig,
                                index as int,
                                repaired(tokens.deep_view().remove(i as int)),
                            ),
                        ));
                    }
                    crate::delta_debug::lemma_subseq_remove(tokens.deep_view(), i as int);
                    lemma_subseq_word_mono(truncated.deep_view(), tokens.deep_view());
                }
                let rec = sweep_tokens(&truncated, index, original_query, oracle);
                proof {
                    if rec is Ok {
                        crate::delta_debug::lemma_subseq_trans(
                            word_tokens(rec->Ok_0.deep_view()),
                            word_tokens(truncated.deep_view()),
                            word_tokens(tokens.deep_view()),
                        );
                    }
                }
                return rec;
            },
            Ok(false) => {},
            Err(e) => {
                return Err(e);
            },
        }
        i += 1;
    }
    proof {
        crate::delta_debug::lemma_subseq_refl(word_tokens(current.deep_view()));
    }
    Ok(current)
}

/// The token-level sweep, rendered: sweep to a 1-minimal token fragment,
/// repair it, and return its statement text.
pub fn find_one_minimal<O: Oracle>(
    statements: &Vec<String>,
    index: usize,
    original_query: &Vec<String>,
    oracle: &O,
) -> (r: Result<String, OracleError>)
    requires
        index < original_query@.len(),
    ensures
        statements@.len() == 0 ==> r is Ok,
        r matches Ok(s) ==> exists|kept: Seq<Seq<char>>|
            {
                &&& kept.len() <= statements@.len()
                &&& is_subseq_of(word_tokens(kept), word_tokens(statements.deep_view()))
                &&& s@ == statement_of_tokens(#[trigger] repaired(kept))
                &&& one_minimal_tokens(*oracle, original_query.deep_view(), index as int, kept)
                &&& (kept == statements.deep_view() || oracle.judges(
                    tokens_candidate(
                        original_query.deep_view(),
                        index as int,
                        repaired(kept),
                    ),
                ))
            },
{
    match sweep_tokens(statements, index, original_query, oracle) {
        Ok(v) => {
            let rep = string_w_para(&v);
            let out = join_tokens(&rep);
            proof {
                let kept = v.deep_view();
                assert(out@ == statement_of_tokens(repaired(kept)));
            }
            Ok(out)
        },
        Err(e) => Err(e),
    }
}

/// Token-level delta debugging for the statement at `index` of
/// `original_query`: the ddmin loop over the statement's tokens with
/// parenthesis repair before every test, followed by the 1-minimality
/// sweep.  Every tested candidate is the whole script with the repaired
/// fragment spliced into slot `index`; the kept fragment's
/// non-parenthesis tokens are drawn from the input tokens in order.
pub fn bruteforce_delta_debug<O: Oracle>(
    data: Vec<String>,
    granularity: usize,
    index: usize,
    original_query: &Vec<String>,
    oracle: &O,
) -> (r: Result<String, OracleError>)
    requires
        index < original_query@.len(),
    ensures
        data@.len() == 0 ==> r is Ok,
        r matches Ok(s) ==> exists|kept: Seq<Seq<char>>|
            {
                &&& kept.len() <= data@.len()
                &&& is_subseq_of(word_tokens(kept), word_tokens(data.deep_view()))
                &&& s@ == statement_of_tokens(#[trigger] repaired(kept))
                &&& one_minimal_tokens(*oracle, original_query.deep_view(), index as int, kept)
                &&& (kept == data.deep_view() || oracle.judges(
                    tokens_candidate(
                        original_query.deep_view(),
                        index as int,
                        repaired(kept),
                    ),
                ))
            },
{
    let ghost orig = original_query.deep_view();
    let ghost start = data.deep_view();
    let mut current = data;
    let mut granularity = granularity;
    proof {
        crate::delta_debug::lemma_subseq_refl(word_tokens(start));
    }
    while granularity > 1 && granularity <= current.len()
        invariant
            index < original_query@.len(),
            orig == original_query.deep_view(),
            start == data.deep_view(),
            start.len() == data@.len(),
            current@.len() <= start.len(),
            current.deep_view().len() == current@.len(),
            is_subseq_of(word_tokens(current.deep_view()), word_tokens(start)),
            current.deep_view() == start || oracle.judges(
                tokens_candidate(orig, index as int, repaired(current.deep_view())),
            ),
        decreases current@.len(), 2 * current@.len() - granularity,
    {
        let ghost round = current.deep_view();
        let ghost g0 = granularity;
        let tests = split_tests(&current, granularity);
        let mut reduced = false;
        let mut ci: usize = 0;
        while ci < tests.len()
            invariant_except_break
                !reduced,
                current.deep_view() == round,
            invariant
                index < original_query@.len(),
                orig == original_query.deep_view(),
                start == data.deep_view(),
                start.len() == data@.len(),
                ci <= tests@.len(),
                2 <= g0 <= round.len(),
                round.len() <= start.len(),
                is_subseq_of(word_tokens(round), word_tokens(start)),
                is_subseq_of(word_tokens(current.deep_view()), word_tokens(start)),
                round == start || oracle.judges(
                    tokens_candidate(orig, index as int, repaired(round)),
                ),
                tests.deep_view().len() == g0,
                tests.deep_view().flatten() == round,
                reduced ==> current@.len() < round.len() && oracle.judges(
                    tokens_candidate(orig, index as int, repaired(current.deep_view())),
                ),
                !reduced ==> granularity == g0,
                granularity >= 1,
                current.deep_view().len() == current@.len(),
            ensures
                reduced ==> current@.len() < round.len() && oracle.judges(
                    tokens_candidate(orig, index as int, repaired(current.deep_view())),
                ),
                !reduced ==> current.deep_view() == round && granularity == g0,
            decreases tests@.len() - ci,
        {
            let chunk = &tests[ci];
            proof {
                assert(chunk.deep_view() == tests.deep_view()[ci as int]);
            }
            let nabla_raw = get_nabla(&current, chunk);
            let delta = string_w_para(chunk);
            let nabla = string_w_para(&nabla_raw);
            if delta.len() >= current.len() || nabla.len() >= current.len() {
                break ;
            }
            let input_delta = spliced_candidate(&delta, index, original_query);
            let input_nabla = spliced_candidate(&nabla, index, original_query);
            match oracle.check(&input_delta) {
                Err(e) => {
                    return Err(e);
                },
                Ok(true) => {
                    proof {
                        lemma_repair_idempotent(chunk.deep_view());
                        crate::delta_debug::lemma_chunk_split(&tests, round, ci as int);
                        crate::delta_debug::lemma_subseq_embed(
                            tests.deep_view().subrange(0, ci as int).flatten(),
                            tests.deep_view()[ci as int],
                            tests.deep_view().subrange(
                                ci + 1,
                                tests.deep_view().len() as int,
                            ).flatten(),
                        );
                        lemma_subseq_word_mono(chunk.deep_view(), round);
                        lemma_repair_word_tokens(chunk.deep_view());
                        crate::delta_debug::lemma_subseq_trans(
                            word_tokens(repaired(chunk.deep_view())),
                            word_tokens(round),
                            word_tokens(start),
                        );
                    }
                    current = delta;
                    reduced = true;
                    break ;
                },
                Ok(false) => {
                    match oracle.check(&input_nabla) {
                        Err(e) => {
                            return Err(e);
                        },
                        Ok(true) => {
                            proof {
                                lemma_repair_idempotent(nabla_raw.deep_view());
                                let pred = |x: Seq<char>| !chunk.deep_view().contains(x);
                                crate::delta_debug::lemma_subseq_filter(round, pred);
                                lemma_subseq_word_mono(nabla_raw.deep_view(), round);
                                lemma_repair_word_tokens(nabla_raw.deep_view());
                                crate::delta_debug::lemma_subseq_trans(
                                    word_tokens(repaired(nabla_raw.deep_view())),
                                    word_tokens(round),
                                    word_tokens(start),
                                );
                            }
                            current = nabla;
                            granularity = granularity - 1;
                            reduced = true;
                            break ;
                        },
                        Ok(false) => {},
                    }
                },
            }
            ci += 1;
        }
        if !reduced {
            if granularity <= current.len() / 2 {
                granularity = granularity * 2;
            } else {
                break ;
            }
        }
    }
    let result = find_one_minimal(&current, index, original_query, oracle);
    proof {
        if result is Ok {
            let s = result->Ok_0;
            let kept = choose|kept: Seq<Seq<char>>|
                {
                    &&& kept.len() <= current@.len()
                    &&& is_subseq_of(word_tokens(kept), word_tokens(current.deep_view()))
                    &&& s@ == statement_of_tokens(#[trigger] repaired(kept))
                    &&& one_minimal_tokens(*oracle, orig, index as int, kept)
                    &&& (kept == current.deep_view() || oracle.judges(
                        tokens_candidate(orig, index as int, repaired(kept)),
                    ))
                };
            assert(kept.len() <= start.len());
            crate::delta_debug::lemma_subseq_trans(
                word_tokens(kept),
                word_tokens(current.deep_view()),
                word_tokens(start),
            );
        }
    }
    result
}

} // verus!
