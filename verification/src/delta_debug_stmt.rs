//! Table-granularity search: delta-inclusion debugging.
//!
//! Rather than shrinking a failing set, this search grows a `base` of table
//! names whose removal keeps the script interesting, against a `remaining`
//! pool of unclassified names.  Each round splits `remaining` into chunks
//! and tries committing a chunk (or keeping only its complement); on
//! success the granularity grows, on stagnation it is refined by one, and a
//! final single-name sweep classifies whatever is left.

use crate::delta_debug::chunk_len;
use crate::delta_debug::lemma_chunk_split;
use crate::delta_debug::get_nabla;
use crate::oracle::Oracle;
use crate::oracle::OracleError;
use crate::reducer::remove_tables_in_place;
use crate::reducer::remove_tables_list;
use crate::statements::types::Statement;
use crate::statements::types::view_stmts;
use crate::utils::copy_strings;
use crate::utils::script_of;
use crate::utils::vec_statement_to_string;
use vstd::prelude::*;

pub use crate::delta_debug::split_tests;

verus! {

/// The statement texts of a statement list.
pub open spec fn texts_of_stmts(v: Seq<crate::statements::types::StmtV>) -> Seq<Seq<char>> {
    crate::parser::originals_of(v)
}

/// The script obtained by removing the tables `ts` from `query`.
pub open spec fn removed_script(ts: Seq<Seq<char>>, query: Seq<crate::statements::types::StmtV>) -> Seq<
    char,
> {
    script_of(texts_of_stmts(remove_tables_list(ts, query)))
}

/// A witness that the name `x` was tried and rejected: some tried set `c`
/// containing `x`, drawn from the input names, was tested together with a
/// then-current prefix `b` of the committed result, and the oracle
/// rejected the script with `b + c` removed.
pub open spec fn tried_and_rejected<O: Oracle>(
    o: O,
    x: Seq<char>,
    base: Seq<Seq<char>>,
    data: Seq<Seq<char>>,
    query: Seq<crate::statements::types::StmtV>,
) -> bool {
    exists|b: Seq<Seq<char>>, c: Seq<Seq<char>>|
        {
            &&& b.is_prefix_of(base)
            &&& c.contains(x)
            &&& (forall|j: int| 0 <= j < c.len() ==> data.contains(#[trigger] c[j]))
            &&& !(#[trigger] o.judges(removed_script(b + c, query)))
        }
}

/// A rejection witness survives any later growth of the committed result.
proof fn lemma_rejected_extends<O: Oracle>(
    o: O,
    x: Seq<char>,
    base: Seq<Seq<char>>,
    base2: Seq<Seq<char>>,
    data: Seq<Seq<char>>,
    query: Seq<crate::statements::types::StmtV>,
)
    requires
        tried_and_rejected(o, x, base, data, query),
        base.is_prefix_of(base2),
    ensures
        tried_and_rejected(o, x, base2, data, query),
{
    let (b, c) = choose|b: Seq<Seq<char>>, c: Seq<Seq<char>>|
        {
            &&& b.is_prefix_of(base)
            &&& c.contains(x)
            &&& (forall|j: int| 0 <= j < c.len() ==> data.contains(#[trigger] c[j]))
            &&& !(#[trigger] o.judges(removed_script(b + c, query)))
        };
    assert(b =~= base2.subrange(0, b.len() as int));
    assert(b.is_prefix_of(base2));
}

/// The elements of `haystack` that are not in `needles`, in order; every
/// copy of a value present in `needles` is excluded.
#[verifier::loop_isolation(false)]
pub fn difference(haystack: &Vec<String>, needles: &Vec<String>) -> (r: Vec<String>)
    ensures
        r.deep_view() == haystack.deep_view().filter(
            |x: Seq<char>| !needles.deep_view().contains(x),
        ),
{
    get_nabla(haystack, needles)
}

/// Everything the filter removes when the removed values fill a chunk of
/// the sequence: the result is shorter by at least the chunk's length.
proof fn lemma_difference_shrinks(
    data: Seq<Seq<char>>,
    before: Seq<Seq<char>>,
    chunk: Seq<Seq<char>>,
    after: Seq<Seq<char>>,
    pred: spec_fn(Seq<char>) -> bool,
)
    requires
        data == before + chunk + after,
        forall|j: int| 0 <= j < chunk.len() ==> !pred(#[trigger] chunk[j]),
    ensures
        data.filter(pred).len() <= data.len() - chunk.len(),
{
    broadcast use Seq::filter_distributes_over_add;

    assert(data.filter(pred) == (before + chunk).filter(pred) + after.filter(pred));
    assert((before + chunk).filter(pred) == before.filter(pred) + chunk.filter(pred));
    lemma_filter_all_out(chunk, pred);
    before.lemma_filter_len(pred);
    after.lemma_filter_len(pred);
}

/// A filter that rejects every element yields the empty sequence.
proof fn lemma_filter_all_out<V>(s: Seq<V>, pred: spec_fn(V) -> bool)
    requires
        forall|j: int| 0 <= j < s.len() ==> !pred(#[trigger] s[j]),
    ensures
        s.filter(pred).len() == 0,
    decreases s.len(),
{
    reveal(Seq::filter);
    if s.len() > 0 {
        assert(forall|j: int| 0 <= j < s.len() - 1 ==> s.drop_last()[j] == s[j]);
        lemma_filter_all_out(s.drop_last(), pred);
    }
}

/// Twice `g`, capped at the largest representable value.
#[verifier::loop_isolation(false)]
fn double_sat(g: usize) -> (r: usize)
    ensures
        r >= g,
{
    if g <= usize::MAX / 2 {
        g * 2
    } else {
        usize::MAX
    }
}

/// Build `base ++ chunk` as a fresh vector.
#[verifier::loop_isolation(false)]
fn concat_strings(base: &Vec<String>, chunk: &Vec<String>) -> (r: Vec<String>)
    ensures
        r.deep_view() == base.deep_view() + chunk.deep_view(),
{
    let mut r = copy_strings(base);
    proof {
        assert(r.deep_view() =~= base.deep_view() + chunk.deep_view().subrange(0, 0));
    }
    let mut i: usize = 0;
    while i < chunk.len()
        invariant
            i <= chunk@.len(),
            r.deep_view() == base.deep_view() + chunk.deep_view().subrange(0, i as int),
        decreases chunk@.len() - i,
    {
        let ghost prev = r.deep_view();
        r.push(chunk[i].clone());
        proof {
            assert(r.deep_view() =~= prev.push(chunk.deep_view()[i as int]));
            assert(chunk.deep_view().subrange(0, i + 1) =~= chunk.deep_view().subrange(
                0,
                i as int,
            ).push(chunk.deep_view()[i as int]));
            assert((base.deep_view() + chunk.deep_view().subrange(0, i as int)).push(
                chunk.deep_view()[i as int],
            ) =~= base.deep_view() + chunk.deep_view().subrange(0, i as int).push(
                chunk.deep_view()[i as int],
            ));
        }
        i += 1;
    }
    proof {
        assert(chunk.deep_view().subrange(0, chunk@.len() as int) =~= chunk.deep_view());
    }
    r
}

/// Delta-inclusion search over table names: find a (greedy) maximal subset
/// of `data` whose removal from `query` the oracle still calls
/// interesting.
///
/// Every name in the result came from `data` (and no more often than it
/// occurs there); a non-empty result was verified by the oracle at the
/// moment of its last commit; every input name left out of the result
/// took part in at least one oracle-rejected trial over a then-current
/// prefix of the result, so nothing removable is silently dropped; a
/// duplicate-free input yields a duplicate-free result.  An empty input
/// needs no oracle and succeeds.
pub fn delta_debug_stmt<O: Oracle>(
    data: Vec<String>,
    granularity: usize,
    query: &Vec<Statement>,
    oracle: &O,
) -> (r: Result<Vec<String>, OracleError>)
    requires
        granularity >= 1,
    ensures
        data@.len() == 0 ==> r is Ok,
        r matches Ok(base) ==> {
            &&& base@.len() <= data@.len()
            &&& (forall|x: Seq<char>|
                base.deep_view().contains(x) ==> data.deep_view().contains(x))
            &&& (base@.len() == 0 || oracle.judges(
                removed_script(base.deep_view(), view_stmts(query@)),
            ))
            &&& (forall|x: Seq<char>|
                data.deep_view().contains(x) && !base.deep_view().contains(x)
                    ==> tried_and_rejected(
                    *oracle,
                    x,
                    base.deep_view(),
                    data.deep_view(),
                    view_stmts(query@),
                ))
            &&& (forall|x: Seq<char>|
                base.deep_view().to_multiset().count(x)
                    <= data.deep_view().to_multiset().count(x))
            &&& (data.deep_view().no_duplicates() ==> base.deep_view().no_duplicates())
        },
{
    let ghost all = data.deep_view();
    let mut base: Vec<String> = Vec::new();
    let mut remaining = data;
    let mut granularity = granularity;
    proof {
        broadcast use vstd::seq_lib::group_to_multiset_ensures;

        assert(base.deep_view() =~= Seq::<Seq<char>>::empty());
        assert forall|x: Seq<char>| base.deep_view().to_multiset().count(x) == 0 by {
            if base.deep_view().to_multiset().count(x) > 0 {
                assert(base.deep_view().contains(x));
            }
        }
    }
    while remaining.len() > 0 && granularity <= remaining.len()
        invariant
            granularity >= 1,
            all == data.deep_view(),
            all.len() == data@.len(),
            base@.len() + remaining@.len() <= all.len(),
            base.deep_view().len() == base@.len(),
            remaining.deep_view().len() == remaining@.len(),
            forall|x: Seq<char>| base.deep_view().contains(x) ==> all.contains(x),
            forall|x: Seq<char>| remaining.deep_view().contains(x) ==> all.contains(x),
            base@.len() == 0 || oracle.judges(
                removed_script(base.deep_view(), view_stmts(query@)),
            ),
            forall|x: Seq<char>|
                all.contains(x) && !base.deep_view().contains(x)
                    && !remaining.deep_view().contains(x) ==> tried_and_rejected(
                    *oracle,
                    x,
                    base.deep_view(),
                    all,
                    view_stmts(query@),
                ),
            all.no_duplicates() ==> base.deep_view().no_duplicates()
                && remaining.deep_view().no_duplicates() && base.deep_view().disjoint(
                remaining.deep_view(),
            ),
            forall|x: Seq<char>|
                base.deep_view().to_multiset().count(x)
                    + remaining.deep_view().to_multiset().count(x) <= all.to_multiset().count(
                    x,
                ),
        decreases remaining@.len(), remaining@.len() + 1 - granularity,
    {
        let ghost round = remaining.deep_view();
        let ghost g0 = granularity;
        let tests = split_tests(&remaining, granularity);
        let mut progressed = false;
        let mut ci: usize = 0;
        while ci < tests.len()
            invariant_except_break
                !progressed,
                remaining.deep_view() == round,
                granularity == g0,
                base@.len() + round.len() <= all.len(),
                forall|x: Seq<char>| base.deep_view().contains(x) ==> all.contains(x),
                base@.len() == 0 || oracle.judges(
                    removed_script(base.deep_view(), view_stmts(query@)),
                ),
            invariant
                all == data.deep_view(),
                all.len() == data@.len(),
                ci <= tests@.len(),
                1 <= g0 <= round.len(),
                granularity >= 1,
                base.deep_view().len() == base@.len(),
                remaining.deep_view().len() == remaining@.len(),
                forall|x: Seq<char>| round.contains(x) ==> all.contains(x),
                tests.deep_view().len() == g0,
                tests.deep_view().flatten() == round,
                forall|k: int|
                    0 <= k < g0 ==> (#[trigger] tests.deep_view()[k]).len() == chunk_len(
                        round.len() as int,
                        g0 as int,
                        k,
                    ),
                forall|k: int, j: int|
                    0 <= k < g0 && 0 <= j < tests.deep_view()[k].len() ==> round.contains(
                        #[trigger] tests.deep_view()[k][j],
                    ),
                all.no_duplicates() ==> round.no_duplicates(),
                forall|x: Seq<char>|
                    all.contains(x) && !base.deep_view().contains(x)
                        && !remaining.deep_view().contains(x) ==> tried_and_rejected(
                        *oracle,
                        x,
                        base.deep_view(),
                        all,
                        view_stmts(query@),
                    ),
                all.no_duplicates() ==> base.deep_view().no_duplicates()
                    && remaining.deep_view().no_duplicates() && base.deep_view().disjoint(
                    remaining.deep_view(),
                ),
                forall|x: Seq<char>|
                    base.deep_view().to_multiset().count(x)
                        + remaining.deep_view().to_multiset().count(x)
                        <= all.to_multiset().count(x),
            ensures
                progressed ==> {
                    &&& base@.len() + remaining@.len() <= all.len()
                    &&& remaining@.len() < round.len()
                    &&& (forall|x: Seq<char>|
                        remaining.deep_view().contains(x) ==> all.contains(x))
                    &&& (forall|x: Seq<char>|
                        base.deep_view().contains(x) ==> all.contains(x))
                    &&& (base@.len() == 0 || oracle.judges(
                        removed_script(base.deep_view(), view_stmts(query@)),
                    ))
                },
                !progressed ==> {
                    &&& remaining.deep_view() == round
                    &&& granularity == g0
                    &&& base@.len() + round.len() <= all.len()
                    &&& (forall|x: Seq<char>|
                        base.deep_view().contains(x) ==> all.contains(x))
                    &&& (base@.len() == 0 || oracle.judges(
                        removed_script(base.deep_view(), view_stmts(query@)),
                    ))
                },
            decreases tests@.len() - ci,
        {
            let chunk = &tests[ci];
            proof {
                assert(chunk.deep_view() == tests.deep_view()[ci as int]);
                crate::delta_debug::lemma_chunk_covers(round.len() as int, g0 as int, ci as int);
            }
            let trial = concat_strings(&base, chunk);
            proof {
                assert forall|x: Seq<char>|
                    trial.deep_view().contains(x) implies all.contains(x) by {
                    let idx = choose|idx: int|
                        0 <= idx < trial.deep_view().len() && trial.deep_view()[idx] == x;
                    if idx < base.deep_view().len() {
                        assert(base.deep_view()[idx] == x);
                        assert(base.deep_view().contains(x));
                    } else {
                        assert(chunk.deep_view()[idx - base.deep_view().len()] == x);
                        assert(round.contains(x));
                    }
                }
            }
            let tmp = remove_tables_in_place(&trial, query);
            let input = vec_statement_to_string(&tmp, ";");
            proof {
                lemma_statement_script(&tmp);
            }
            match oracle.check(&input) {
                Err(e) => {
                    return Err(e);
                },
                Ok(true) => {
                    proof {
                        lemma_chunk_split(&tests, round, ci as int);
                    }
                    let new_remaining = difference(&remaining, chunk);
                    proof {
                        let pred = |x: Seq<char>| !chunk.deep_view().contains(x);
                        let parts = tests.deep_view();
                        let before_parts = parts.subrange(0, ci as int);
                        let after_parts = parts.subrange(ci + 1, parts.len() as int);
                        assert forall|j: int|
                            0 <= j < chunk.deep_view().len() implies !pred(
                            #[trigger] chunk.deep_view()[j],
                        ) by {
                            assert(chunk.deep_view().contains(chunk.deep_view()[j]));
                        }
                        lemma_difference_shrinks(
                            round,
                            before_parts.flatten(),
                            chunk.deep_view(),
                            after_parts.flatten(),
                            pred,
                        );
                        assert forall|x: Seq<char>|
                            new_remaining.deep_view().contains(x) implies all.contains(x) by {
                            crate::delta_debug::lemma_filter_member(round, pred, x);
                        }
                    }
                    let ghost old_base = base.deep_view();
                    base = trial;
                    remaining = new_remaining;
                    granularity = double_sat(granularity);
                    progressed = true;
                    proof {
                        let qv = view_stmts(query@);
                        let pred = |x: Seq<char>| !chunk.deep_view().contains(x);
                        let nb = base.deep_view();
                        assert(nb == old_base + chunk.deep_view());
                        assert(old_base.is_prefix_of(nb)) by {
                            assert(old_base =~= nb.subrange(0, old_base.len() as int));
                        }
                        assert forall|x: Seq<char>|
                            all.contains(x) && !nb.contains(x)
                                && !remaining.deep_view().contains(x) implies tried_and_rejected(
                            *oracle,
                            x,
                            nb,
                            all,
                            qv,
                        ) by {
                            if round.contains(x) {
                                let k = choose|k: int|
                                    0 <= k < round.len() && round[k] == x;
                                if pred(x) {
                                    round.lemma_filter_contains(pred, k);
                                    assert(remaining.deep_view().contains(x));
                                } else {
                                    let j = choose|j: int|
                                        0 <= j < chunk.deep_view().len()
                                            && chunk.deep_view()[j] == x;
                                    assert(nb[old_base.len() + j] == x);
                                    assert(nb.contains(x));
                                }
                            } else {
                                assert(!old_base.contains(x)) by {
                                    if old_base.contains(x) {
                                        let j = choose|j: int|
                                            0 <= j < old_base.len() && old_base[j] == x;
                                        assert(nb[j] == x);
                                        assert(nb.contains(x));
                                    }
                                }
                                lemma_rejected_extends(*oracle, x, old_base, nb, all, qv);
                            }
                        }
                        broadcast use vstd::seq_lib::group_to_multiset_ensures;
                        broadcast use vstd::seq_lib::lemma_multiset_commutative;
                        broadcast use Seq::filter_distributes_over_add;

                        assert forall|x: Seq<char>|
                            nb.to_multiset().count(x)
                                + remaining.deep_view().to_multiset().count(x)
                                <= all.to_multiset().count(x) by {
                            let parts = tests.deep_view();
                            let bf = parts.subrange(0, ci as int).flatten();
                            let af = parts.subrange(ci + 1, parts.len() as int).flatten();
                            let cd = chunk.deep_view();
                            assert(nb.to_multiset() == old_base.to_multiset().add(
                                cd.to_multiset(),
                            ));
                            assert(round.to_multiset() == (bf + cd).to_multiset().add(
                                af.to_multiset(),
                            ));
                            assert((bf + cd).to_multiset() == bf.to_multiset().add(
                                cd.to_multiset(),
                            ));
                            assert(remaining.deep_view() == round.filter(pred));
                            assert(round.filter(pred) == (bf + cd).filter(pred) + af.filter(
                                pred,
                            ));
                            assert((bf + cd).filter(pred) == bf.filter(pred) + cd.filter(
                                pred,
                            ));
                            lemma_filter_all_out(cd, pred);
                            assert forall|y: Seq<char>|
                                cd.filter(pred).to_multiset().count(y) == 0 by {
                                if cd.filter(pred).to_multiset().count(y) > 0 {
                                    assert(cd.filter(pred).contains(y));
                                }
                            }
                            crate::delta_debug::lemma_filter_ms_count(bf, pred, x);
                            crate::delta_debug::lemma_filter_ms_count(af, pred, x);
                            assert(remaining.deep_view().to_multiset() == (bf + cd).filter(
                                pred,
                            ).to_multiset().add(af.filter(pred).to_multiset()));
                            assert((bf + cd).filter(pred).to_multiset() == bf.filter(
                                pred,
                            ).to_multiset().add(cd.filter(pred).to_multiset()));
                        }
                        if all.no_duplicates() {
                            let parts = tests.deep_view();
                            let bf = parts.subrange(0, ci as int).flatten();
                            let af = parts.subrange(ci + 1, parts.len() as int).flatten();
                            let cd = chunk.deep_view();
                            assert forall|p: int, q: int|
                                0 <= p < cd.len() && 0 <= q < cd.len() && p != q implies cd[p]
                                != cd[q] by {
                                assert(round[bf.len() + p] == cd[p]);
                                assert(round[bf.len() + q] == cd[q]);
                            }
                            assert(cd.no_duplicates());
                            assert forall|p: int, q: int|
                                0 <= p < nb.len() && 0 <= q < nb.len() && p != q implies nb[p]
                                != nb[q] by {
                                if p < old_base.len() && q >= old_base.len() {
                                    assert(round.contains(cd[q - old_base.len()]));
                                } else if q < old_base.len() && p >= old_base.len() {
                                    assert(round.contains(cd[p - old_base.len()]));
                                }
                            }
                            crate::delta_debug::lemma_filter_no_dup(round, pred);
                            assert forall|p: int, q: int|
                                0 <= p < nb.len() && 0 <= q < remaining.deep_view().len()
                                implies nb[p] != remaining.deep_view()[q] by {
                                let y = remaining.deep_view()[q];
                                crate::delta_debug::lemma_filter_member(round, pred, y);
                                if p < old_base.len() {
                                    assert(old_base[p] == nb[p]);
                                } else {
                                    assert(cd.contains(cd[p - old_base.len()]));
                                }
                            }
                            assert(nb.disjoint(remaining.deep_view()));
                        }
                    }
                    break ;
                },
                Ok(false) => {
                    let complement = difference(&remaining, chunk);
                    let trial2 = concat_strings(&base, &complement);
                    let tmp2 = remove_tables_in_place(&trial2, query);
                    let input2 = vec_statement_to_string(&tmp2, ";");
                    proof {
                        lemma_statement_script(&tmp2);
                    }
                    match oracle.check(&input2) {
                        Err(e) => {
                            return Err(e);
                        },
                        Ok(true) => {
                            proof {
                                lemma_chunk_split(&tests, round, ci as int);
                                let pred = |x: Seq<char>| !chunk.deep_view().contains(x);
                                let parts = tests.deep_view();
                                let before_parts = parts.subrange(0, ci as int);
                                let after_parts = parts.subrange(ci + 1, parts.len() as int);
                                assert forall|j: int|
                                    0 <= j < chunk.deep_view().len() implies !pred(
                                    #[trigger] chunk.deep_view()[j],
                                ) by {
                                    assert(chunk.deep_view().contains(chunk.deep_view()[j]));
                                }
                                lemma_difference_shrinks(
                                    round,
                                    before_parts.flatten(),
                                    chunk.deep_view(),
                                    after_parts.flatten(),
                                    pred,
                                );
                                assert forall|x: Seq<char>|
                                    complement.deep_view().contains(x) implies all.contains(
                                    x,
                                ) by {
                                    crate::delta_debug::lemma_filter_member(round, pred, x);
                                }
                            }
                            remaining = complement;
                            granularity = double_sat(granularity);
                            progressed = true;
                            proof {
                                let qv = view_stmts(query@);
                                let pred = |x: Seq<char>| !chunk.deep_view().contains(x);
                                let bd = base.deep_view();
                                assert(!oracle.judges(
                                    removed_script(bd + chunk.deep_view(), qv),
                                )) by {
                                    assert(trial.deep_view() == bd + chunk.deep_view());
                                }
                                assert(bd.is_prefix_of(bd)) by {
                                    assert(bd =~= bd.subrange(0, bd.len() as int));
                                }
                                assert forall|x: Seq<char>|
                                    all.contains(x) && !bd.contains(x)
                                        && !remaining.deep_view().contains(
                                        x,
                                    ) implies tried_and_rejected(*oracle, x, bd, all, qv) by {
                                    if round.contains(x) {
                                        let k = choose|k: int|
                                            0 <= k < round.len() && round[k] == x;
                                        if pred(x) {
                                            round.lemma_filter_contains(pred, k);
                                            assert(remaining.deep_view().contains(x));
                                        } else {
                                            assert(chunk.deep_view().contains(x));
                                            assert(tried_and_rejected(
                                                *oracle,
                                                x,
                                                bd,
                                                all,
                                                qv,
                                            )) by {
                                                assert(forall|j: int|
                                                    0 <= j < chunk.deep_view().len()
                                                        ==> all.contains(
                                                        #[trigger] chunk.deep_view()[j],
                                                    ));
                                            }
                                        }
                                    }
                                }
                                broadcast use vstd::seq_lib::group_to_multiset_ensures;

                                assert forall|x: Seq<char>|
                                    bd.to_multiset().count(x)
                                        + remaining.deep_view().to_multiset().count(x)
                                        <= all.to_multiset().count(x) by {
                                    assert(remaining.deep_view() == round.filter(pred));
                                    crate::delta_debug::lemma_filter_ms_count(round, pred, x);
                                }
                                if all.no_duplicates() {
                                    crate::delta_debug::lemma_filter_no_dup(round, pred);
                                    assert forall|p: int, q: int|
                                        0 <= p < bd.len() && 0 <= q
                                            < remaining.deep_view().len() implies bd[p]
                                        != remaining.deep_view()[q] by {
                                        let y = remaining.deep_view()[q];
                                        crate::delta_debug::lemma_filter_member(round, pred, y);
                                    }
                                    assert(bd.disjoint(remaining.deep_view()));
                                }
                            }
                            break ;
                        },
                        Ok(false) => {},
                    }
                },
            }
            ci += 1;
        }
        if !progressed {
            if granularity < usize::MAX {
                granularity = granularity + 1;
            } else {
                break ;
            }
        }
    }
    // the final sweep: try each remaining name on its own
    let ghost sweep_base = base.deep_view();
    proof {
        broadcast use vstd::seq_lib::group_to_multiset_ensures;

        assert(remaining.deep_view().subrange(0, remaining@.len() as int)
            =~= remaining.deep_view());
        assert(remaining.deep_view().subrange(0, 0) =~= Seq::<Seq<char>>::empty());
        assert forall|x: Seq<char>|
            remaining.deep_view().subrange(0, 0).to_multiset().count(x) == 0 by {
            if remaining.deep_view().subrange(0, 0).to_multiset().count(x) > 0 {
                assert(remaining.deep_view().subrange(0, 0).contains(x));
            }
        }
    }
    let mut i: usize = 0;
    while i < remaining.len()
        invariant
            all == data.deep_view(),
            all.len() == data@.len(),
            i <= remaining@.len(),
            remaining@.len() <= all.len(),
            base@.len() <= all.len() - remaining@.len() + i,
            base.deep_view().len() == base@.len(),
            forall|x: Seq<char>| base.deep_view().contains(x) ==> all.contains(x),
            forall|x: Seq<char>| remaining.deep_view().contains(x) ==> all.contains(x),
            base@.len() == 0 || oracle.judges(
                removed_script(base.deep_view(), view_stmts(query@)),
            ),
            forall|x: Seq<char>|
                all.contains(x) && !base.deep_view().contains(x)
                    && !remaining.deep_view().subrange(
                    i as int,
                    remaining@.len() as int,
                ).contains(x) ==> tried_and_rejected(
                    *oracle,
                    x,
                    base.deep_view(),
                    all,
                    view_stmts(query@),
                ),
            all.no_duplicates() ==> base.deep_view().no_duplicates()
                && remaining.deep_view().no_duplicates() && (forall|j: int|
                i <= j < remaining@.len() ==> !base.deep_view().contains(
                    #[trigger] remaining.deep_view()[j],
                )),
            forall|x: Seq<char>|
                base.deep_view().to_multiset().count(x) <= sweep_base.to_multiset().count(x)
                    + remaining.deep_view().subrange(0, i as int).to_multiset().count(x),
            forall|x: Seq<char>|
                sweep_base.to_multiset().count(x)
                    + remaining.deep_view().to_multiset().count(x) <= all.to_multiset().count(
                    x,
                ),
        decreases remaining@.len() - i,
    {
        let ghost rd = remaining.deep_view();
        let ghost suffix = rd.subrange(i as int, remaining@.len() as int);
        let ghost next_suffix = rd.subrange(i + 1, remaining@.len() as int);
        proof {
            assert(forall|q: int| 0 <= q < suffix.len() ==> suffix[q] == rd[i + q]);
            assert(forall|q: int| 0 <= q < next_suffix.len() ==> next_suffix[q] == rd[i + 1 + q]);
        }
        let mut trial = copy_strings(&base);
        trial.push(remaining[i].clone());
        proof {
            assert(trial.deep_view() =~= base.deep_view().push(
                remaining.deep_view()[i as int],
            ));
        }
        let tmp = remove_tables_in_place(&trial, query);
        let input = vec_statement_to_string(&tmp, ";");
        proof {
            lemma_statement_script(&tmp);
        }
        match oracle.check(&input) {
            Err(e) => {
                return Err(e);
            },
            Ok(true) => {
                proof {
                    assert forall|x: Seq<char>|
                        trial.deep_view().contains(x) implies all.contains(x) by {
                        let idx = choose|idx: int|
                            0 <= idx < trial.deep_view().len() && trial.deep_view()[idx] == x;
                        if idx < base.deep_view().len() {
                            assert(base.deep_view()[idx] == x);
                            assert(base.deep_view().contains(x));
                        } else {
                            assert(x == remaining.deep_view()[i as int]);
                            assert(remaining.deep_view().contains(x));
                        }
                    }
                }
                let ghost old_base = base.deep_view();
                base = trial;
                proof {
                    let qv = view_stmts(query@);
                    let nb = base.deep_view();
                    let val = rd[i as int];
                    assert(nb == old_base.push(val));
                    assert(old_base.is_prefix_of(nb)) by {
                        assert(old_base =~= nb.subrange(0, old_base.len() as int));
                    }
                    assert forall|x: Seq<char>|
                        all.contains(x) && !nb.contains(x) && !next_suffix.contains(
                            x,
                        ) implies tried_and_rejected(*oracle, x, nb, all, qv) by {
                        assert(!old_base.contains(x)) by {
                            if old_base.contains(x) {
                                let j = choose|j: int|
                                    0 <= j < old_base.len() && old_base[j] == x;
                                assert(nb[j] == x);
                            }
                        }
                        assert(x != val) by {
                            assert(nb[old_base.len() as int] == val);
                        }
                        assert(!suffix.contains(x)) by {
                            if suffix.contains(x) {
                                let q = choose|q: int|
                                    0 <= q < suffix.len() && suffix[q] == x;
                                if q == 0 {
                                    assert(suffix[0] == val);
                                } else {
                                    assert(next_suffix[q - 1] == x);
                                }
                            }
                        }
                        lemma_rejected_extends(*oracle, x, old_base, nb, all, qv);
                    }
                    broadcast use vstd::seq_lib::group_to_multiset_ensures;

                    assert forall|x: Seq<char>|
                        nb.to_multiset().count(x) <= sweep_base.to_multiset().count(x)
                            + rd.subrange(0, i + 1).to_multiset().count(x) by {
                        assert(nb.to_multiset() == old_base.to_multiset().insert(val));
                        assert(rd.subrange(0, i + 1) =~= rd.subrange(0, i as int).push(val));
                        assert(rd.subrange(0, i + 1).to_multiset() == rd.subrange(
                            0,
                            i as int,
                        ).to_multiset().insert(val));
                    }
                    if all.no_duplicates() {
                        assert forall|p: int, q: int|
                            0 <= p < nb.len() && 0 <= q < nb.len() && p != q implies nb[p]
                            != nb[q] by {
                            if p == old_base.len() {
                                assert(!old_base.contains(nb[q]) || nb[q] != val);
                                assert(old_base[q] == nb[q]);
                            } else if q == old_base.len() {
                                assert(old_base[p] == nb[p]);
                            }
                        }
                        assert forall|j: int|
                            i + 1 <= j < remaining@.len() implies !nb.contains(
                            #[trigger] remaining.deep_view()[j],
                        ) by {
                            let y = remaining.deep_view()[j];
                            if nb.contains(y) {
                                let p = choose|p: int| 0 <= p < nb.len() && nb[p] == y;
                                if p < old_base.len() {
                                    assert(old_base[p] == y);
                                    assert(old_base.contains(y));
                                } else {
                                    assert(y == val);
                                }
                            }
                        }
                    }
                }
            },
            Ok(false) => {
                proof {
                    let qv = view_stmts(query@);
                    let bd = base.deep_view();
                    let val = rd[i as int];
                    let c = seq![val];
                    assert(!oracle.judges(removed_script(bd + c, qv))) by {
                        assert(trial.deep_view() =~= bd + c);
                    }
                    assert(bd.is_prefix_of(bd)) by {
                        assert(bd =~= bd.subrange(0, bd.len() as int));
                    }
                    assert(c.contains(val)) by {
                        assert(c[0] == val);
                    }
                    assert(forall|j: int| 0 <= j < c.len() ==> all.contains(#[trigger] c[j]))
                        by {
                        assert(rd.contains(val));
                    }
                    assert forall|x: Seq<char>|
                        all.contains(x) && !bd.contains(x) && !next_suffix.contains(
                            x,
                        ) implies tried_and_rejected(*oracle, x, bd, all, qv) by {
                        if suffix.contains(x) {
                            let q = choose|q: int|
                                0 <= q < suffix.len() && suffix[q] == x;
                            if q == 0 {
                                assert(x == val);
                                assert(c.contains(x));
                            } else {
                                assert(next_suffix[q - 1] == x);
                            }
                        }
                    }
                    broadcast use vstd::seq_lib::group_to_multiset_ensures;

                    assert forall|x: Seq<char>|
                        bd.to_multiset().count(x) <= sweep_base.to_multiset().count(x)
                            + rd.subrange(0, i + 1).to_multiset().count(x) by {
                        assert(rd.subrange(0, i + 1) =~= rd.subrange(0, i as int).push(val));
                        assert(rd.subrange(0, i + 1).to_multiset() == rd.subrange(
                            0,
                            i as int,
                        ).to_multiset().insert(val));
                    }
                }
            },
        }
        i += 1;
    }
    proof {
        assert(remaining.deep_view().subrange(
            remaining@.len() as int,
            remaining@.len() as int,
        ) =~= Seq::<Seq<char>>::empty());
        assert(remaining.deep_view().subrange(0, remaining@.len() as int)
            =~= remaining.deep_view());
    }
    Ok(base)
}

/// Rendering a statement list with `";"` yields the script of its texts.
pub proof fn lemma_statement_script(v: &Vec<Statement>)
    ensures
        crate::utils::rendered(crate::utils::texts_of(v@), ";"@) == script_of(
            texts_of_stmts(view_stmts(v@)),
        ),
{
    reveal_strlit(";");
    assert(";"@ =~= seq![';']);
    assert forall|j: int|
        0 <= j < v@.len() implies crate::utils::texts_of(v@)[j] == texts_of_stmts(
        view_stmts(v@),
    )[j] by {
        crate::statements::types::lemma_view_stmts_index(v@, j);
        crate::parser::lemma_originals_index(view_stmts(v@), j);
    }
    crate::statements::types::lemma_view_stmts_len(v@);
    crate::parser::lemma_originals_len(view_stmts(v@));
    assert(crate::utils::texts_of(v@) =~= texts_of_stmts(view_stmts(v@)));
}

} // verus!
