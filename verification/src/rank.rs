//! Ranking of scored documents.
//!
//! After every document has been scored, the engine orders the results by
//! descending relevance. Documents with equal scores keep their original
//! relative order, so the ranking is deterministic: the order is fully
//! determined by the scores and the original positions.

use crate::score::{lemma_score_order, score_eqv, score_lt, Score};
use vstd::prelude::*;

verus! {

/// One ranked result: the zero-based position of the document in the original
/// request's `documents` sequence, and the relevance score the model gave it.
/// The index is preserved through sorting, so a caller can map a result back
/// to its source document.
#[derive(Clone, Copy, Debug, PartialEq, Eq, Structural)]
pub struct RerankerObject {
    pub index: u64,
    pub relevance_score: Score,
}

/// Every score in the sequence is well formed.
pub open spec fn all_wf(s: Seq<RerankerObject>) -> bool {
    forall|k: int| 0 <= k < s.len() ==> (#[trigger] s[k]).relevance_score.wf()
}

/// `a` is ranked strictly ahead of `b`: a strictly higher score, or an equal
/// score and an earlier original position.
pub open spec fn rank_before(a: RerankerObject, b: RerankerObject) -> bool {
    score_lt(b.relevance_score, a.relevance_score) || (score_eqv(
        a.relevance_score,
        b.relevance_score,
    ) && a.index < b.index)
}

/// The sequence is ordered by descending relevance, ties by ascending
/// original position: no element is ranked ahead of an earlier one.
pub open spec fn rank_sorted(s: Seq<RerankerObject>) -> bool {
    forall|i: int, j: int|
        #![trigger s[i], s[j]]
        0 <= i < j < s.len() ==> !rank_before(s[j], s[i])
}

/// Inserts `x` into the already-ranked sequence `s`, directly before the
/// first element that `x` outranks.
pub open spec fn spec_insert(x: RerankerObject, s: Seq<RerankerObject>) -> Seq<RerankerObject>
    decreases s.len(),
{
    if s.len() == 0 {
        seq![x]
    } else if rank_before(x, s[0]) {
        seq![x] + s
    } else {
        seq![s[0]] + spec_insert(x, s.drop_first())
    }
}

/// The ranking of a sequence of scored documents: insertion sort, which is
/// stable, processing the documents in their original order.
pub open spec fn spec_rank(s: Seq<RerankerObject>) -> Seq<RerankerObject>
    decreases s.len(),
{
    if s.len() == 0 {
        Seq::<RerankerObject>::empty()
    } else {
        spec_insert(s.last(), spec_rank(s.drop_last()))
    }
}

/// The rank order inherits transitivity and asymmetry from the score order.
proof fn lemma_rank_order(a: RerankerObject, b: RerankerObject, c: RerankerObject)
    ensures
        rank_before(a, b) && rank_before(b, c) ==> rank_before(a, c),
        !(rank_before(a, b) && rank_before(b, a)),
{
    lemma_score_order(a.relevance_score, b.relevance_score, c.relevance_score);
    lemma_score_order(c.relevance_score, b.relevance_score, a.relevance_score);
    lemma_score_order(b.relevance_score, a.relevance_score, c.relevance_score);
    lemma_score_order(a.relevance_score, c.relevance_score, b.relevance_score);
}

/// Inserting adds one element; every element of the result is `x` or one of
/// the elements of `s`.
proof fn lemma_insert_props(x: RerankerObject, s: Seq<RerankerObject>)
    ensures
        spec_insert(x, s).len() == s.len() + 1,
        forall|k: int|
            0 <= k < spec_insert(x, s).len() ==> (#[trigger] spec_insert(x, s)[k] == x
                || s.contains(spec_insert(x, s)[k])),
    decreases s.len(),
{
    if s.len() == 0 {
    } else if rank_before(x, s[0]) {
    } else {
        lemma_insert_props(x, s.drop_first());
        let t = spec_insert(x, s);
        let ti = spec_insert(x, s.drop_first());
        assert forall|k: int| 0 <= k < t.len() implies (#[trigger] t[k] == x || s.contains(
            t[k],
        )) by {
            if k == 0 {
                assert(t[0] == s[0]);
                assert(s.contains(s[0]));
            } else {
                assert(t[k] == ti[k - 1]);
                if ti[k - 1] == x {
                } else {
                    let m = choose|m: int| 0 <= m < s.drop_first().len() && s.drop_first()[m]
                        == ti[k - 1];
                    assert(s[m + 1] == ti[k - 1]);
                }
            }
        }
    }
}

/// Inserting into a ranked sequence keeps it ranked.
proof fn lemma_insert_sorted(x: RerankerObject, s: Seq<RerankerObject>)
    requires
        rank_sorted(s),
    ensures
        rank_sorted(spec_insert(x, s)),
    decreases s.len(),
{
    lemma_insert_props(x, s);
    if s.len() == 0 {
    } else if rank_before(x, s[0]) {
        let t = seq![x] + s;
        assert forall|i: int, j: int|
            #![trigger t[i], t[j]]
            0 <= i < j < t.len() implies !rank_before(t[j], t[i]) by {
            if i == 0 {
                assert(t[j] == s[j - 1]);
                if rank_before(s[j - 1], x) {
                    lemma_rank_order(s[j - 1], x, s[0]);
                    lemma_rank_order(s[j - 1], s[0], x);
                    assert(rank_before(s[j - 1], s[0]));
                    assert(false);
                }
            } else {
                assert(t[i] == s[i - 1] && t[j] == s[j - 1]);
            }
        }
    } else {
        assert(rank_sorted(s.drop_first())) by {
            assert forall|i: int, j: int|
                #![trigger s.drop_first()[i], s.drop_first()[j]]
                0 <= i < j < s.drop_first().len() implies !rank_before(
                s.drop_first()[j],
                s.drop_first()[i],
            ) by {
                assert(s.drop_first()[i] == s[i + 1] && s.drop_first()[j] == s[j + 1]);
            }
        }
        lemma_insert_sorted(x, s.drop_first());
        lemma_insert_props(x, s.drop_first());
        let ti = spec_insert(x, s.drop_first());
        let t = seq![s[0]] + ti;
        assert forall|i: int, j: int|
            #![trigger t[i], t[j]]
            0 <= i < j < t.len() implies !rank_before(t[j], t[i]) by {
            if i == 0 {
                assert(t[j] == ti[j - 1]);
                if ti[j - 1] == x {
                } else {
                    let m = choose|m: int|
                        0 <= m < s.drop_first().len() && s.drop_first()[m] == ti[j - 1];
                    assert(s[m + 1] == ti[j - 1]);
                }
            } else {
                assert(t[i] == ti[i - 1] && t[j] == ti[j - 1]);
            }
        }
    }
}

/// The ranking has the same length as the input, is ordered, and every ranked
/// element is one of the input elements.
pub proof fn lemma_rank_props(s: Seq<RerankerObject>)
    ensures
        spec_rank(s).len() == s.len(),
        rank_sorted(spec_rank(s)),
        forall|k: int|
            0 <= k < spec_rank(s).len() ==> s.contains(#[trigger] spec_rank(s)[k]),
    decreases s.len(),
{
    if s.len() == 0 {
    } else {
        lemma_rank_props(s.drop_last());
        let ti = spec_rank(s.drop_last());
        lemma_insert_props(s.last(), ti);
        lemma_insert_sorted(s.last(), ti);
        let t = spec_rank(s);
        assert forall|k: int| 0 <= k < t.len() implies s.contains(#[trigger] t[k]) by {
            if t[k] == s.last() {
                assert(s[s.len() - 1] == s.last());
            } else {
                assert(ti.contains(t[k]));
                let m = choose|m: int| 0 <= m < ti.len() && ti[m] == t[k];
                assert(s.drop_last().contains(ti[m]));
                let w = choose|w: int| 0 <= w < s.drop_last().len() && s.drop_last()[w] == ti[m];
                assert(s[w] == t[k]);
            }
        }
    }
}

/// How many elements of `s` carry the original position `v`.
pub open spec fn idx_count(s: Seq<RerankerObject>, v: u64) -> int
    decreases s.len(),
{
    if s.len() == 0 {
        0
    } else {
        (if s[0].index == v {
            1int
        } else {
            0int
        }) + idx_count(s.drop_first(), v)
    }
}

proof fn lemma_idx_count_concat(a: Seq<RerankerObject>, b: Seq<RerankerObject>, v: u64)
    ensures
        idx_count(a + b, v) == idx_count(a, v) + idx_count(b, v),
    decreases a.len(),
{
    if a.len() == 0 {
        assert(a + b =~= b);
    } else {
        assert((a + b).drop_first() =~= a.drop_first() + b);
        lemma_idx_count_concat(a.drop_first(), b, v);
    }
}

proof fn lemma_insert_idx_count(x: RerankerObject, s: Seq<RerankerObject>, v: u64)
    ensures
        idx_count(spec_insert(x, s), v) == idx_count(s, v) + (if x.index == v {
            1int
        } else {
            0int
        }),
    decreases s.len(),
{
    reveal_with_fuel(idx_count, 3);
    if s.len() == 0 {
        assert(seq![x].drop_first() =~= Seq::<RerankerObject>::empty());
        assert(idx_count(seq![x], v) == (if x.index == v {
            1int
        } else {
            0int
        }));
    } else if rank_before(x, s[0]) {
        lemma_idx_count_concat(seq![x], s, v);
        assert(seq![x].drop_first() =~= Seq::<RerankerObject>::empty());
        assert(idx_count(seq![x], v) == (if x.index == v {
            1int
        } else {
            0int
        }));
        assert(spec_insert(x, s) == seq![x] + s);
    } else {
        lemma_insert_idx_count(x, s.drop_first(), v);
        lemma_idx_count_concat(seq![s[0]], spec_insert(x, s.drop_first()), v);
        assert(seq![s[0]].drop_first() =~= Seq::<RerankerObject>::empty());
        assert(idx_count(seq![s[0]], v) == (if s[0].index == v {
            1int
        } else {
            0int
        }));
        assert(spec_insert(x, s) == seq![s[0]] + spec_insert(x, s.drop_first()));
        assert(idx_count(s, v) == (if s[0].index == v {
            1int
        } else {
            0int
        }) + idx_count(s.drop_first(), v));
    }
}

/// Ranking never changes how often an original position occurs: it permutes.
pub proof fn lemma_rank_idx_count(s: Seq<RerankerObject>, v: u64)
    ensures
        idx_count(spec_rank(s), v) == idx_count(s, v),
    decreases s.len(),
{
    reveal_with_fuel(idx_count, 3);
    if s.len() == 0 {
    } else {
        lemma_rank_idx_count(s.drop_last(), v);
        lemma_insert_idx_count(s.last(), spec_rank(s.drop_last()), v);
        assert(spec_rank(s) == spec_insert(s.last(), spec_rank(s.drop_last())));
        assert(s =~= s.drop_last() + seq![s.last()]);
        lemma_idx_count_concat(s.drop_last(), seq![s.last()], v);
        assert(seq![s.last()].drop_first() =~= Seq::<RerankerObject>::empty());
        assert(idx_count(seq![s.last()], v) == (if s.last().index == v {
            1int
        } else {
            0int
        }));
        assert(idx_count(s, v) == idx_count(s.drop_last() + seq![s.last()], v));
    }
}

proof fn lemma_position_gives_count(s: Seq<RerankerObject>, i: int, v: u64)
    requires
        0 <= i < s.len(),
        s[i].index == v,
    ensures
        idx_count(s, v) >= 1,
    decreases s.len(),
{
    if i == 0 {
        lemma_idx_count_nonneg(s.drop_first(), v);
    } else {
        assert(s.drop_first()[i - 1] == s[i]);
        lemma_position_gives_count(s.drop_first(), i - 1, v);
    }
}

proof fn lemma_idx_count_nonneg(s: Seq<RerankerObject>, v: u64)
    ensures
        idx_count(s, v) >= 0,
    decreases s.len(),
{
    if s.len() == 0 {
    } else {
        lemma_idx_count_nonneg(s.drop_first(), v);
    }
}

proof fn lemma_two_positions_give_two(s: Seq<RerankerObject>, i: int, j: int, v: u64)
    requires
        0 <= i < j < s.len(),
        s[i].index == v,
        s[j].index == v,
    ensures
        idx_count(s, v) >= 2,
    decreases s.len(),
{
    if i == 0 {
        assert(s.drop_first()[j - 1] == s[j]);
        lemma_position_gives_count(s.drop_first(), j - 1, v);
    } else {
        assert(s.drop_first()[i - 1] == s[i]);
        assert(s.drop_first()[j - 1] == s[j]);
        lemma_two_positions_give_two(s.drop_first(), i - 1, j - 1, v);
    }
}

proof fn lemma_distinct_gives_count_le_one(s: Seq<RerankerObject>, v: u64)
    requires
        forall|p: int, q: int| #![trigger s[p], s[q]] 0 <= p < q < s.len() ==> s[p].index != s[q].index,
    ensures
        idx_count(s, v) <= 1,
    decreases s.len(),
{
    if s.len() == 0 {
    } else {
        let rest = s.drop_first();
        assert forall|p: int, q: int|
            #![trigger rest[p], rest[q]]
            0 <= p < q < rest.len() implies rest[p].index != rest[q].index by {
            assert(rest[p] == s[p + 1] && rest[q] == s[q + 1]);
        }
        lemma_distinct_gives_count_le_one(rest, v);
        if s[0].index == v {
            assert(idx_count(rest, v) == 0) by {
                if idx_count(rest, v) >= 1 {
                    lemma_count_gives_position(rest, v);
                    let m = choose|m: int| 0 <= m < rest.len() && rest[m].index == v;
                    assert(rest[m] == s[m + 1]);
                    assert(s[0].index != s[m + 1].index);
                }
                lemma_idx_count_nonneg(rest, v);
            }
        }
    }
}

proof fn lemma_count_gives_position(s: Seq<RerankerObject>, v: u64)
    requires
        idx_count(s, v) >= 1,
    ensures
        exists|m: int| 0 <= m < s.len() && (#[trigger] s[m]).index == v,
    decreases s.len(),
{
    if s.len() == 0 {
    } else if s[0].index == v {
        assert(s[0].index == v);
    } else {
        lemma_count_gives_position(s.drop_first(), v);
        let m = choose|m: int| 0 <= m < s.drop_first().len() && s.drop_first()[m].index == v;
        assert(s[m + 1] == s.drop_first()[m]);
    }
}

/// Order preservation under ties: when the input positions are pairwise
/// distinct, two ranked results with value-equal scores stand in the order of
/// their original positions — the earlier document comes first.
pub proof fn lemma_ties_preserve_order(s: Seq<RerankerObject>, i: int, j: int)
    requires
        forall|p: int, q: int| #![trigger s[p], s[q]] 0 <= p < q < s.len() ==> s[p].index != s[q].index,
        0 <= i < j < spec_rank(s).len(),
        score_eqv(spec_rank(s)[i].relevance_score, spec_rank(s)[j].relevance_score),
    ensures
        spec_rank(s)[i].index < spec_rank(s)[j].index,
{
    let t = spec_rank(s);
    lemma_rank_props(s);
    assert(!rank_before(t[j], t[i]));
    lemma_score_order(t[j].relevance_score, t[i].relevance_score, t[i].relevance_score);
    lemma_score_order(t[i].relevance_score, t[j].relevance_score, t[j].relevance_score);
    assert(score_eqv(t[j].relevance_score, t[i].relevance_score));
    assert(t[i].index <= t[j].index);
    if t[i].index == t[j].index {
        lemma_two_positions_give_two(t, i, j, t[i].index);
        lemma_rank_idx_count(s, t[i].index);
        lemma_distinct_gives_count_le_one(s, t[i].index);
        assert(false);
    }
}

/// Index fidelity: when the input carries its own position as its index —
/// which is how the engine builds it — every ranked result's `index` points
/// back at exactly the input element it came from.
pub proof fn lemma_index_fidelity(s: Seq<RerankerObject>)
    requires
        forall|k: int| 0 <= k < s.len() ==> (#[trigger] s[k]).index == k,
    ensures
        spec_rank(s).len() == s.len(),
        forall|k: int|
            0 <= k < spec_rank(s).len() ==> 0 <= (#[trigger] spec_rank(s)[k]).index < s.len()
                && spec_rank(s)[k] == s[spec_rank(s)[k].index as int],
{
    lemma_rank_props(s);
    let t = spec_rank(s);
    assert forall|k: int| 0 <= k < t.len() implies 0 <= (#[trigger] t[k]).index < s.len() && t[k]
        == s[t[k].index as int] by {
        assert(s.contains(t[k]));
        let m = choose|m: int| 0 <= m < s.len() && s[m] == t[k];
        assert(s[m].index == m);
    }
}

/// Executable rank comparison: true when `a` is ranked strictly ahead of `b`.
pub fn rank_before_exec(a: RerankerObject, b: RerankerObject) -> (r: bool)
    requires
        a.relevance_score.wf(),
        b.relevance_score.wf(),
    ensures
        r == rank_before(a, b),
{
    proof {
        lemma_score_order(a.relevance_score, b.relevance_score, a.relevance_score);
        lemma_score_order(b.relevance_score, a.relevance_score, b.relevance_score);
    }
    if b.relevance_score.lt(&a.relevance_score) {
        true
    } else if a.relevance_score.lt(&b.relevance_score) {
        false
    } else {
        a.index < b.index
    }
}

/// Where `x` belongs in the ranked sequence `s`: if everything before `p`
/// outranks or ties-and-precedes `x`, and `x` outranks the element at `p`,
/// then inserting at position `p` is exactly the stable insertion.
#[verifier::rlimit(100)]
proof fn lemma_spec_insert_at(x: RerankerObject, s: Seq<RerankerObject>, p: int)
    requires
        0 <= p <= s.len(),
        forall|k: int| 0 <= k < p ==> !rank_before(x, #[trigger] s[k]),
        p < s.len() ==> rank_before(x, s[p]),
    ensures
        spec_insert(x, s) =~= s.insert(p, x),
    decreases s.len(),
{
    s.insert_ensures(p, x);
    lemma_insert_props(x, s);
    if s.len() == 0 {
    } else if p == 0 {
    } else {
        assert(!rank_before(x, s[0]));
        let rest = s.drop_first();
        assert forall|k: int| 0 <= k < p - 1 implies !rank_before(x, #[trigger] rest[k]) by {
            assert(rest[k] == s[k + 1]);
        }
        assert(p - 1 < rest.len() ==> rank_before(x, rest[p - 1]));
        lemma_spec_insert_at(x, rest, p - 1);
        rest.insert_ensures(p - 1, x);
    }
}

/// Sorts the scored documents by descending relevance; documents with equal
/// scores keep their original relative order. The result is exactly the
/// stable insertion sort of the input, so it is fully determined by it.
pub fn rank_documents(docs: Vec<RerankerObject>) -> (r: Vec<RerankerObject>)
    requires
        all_wf(docs@),
    ensures
        r@ == spec_rank(docs@),
        all_wf(r@),
{
    let mut out: Vec<RerankerObject> = Vec::new();
    let mut i: usize = 0;
    while i < docs.len()
        invariant
            i <= docs@.len(),
            all_wf(docs@),
            all_wf(out@),
            out@ == spec_rank(docs@.take(i as int)),
        decreases docs@.len() - i,
    {
        let x = docs[i];
        let mut p: usize = 0;
        while p < out.len() && !rank_before_exec(x, out[p])
            invariant
                p <= out@.len(),
                all_wf(out@),
                x.relevance_score.wf(),
                forall|k: int| 0 <= k < p ==> !rank_before(x, #[trigger] out@[k]),
            decreases out@.len() - p,
        {
            p = p + 1;
        }
        let ghost prev = out@;
        out.insert(p, x);
        i = i + 1;
        proof {
            lemma_spec_insert_at(x, prev, p as int);
            lemma_insert_props(x, prev);
            assert(out@ =~= spec_insert(x, prev));
            assert(all_wf(out@)) by {
                assert forall|k: int|
                    0 <= k < out@.len() implies (#[trigger] out@[k]).relevance_score.wf() by {
                    if out@[k] == x {
                    } else {
                        assert(prev.contains(out@[k]));
                        let m = choose|m: int| 0 <= m < prev.len() && prev[m] == out@[k];
                    }
                }
            }
            let taken = docs@.take(i as int);
            assert(taken.drop_last() =~= docs@.take(i as int - 1));
            assert(taken.last() == docs@[i as int - 1]);
            assert(out@ == spec_rank(taken));
        }
    }
    proof {
        assert(docs@.take(docs@.len() as int) =~= docs@);
    }
    out
}

} // verus!
