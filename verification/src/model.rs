//! Mathematical model of aggregation: a map from key bytes to record
//! models, the per-record update, and the merge of partial results.

use vstd::prelude::*;
use crate::record::{RecModel, rec_unit, rec_add, rec_combine, rec_wf};

verus! {

/// The model of an aggregation map.
pub type AggModel = Map<Seq<u8>, RecModel>;

/// The empty model.
pub open spec fn agg_empty() -> AggModel {
    Map::empty()
}

/// One observation folded into the model.
pub open spec fn agg_upd(m: AggModel, k: Seq<u8>, v: int) -> AggModel {
    if m.dom().contains(k) {
        m.insert(k, rec_add(m[k], v))
    } else {
        m.insert(k, rec_unit(v))
    }
}

/// A sequence of observations folded into the model, first to last.
pub open spec fn agg_seq(m: AggModel, rs: Seq<(Seq<u8>, int)>) -> AggModel
    decreases rs.len(),
{
    if rs.len() == 0 {
        m
    } else {
        agg_seq(agg_upd(m, rs[0].0, rs[0].1), rs.drop_first())
    }
}

/// One whole record folded into the model (the merge step for one key).
pub open spec fn agg_merge_one(m: AggModel, k: Seq<u8>, r: RecModel) -> AggModel {
    if m.dom().contains(k) {
        m.insert(k, rec_combine(m[k], r))
    } else {
        m.insert(k, r)
    }
}

/// The merge of two partial models: keys of either side, records combined
/// where a key occurs in both.
pub open spec fn agg_merge(a: AggModel, b: AggModel) -> AggModel {
    Map::new(
        |k: Seq<u8>| a.dom().contains(k) || b.dom().contains(k),
        |k: Seq<u8>|
            if a.dom().contains(k) && b.dom().contains(k) {
                rec_combine(a[k], b[k])
            } else if b.dom().contains(k) {
                b[k]
            } else {
                a[k]
            },
    )
}

/// Every record of the model is well-formed.
pub open spec fn agg_wf(m: AggModel) -> bool {
    forall|k: Seq<u8>| #[trigger] m.dom().contains(k) ==> rec_wf(m[k])
}

/// Merging an empty partial model into any model is an identity operation,
/// on either side.
pub proof fn lemma_merge_empty(a: AggModel)
    ensures
        agg_merge(a, Map::<Seq<u8>, RecModel>::empty()) == a,
        agg_merge(Map::<Seq<u8>, RecModel>::empty(), a) == a,
{
    assert(agg_merge(a, Map::<Seq<u8>, RecModel>::empty()) =~= a);
    assert(agg_merge(Map::<Seq<u8>, RecModel>::empty(), a) =~= a);
}

/// The merge of partial models does not depend on their order.
pub proof fn lemma_merge_comm(a: AggModel, b: AggModel)
    ensures
        agg_merge(a, b) == agg_merge(b, a),
{
    assert(agg_merge(a, b) =~= agg_merge(b, a));
}

/// The merge of partial models does not depend on grouping.
pub proof fn lemma_merge_assoc(a: AggModel, b: AggModel, c: AggModel)
    ensures
        agg_merge(a, agg_merge(b, c)) == agg_merge(agg_merge(a, b), c),
{
    assert(agg_merge(a, agg_merge(b, c)) =~= agg_merge(agg_merge(a, b), c));
}

/// An observation folded into the right side of a merge may as well be
/// folded into the merged model.
pub proof fn lemma_merge_upd(a: AggModel, b: AggModel, k: Seq<u8>, v: int)
    ensures
        agg_merge(a, agg_upd(b, k, v)) == agg_upd(agg_merge(a, b), k, v),
{
    assert(agg_merge(a, agg_upd(b, k, v)) =~= agg_upd(agg_merge(a, b), k, v));
}

/// A record under a key new to the right side of a merge may as well be
/// folded into the merged model.
pub proof fn lemma_merge_one_new(a: AggModel, b: AggModel, k: Seq<u8>, r: RecModel)
    requires
        !b.dom().contains(k),
    ensures
        agg_merge(a, b.insert(k, r)) == agg_merge_one(agg_merge(a, b), k, r),
{
    assert(agg_merge(a, b.insert(k, r)) =~= agg_merge_one(agg_merge(a, b), k, r));
}

/// Folding observations into a model is merging with their aggregation
/// from the empty model.
pub proof fn lemma_agg_seq_merge(m: AggModel, rs: Seq<(Seq<u8>, int)>)
    ensures
        agg_seq(m, rs) == agg_merge(m, agg_seq(Map::<Seq<u8>, RecModel>::empty(), rs)),
    decreases rs.len(),
{
    let empty = Map::<Seq<u8>, RecModel>::empty();
    if rs.len() == 0 {
        lemma_merge_empty(m);
    } else {
        let r0 = rs[0];
        let rest = rs.drop_first();
        lemma_agg_seq_merge(agg_upd(m, r0.0, r0.1), rest);
        lemma_agg_seq_merge(agg_upd(empty, r0.0, r0.1), rest);
        let x = agg_seq(empty, rest);
        // agg_seq(m, rs) == merge(upd(m, r0), x); the goal follows by
        // rotating the update out of the merge on each side.
        lemma_merge_assoc(m, agg_upd(empty, r0.0, r0.1), x);
        lemma_merge_upd(m, empty, r0.0, r0.1);
        lemma_merge_empty(m);
    }
}

/// Aggregating a concatenation is aggregating the parts in order.
pub proof fn lemma_agg_seq_concat(m: AggModel, a: Seq<(Seq<u8>, int)>, b: Seq<(Seq<u8>, int)>)
    ensures
        agg_seq(m, a + b) == agg_seq(agg_seq(m, a), b),
    decreases a.len(),
{
    if a.len() == 0 {
        assert(a + b =~= b);
    } else {
        let r0 = a[0];
        assert((a + b).drop_first() =~= a.drop_first() + b);
        lemma_agg_seq_concat(agg_upd(m, r0.0, r0.1), a.drop_first(), b);
    }
}

/// The aggregate of split input equals the merge of the parts' aggregates:
/// partitioning the records does not change the final statistics.
pub proof fn lemma_split_merge(a: Seq<(Seq<u8>, int)>, b: Seq<(Seq<u8>, int)>)
    ensures
        agg_seq(Map::<Seq<u8>, RecModel>::empty(), a + b) == agg_merge(
            agg_seq(Map::<Seq<u8>, RecModel>::empty(), a),
            agg_seq(Map::<Seq<u8>, RecModel>::empty(), b),
        ),
{
    let empty = Map::<Seq<u8>, RecModel>::empty();
    lemma_agg_seq_concat(empty, a, b);
    lemma_agg_seq_merge(agg_seq(empty, a), b);
}

/// Merging preserves well-formedness of the model.
pub proof fn lemma_agg_merge_wf(a: AggModel, b: AggModel)
    requires
        agg_wf(a),
        agg_wf(b),
    ensures
        agg_wf(agg_merge(a, b)),
{
    assert forall|k: Seq<u8>| #[trigger] agg_merge(a, b).dom().contains(k)
        implies rec_wf(agg_merge(a, b)[k]) by {
        if a.dom().contains(k) && b.dom().contains(k) {
            crate::record::lemma_rec_combine_wf(a[k], b[k]);
        }
    }
}

} // verus!
