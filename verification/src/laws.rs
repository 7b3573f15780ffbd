//! The store's general properties, proved over the layer-map model. Each law
//! speaks about the stack transitions that the database operations promise in
//! their contracts.

use vstd::prelude::*;

use crate::model::{
    compacted, flatten, keys_with, lemma_compacted_occurrences, lemma_compacted_value,
    lemma_flatten_push, lemma_flatten_write_top, op_begin, op_commit, op_delete, op_rollback,
    op_set, stack_count, stack_value, LayerMap,
};

verus! {

broadcast use vstd::set::group_set_axioms, vstd::map::group_map_axioms;

/// Shadowing: after `begin` and `set(k, v)`, the key `k` reads `v`; and after
/// the transaction is rolled back, every key reads exactly what it read
/// before the `begin`.
pub proof fn lemma_shadowing(s: Seq<LayerMap>, k: Seq<char>, v: Seq<char>)
    requires
        s.len() >= 1,
    ensures
        stack_value(op_set(op_begin(s), k, v), k) == Some(v),
        forall|k2: Seq<char>|
            stack_value(#[trigger] op_rollback(op_set(op_begin(s), k, v)), k2) == stack_value(
                s,
                k2,
            ),
{
    let b = op_begin(s);
    let t = op_set(b, k, v);
    assert(b.last() == Map::<Seq<char>, Option<Seq<char>>>::empty());
    lemma_flatten_write_top(b, k, Some(v));
    assert(op_rollback(t) =~= s);
}

/// Count consistency: on every stack, the count of `v` is the size of the set
/// of keys whose visible value is `v`.
pub proof fn lemma_count_consistency(s: Seq<LayerMap>, v: Seq<char>)
    ensures
        keys_with(flatten(s), v) == Set::new(|k: Seq<char>| stack_value(s, k) == Some(v)),
        stack_count(s, v) == keys_with(flatten(s), v).len(),
{
    assert(keys_with(flatten(s), v) =~= Set::new(
        |k: Seq<char>| stack_value(s, k) == Some(v),
    ));
}

/// Commit flattening: `begin`, `set(k, v)`, `commit` answers every `get` and
/// every `count` exactly as `set(k, v)` alone does.
pub proof fn lemma_commit_flattening(s: Seq<LayerMap>, k: Seq<char>, v: Seq<char>)
    requires
        s.len() >= 1,
    ensures
        forall|k2: Seq<char>|
            stack_value(#[trigger] op_commit(op_set(op_begin(s), k, v)), k2) == stack_value(
                op_set(s, k, v),
                k2,
            ),
        forall|w: Seq<char>|
            stack_count(#[trigger] op_commit(op_set(op_begin(s), k, v)), w) == stack_count(
                op_set(s, k, v),
                w,
            ),
{
    let b = op_begin(s);
    let committed = op_commit(op_set(b, k, v));
    let direct = op_set(s, k, v);
    lemma_flatten_write_top(b, k, Some(v));
    lemma_flatten_push(s, Map::empty());
    assert(flatten(s).union_prefer_right(Map::empty()) =~= flatten(s));
    lemma_flatten_write_top(s, k, Some(v));
    assert(flatten(op_set(b, k, v)) == flatten(direct));
    crate::model::lemma_flatten_singleton(compacted(flatten(direct)));
    assert forall|k2: Seq<char>| #[trigger] stack_value(committed, k2) == stack_value(
        direct,
        k2,
    ) by {
        lemma_compacted_value(flatten(direct), k2);
    }
    assert forall|w: Seq<char>| #[trigger] stack_count(committed, w) == stack_count(
        direct,
        w,
    ) by {
        lemma_compacted_occurrences(flatten(direct), w);
    }
}

/// Rollback isolation: whatever the innermost layer holds, rolling it back
/// leaves the stack below it exactly as it was, so no mutation made inside
/// the transaction is observable afterwards.
pub proof fn lemma_rollback_isolation(s: Seq<LayerMap>, m: LayerMap)
    ensures
        op_rollback(s.push(m)) == s,
        forall|k: Seq<char>|
            #[trigger] stack_value(op_rollback(s.push(m)), k) == stack_value(s, k),
        forall|v: Seq<char>|
            #[trigger] stack_count(op_rollback(s.push(m)), v) == stack_count(s, v),
{
    assert(op_rollback(s.push(m)) =~= s);
}

/// Idempotence of deletion: deleting a key twice leaves the same stack as
/// deleting it once.
pub proof fn lemma_delete_idempotent(s: Seq<LayerMap>, k: Seq<char>)
    requires
        s.len() >= 1,
    ensures
        op_delete(op_delete(s, k), k) == op_delete(s, k),
{
    let t = op_delete(s, k);
    assert(t.last() == s.last().insert(k, None));
    assert(op_delete(t, k) =~~= t);
}

/// Deleting a key that reads as absent changes no answer: every `get` and
/// every `count` stays what it was.
pub proof fn lemma_delete_absent(s: Seq<LayerMap>, k: Seq<char>)
    requires
        s.len() >= 1,
        stack_value(s, k) is None,
    ensures
        forall|k2: Seq<char>|
            #[trigger] stack_value(op_delete(s, k), k2) == stack_value(s, k2),
        forall|v: Seq<char>|
            #[trigger] stack_count(op_delete(s, k), v) == stack_count(s, v),
{
    lemma_flatten_write_top(s, k, None);
    assert forall|v: Seq<char>| #[trigger] stack_count(op_delete(s, k), v) == stack_count(
        s,
        v,
    ) by {
        assert(keys_with(flatten(op_delete(s, k)), v) =~= keys_with(flatten(s), v));
    }
}

} // verus!
