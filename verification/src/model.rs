//! The mathematical model of the store: a stack of layer maps, the value and
//! the count that are visible from the top of the stack, and the effect of
//! each database operation on the stack.

use vstd::prelude::*;

verus! {

broadcast use vstd::set::group_set_axioms, vstd::map::group_map_axioms;

/// The abstract value of one transaction layer. A key the layer has touched
/// maps to `Some(value)` when the layer holds that value for it, and to `None`
/// (a tombstone) when the layer deletes it; a key the layer has never touched
/// is outside the domain.
pub type LayerMap = Map<Seq<char>, Option<Seq<char>>>;

/// The keys of `m` that currently hold the value `v`.
pub open spec fn keys_with(m: LayerMap, v: Seq<char>) -> Set<Seq<char>> {
    m.dom().filter(|k: Seq<char>| m[k] == Some(v))
}

/// How many keys of `m` hold the value `v`.
pub open spec fn occurrences(m: LayerMap, v: Seq<char>) -> nat {
    keys_with(m, v).len()
}

/// What a lookup answers on the single map `m`: a tombstone reads as absent.
pub open spec fn live_value(m: LayerMap, k: Seq<char>) -> Option<Seq<char>> {
    if m.dom().contains(k) && m[k] is Some {
        m[k]
    } else {
        None
    }
}

/// One map holding the combined effect of a stack of layers: an entry of a
/// later (inner) layer hides the entry of an earlier one for the same key.
pub open spec fn flatten(s: Seq<LayerMap>) -> LayerMap
    decreases s.len(),
{
    if s.len() == 0 {
        Map::empty()
    } else {
        flatten(s.drop_last()).union_prefer_right(s.last())
    }
}

/// `m` with its tombstones dropped.
pub open spec fn compacted(m: LayerMap) -> LayerMap {
    Map::new(|k: Seq<char>| m.dom().contains(k) && m[k] is Some, |k: Seq<char>| m[k])
}

/// What `get` answers on a stack of layers.
pub open spec fn stack_value(s: Seq<LayerMap>, k: Seq<char>) -> Option<Seq<char>> {
    live_value(flatten(s), k)
}

/// What `count` answers on a stack of layers.
pub open spec fn stack_count(s: Seq<LayerMap>, v: Seq<char>) -> nat {
    occurrences(flatten(s), v)
}

/// Every layer of the stack has a finite domain.
pub open spec fn stack_finite(s: Seq<LayerMap>) -> bool {
    forall|i: int| 0 <= i < s.len() ==> (#[trigger] s[i]).dom().finite()
}

/// The total number of keys held across the layers of the stack.
pub open spec fn stack_size(s: Seq<LayerMap>) -> nat
    decreases s.len(),
{
    if s.len() == 0 {
        0
    } else {
        stack_size(s.drop_last()) + s.last().dom().len()
    }
}

/// The stack after `begin`: a new empty layer is pushed.
pub open spec fn op_begin(s: Seq<LayerMap>) -> Seq<LayerMap> {
    s.push(Map::empty())
}

/// The stack after `set(k, v)`: the innermost layer records `Some(v)` for `k`.
pub open spec fn op_set(s: Seq<LayerMap>, k: Seq<char>, v: Seq<char>) -> Seq<LayerMap> {
    s.update(s.len() - 1, s.last().insert(k, Some(v)))
}

/// The stack after `delete(k)`: the innermost layer records a tombstone for
/// `k`, whether or not any layer held a value for it.
pub open spec fn op_delete(s: Seq<LayerMap>, k: Seq<char>) -> Seq<LayerMap> {
    s.update(s.len() - 1, s.last().insert(k, None))
}

/// The stack after a successful `rollback`: the innermost layer is discarded.
pub open spec fn op_rollback(s: Seq<LayerMap>) -> Seq<LayerMap> {
    s.drop_last()
}

/// The stack after a successful `commit`: every layer is folded into the base
/// layer and the tombstones are purged.
pub open spec fn op_commit(s: Seq<LayerMap>) -> Seq<LayerMap> {
    seq![compacted(flatten(s))]
}

/// The set of keys holding `v` is finite and no larger than the domain.
pub proof fn lemma_occurrences_bound(m: LayerMap, v: Seq<char>)
    requires
        m.dom().finite(),
    ensures
        keys_with(m, v).finite(),
        occurrences(m, v) <= m.dom().len(),
{
    let f = |k: Seq<char>| m[k] == Some(v);
    m.dom().lemma_len_filter(f);
    assert(keys_with(m, v) == m.dom().filter(f));
}

/// A key of the domain that does not hold `v` keeps the count of `v` strictly
/// below the size of the domain.
pub proof fn lemma_occurrences_without(m: LayerMap, v: Seq<char>, k: Seq<char>)
    requires
        m.dom().finite(),
        m.dom().contains(k),
        m[k] != Some(v),
    ensures
        occurrences(m, v) < m.dom().len(),
{
    lemma_occurrences_bound(m, v);
    vstd::set_lib::lemma_len_subset(keys_with(m, v), m.dom().remove(k));
}

/// How one insertion moves the count of `v`: the entry the insertion replaces
/// leaves the count and the inserted entry joins it.
pub proof fn lemma_occurrences_insert(m: LayerMap, k: Seq<char>, x: Option<Seq<char>>, v: Seq<char>)
    requires
        m.dom().finite(),
    ensures
        occurrences(m.insert(k, x), v) + (if m.dom().contains(k) && m[k] == Some(v) {
            1int
        } else {
            0
        }) == occurrences(m, v) + (if x == Some(v) {
            1int
        } else {
            0
        }),
{
    let s1 = keys_with(m, v);
    let s2 = keys_with(m.insert(k, x), v);
    lemma_occurrences_bound(m, v);
    lemma_occurrences_bound(m.insert(k, x), v);
    assert(s2.remove(k) =~= s1.remove(k));
    vstd::set::axiom_set_remove_len(s1, k);
    vstd::set::axiom_set_remove_len(s2, k);
}

/// How overriding `m1` with `m2` counts `v`: the two counts add up, except
/// that a key of `m1` holding `v` that `m2` also touches is counted by `m2`
/// alone.
pub proof fn lemma_occurrences_union(m1: LayerMap, m2: LayerMap, v: Seq<char>)
    requires
        m1.dom().finite(),
        m2.dom().finite(),
    ensures
        occurrences(m1.union_prefer_right(m2), v) + m2.dom().intersect(keys_with(m1, v)).len()
            == occurrences(m1, v) + occurrences(m2, v),
    decreases m2.dom().len(),
{
    lemma_occurrences_bound(m1, v);
    let inter = m2.dom().intersect(keys_with(m1, v));
    vstd::set_lib::lemma_len_intersect(m2.dom(), keys_with(m1, v));
    if m2.dom().len() == 0 {
        m2.dom().lemma_len0_is_empty();
        assert(m1.union_prefer_right(m2) =~= m1);
        assert(keys_with(m2, v) =~= Set::<Seq<char>>::empty());
        assert(inter =~= Set::<Seq<char>>::empty());
    } else {
        let k = m2.dom().choose();
        let m2p = m2.remove(k);
        vstd::set::axiom_set_remove_len(m2.dom(), k);
        lemma_occurrences_union(m1, m2p, v);
        let interp = m2p.dom().intersect(keys_with(m1, v));
        assert(interp =~= inter.remove(k));
        vstd::set::axiom_set_remove_len(inter, k);
        // the union grows out of the smaller union by the one insertion
        let u2p = m1.union_prefer_right(m2p);
        assert(m1.union_prefer_right(m2) =~= u2p.insert(k, m2[k]));
        vstd::map_lib::lemma_union_dom(m1, m2p);
        lemma_occurrences_insert(u2p, k, m2[k], v);
        // m2 itself grows out of m2p by the same insertion
        assert(m2 =~= m2p.insert(k, m2[k]));
        lemma_occurrences_insert(m2p, k, m2[k], v);
        assert(u2p.dom().contains(k) <==> m1.dom().contains(k));
        assert(u2p.dom().contains(k) ==> u2p[k] == m1[k]);
        assert(inter.contains(k) <==> (m1.dom().contains(k) && m1[k] == Some(v)));
    }
}

/// A pushed layer overrides the flattening of the layers below it.
pub proof fn lemma_flatten_push(s: Seq<LayerMap>, m: LayerMap)
    ensures
        flatten(s.push(m)) == flatten(s).union_prefer_right(m),
{
    assert(s.push(m).drop_last() =~= s);
    assert(s.push(m).last() == m);
}

/// A one-layer stack flattens to its layer.
pub proof fn lemma_flatten_singleton(m: LayerMap)
    ensures
        flatten(seq![m]) == m,
{
    assert(seq![m].drop_last() =~= Seq::<LayerMap>::empty());
    assert(flatten(seq![m]) == flatten(Seq::<LayerMap>::empty()).union_prefer_right(m));
    assert(Map::<Seq<char>, Option<Seq<char>>>::empty().union_prefer_right(m) =~= m);
}

/// Writing an entry into the innermost layer writes it into the flattening.
pub proof fn lemma_flatten_write_top(s: Seq<LayerMap>, k: Seq<char>, x: Option<Seq<char>>)
    requires
        s.len() >= 1,
    ensures
        flatten(s.update(s.len() - 1, s.last().insert(k, x))) == flatten(s).insert(k, x),
{
    let t = s.update(s.len() - 1, s.last().insert(k, x));
    assert(t.drop_last() =~= s.drop_last());
    assert(t.last() == s.last().insert(k, x));
    vstd::map_lib::lemma_union_insert_right(flatten(s.drop_last()), s.last(), k, x);
}

/// The flattening of a finite stack is finite and no larger than the stack.
pub proof fn lemma_flatten_size(s: Seq<LayerMap>)
    requires
        stack_finite(s),
    ensures
        flatten(s).dom().finite(),
        flatten(s).dom().len() <= stack_size(s),
    decreases s.len(),
{
    if s.len() == 0 {
        assert(flatten(s).dom() =~= Set::<Seq<char>>::empty());
    } else {
        assert(stack_finite(s.drop_last()));
        lemma_flatten_size(s.drop_last());
        vstd::map_lib::lemma_union_dom(flatten(s.drop_last()), s.last());
        assert(s.last() == s[s.len() - 1]);
        vstd::set_lib::lemma_len_union(flatten(s.drop_last()).dom(), s.last().dom());
    }
}

/// Pushing a layer adds its keys to the stack's total.
pub proof fn lemma_stack_size_push(s: Seq<LayerMap>, m: LayerMap)
    ensures
        stack_size(s.push(m)) == stack_size(s) + m.dom().len(),
{
    assert(s.push(m).drop_last() =~= s);
    assert(s.push(m).last() == m);
}

/// A one-layer stack holds exactly its layer's keys.
pub proof fn lemma_stack_size_singleton(m: LayerMap)
    ensures
        stack_size(seq![m]) == m.dom().len(),
{
    assert(seq![m].drop_last() =~= Seq::<LayerMap>::empty());
    assert(seq![m].last() == m);
    assert(stack_size(Seq::<LayerMap>::empty()) == 0);
}

/// Rewriting the innermost layer trades its keys for the new layer's keys.
pub proof fn lemma_stack_size_update_last(s: Seq<LayerMap>, m: LayerMap)
    requires
        s.len() >= 1,
    ensures
        stack_size(s.update(s.len() - 1, m)) + s.last().dom().len() == stack_size(s)
            + m.dom().len(),
{
    let t = s.update(s.len() - 1, m);
    assert(t.drop_last() =~= s.drop_last());
    assert(t.last() == m);
}

/// Compaction keeps every live value.
pub proof fn lemma_compacted_value(m: LayerMap, k: Seq<char>)
    ensures
        live_value(compacted(m), k) == live_value(m, k),
{
}

/// Compaction keeps every count.
pub proof fn lemma_compacted_occurrences(m: LayerMap, v: Seq<char>)
    ensures
        occurrences(compacted(m), v) == occurrences(m, v),
{
    assert(keys_with(compacted(m), v) =~= keys_with(m, v));
}

/// Compaction keeps the domain finite.
pub proof fn lemma_compacted_finite(m: LayerMap)
    requires
        m.dom().finite(),
    ensures
        compacted(m).dom().finite(),
        compacted(m).dom().len() <= m.dom().len(),
{
    vstd::set_lib::lemma_len_subset(compacted(m).dom(), m.dom());
}

} // verus!
