//! What holds of sequences of calls, stated over the table's map model.
use crate::key::TableKey;
use crate::map::{lookup, HashMap};
use vstd::prelude::*;

verus! {

/// The map that inserting the pairs of `kvs` in order builds from `m`.
pub open spec fn after_inserts<I, V>(m: Map<I, V>, kvs: Seq<(I, V)>) -> Map<I, V>
    decreases kvs.len(),
{
    if kvs.len() == 0 {
        m
    } else {
        after_inserts(m.insert(kvs[0].0, kvs[0].1), kvs.drop_first())
    }
}

/// The distinct keys among the pairs of `kvs`.
pub open spec fn keys_of<I, V>(kvs: Seq<(I, V)>) -> Set<I> {
    Set::new(|id: I| exists|i: int| 0 <= i < kvs.len() && kvs[i].0 == id)
}

proof fn lemma_after_inserts_dom<I, V>(m: Map<I, V>, kvs: Seq<(I, V)>)
    ensures
        after_inserts(m, kvs).dom() == m.dom() + keys_of(kvs),
    decreases kvs.len(),
{
    if kvs.len() > 0 {
        let rest = kvs.drop_first();
        lemma_after_inserts_dom(m.insert(kvs[0].0, kvs[0].1), rest);
        assert forall|id: I| keys_of(kvs).contains(id) == (id == kvs[0].0 || keys_of(rest).contains(id)) by {
            if keys_of(kvs).contains(id) && id != kvs[0].0 {
                let i = choose|i: int| 0 <= i < kvs.len() && kvs[i].0 == id;
                assert(rest[i - 1].0 == id);
            }
            if keys_of(rest).contains(id) {
                let i = choose|i: int| 0 <= i < rest.len() && rest[i].0 == id;
                assert(kvs[i + 1].0 == id);
            }
            if id == kvs[0].0 {
                assert(kvs[0].0 == id);
            }
        }
        assert(after_inserts(m, kvs).dom() =~= m.dom() + keys_of(kvs));
    } else {
        assert(keys_of(kvs) =~= Set::empty());
        assert(m.dom() + keys_of(kvs) =~= m.dom());
    }
}

/// Whatever the order of a sequence of insertions into an empty table, the
/// table ends up holding one entry for each distinct key inserted.
pub proof fn law_len_counts_distinct_keys<I, V>(kvs: Seq<(I, V)>)
    ensures
        after_inserts(Map::<I, V>::empty(), kvs).dom() == keys_of(kvs),
        after_inserts(Map::<I, V>::empty(), kvs).len() == keys_of(kvs).len(),
{
    lemma_after_inserts_dom(Map::<I, V>::empty(), kvs);
    assert(Map::<I, V>::empty().dom() + keys_of(kvs) =~= keys_of(kvs));
}

/// After `insert(key, value)`, `get(key)` finds `value`.
pub proof fn law_get_after_insert<K: TableKey, V>(t: HashMap<K, V>, key: K, value: V)
    requires
        t.wf(),
    ensures
        t@.insert(key.key_id(), value).contains_key(key.key_id()),
        t@.insert(key.key_id(), value)[key.key_id()] == value,
{
}

/// After `insert(key, value)`, `remove(key)` returns `value`, and `get(key)`
/// then finds nothing.
pub proof fn law_remove_after_insert<K: TableKey, V>(t: HashMap<K, V>, key: K, value: V)
    requires
        t.wf(),
    ensures
        lookup(t@.insert(key.key_id(), value), key.key_id()) == Some(value),
        !t@.insert(key.key_id(), value).remove(key.key_id()).contains_key(key.key_id()),
{
}

/// Inserting a key that is already stored returns its previous value,
/// leaves the number of entries unchanged, and `get` then finds the new
/// value.
pub proof fn law_reinsert<K: TableKey, V>(t: HashMap<K, V>, key: K, value: V)
    requires
        t.wf(),
        t@.contains_key(key.key_id()),
    ensures
        lookup(t@, key.key_id()) == Some(t@[key.key_id()]),
        t@.insert(key.key_id(), value).len() == t@.len(),
        t@.insert(key.key_id(), value)[key.key_id()] == value,
{
    t.lemma_view_finite();
    assert(t@.insert(key.key_id(), value).dom() =~= t@.dom());
}

/// After `remove(key)`, inserting `key` again stores it afresh, and `get`
/// finds the new value.
pub proof fn law_insert_after_remove<K: TableKey, V>(t: HashMap<K, V>, key: K, value: V)
    requires
        t.wf(),
    ensures
        lookup(t@.remove(key.key_id()), key.key_id()) == None::<V>,
        t@.remove(key.key_id()).insert(key.key_id(), value).contains_key(key.key_id()),
        t@.remove(key.key_id()).insert(key.key_id(), value)[key.key_id()] == value,
{
}

/// The number of entries that a sequence of insertions into an empty table
/// leaves does not depend on the order of the insertions.
pub proof fn law_len_independent_of_order<I, V>(kvs1: Seq<(I, V)>, kvs2: Seq<(I, V)>)
    requires
        kvs1.to_multiset() == kvs2.to_multiset(),
    ensures
        after_inserts(Map::<I, V>::empty(), kvs1).len() == after_inserts(
            Map::<I, V>::empty(),
            kvs2,
        ).len(),
{
    law_len_counts_distinct_keys(kvs1);
    law_len_counts_distinct_keys(kvs2);
    kvs1.to_multiset_ensures();
    kvs2.to_multiset_ensures();
    assert forall|id: I| keys_of(kvs1).contains(id) implies keys_of(kvs2).contains(id) by {
        let i = choose|i: int| 0 <= i < kvs1.len() && kvs1[i].0 == id;
        assert(kvs1.contains(kvs1[i]));
        assert(kvs1.to_multiset().count(kvs1[i]) > 0);
        assert(kvs2.to_multiset().count(kvs1[i]) > 0);
        assert(kvs2.contains(kvs1[i]));
        let j = choose|j: int| 0 <= j < kvs2.len() && kvs2[j] == kvs1[i];
        assert(kvs2[j].0 == id);
    }
    assert forall|id: I| keys_of(kvs2).contains(id) implies keys_of(kvs1).contains(id) by {
        let j = choose|j: int| 0 <= j < kvs2.len() && kvs2[j].0 == id;
        assert(kvs2.contains(kvs2[j]));
        assert(kvs2.to_multiset().count(kvs2[j]) > 0);
        assert(kvs1.to_multiset().count(kvs2[j]) > 0);
        assert(kvs1.contains(kvs2[j]));
        let i = choose|i: int| 0 <= i < kvs1.len() && kvs1[i] == kvs2[j];
        assert(kvs1[i].0 == id);
    }
    assert(keys_of(kvs1) =~= keys_of(kvs2));
}

/// A call that changes a table, as its effect on the map model.
pub enum Op<I, V> {
    Insert(I, V),
    Remove(I),
}

/// The key a call is about.
pub open spec fn op_key<I, V>(op: Op<I, V>) -> I {
    match op {
        Op::Insert(id, _) => id,
        Op::Remove(id) => id,
    }
}

/// The map that the calls of `ops`, in order, make of `m`: what `insert`
/// and `remove` state of the table's model.
pub open spec fn after_ops<I, V>(m: Map<I, V>, ops: Seq<Op<I, V>>) -> Map<I, V>
    decreases ops.len(),
{
    if ops.len() == 0 {
        m
    } else {
        let next = match ops[0] {
            Op::Insert(id, v) => m.insert(id, v),
            Op::Remove(id) => m.remove(id),
        };
        after_ops(next, ops.drop_first())
    }
}

/// Calls on other keys leave what a lookup of `id` gives unchanged.
pub proof fn law_other_keys_leave_lookup<I, V>(m: Map<I, V>, ops: Seq<Op<I, V>>, id: I)
    requires
        forall|i: int| 0 <= i < ops.len() ==> op_key(#[trigger] ops[i]) != id,
    ensures
        lookup(after_ops(m, ops), id) == lookup(m, id),
    decreases ops.len(),
{
    if ops.len() > 0 {
        let next = match ops[0] {
            Op::Insert(k, v) => m.insert(k, v),
            Op::Remove(k) => m.remove(k),
        };
        assert(op_key(ops[0]) != id);
        assert forall|i: int| 0 <= i < ops.drop_first().len() implies op_key(
            #[trigger] ops.drop_first()[i],
        ) != id by {
            assert(ops.drop_first()[i] == ops[i + 1]);
        }
        law_other_keys_leave_lookup(next, ops.drop_first(), id);
        assert(lookup(next, id) == lookup(m, id));
    }
}

/// After `insert(key, value)` and any calls on other keys, `get(key)`
/// finds `value`.
pub proof fn law_get_after_insert_and_other_calls<K: TableKey, V>(
    t: HashMap<K, V>,
    key: K,
    value: V,
    ops: Seq<Op<K::Id, V>>,
)
    requires
        t.wf(),
        forall|i: int| 0 <= i < ops.len() ==> op_key(#[trigger] ops[i]) != key.key_id(),
    ensures
        lookup(after_ops(t@.insert(key.key_id(), value), ops), key.key_id()) == Some(value),
{
    law_other_keys_leave_lookup(t@.insert(key.key_id(), value), ops, key.key_id());
}

/// After `insert(key, value)` and any calls on other keys, `remove(key)`
/// returns `value`, and `get(key)` then finds nothing.
pub proof fn law_remove_after_insert_and_other_calls<K: TableKey, V>(
    t: HashMap<K, V>,
    key: K,
    value: V,
    ops: Seq<Op<K::Id, V>>,
)
    requires
        t.wf(),
        forall|i: int| 0 <= i < ops.len() ==> op_key(#[trigger] ops[i]) != key.key_id(),
    ensures
        lookup(after_ops(t@.insert(key.key_id(), value), ops), key.key_id()) == Some(value),
        !after_ops(t@.insert(key.key_id(), value), ops).remove(key.key_id()).contains_key(
            key.key_id(),
        ),
{
    law_other_keys_leave_lookup(t@.insert(key.key_id(), value), ops, key.key_id());
}

/// After `insert(key, v1)`, `remove(key)`, `insert(key, v2)` and any calls
/// on other keys, `get(key)` finds `v2`.
pub proof fn law_reinsert_after_remove_and_other_calls<K: TableKey, V>(
    t: HashMap<K, V>,
    key: K,
    v1: V,
    v2: V,
    ops: Seq<Op<K::Id, V>>,
)
    requires
        t.wf(),
        forall|i: int| 0 <= i < ops.len() ==> op_key(#[trigger] ops[i]) != key.key_id(),
    ensures
        lookup(
            after_ops(t@.insert(key.key_id(), v1).remove(key.key_id()).insert(key.key_id(), v2), ops),
            key.key_id(),
        ) == Some(v2),
{
    law_other_keys_leave_lookup(
        t@.insert(key.key_id(), v1).remove(key.key_id()).insert(key.key_id(), v2),
        ops,
        key.key_id(),
    );
}

} // verus!
