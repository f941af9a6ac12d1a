//! Sequences of operations on a store, over its values: what `LogStore::set`
//! and `LogStore::remove` do to the view, and what follows for later reads.
use vstd::prelude::*;

verus! {

/// A write on the store.
pub ghost enum Op {
    Put(Seq<char>, Seq<char>),
    Remove(Seq<char>),
}

/// The key a write is on.
pub open spec fn op_key(op: Op) -> Seq<char> {
    match op {
        Op::Put(k, _) => k,
        Op::Remove(k) => k,
    }
}

/// The values after one write: a `Put` binds the key (as `set` states), a
/// `Remove` unbinds it (as a successful `remove` states; a failed one found
/// the key unbound, which unbinding leaves so).
pub open spec fn apply_op(m: Map<Seq<char>, Seq<char>>, op: Op) -> Map<Seq<char>, Seq<char>> {
    match op {
        Op::Put(k, v) => m.insert(k, v),
        Op::Remove(k) => m.remove(k),
    }
}

/// The values after a sequence of writes, in order.
pub open spec fn apply_ops(m: Map<Seq<char>, Seq<char>>, ops: Seq<Op>) -> Map<Seq<char>, Seq<char>>
    decreases ops.len(),
{
    if ops.len() == 0 {
        m
    } else {
        apply_op(apply_ops(m, ops.drop_last()), ops.last())
    }
}

/// No write in `ops` is on `k`.
pub open spec fn untouched(ops: Seq<Op>, k: Seq<char>) -> bool {
    forall|i: int| 0 <= i < ops.len() ==> op_key(#[trigger] ops[i]) != k
}

/// No write in `ops` binds `k`.
pub open spec fn never_put(ops: Seq<Op>, k: Seq<char>) -> bool {
    forall|i: int| 0 <= i < ops.len() ==> !(#[trigger] ops[i] is Put && op_key(ops[i]) == k)
}

/// Writes on other keys leave the value of `k` as it is.
pub proof fn law_others_keep_value(m: Map<Seq<char>, Seq<char>>, ops: Seq<Op>, k: Seq<char>)
    requires
        untouched(ops, k),
    ensures
        apply_ops(m, ops).contains_key(k) == m.contains_key(k),
        m.contains_key(k) ==> apply_ops(m, ops)[k] == m[k],
    decreases ops.len(),
{
    if ops.len() > 0 {
        let d = ops.drop_last();
        assert(untouched(d, k)) by {
            assert forall|i: int| 0 <= i < d.len() implies op_key(#[trigger] d[i]) != k by {
                assert(d[i] == ops[i]);
            }
        }
        law_others_keep_value(m, d, k);
        assert(op_key(ops[ops.len() - 1]) != k);
    }
}

/// A read of `k` after a write of `v` to it, with no write on `k` in
/// between, gives `v`.
pub proof fn law_get_after_set(m: Map<Seq<char>, Seq<char>>, k: Seq<char>, v: Seq<char>, ops: Seq<Op>)
    requires
        untouched(ops, k),
    ensures
        apply_ops(apply_op(m, Op::Put(k, v)), ops).contains_key(k),
        apply_ops(apply_op(m, Op::Put(k, v)), ops)[k] == v,
{
    law_others_keep_value(apply_op(m, Op::Put(k, v)), ops, k);
}

/// A key that no write binds stays unbound.
pub proof fn law_unbound_stays_unbound(m: Map<Seq<char>, Seq<char>>, ops: Seq<Op>, k: Seq<char>)
    requires
        !m.contains_key(k),
        never_put(ops, k),
    ensures
        !apply_ops(m, ops).contains_key(k),
    decreases ops.len(),
{
    if ops.len() > 0 {
        let d = ops.drop_last();
        assert(never_put(d, k)) by {
            assert forall|i: int| 0 <= i < d.len() implies !(#[trigger] d[i] is Put && op_key(d[i]) == k) by {
                assert(d[i] == ops[i]);
            }
        }
        law_unbound_stays_unbound(m, d, k);
        assert(!(ops[ops.len() - 1] is Put && op_key(ops[ops.len() - 1]) == k));
    }
}

/// A read of `k` after its removal, with no write of `k` in between, finds
/// no value.
pub proof fn law_get_after_remove(m: Map<Seq<char>, Seq<char>>, k: Seq<char>, ops: Seq<Op>)
    requires
        never_put(ops, k),
    ensures
        !apply_ops(apply_op(m, Op::Remove(k)), ops).contains_key(k),
{
    law_unbound_stays_unbound(apply_op(m, Op::Remove(k)), ops, k);
}

/// From an empty store, a key never written, or removed and not written
/// since, holds no value; `remove` of it then fails with `KeyNotFound`.
pub proof fn law_remove_of_unset(ops: Seq<Op>, k: Seq<char>)
    requires
        never_put(ops, k),
    ensures
        !apply_ops(Map::empty(), ops).contains_key(k),
{
    law_unbound_stays_unbound(Map::empty(), ops, k);
}

/// The writes in `ops` that are on `k`, in order.
pub open spec fn ops_on(ops: Seq<Op>, k: Seq<char>) -> Seq<Op>
    decreases ops.len(),
{
    if ops.len() == 0 {
        Seq::empty()
    } else if op_key(ops.last()) == k {
        ops_on(ops.drop_last(), k).push(ops.last())
    } else {
        ops_on(ops.drop_last(), k)
    }
}

/// However writes on other keys are interleaved with those on `k`, `k`
/// holds what its own writes, in order, make of it: a client that alone
/// writes a key reads back only values it wrote.
pub proof fn law_interleaving(m: Map<Seq<char>, Seq<char>>, ops: Seq<Op>, k: Seq<char>)
    ensures
        apply_ops(m, ops).contains_key(k) == apply_ops(m, ops_on(ops, k)).contains_key(k),
        apply_ops(m, ops).contains_key(k) ==> apply_ops(m, ops)[k] == apply_ops(m, ops_on(ops, k))[k],
    decreases ops.len(),
{
    if ops.len() > 0 {
        let d = ops.drop_last();
        law_interleaving(m, d, k);
        if op_key(ops.last()) == k {
            let own = ops_on(d, k).push(ops.last());
            assert(own.drop_last() =~= ops_on(d, k));
            assert(own.last() == ops.last());
        }
    }
}

} // verus!
