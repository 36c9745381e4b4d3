//! Laws of the store's contents.
//!
//! Every backend operation is specified against one abstract model: a
//! `Map` from key text to value bytes, where `set` is `insert`,
//! `delete` is `remove`, and `get`/`EXISTS` read.  The laws below are
//! therefore stated once, over that model, and hold of both backends
//! through their contracts.

use vstd::prelude::*;

verus! {

/// One store operation, as the model sees it: a SET binds a key to
/// value bytes, a DELETE unbinds it.
pub enum StoreOp {
    SetOp { key: Seq<char>, value: Seq<u8> },
    DeleteOp { key: Seq<char> },
}

impl StoreOp {
    /// The key the operation touches.
    pub open spec fn key_of(self) -> Seq<char> {
        match self {
            StoreOp::SetOp { key, value } => key,
            StoreOp::DeleteOp { key } => key,
        }
    }
}

/// The contents after one operation.
pub open spec fn apply_op(m: Map<Seq<char>, Seq<u8>>, op: StoreOp) -> Map<Seq<char>, Seq<u8>> {
    match op {
        StoreOp::SetOp { key, value } => m.insert(key, value),
        StoreOp::DeleteOp { key } => m.remove(key),
    }
}

/// The contents after a whole sequence of operations, applied in
/// order.
pub open spec fn apply_ops(m: Map<Seq<char>, Seq<u8>>, ops: Seq<StoreOp>) -> Map<
    Seq<char>,
    Seq<u8>,
>
    decreases ops.len(),
{
    if ops.len() == 0 {
        m
    } else {
        apply_op(apply_ops(m, ops.drop_last()), ops.last())
    }
}

/// Whether a key is live after a sequence of operations: the most
/// recent operation on it was a SET; if no operation touched it, it
/// is live exactly when it was live before.
pub open spec fn live_after(m: Map<Seq<char>, Seq<u8>>, ops: Seq<StoreOp>, k: Seq<char>) -> bool
    decreases ops.len(),
{
    if ops.len() == 0 {
        m.contains_key(k)
    } else if ops.last().key_of() == k {
        ops.last() is SetOp
    } else {
        live_after(m, ops.drop_last(), k)
    }
}

/// A key is present after any sequence of SETs and DELETEs exactly
/// when the most recent operation on it was a SET not followed by a
/// DELETE — and, if nothing touched it, when it was present at the
/// start.  `EXISTS` reads presence, so this is what it reports.
pub proof fn lemma_exists_iff_last_set(
    m: Map<Seq<char>, Seq<u8>>,
    ops: Seq<StoreOp>,
    k: Seq<char>,
)
    ensures
        apply_ops(m, ops).contains_key(k) == live_after(m, ops, k),
    decreases ops.len(),
{
    if ops.len() == 0 {
    } else {
        lemma_exists_iff_last_set(m, ops.drop_last(), k);
    }
}

/// After SET(K, V), GET(K) returns exactly V.
pub proof fn lemma_set_then_get(m: Map<Seq<char>, Seq<u8>>, k: Seq<char>, v: Seq<u8>)
    ensures
        m.insert(k, v).contains_key(k),
        m.insert(k, v)[k] == v,
{
}

/// DELETE(K) on an absent key leaves the contents exactly as they
/// were.
pub proof fn lemma_delete_absent(m: Map<Seq<char>, Seq<u8>>, k: Seq<char>)
    requires
        !m.contains_key(k),
    ensures
        m.remove(k) == m,
{
    assert(m.remove(k) =~= m);
}

/// DELETE(K) after SET(K, V) makes a later GET(K) report a miss.
pub proof fn lemma_set_then_delete(m: Map<Seq<char>, Seq<u8>>, k: Seq<char>, v: Seq<u8>)
    ensures
        !m.insert(k, v).remove(k).contains_key(k),
{
}

/// SET(K, V1) then SET(K, V2): GET(K) returns V2; V1 is gone from the
/// contents entirely.
pub proof fn lemma_overwrite(
    m: Map<Seq<char>, Seq<u8>>,
    k: Seq<char>,
    v1: Seq<u8>,
    v2: Seq<u8>,
)
    ensures
        m.insert(k, v1).insert(k, v2) == m.insert(k, v2),
        m.insert(k, v1).insert(k, v2)[k] == v2,
{
    assert(m.insert(k, v1).insert(k, v2) =~= m.insert(k, v2));
}

/// SETs on distinct keys do not disturb each other: each key stays
/// independently retrievable with its own value.
pub proof fn lemma_disjoint_keys(
    m: Map<Seq<char>, Seq<u8>>,
    k1: Seq<char>,
    v1: Seq<u8>,
    k2: Seq<char>,
    v2: Seq<u8>,
)
    requires
        k1 != k2,
    ensures
        m.insert(k1, v1).insert(k2, v2)[k1] == v1,
        m.insert(k1, v1).insert(k2, v2)[k2] == v2,
{
}

} // verus!
