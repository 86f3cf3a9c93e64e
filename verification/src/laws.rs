//! Laws of the storage model.
//!
//! The coordinator's contracts are stated over the persistent-store
//! model functions of [`crate::store`]; these public proofs state what
//! the model guarantees across operations: a successful insert is
//! readable, a remove leaves the record absent and is idempotent, no
//! operation touches another record, and a fresh sequence name stands
//! at zero.

use vstd::prelude::*;

use crate::storage::sequence_current;
use crate::store::{named_insert, named_lookup, named_remove, sequence_tree_name, subtree};

verus! {

/// After a record (ns, key) is inserted with `value`, looking the same
/// (ns, key) up finds exactly `value`: a successful write-through is
/// readable, from whichever tier answers.
pub proof fn lemma_insert_then_lookup(
    trees: Map<Seq<u8>, Map<Seq<u8>, Seq<u8>>>,
    ns: Seq<u8>,
    key: Seq<u8>,
    value: Seq<u8>,
)
    ensures
        named_lookup(named_insert(trees, ns, key, value), ns, key) == Some(value),
{
}

/// An insert touches no other record: the lookup at any other
/// (namespace, key) pair is unchanged.
pub proof fn lemma_insert_frame(
    trees: Map<Seq<u8>, Map<Seq<u8>, Seq<u8>>>,
    ns: Seq<u8>,
    key: Seq<u8>,
    value: Seq<u8>,
    ns2: Seq<u8>,
    key2: Seq<u8>,
)
    requires
        !(ns2 == ns && key2 == key),
    ensures
        named_lookup(named_insert(trees, ns, key, value), ns2, key2) == named_lookup(
            trees,
            ns2,
            key2,
        ),
{
}

/// After a record (ns, key) is removed, looking the same (ns, key) up
/// finds nothing.
pub proof fn lemma_remove_then_lookup(
    trees: Map<Seq<u8>, Map<Seq<u8>, Seq<u8>>>,
    ns: Seq<u8>,
    key: Seq<u8>,
)
    ensures
        named_lookup(named_remove(trees, ns, key), ns, key) is None,
{
}

/// A remove touches no other record: the lookup at any other
/// (namespace, key) pair is unchanged.
pub proof fn lemma_remove_frame(
    trees: Map<Seq<u8>, Map<Seq<u8>, Seq<u8>>>,
    ns: Seq<u8>,
    key: Seq<u8>,
    ns2: Seq<u8>,
    key2: Seq<u8>,
)
    requires
        !(ns2 == ns && key2 == key),
    ensures
        named_lookup(named_remove(trees, ns, key), ns2, key2) == named_lookup(trees, ns2, key2),
{
}

/// Removing a record twice in a row leaves exactly the state one
/// remove leaves: removal is idempotent, so removing an absent record
/// is a no-op rather than an error.
pub proof fn lemma_remove_idempotent(
    trees: Map<Seq<u8>, Map<Seq<u8>, Seq<u8>>>,
    ns: Seq<u8>,
    key: Seq<u8>,
)
    ensures
        named_remove(named_remove(trees, ns, key), ns, key) == named_remove(trees, ns, key),
{
    let once = named_remove(trees, ns, key);
    let m = subtree(trees, ns).remove(key);
    assert(subtree(once, ns) == m);
    assert(m.remove(key) =~= m);
    assert(named_remove(once, ns, key) =~~= once);
}

/// A sequence name that was never issued stands at 0.
pub proof fn lemma_sequence_fresh(trees: Map<Seq<u8>, Map<Seq<u8>, Seq<u8>>>, name: Seq<u8>)
    requires
        !subtree(trees, sequence_tree_name()).dom().contains(name),
    ensures
        sequence_current(trees, name) == 0,
{
}

/// Sequence monotonicity, n-fold: across any chain of store states in
/// which each step raises the named counter by exactly one (as each
/// successful issuance does), the final value is the first plus the
/// number of steps.  With a fresh first state, n issuances in sequence
/// yield 1, 2, ..., n and leave the counter at n.
pub proof fn lemma_sequence_chain(
    states: Seq<Map<Seq<u8>, Map<Seq<u8>, Seq<u8>>>>,
    name: Seq<u8>,
)
    requires
        states.len() >= 1,
        forall|i: int|
            0 <= i < states.len() - 1 ==> sequence_current(#[trigger] states[i + 1], name)
                == sequence_current(states[i], name) + 1,
    ensures
        sequence_current(states.last(), name) == sequence_current(states[0], name) + (states.len()
            - 1),
    decreases states.len(),
{
    if states.len() > 1 {
        let prefix = states.drop_last();
        assert forall|i: int|
            0 <= i < prefix.len() - 1 implies sequence_current(#[trigger] prefix[i + 1], name)
            == sequence_current(prefix[i], name) + 1 by {
            assert(prefix[i + 1] == states[i + 1]);
            assert(prefix[i] == states[i]);
        }
        lemma_sequence_chain(prefix, name);
        assert(prefix.last() == states[states.len() - 2]);
        assert(sequence_current(states[states.len() - 2 + 1], name) == sequence_current(
            states[states.len() - 2],
            name,
        ) + 1);
        assert(states.last() == states[states.len() - 1]);
    }
}

} // verus!
