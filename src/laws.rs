use vstd::prelude::*;

use crate::order::{lemma_increasing_unique, strictly_increasing, total_order};
use crate::tree::{lemma_in_order_increasing, Tree};

verus! {

/// A well-formed tree lists its values in strictly increasing order, and
/// lists exactly the values it holds.
pub proof fn lemma_values_increasing<T: Ord>(t: Tree<T>)
    requires
        total_order::<T>(),
        t.wf(),
    ensures
        strictly_increasing(t.values()),
        forall|x: T| t.values().contains(x) <==> t@.contains(x),
{
    lemma_in_order_increasing(*t.root);
}

/// Two well-formed trees that hold the same values list them identically,
/// whatever their shapes.
pub proof fn lemma_values_determined<T: Ord>(a: Tree<T>, b: Tree<T>)
    requires
        total_order::<T>(),
        a.wf(),
        b.wf(),
        a@ == b@,
    ensures
        a.values() == b.values(),
{
    lemma_values_increasing(a);
    lemma_values_increasing(b);
    lemma_increasing_unique(a.values(), b.values());
}

/// Inserting a value that is already present leaves the in-order values as
/// they were.
pub proof fn law_insert_present_keeps_values<T: Ord>(before: Tree<T>, after: Tree<T>, x: T)
    requires
        total_order::<T>(),
        before.wf(),
        before@.contains(x),
        after.wf(),
        after@ == before@.insert(x),
    ensures
        after.values() == before.values(),
{
    assert(before@.insert(x) == before@);
    lemma_values_determined(before, after);
}

/// Deleting a value that is absent leaves the in-order values as they were.
pub proof fn law_delete_absent_keeps_values<T: Ord>(before: Tree<T>, after: Tree<T>, x: T)
    requires
        total_order::<T>(),
        before.wf(),
        !before@.contains(x),
        after.wf(),
        after@ == before@.remove(x),
    ensures
        after.values() == before.values(),
{
    assert(before@.remove(x) == before@);
    lemma_values_determined(before, after);
}

/// Inserting an absent value and then deleting it restores the in-order
/// values of the tree as it was before the insertion.
pub proof fn law_insert_delete_round_trip<T: Ord>(
    before: Tree<T>,
    inserted: Tree<T>,
    deleted: Tree<T>,
    x: T,
)
    requires
        total_order::<T>(),
        before.wf(),
        !before@.contains(x),
        inserted.wf(),
        inserted@ == before@.insert(x),
        deleted.wf(),
        deleted@ == inserted@.remove(x),
    ensures
        deleted.values() == before.values(),
{
    assert(before@.insert(x).remove(x) == before@);
    lemma_values_determined(before, deleted);
}

/// The values held after a run of operations on an empty tree, where a step
/// `(true, v)` inserts `v` and a step `(false, v)` deletes `v`.
pub open spec fn contents_after<T>(ops: Seq<(bool, T)>) -> Set<T>
    decreases ops.len(),
{
    if ops.len() == 0 {
        Set::empty()
    } else {
        let prev = contents_after(ops.drop_last());
        let (is_insert, v) = ops.last();
        if is_insert {
            prev.insert(v)
        } else {
            prev.remove(v)
        }
    }
}

/// Some step of `ops` inserts `v` and no later step deletes it.
pub open spec fn inserted_and_kept<T>(ops: Seq<(bool, T)>, v: T) -> bool {
    exists|i: int|
        0 <= i < ops.len() && #[trigger] ops[i] == (true, v) && forall|j: int|
            i < j < ops.len() ==> #[trigger] ops[j] != (false, v)
}

/// A tree built from empty by a run of inserts and deletes holds `v`, so that
/// `lookup(v)` answers true, exactly when some insert of `v` has not been
/// followed by a delete of `v`.
pub proof fn law_lookup_reflects_history<T: Ord>(t: Tree<T>, ops: Seq<(bool, T)>, v: T)
    requires
        t@ == contents_after(ops),
    ensures
        t@.contains(v) <==> inserted_and_kept(ops, v),
{
    lemma_history(ops, v);
}

proof fn lemma_history<T>(ops: Seq<(bool, T)>, v: T)
    ensures
        contents_after(ops).contains(v) <==> inserted_and_kept(ops, v),
    decreases ops.len(),
{
    if ops.len() > 0 {
        let prev = ops.drop_last();
        let n = ops.len() - 1;
        lemma_history(prev, v);
        let (is_insert, w) = ops.last();
        if w == v && is_insert {
            assert(ops[n] == (true, v));
        } else if w == v {
            if inserted_and_kept(ops, v) {
                let i = choose|i: int|
                    0 <= i < ops.len() && #[trigger] ops[i] == (true, v) && forall|j: int|
                        i < j < ops.len() ==> #[trigger] ops[j] != (false, v);
                assert(ops[n] == (false, v));
            }
        } else {
            if inserted_and_kept(ops, v) {
                let i = choose|i: int|
                    0 <= i < ops.len() && #[trigger] ops[i] == (true, v) && forall|j: int|
                        i < j < ops.len() ==> #[trigger] ops[j] != (false, v);
                assert(i < n);
                assert(prev[i] == ops[i]);
                assert forall|j: int| i < j < prev.len() implies #[trigger] prev[j] != (false, v) by {
                    assert(prev[j] == ops[j]);
                }
            }
            if inserted_and_kept(prev, v) {
                let i = choose|i: int|
                    0 <= i < prev.len() && #[trigger] prev[i] == (true, v) && forall|j: int|
                        i < j < prev.len() ==> #[trigger] prev[j] != (false, v);
                assert(ops[i] == prev[i]);
                assert forall|j: int| i < j < ops.len() implies #[trigger] ops[j] != (false, v) by {
                    if j < n {
                        assert(prev[j] == ops[j]);
                    }
                }
            }
        }
    }
}

} // verus!
