//! Laws that relate the tree's operations, stated over the abstract model that
//! each operation's contract uses.
use vstd::prelude::*;
use crate::model::{
    RecordModel, TreeModel, model_wf, UpdateModel, empty_model, get_path_model, has_record,
    is_first_position, lemma_first_position, make_snapshot_model, old_writes, path_version_model,
    replay, reset_model, revert_version_model, set_path_model, set_tree_model,
    was_path_updated_model,
};
use crate::path::{child_key, is_strict_ancestor, lemma_child_key, on_path, relative_key};
use crate::value::CanBeNone;

verus! {

/// Reading a path right after writing `v` there gives `v`.
pub proof fn lemma_set_then_get<V: CanBeNone>(t: TreeModel<V>, p: Seq<char>, v: V)
    ensures
        get_path_model(set_path_model(t, p, v), p) == v,
{
}

/// A path that was never written reads as the absent value: in an empty tree,
/// and still after a write to any other path (which may create it as an
/// intermediate node, but stores nothing in it).
pub proof fn lemma_absent_read<V: CanBeNone>(t: TreeModel<V>, p: Seq<char>, q: Seq<char>, v: V)
    requires
        get_path_model(t, p) == V::absent(),
        p != q,
    ensures
        get_path_model(empty_model::<V>(), p) == V::absent(),
        get_path_model(set_path_model(t, q, v), p) == V::absent(),
{
}

/// A write marks the written node, each of its ancestors and the root as
/// updated and leaves every other mark as it was; starting a new cycle clears
/// every mark.
pub proof fn lemma_write_propagates<V: CanBeNone>(t: TreeModel<V>, p: Seq<char>, v: V)
    ensures
        set_path_model(t, p, v).root.updated,
        forall|k: Seq<char>| on_path(k, p) ==> was_path_updated_model(set_path_model(t, p, v), k),
        forall|k: Seq<char>|
            !on_path(k, p) ==> was_path_updated_model(set_path_model(t, p, v), k)
                == was_path_updated_model(t, k),
        !reset_model(set_path_model(t, p, v)).root.updated,
        forall|k: Seq<char>| !was_path_updated_model(reset_model(set_path_model(t, p, v)), k),
{
}

/// A write strictly increases the version of the written node, of each of its
/// ancestors and of the root.
pub proof fn lemma_versions_grow<V: CanBeNone>(t: TreeModel<V>, p: Seq<char>, v: V)
    ensures
        set_path_model(t, p, v).root.version > t.root.version,
        forall|k: Seq<char>|
            on_path(k, p) ==> path_version_model(set_path_model(t, p, v), k) > path_version_model(
                t,
                k,
            ),
{
}

/// After installing `sub` at `x`, every node below `x` has its counterpart in
/// `sub`, every node of `sub` reads at its place below `x` as it does in `sub`,
/// and `x` holds the value of `sub`'s root.
pub proof fn lemma_merge_replace<V: CanBeNone>(t: TreeModel<V>, x: Seq<char>, sub: TreeModel<V>)
    ensures
        forall|k: Seq<char>|
            #[trigger] set_tree_model(t, x, sub).nodes.contains_key(k) && is_strict_ancestor(x, k)
                ==> sub.nodes.contains_key(relative_key(x, k)),
        forall|r: Seq<char>| #[trigger]
            sub.nodes.contains_key(r) ==> get_path_model(set_tree_model(t, x, sub), child_key(x, r))
                == sub.nodes[r].value,
        get_path_model(set_tree_model(t, x, sub), x) == sub.root.value,
{
    assert forall|r: Seq<char>| #[trigger] sub.nodes.contains_key(r) implies get_path_model(
        set_tree_model(t, x, sub),
        child_key(x, r),
    ) == sub.nodes[r].value by {
        lemma_child_key(x, r);
    }
    assert(!is_strict_ancestor(x, x));
}

/// Two writes to one path reach every registered listener in order: first the
/// change from the previous value to `a`, then the change from `a` to `b`.
pub proof fn lemma_broadcast_order<V: CanBeNone>(t: TreeModel<V>, p: Seq<char>, a: V, b: V)
    ensures
        set_path_model(set_path_model(t, p, a), p, b).listeners.len() == t.listeners.len(),
        forall|i: int|
            0 <= i < t.listeners.len() ==> #[trigger] set_path_model(set_path_model(t, p, a), p, b).listeners[i]
                == t.listeners[i] + seq![
                UpdateModel { path: p, old_value: get_path_model(t, p), value: a },
                UpdateModel { path: p, old_value: a, value: b },
            ],
{
    lemma_set_then_get(t, p, a);
    assert forall|i: int| 0 <= i < t.listeners.len() implies #[trigger] set_path_model(
        set_path_model(t, p, a),
        p,
        b,
    ).listeners[i] == t.listeners[i] + seq![
        UpdateModel { path: p, old_value: get_path_model(t, p), value: a },
        UpdateModel { path: p, old_value: a, value: b },
    ] by {
        assert(set_path_model(set_path_model(t, p, a), p, b).listeners[i] =~= t.listeners[i] + seq![
            UpdateModel { path: p, old_value: get_path_model(t, p), value: a },
            UpdateModel { path: p, old_value: a, value: b },
        ]);
    }
}

/// Between two checkpoints, the record of a path keeps the value the path had
/// before its first write and takes the value of its last write.
pub proof fn lemma_first_old_last_new<V: CanBeNone>(t: TreeModel<V>, p: Seq<char>, a: V, b: V)
    requires
        !has_record(t.pending, p),
    ensures
        set_path_model(set_path_model(t, p, a), p, b).pending == t.pending.push(
            RecordModel { path: p, old_value: get_path_model(t, p), new_value: b },
        ),
{
    let t1 = set_path_model(t, p, a);
    let n = t.pending.len() as int;
    assert(t1.pending[n].path == p);
    let i = choose|i: int| 0 <= i < t1.pending.len() && t1.pending[i].path == p;
    if i != n {
        assert(t.pending[i].path == p);
    }
    assert(set_path_model(t1, p, b).pending =~= t.pending.push(
        RecordModel { path: p, old_value: get_path_model(t, p), new_value: b },
    ));
}

/// Undoing the checkpoint that closes a single write restores the value the
/// path had before it.
pub proof fn lemma_undo_single_write<V: CanBeNone>(t: TreeModel<V>, p: Seq<char>, v: V)
    requires
        model_wf(t),
        t.pending.len() == 0,
    ensures
        get_path_model(
            revert_version_model(
                make_snapshot_model(set_path_model(t, p, v)),
                t.root.version + 1,
            ),
            p,
        ) == get_path_model(t, p),
{
    let t2 = make_snapshot_model(set_path_model(t, p, v));
    let n = t.snapshots.len() as int;
    assert(is_first_position(t2.snapshots, t.root.version + 1, n));
    lemma_first_position(t2.snapshots, t.root.version + 1, n);
    let w = old_writes(t2.snapshots[n]);
    assert(t2.snapshots[n].records =~= seq![
        RecordModel { path: p, old_value: get_path_model(t, p), new_value: v },
    ]);
    assert(w.len() == 1);
    assert(w.drop_last() =~= Seq::<(Seq<char>, V)>::empty());
    assert(replay(t2, w.drop_last()) == t2);
    lemma_set_then_get(t2, p, get_path_model(t, p));
}

} // verus!
