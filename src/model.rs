use vstd::prelude::*;
use crate::path::{
    is_strict_ancestor, on_path, child_key, relative_key, lemma_ancestor_on_path,
    lemma_ancestor_of_child, lemma_ancestor_trans, lemma_relative_key, lemma_descendant_not_on_path,
    lemma_child_key, lemma_child_ancestor,
};
use crate::value::CanBeNone;

verus! {

/// The abstract state of one node: its value and its version tracker.
pub struct NodeModel<V> {
    pub value: V,
    pub version: int,
    pub updated: bool,
}

/// One recorded change between two checkpoints.
pub struct RecordModel<V> {
    pub path: Seq<char>,
    /// The value before the first write of the interval.
    pub old_value: V,
    /// The value after the last write of the interval.
    pub new_value: V,
}

/// A checkpoint: the root version it was taken at and the changes it closes.
pub struct SnapshotModel<V> {
    pub version: int,
    pub records: Seq<RecordModel<V>>,
}

/// One change message, as handed to the listeners.
pub struct UpdateModel<V> {
    pub path: Seq<char>,
    pub old_value: V,
    pub value: V,
}

/// The abstract state of a whole tree.
///
/// `nodes` maps the full dotted path of every node below the root to that node.
/// `listeners` holds, for each registered listener in order of registration,
/// every update handed to it so far, oldest first.
pub struct TreeModel<V> {
    pub root: NodeModel<V>,
    pub resume_pointer: Option<int>,
    pub nodes: Map<Seq<char>, NodeModel<V>>,
    pub pending: Seq<RecordModel<V>>,
    pub snapshots: Seq<SnapshotModel<V>>,
    pub listeners: Seq<Seq<UpdateModel<V>>>,
}

pub open spec fn fresh_node<V: CanBeNone>() -> NodeModel<V> {
    NodeModel { value: V::absent(), version: 0, updated: false }
}

pub open spec fn node_or_fresh<V: CanBeNone>(
    nodes: Map<Seq<char>, NodeModel<V>>,
    k: Seq<char>,
) -> NodeModel<V> {
    if nodes.contains_key(k) {
        nodes[k]
    } else {
        fresh_node()
    }
}

/// The node after one notification: updated, one version further.
pub open spec fn notified<V>(n: NodeModel<V>) -> NodeModel<V> {
    NodeModel { value: n.value, version: n.version + 1, updated: true }
}

pub open spec fn with_value<V>(n: NodeModel<V>, v: V) -> NodeModel<V> {
    NodeModel { value: v, version: n.version, updated: n.updated }
}

/// The empty tree.
pub open spec fn empty_model<V: CanBeNone>() -> TreeModel<V> {
    TreeModel {
        root: fresh_node(),
        resume_pointer: None,
        nodes: Map::empty(),
        pending: Seq::empty(),
        snapshots: Seq::empty(),
        listeners: Seq::empty(),
    }
}

pub open spec fn get_path_model<V: CanBeNone>(t: TreeModel<V>, p: Seq<char>) -> V {
    if t.nodes.contains_key(p) {
        t.nodes[p].value
    } else {
        V::absent()
    }
}

pub open spec fn was_path_updated_model<V>(t: TreeModel<V>, p: Seq<char>) -> bool {
    t.nodes.contains_key(p) && t.nodes[p].updated
}

pub open spec fn path_version_model<V>(t: TreeModel<V>, p: Seq<char>) -> int {
    if t.nodes.contains_key(p) {
        t.nodes[p].version
    } else {
        -1
    }
}

/// The nodes after writing `v` at `p`: the node at `p` and every strict ancestor
/// exist, are notified once, and `p` holds `v`.
pub open spec fn write_nodes<V: CanBeNone>(
    nodes: Map<Seq<char>, NodeModel<V>>,
    p: Seq<char>,
    v: V,
) -> Map<Seq<char>, NodeModel<V>> {
    Map::new(
        |k: Seq<char>| nodes.contains_key(k) || on_path(k, p),
        |k: Seq<char>|
            if k == p {
                with_value(notified(node_or_fresh(nodes, k)), v)
            } else if is_strict_ancestor(k, p) {
                notified(node_or_fresh(nodes, k))
            } else {
                nodes[k]
            },
    )
}

pub open spec fn has_record<V>(pending: Seq<RecordModel<V>>, p: Seq<char>) -> bool {
    exists|i: int| 0 <= i < pending.len() && pending[i].path == p
}

/// The pending changes after a write of `v` at `p`, which held `old` before:
/// the first write of an interval fixes the old value, the last one the new value.
pub open spec fn record_write<V>(
    pending: Seq<RecordModel<V>>,
    p: Seq<char>,
    old: V,
    v: V,
) -> Seq<RecordModel<V>> {
    if has_record(pending, p) {
        let i = choose|i: int| 0 <= i < pending.len() && pending[i].path == p;
        pending.update(i, RecordModel { path: p, old_value: pending[i].old_value, new_value: v })
    } else {
        pending.push(RecordModel { path: p, old_value: old, new_value: v })
    }
}

/// A write that is recorded for the next checkpoint but not broadcast.
pub open spec fn write_model<V: CanBeNone>(t: TreeModel<V>, p: Seq<char>, v: V) -> TreeModel<V> {
    TreeModel {
        root: notified(t.root),
        nodes: write_nodes(t.nodes, p, v),
        pending: record_write(t.pending, p, get_path_model(t, p), v),
        ..t
    }
}

/// A write that is recorded and broadcast: every listener is handed one update
/// with the value before and after the write.
pub open spec fn set_path_model<V: CanBeNone>(t: TreeModel<V>, p: Seq<char>, v: V) -> TreeModel<V> {
    TreeModel {
        listeners: t.listeners.map_values(
            |l: Seq<UpdateModel<V>>|
                l.push(UpdateModel { path: p, old_value: get_path_model(t, p), value: v }),
        ),
        ..write_model(t, p, v)
    }
}

/// Every node, the root included, no longer counts as updated.
pub open spec fn reset_model<V>(t: TreeModel<V>) -> TreeModel<V> {
    TreeModel {
        root: NodeModel { updated: false, ..t.root },
        nodes: t.nodes.map_values(|n: NodeModel<V>| NodeModel { updated: false, ..n }),
        ..t
    }
}

/// Everything is forgotten, the listeners included.
pub open spec fn clear_model<V: CanBeNone>(t: TreeModel<V>) -> TreeModel<V> {
    empty_model()
}

/// The pending changes become a checkpoint tagged with the root version.
pub open spec fn make_snapshot_model<V>(t: TreeModel<V>) -> TreeModel<V> {
    TreeModel {
        snapshots: t.snapshots.push(SnapshotModel { version: t.root.version, records: t.pending }),
        pending: Seq::empty(),
        ..t
    }
}

/// The writes that undo a checkpoint: each path back to its old value.
pub open spec fn old_writes<V>(s: SnapshotModel<V>) -> Seq<(Seq<char>, V)> {
    s.records.map_values(|r: RecordModel<V>| (r.path, r.old_value))
}

/// The writes that redo a checkpoint: each path to its new value.
pub open spec fn new_writes<V>(s: SnapshotModel<V>) -> Seq<(Seq<char>, V)> {
    s.records.map_values(|r: RecordModel<V>| (r.path, r.new_value))
}

/// `set_path` applied to each write in turn.
pub open spec fn replay<V: CanBeNone>(t: TreeModel<V>, w: Seq<(Seq<char>, V)>) -> TreeModel<V>
    decreases w.len(),
{
    if w.len() == 0 {
        t
    } else {
        let l = w.last();
        set_path_model(replay(t, w.drop_last()), l.0, l.1)
    }
}

pub open spec fn is_first_position<V>(s: Seq<SnapshotModel<V>>, version: int, i: int) -> bool {
    &&& 0 <= i < s.len()
    &&& s[i].version == version
    &&& forall|j: int| 0 <= j < i ==> s[j].version != version
}

pub open spec fn has_snapshot<V>(s: Seq<SnapshotModel<V>>, version: int) -> bool {
    exists|i: int| 0 <= i < s.len() && s[i].version == version
}

/// The index of the first checkpoint with this version, or -1.
pub open spec fn first_position<V>(s: Seq<SnapshotModel<V>>, version: int) -> int {
    if exists|i: int| is_first_position(s, version, i) {
        choose|i: int| is_first_position(s, version, i)
    } else {
        -1
    }
}

/// Where the tree stands in its history: the resume pointer, or the live version.
pub open spec fn current_version<V>(t: TreeModel<V>) -> int {
    match t.resume_pointer {
        Some(v) => v,
        None => t.root.version,
    }
}

/// Undoes the checkpoints at indices `i`, `i - 1`, ... down to `stop + 1`.
pub open spec fn rewind_steps<V: CanBeNone>(
    t: TreeModel<V>,
    s: Seq<SnapshotModel<V>>,
    i: int,
    stop: int,
) -> TreeModel<V>
    decreases i - stop,
{
    if i <= stop {
        t
    } else {
        rewind_steps(replay(t, old_writes(s[i])), s, i - 1, stop)
    }
}

/// Redoes the checkpoints at indices `i`, `i + 1`, ... up to `stop`.
pub open spec fn fast_forward_steps<V: CanBeNone>(
    t: TreeModel<V>,
    s: Seq<SnapshotModel<V>>,
    i: int,
    stop: int,
) -> TreeModel<V>
    decreases stop + 1 - i,
{
    if i > stop {
        t
    } else {
        fast_forward_steps(replay(t, new_writes(s[i])), s, i + 1, stop)
    }
}

/// Moves back to the checkpoint `target`. Where the current position is no
/// checkpoint, the pending changes are checkpointed first, so that they are
/// undone too.
pub open spec fn rewind_model<V: CanBeNone>(t: TreeModel<V>, target: int) -> TreeModel<V> {
    let cur = first_position(t.snapshots, current_version(t));
    let t0 = if cur >= 0 { t } else { make_snapshot_model(t) };
    let from = if cur >= 0 { cur } else { t.snapshots.len() as int };
    let t1 = rewind_steps(t0, t0.snapshots, from, first_position(t.snapshots, target));
    TreeModel { resume_pointer: Some(target), ..t1 }
}

/// Moves forward to the checkpoint `target`, redoing the checkpoints from the
/// current one (or the last one, where the current position is none) on.
pub open spec fn fast_forward_model<V: CanBeNone>(t: TreeModel<V>, target: int) -> TreeModel<V> {
    let cur = first_position(t.snapshots, current_version(t));
    let from = if cur >= 0 { cur } else { t.snapshots.len() - 1 };
    let t1 = fast_forward_steps(t, t.snapshots, from, first_position(t.snapshots, target));
    TreeModel { resume_pointer: Some(target), ..t1 }
}

/// Moves to the checkpoint `target`, records that the tree stands there, and
/// drops the changes that the move recorded.
pub open spec fn go_to_model<V: CanBeNone>(t: TreeModel<V>, target: int) -> TreeModel<V> {
    let cur = current_version(t);
    let t1 = if target < cur {
        rewind_model(t, target)
    } else if target > cur {
        fast_forward_model(t, target)
    } else {
        t
    };
    TreeModel { pending: Seq::empty(), resume_pointer: Some(target), ..t1 }
}

/// Undoes the single checkpoint tagged `version`.
pub open spec fn revert_version_model<V: CanBeNone>(t: TreeModel<V>, version: int) -> TreeModel<V> {
    replay(t, old_writes(t.snapshots[first_position(t.snapshots, version)]))
}

/// The nodes that stay when the subtree at `p` is replaced by `sub`: every
/// descendant of `p` whose relative path `sub` lacks is dropped.
pub open spec fn prune_nodes<V>(
    nodes: Map<Seq<char>, NodeModel<V>>,
    p: Seq<char>,
    sub: Map<Seq<char>, NodeModel<V>>,
) -> Map<Seq<char>, NodeModel<V>> {
    Map::new(
        |k: Seq<char>|
            nodes.contains_key(k) && !(is_strict_ancestor(p, k) && !sub.contains_key(
                relative_key(p, k),
            )),
        |k: Seq<char>| nodes[k],
    )
}

/// Every node of `sub` installed below `p`, each notified once and holding the
/// value of its counterpart in `sub`.
pub open spec fn install_nodes<V: CanBeNone>(
    nodes: Map<Seq<char>, NodeModel<V>>,
    p: Seq<char>,
    sub: Map<Seq<char>, NodeModel<V>>,
) -> Map<Seq<char>, NodeModel<V>> {
    Map::new(
        |k: Seq<char>|
            nodes.contains_key(k) || (is_strict_ancestor(p, k) && sub.contains_key(
                relative_key(p, k),
            )),
        |k: Seq<char>|
            if is_strict_ancestor(p, k) && sub.contains_key(relative_key(p, k)) {
                with_value(notified(node_or_fresh(nodes, k)), sub[relative_key(p, k)].value)
            } else {
                nodes[k]
            },
    )
}

/// Merge-replace of the subtree at `p` by `sub`: the path to `p` is written with
/// the value of `sub`'s root, the descendants that `sub` lacks are removed, and
/// those it has are installed. The root is notified once. Nothing is recorded
/// or broadcast.
pub open spec fn set_tree_model<V: CanBeNone>(
    t: TreeModel<V>,
    p: Seq<char>,
    sub: TreeModel<V>,
) -> TreeModel<V> {
    TreeModel {
        root: notified(t.root),
        nodes: install_nodes(
            prune_nodes(write_nodes(t.nodes, p, sub.root.value), p, sub.nodes),
            p,
            sub.nodes,
        ),
        ..t
    }
}

/// The subtree at `p` (which must exist) as a tree of its own, with no history
/// and no listeners.
pub open spec fn subtree_model<V: CanBeNone>(t: TreeModel<V>, p: Seq<char>) -> TreeModel<V> {
    TreeModel {
        root: t.nodes[p],
        nodes: Map::new(
            |r: Seq<char>| t.nodes.contains_key(child_key(p, r)),
            |r: Seq<char>| t.nodes[child_key(p, r)],
        ),
        ..empty_model()
    }
}

/// The number of writes that undoing or redoing the checkpoints `lo .. hi` makes.
pub open spec fn writes_between<V>(s: Seq<SnapshotModel<V>>, lo: int, hi: int) -> int
    decreases hi - lo,
{
    if hi <= lo {
        0
    } else {
        writes_between(s, lo, hi - 1) + s[hi - 1].records.len()
    }
}

/// Versions stay in range however the history is navigated: the root version
/// plus every write that the recorded history can replay fits an `i32`.
pub open spec fn room_for_history<V>(t: TreeModel<V>) -> bool {
    t.root.version + writes_between(t.snapshots, 0, t.snapshots.len() as int) + t.pending.len()
        <= i32::MAX
}

/// Every strict ancestor of a node is a node, and no node is ahead of its
/// ancestors.
pub open spec fn nodes_closed<V>(n: Map<Seq<char>, NodeModel<V>>) -> bool {
    forall|k: Seq<char>, a: Seq<char>|
        #[trigger] n.contains_key(k) && #[trigger] is_strict_ancestor(a, k) ==> n.contains_key(a)
            && n[k].version <= n[a].version
}

/// The invariant of every tree: versions are non-negative, neither a node nor
/// a checkpoint is ahead of the root, the nodes form a tree in which no node is
/// ahead of its ancestors, and pending changes name each path once.
pub open spec fn model_wf<V>(t: TreeModel<V>) -> bool {
    &&& 0 <= t.root.version <= i32::MAX
    &&& forall|k: Seq<char>| #[trigger]
        t.nodes.contains_key(k) ==> 0 <= t.nodes[k].version <= t.root.version
    &&& forall|i: int| 0 <= i < t.snapshots.len() ==> #[trigger] t.snapshots[i].version <= t.root.version
    &&& nodes_closed(t.nodes)
    &&& forall|i: int, j: int|
        0 <= i < j < t.pending.len() ==> #[trigger] t.pending[i].path != #[trigger] t.pending[j].path
}

} // verus!

verus! {

/// A write keeps the tree's invariant, as long as the root version has room.
pub proof fn lemma_write_keeps_wf<V: CanBeNone>(t: TreeModel<V>, p: Seq<char>, v: V)
    requires
        model_wf(t),
        t.root.version < i32::MAX,
    ensures
        model_wf(write_model(t, p, v)),
        model_wf(set_path_model(t, p, v)),
{
    let t1 = write_model(t, p, v);
    lemma_write_nodes_closed(t.nodes, p, v);
    assert forall|k: Seq<char>| #[trigger] t1.nodes.contains_key(k) implies 0 <= t1.nodes[k].version
        <= t1.root.version by {
        if t.nodes.contains_key(k) {
            assert(0 <= t.nodes[k].version <= t.root.version);
        }
    }
    if has_record(t.pending, p) {
        let i = choose|i: int| 0 <= i < t.pending.len() && t.pending[i].path == p;
        assert forall|a: int, b: int| 0 <= a < b < t1.pending.len() implies #[trigger] t1.pending[a].path
            != #[trigger] t1.pending[b].path by {
            assert(t1.pending[a].path == t.pending[a].path);
            assert(t1.pending[b].path == t.pending[b].path);
        }
    } else {
        assert forall|a: int, b: int| 0 <= a < b < t1.pending.len() implies #[trigger] t1.pending[a].path
            != #[trigger] t1.pending[b].path by {
            if b == t.pending.len() {
                assert(t1.pending[b].path == p);
                assert(t1.pending[a].path == t.pending[a].path);
            } else {
                assert(t1.pending[a].path == t.pending[a].path);
                assert(t1.pending[b].path == t.pending[b].path);
            }
        }
    }
}

} // verus!

verus! {

pub proof fn lemma_writes_nonneg<V>(s: Seq<SnapshotModel<V>>, lo: int, hi: int)
    ensures
        writes_between(s, lo, hi) >= 0,
    decreases hi - lo,
{
    if hi > lo {
        lemma_writes_nonneg(s, lo, hi - 1);
    }
}

/// The writes of `lo .. hi` are those of `lo` and then those of `lo + 1 .. hi`.
pub proof fn lemma_writes_split_low<V>(s: Seq<SnapshotModel<V>>, lo: int, hi: int)
    requires
        lo < hi,
    ensures
        writes_between(s, lo, hi) == s[lo].records.len() + writes_between(s, lo + 1, hi),
    decreases hi - lo,
{
    reveal_with_fuel(writes_between, 2);
    if hi - 1 > lo {
        lemma_writes_split_low(s, lo, hi - 1);
    }
}

/// A range inside another one has no more writes.
pub proof fn lemma_writes_mono<V>(s: Seq<SnapshotModel<V>>, lo: int, hi: int, lo2: int, hi2: int)
    requires
        lo <= lo2,
        hi2 <= hi,
    ensures
        writes_between(s, lo2, hi2) <= writes_between(s, lo, hi),
    decreases (hi - hi2) + (lo2 - lo),
{
    if hi2 <= lo2 {
        lemma_writes_nonneg(s, lo, hi);
    } else if hi2 < hi {
        lemma_writes_mono(s, lo, hi - 1, lo2, hi2);
    } else if lo < lo2 {
        lemma_writes_split_low(s, lo, hi);
        lemma_writes_mono(s, lo + 1, hi, lo2, hi2);
    }
}

/// Appending a checkpoint leaves the writes of the earlier ones alone.
pub proof fn lemma_writes_push<V>(s: Seq<SnapshotModel<V>>, x: SnapshotModel<V>, lo: int, hi: int)
    requires
        0 <= lo,
        hi <= s.len(),
    ensures
        writes_between(s.push(x), lo, hi) == writes_between(s, lo, hi),
    decreases hi - lo,
{
    if hi > lo {
        lemma_writes_push(s, x, lo, hi - 1);
        assert(s.push(x)[hi - 1] == s[hi - 1]);
    }
}

pub proof fn lemma_first_position<V>(s: Seq<SnapshotModel<V>>, version: int, i: int)
    requires
        is_first_position(s, version, i),
    ensures
        first_position(s, version) == i,
{
    let c = choose|c: int| is_first_position(s, version, c);
    if c < i {
        assert(s[c].version != version);
    } else if c > i {
        assert(s[i].version != version);
    }
}

pub proof fn lemma_no_position<V>(s: Seq<SnapshotModel<V>>, version: int)
    requires
        forall|j: int| 0 <= j < s.len() ==> s[j].version != version,
    ensures
        first_position(s, version) == -1,
        !has_snapshot(s, version),
{
}

} // verus!

verus! {

pub open spec fn versions_nonneg<V>(n: Map<Seq<char>, NodeModel<V>>) -> bool {
    forall|k: Seq<char>| #[trigger] n.contains_key(k) ==> 0 <= n[k].version
}

/// A write keeps the nodes a tree in which no node is ahead of its ancestors.
pub proof fn lemma_write_nodes_closed<V: CanBeNone>(n: Map<Seq<char>, NodeModel<V>>, p: Seq<char>, v: V)
    requires
        nodes_closed(n),
        versions_nonneg(n),
    ensures
        nodes_closed(write_nodes(n, p, v)),
        versions_nonneg(write_nodes(n, p, v)),
{
    let w = write_nodes(n, p, v);
    assert forall|k: Seq<char>, a: Seq<char>|
        #[trigger] w.contains_key(k) && #[trigger] is_strict_ancestor(a, k) implies w.contains_key(a)
            && w[k].version <= w[a].version by {
        if on_path(k, p) {
            lemma_ancestor_on_path(a, k, p);
            if n.contains_key(k) {
                assert(n.contains_key(a));
            }
            if n.contains_key(a) {
                assert(0 <= n[a].version);
            }
        } else {
            assert(n.contains_key(a));
        }
    }
    assert forall|k: Seq<char>| #[trigger] w.contains_key(k) implies 0 <= w[k].version by {
        if n.contains_key(k) {
            assert(0 <= n[k].version);
        }
    }
}

/// A merge-replace keeps the nodes a tree in which no node is ahead of its
/// ancestors, when the incoming subtree is a tree.
pub proof fn lemma_graft_closed<V: CanBeNone>(
    n: Map<Seq<char>, NodeModel<V>>,
    p: Seq<char>,
    sv: V,
    sub: Map<Seq<char>, NodeModel<V>>,
)
    requires
        nodes_closed(n),
        versions_nonneg(n),
        nodes_closed(sub),
    ensures
        nodes_closed(install_nodes(prune_nodes(write_nodes(n, p, sv), p, sub), p, sub)),
        versions_nonneg(install_nodes(prune_nodes(write_nodes(n, p, sv), p, sub), p, sub)),
{
    let n1 = write_nodes(n, p, sv);
    lemma_write_nodes_closed(n, p, sv);
    let n2 = prune_nodes(n1, p, sub);
    assert forall|k: Seq<char>, a: Seq<char>|
        #[trigger] n2.contains_key(k) && #[trigger] is_strict_ancestor(a, k) implies n2.contains_key(a)
            && n2[k].version <= n2[a].version by {
        assert(n1.contains_key(a));
        if is_strict_ancestor(p, a) {
            lemma_ancestor_trans(p, a, k);
            lemma_relative_key(p, k);
            lemma_ancestor_of_child(a, p, relative_key(p, k));
            assert(sub.contains_key(relative_key(p, a)));
        }
    }
    let n3 = install_nodes(n2, p, sub);
    assert forall|k: Seq<char>, a: Seq<char>|
        #[trigger] n3.contains_key(k) && #[trigger] is_strict_ancestor(a, k) implies n3.contains_key(a)
            && n3[k].version <= n3[a].version by {
        if is_strict_ancestor(p, k) && sub.contains_key(relative_key(p, k)) {
            lemma_relative_key(p, k);
            lemma_descendant_not_on_path(p, k);
            lemma_ancestor_of_child(a, p, relative_key(p, k));
            if on_path(a, p) {
                assert(!is_strict_ancestor(p, a));
                assert(n1.contains_key(a));
                assert(n2.contains_key(a));
                if n2.contains_key(k) {
                    assert(n.contains_key(k));
                    assert(n.contains_key(a));
                }
                if n.contains_key(a) {
                    assert(0 <= n[a].version);
                }
            } else {
                assert(sub.contains_key(relative_key(p, a)));
                if n2.contains_key(k) {
                    assert(n2.contains_key(a));
                }
                if n2.contains_key(a) {
                    assert(0 <= n1[a].version);
                }
            }
        } else {
            assert(n2.contains_key(a));
        }
    }
    assert forall|k: Seq<char>| #[trigger] n3.contains_key(k) implies 0 <= n3[k].version by {
        if n2.contains_key(k) {
            assert(0 <= n1[k].version);
        }
    }
}

/// The subtree at a node of a well-formed tree is a well-formed tree.
pub proof fn lemma_subtree_wf<V: CanBeNone>(t: TreeModel<V>, p: Seq<char>)
    requires
        model_wf(t),
        t.nodes.contains_key(p),
    ensures
        model_wf(subtree_model(t, p)),
{
    let s = subtree_model(t, p);
    assert forall|r: Seq<char>| #[trigger] s.nodes.contains_key(r) implies 0 <= s.nodes[r].version
        <= s.root.version by {
        lemma_child_key(p, r);
        assert(t.nodes.contains_key(child_key(p, r)));
    }
    assert forall|k: Seq<char>, a: Seq<char>|
        #[trigger] s.nodes.contains_key(k) && #[trigger] is_strict_ancestor(a, k) implies s.nodes.contains_key(a)
            && s.nodes[k].version <= s.nodes[a].version by {
        lemma_child_ancestor(p, a, k);
        assert(t.nodes.contains_key(child_key(p, k)));
    }
}

} // verus!
