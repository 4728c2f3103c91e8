use vstd::prelude::*;
use std::sync::mpsc::Receiver;
use crate::channel::Listener;
use crate::model::{
    NodeModel, TreeModel, UpdateModel, empty_model, get_path_model, model_wf,
    notified, path_version_model, was_path_updated_model, with_value, write_nodes, write_model,
    set_path_model, record_write, reset_model, lemma_write_keeps_wf, SnapshotModel,
    make_snapshot_model, old_writes, new_writes, replay, first_position,
    has_snapshot, current_version, rewind_steps, fast_forward_steps, rewind_model,
    fast_forward_model, go_to_model, revert_version_model, clear_model, room_for_history,
    writes_between, lemma_writes_nonneg, lemma_writes_split_low, lemma_writes_mono,
    lemma_writes_push, lemma_first_position, lemma_no_position, subtree_model, set_tree_model,
    prune_nodes, install_nodes, versions_nonneg, lemma_graft_closed,
    lemma_subtree_wf,
};
use crate::path::{
    child_key, relative_key, is_strict_ancestor, on_path, relative_path, join_path,
    lemma_child_key, lemma_relative_key, lemma_descendant_not_on_path, is_segment, segment_check,
};
use crate::table::{NodeTable, gathered};
use crate::snapshot::Snapshot;
use crate::tracker::LeafVersionTracker;
use crate::value::CanBeNone;

verus! {

/// A change message: the value at `path` went from `old_value` to `value`.
#[derive(Clone, Debug)]
pub struct Update<V> {
    pub path: String,
    pub value: V,
    pub old_value: V,
}

impl<V> View for Update<V> {
    type V = UpdateModel<V>;

    open spec fn view(&self) -> UpdateModel<V> {
        UpdateModel { path: self.path@, old_value: self.old_value, value: self.value }
    }
}

/// The nodes of `sub` whose paths are stored before index `j`.
spec fn first_entries<V>(sub: NodeTable<V>, j: int) -> Map<Seq<char>, NodeModel<V>> {
    Map::new(
        |r: Seq<char>| exists|jj: int| 0 <= jj < j && sub.key_at(jj) == r,
        |r: Seq<char>| sub@[r],
    )
}

/// A node below `p` stays when the replacing subtree `sub` has its counterpart.
spec fn kept<V>(p: Seq<char>, sub: Map<Seq<char>, NodeModel<V>>, k: Seq<char>) -> bool {
    !(is_strict_ancestor(p, k) && !sub.contains_key(relative_key(p, k)))
}

/// `c` names a direct child of the node at `p` (of the root, where `p` is `None`).
pub open spec fn is_child_name<V>(
    nodes: Map<Seq<char>, NodeModel<V>>,
    p: Option<Seq<char>>,
    c: Seq<char>,
) -> bool {
    &&& is_segment(c)
    &&& match p {
        Some(p) => nodes.contains_key(child_key(p, c)),
        None => nodes.contains_key(c),
    }
}

/// The updates of a listener's log, as values of the model.
pub open spec fn handed_view<V>(h: Seq<Update<V>>) -> Seq<UpdateModel<V>> {
    h.map_values(|u: Update<V>| u@)
}

/// Every checkpoint of the list is well formed.
pub closed spec fn snapshots_wf<V>(s: Seq<Snapshot<V>>) -> bool {
    forall|i: int| 0 <= i < s.len() ==> #[trigger] s[i].wf()
}

/// An observable, versioned tree of values addressed by dotted paths.
///
/// The nodes below the root are kept in a table keyed by their full path; the
/// root node is held apart, with the tree's history and listeners.
#[verifier::reject_recursive_types(V)]
pub struct ObservableKVTree<V> {
    nodes: NodeTable<V>,
    value: V,
    pub update_tracker: LeafVersionTracker,
    update_listeners: Vec<Listener<Update<V>>>,
    snapshots: Vec<Snapshot<V>>,
    snapshot_change_accumulator: Snapshot<V>,
}

impl<V> View for ObservableKVTree<V> {
    type V = TreeModel<V>;

    closed spec fn view(&self) -> TreeModel<V> {
        TreeModel {
            root: NodeModel {
                value: self.value,
                version: self.update_tracker@.version,
                updated: self.update_tracker@.updated,
            },
            resume_pointer: self.update_tracker@.resume_pointer,
            nodes: self.nodes@,
            pending: self.snapshot_change_accumulator@.records,
            snapshots: self.snapshots@.map_values(|s: Snapshot<V>| s@),
            listeners: self.update_listeners@.map_values(
                |l: Listener<Update<V>>| handed_view(l.handed()),
            ),
        }
    }
}

impl<V> ObservableKVTree<V> {
    /// The node table, the pending changes and every checkpoint are well formed.
    pub closed spec fn shaped(&self) -> bool {
        &&& self.nodes.wf()
        &&& self.snapshot_change_accumulator.wf()
        &&& snapshots_wf(self.snapshots@)
    }

    /// The invariant of a tree that can be written to.
    pub open spec fn wf(&self) -> bool {
        self.shaped() && model_wf(self@)
    }
}

impl<V: CanBeNone> ObservableKVTree<V> {
    /// An empty tree: no nodes, no history, no listeners.
    pub fn new() -> (r: Self)
        ensures
            r.wf(),
            r@ == empty_model::<V>(),
    {
        let r = ObservableKVTree {
            nodes: NodeTable::new(),
            value: V::none(),
            update_tracker: LeafVersionTracker::new(),
            update_listeners: Vec::new(),
            snapshots: Vec::new(),
            snapshot_change_accumulator: Snapshot::empty(),
        };
        assert(r@.snapshots =~= Seq::empty());
        assert(r@.listeners =~= Seq::empty());
        r
    }

    /// A tree with nothing below its root, whose root holds `value`.
    pub fn with_value(value: V) -> (r: Self)
        ensures
            r.wf(),
            r@ == (TreeModel {
                root: NodeModel { value, version: 0, updated: false },
                ..empty_model::<V>()
            }),
    {
        let mut r = Self::new();
        r.value = value;
        r
    }

    /// The value held by the root itself.
    pub fn value(&self) -> (r: V)
        ensures
            r == self@.root.value,
    {
        self.value.duplicate()
    }

    /// The value at `path`, or the absent value where no node is there.
    pub fn get_path(&self, path: &str) -> (r: V)
        requires
            self.shaped(),
        ensures
            r == get_path_model(self@, path@),
    {
        let key = String::from_str(path);
        match self.nodes.find(&key) {
            Some(i) => self.nodes.value_at(i).duplicate(),
            None => V::none(),
        }
    }

    /// The version of the root, which every write anywhere in the tree bumps.
    pub fn version(&self) -> (r: i32)
        ensures
            r as int == self@.root.version,
    {
        self.update_tracker.version()
    }

    /// The checkpoint the tree was last moved to, or `None` at the live tip.
    pub fn resume_pointer(&self) -> (r: Option<i32>)
        ensures
            r matches Some(v) ==> self@.resume_pointer == Some(v as int),
            r is None ==> self@.resume_pointer is None,
    {
        self.update_tracker.corresponding_previous_version()
    }

    /// Whether the root was notified in the current cycle.
    pub fn was_updated(&self) -> (r: bool)
        ensures
            r == self@.root.updated,
    {
        self.update_tracker.was_updated()
    }

    /// Whether the node at `path` exists and was notified in the current cycle.
    pub fn was_path_updated(&self, path: &str) -> (r: bool)
        requires
            self.shaped(),
        ensures
            r == was_path_updated_model(self@, path@),
    {
        let key = String::from_str(path);
        match self.nodes.find(&key) {
            Some(i) => self.nodes.tracker_at(i).was_updated(),
            None => false,
        }
    }

    /// The version of the node at `path`, or -1 where no node is there.
    pub fn path_version(&self, path: &str) -> (r: i32)
        requires
            self.shaped(),
        ensures
            r as int == path_version_model(self@, path@),
    {
        let key = String::from_str(path);
        match self.nodes.find(&key) {
            Some(i) => self.nodes.tracker_at(i).version(),
            None => -1,
        }
    }

    /// Writes `value` at `path`: the node and its ancestors are created where
    /// missing and notified once, the root too.
    fn write_path(&mut self, path: &str, value: V)
        requires
            old(self).shaped(),
            model_wf(old(self)@),
            old(self)@.root.version < i32::MAX,
        ensures
            final(self).shaped(),
            final(self)@ == (TreeModel {
                root: notified(old(self)@.root),
                nodes: write_nodes(old(self)@.nodes, path@, value),
                ..old(self)@
            }),
    {
        let ghost t0 = self@;
        assert(forall|k: Seq<char>| #[trigger] t0.nodes.contains_key(k) ==> t0.nodes[k].version
            <= t0.root.version);
        self.nodes.touch_ancestors(path);
        self.nodes.touch(String::from_str(path), Some(value));
        assert(self@.nodes =~= write_nodes(t0.nodes, path@, value));
        self.update_tracker.notify_update();
    }

    /// Records a coming write of `value` at `path` for the next checkpoint. The
    /// old value is the one before the first write since the last checkpoint.
    pub fn update_snapshot_accumulator(&mut self, path: &str, value: V)
        requires
            old(self).shaped(),
        ensures
            final(self).shaped(),
            final(self)@ == (TreeModel {
                pending: record_write(old(self)@.pending, path@, get_path_model(old(self)@, path@), value),
                ..old(self)@
            }),
    {
        let old_value = self.get_path(path);
        let key = String::from_str(path);
        self.snapshot_change_accumulator.record(&key, &old_value, value);
    }

    /// Writes `value` at `path` like `set_path`, but tells no listener.
    /// The write is still recorded for the next checkpoint.
    pub fn set_path_without_notifying(&mut self, path: &str, value: V)
        requires
            old(self).wf(),
            old(self)@.root.version < i32::MAX,
        ensures
            final(self).wf(),
            final(self)@ == write_model(old(self)@, path@, value),
    {
        proof {
            lemma_write_keeps_wf(self@, path@, value);
        }
        self.update_snapshot_accumulator(path, value.duplicate());
        self.write_path(path, value);
    }

    /// Hands one update to every listener; a listener whose receiver is gone
    /// drops it.
    fn broadcast(&mut self, path: &str, old_value: &V, value: &V)
        requires
            old(self).shaped(),
        ensures
            final(self).shaped(),
            final(self)@ == (TreeModel {
                listeners: old(self)@.listeners.map_values(
                    |l: Seq<UpdateModel<V>>|
                        l.push(UpdateModel { path: path@, old_value: *old_value, value: *value }),
                ),
                ..old(self)@
            }),
    {
        let ghost t0 = self@;
        let ghost u = UpdateModel { path: path@, old_value: *old_value, value: *value };
        let ghost before = self.update_listeners@;
        let mut i: usize = 0;
        while i < self.update_listeners.len()
            invariant
                self.shaped(),
                self@ == (TreeModel { listeners: self@.listeners, ..t0 }),
                u == (UpdateModel { path: path@, old_value: *old_value, value: *value }),
                self.update_listeners@.len() == before.len(),
                i <= before.len(),
                forall|j: int|
                    0 <= j < before.len() ==> #[trigger] handed_view(self.update_listeners@[j].handed()) == (
                    if j < i {
                        handed_view(before[j].handed()).push(u)
                    } else {
                        handed_view(before[j].handed())
                    }),
            decreases before.len() - i,
        {
            let update = Update {
                path: String::from_str(path),
                value: value.duplicate(),
                old_value: old_value.duplicate(),
            };
            let ghost h = self.update_listeners@[i as int].handed();
            self.update_listeners[i].send(update);
            assert(handed_view(h.push(update)) =~= handed_view(h).push(u));
            i = i + 1;
        }
        assert(self@.listeners =~= t0.listeners.map_values(|l: Seq<UpdateModel<V>>| l.push(u)));
    }

    /// Writes `value` at `path`. The node and each of its ancestors, the root
    /// included, are created where missing, notified once (version one higher,
    /// marked updated); the write is recorded for the next checkpoint and an
    /// update with the value before and after is handed to every listener.
    pub fn set_path(&mut self, path: &str, value: V)
        requires
            old(self).wf(),
            old(self)@.root.version < i32::MAX,
        ensures
            final(self).wf(),
            final(self)@ == set_path_model(old(self)@, path@, value),
    {
        proof {
            lemma_write_keeps_wf(self@, path@, value);
        }
        let old_value = self.get_path(path);
        let copy = value.duplicate();
        self.set_path_without_notifying(path, value);
        self.broadcast(path, &old_value, &copy);
    }

    /// Starts a new cycle: no node, the root included, counts as updated.
    pub fn reset_update_cycle(&mut self)
        requires
            old(self).wf(),
        ensures
            final(self).wf(),
            final(self)@ == reset_model(old(self)@),
    {
        let ghost t0 = self@;
        self.nodes.reset_all();
        self.update_tracker.reset_update_cycle();
        assert(self@ == reset_model(t0));
    }

    /// Registers a new listener and returns its end of the channel: from now on
    /// it receives one update per write, in the order of the writes.
    pub fn create_update_channel(&mut self) -> (r: Receiver<Update<V>>)
        requires
            old(self).wf(),
        ensures
            final(self).wf(),
            final(self)@ == (TreeModel {
                listeners: old(self)@.listeners.push(Seq::empty()),
                ..old(self)@
            }),
    {
        let (listener, receiver) = Listener::open();
        assert(handed_view(listener.handed()) =~= Seq::empty());
        self.update_listeners.push(listener);
        assert(self@.listeners =~= old(self)@.listeners.push(Seq::empty()));
        receiver
    }

    /// Closes the current interval: its recorded changes become a checkpoint
    /// tagged with the root version, which is returned, and recording starts
    /// afresh.
    pub fn make_snapshot(&mut self) -> (r: i32)
        requires
            old(self).wf(),
        ensures
            final(self).wf(),
            final(self)@ == make_snapshot_model(old(self)@),
            r as int == old(self)@.root.version,
    {
        let version = self.update_tracker.version();
        let s = self.snapshot_change_accumulator.take(version);
        let ghost before = self.snapshots@;
        self.snapshots.push(s);
        assert forall|i: int| 0 <= i < self.snapshots@.len() implies #[trigger] self.snapshots@[i].wf() by {
            if i < before.len() {
                assert(before[i].wf());
            }
        }
        assert(self@.snapshots =~= old(self)@.snapshots.push(
            SnapshotModel { version: version as int, records: old(self)@.pending },
        ));
        version
    }

    /// The version of the latest checkpoint, if any.
    pub fn last_snapshot_version(&self) -> (r: Option<i32>)
        ensures
            r is None <==> self@.snapshots.len() == 0,
            r matches Some(v) ==> v as int == self@.snapshots.last().version,
    {
        let n = self.snapshots.len();
        if n == 0 {
            None
        } else {
            Some(self.snapshots[n - 1].version())
        }
    }

    /// Replays the old values (`old_side`) or the new values of a checkpoint,
    /// one `set_path` per record, in record order.
    fn replay_snapshot(&mut self, snapshot: &Snapshot<V>, old_side: bool)
        requires
            old(self).wf(),
            snapshot.wf(),
            old(self)@.root.version + snapshot@.records.len() <= i32::MAX,
        ensures
            final(self).wf(),
            final(self)@ == replay(
                old(self)@,
                if old_side {
                    old_writes(snapshot@)
                } else {
                    new_writes(snapshot@)
                },
            ),
            final(self)@.root.version == old(self)@.root.version + snapshot@.records.len(),
            final(self)@.snapshots == old(self)@.snapshots,
    {
        let ghost t0 = self@;
        let ghost w = if old_side {
            old_writes(snapshot@)
        } else {
            new_writes(snapshot@)
        };
        let n = snapshot.len();
        let mut i: usize = 0;
        assert(w.take(0) =~= Seq::<(Seq<char>, V)>::empty());
        while i < n
            invariant
                self.wf(),
                snapshot.wf(),
                n == snapshot@.records.len(),
                w.len() == n,
                w == (if old_side {
                    old_writes(snapshot@)
                } else {
                    new_writes(snapshot@)
                }),
                i <= n,
                self@ == replay(t0, w.take(i as int)),
                self@.root.version == t0.root.version + i,
                self@.snapshots == t0.snapshots,
                t0.root.version + n <= i32::MAX,
            decreases n - i,
        {
            let v = if old_side {
                snapshot.old_value_at(i).duplicate()
            } else {
                snapshot.new_value_at(i).duplicate()
            };
            let p = snapshot.path_at(i);
            assert(w[i as int] == (p@, v));
            self.set_path(p.as_str(), v);
            assert(w.take(i + 1).drop_last() =~= w.take(i as int));
            i = i + 1;
        }
        assert(w.take(n as int) =~= w);
    }

    /// Sets every path of the checkpoint to its new value, through `set_path`.
    pub fn apply_snapshot(&mut self, snapshot: &Snapshot<V>)
        requires
            old(self).wf(),
            snapshot.wf(),
            old(self)@.root.version + snapshot@.records.len() <= i32::MAX,
        ensures
            final(self).wf(),
            final(self)@ == replay(old(self)@, new_writes(snapshot@)),
            final(self)@.root.version == old(self)@.root.version + snapshot@.records.len(),
            final(self)@.snapshots == old(self)@.snapshots,
    {
        self.replay_snapshot(snapshot, false);
    }

    /// Sets every path of the checkpoint back to its old value, through `set_path`.
    pub fn revert_snapshot(&mut self, snapshot: &Snapshot<V>)
        requires
            old(self).wf(),
            snapshot.wf(),
            old(self)@.root.version + snapshot@.records.len() <= i32::MAX,
        ensures
            final(self).wf(),
            final(self)@ == replay(old(self)@, old_writes(snapshot@)),
            final(self)@.root.version == old(self)@.root.version + snapshot@.records.len(),
            final(self)@.snapshots == old(self)@.snapshots,
    {
        self.replay_snapshot(snapshot, true);
    }

    /// The index of the first checkpoint tagged `version`, if any.
    fn position_of_version(&self, version: i32) -> (r: Option<usize>)
        requires
            self.wf(),
        ensures
            r matches Some(i) ==> i < self@.snapshots.len() && i == first_position(self@.snapshots, version as int),
            r is None ==> first_position(self@.snapshots, version as int) == -1
                && !has_snapshot(self@.snapshots, version as int),
    {
        let mut i: usize = 0;
        while i < self.snapshots.len()
            invariant
                i <= self.snapshots@.len(),
                forall|j: int| 0 <= j < i ==> self@.snapshots[j].version != version,
            decreases self.snapshots@.len() - i,
        {
            if self.snapshots[i].version() == version {
                proof {
                    lemma_first_position(self@.snapshots, version as int, i as int);
                }
                return Some(i);
            }
            i = i + 1;
        }
        proof {
            lemma_no_position(self@.snapshots, version as int);
        }
        None
    }

    /// Where the tree stands in its history: the resume pointer, else the root version.
    fn current_version(&self) -> (r: i32)
        ensures
            r as int == current_version(self@),
    {
        match self.update_tracker.corresponding_previous_version() {
            Some(v) => v,
            None => self.update_tracker.version(),
        }
    }

    fn set_resume_pointer(&mut self, version: i32)
        requires
            old(self).wf(),
        ensures
            final(self).wf(),
            final(self)@ == (TreeModel { resume_pointer: Some(version as int), ..old(self)@ }),
    {
        self.update_tracker.set_resume_pointer(Some(version));
    }

    /// Moves back to the checkpoint tagged `version` by undoing, newest first,
    /// every checkpoint after it up to the current position. Where the current
    /// position is no checkpoint, the pending changes are checkpointed first.
    pub fn rewind_to_version(&mut self, version: i32)
        requires
            old(self).wf(),
            has_snapshot(old(self)@.snapshots, version as int),
            room_for_history(old(self)@),
        ensures
            final(self).wf(),
            final(self)@ == rewind_model(old(self)@, version as int),
    {
        let ghost t = self@;
        let stop = match self.position_of_version(version) {
            Some(p) => p,
            None => 0,
        };
        let current = self.current_version();
        let from = match self.position_of_version(current) {
            Some(p) => p,
            None => {
                self.make_snapshot();
                assert(self.snapshots@.len() == self@.snapshots.len());
                proof {
                    lemma_writes_push(t.snapshots, SnapshotModel { version: t.root.version, records: t.pending }, 0, t.snapshots.len() as int);
                }
                self.snapshots.len() - 1
            },
        };
        let ghost t0 = self@;
        let ghost s = t0.snapshots;
        proof {
            lemma_writes_mono(s, 0, s.len() as int, stop + 1, from + 1);
        }
        let mut i: usize = from;
        while i > stop
            invariant
                self.wf(),
                from < s.len(),
                stop < s.len(),
                i <= from,
                self@.snapshots == s,
                rewind_steps(self@, s, i as int, stop as int) == rewind_steps(t0, s, from as int, stop as int),
                self@.root.version + writes_between(s, stop + 1, i + 1) <= i32::MAX,
            decreases i,
        {
            assert(self.snapshots@.len() == self@.snapshots.len());
            let snap = self.snapshots[i].duplicate();
            proof {
                lemma_writes_nonneg(s, stop + 1, i as int);
            }
            self.revert_snapshot(&snap);
            i = i - 1;
        }
        self.set_resume_pointer(version);
    }

    /// Moves forward to the checkpoint tagged `version` by redoing, oldest
    /// first, every checkpoint from the current one (or the latest, where the
    /// current position is no checkpoint) up to it.
    pub fn fast_forward_to_version(&mut self, version: i32)
        requires
            old(self).wf(),
            has_snapshot(old(self)@.snapshots, version as int),
            room_for_history(old(self)@),
        ensures
            final(self).wf(),
            final(self)@ == fast_forward_model(old(self)@, version as int),
    {
        let ghost t = self@;
        let ghost s = t.snapshots;
        let stop = match self.position_of_version(version) {
            Some(p) => p,
            None => 0,
        };
        let current = self.current_version();
        let from = match self.position_of_version(current) {
            Some(p) => p,
            None => self.snapshots.len() - 1,
        };
        proof {
            lemma_writes_mono(s, 0, s.len() as int, from as int, stop + 1);
            lemma_writes_nonneg(s, 0, s.len() as int);
        }
        let n = self.snapshots.len();
        let mut i: usize = from;
        while i <= stop
            invariant
                self.wf(),
                n == s.len(),
                stop < n,
                self@.snapshots == s,
                fast_forward_steps(self@, s, i as int, stop as int) == fast_forward_steps(t, s, from as int, stop as int),
                self@.root.version + writes_between(s, i as int, stop + 1) <= i32::MAX,
            decreases stop + 1 - i,
        {
            assert(self.snapshots@.len() == self@.snapshots.len());
            let snap = self.snapshots[i].duplicate();
            proof {
                lemma_writes_split_low(s, i as int, stop + 1);
                lemma_writes_nonneg(s, i + 1, stop + 1);
            }
            self.apply_snapshot(&snap);
            i = i + 1;
        }
        self.set_resume_pointer(version);
    }

    /// Moves the tree to the checkpoint tagged `version`, which must exist:
    /// back by undoing checkpoints or forward by redoing them, each change
    /// replayed through `set_path`, so listeners see every step. The tree then
    /// stands at `version`; the changes recorded on the way are dropped.
    pub fn go_to_snapshot_with_version(&mut self, version: i32)
        requires
            old(self).wf(),
            has_snapshot(old(self)@.snapshots, version as int),
            room_for_history(old(self)@),
        ensures
            final(self).wf(),
            final(self)@ == go_to_model(old(self)@, version as int),
    {
        let current = self.current_version();
        if version < current {
            self.rewind_to_version(version);
        } else if version > current {
            self.fast_forward_to_version(version);
        }
        self.set_resume_pointer(version);
        self.snapshot_change_accumulator.clear();
    }

    /// Undoes the single checkpoint tagged `version`, which must exist: each of
    /// its paths is set back to its old value through `set_path`.
    pub fn revert_snapshot_version(&mut self, version: i32)
        requires
            old(self).wf(),
            has_snapshot(old(self)@.snapshots, version as int),
            old(self)@.root.version + old(self)@.snapshots[first_position(
                old(self)@.snapshots,
                version as int,
            )].records.len() <= i32::MAX,
        ensures
            final(self).wf(),
            final(self)@ == revert_version_model(old(self)@, version as int),
    {
        let ghost s = self@.snapshots;
        let p = match self.position_of_version(version) {
            Some(p) => p,
            None => 0,
        };
        let snap = self.snapshots[p].duplicate();
        self.revert_snapshot(&snap);
    }

    /// Resets the whole tree: no nodes, an absent root value, version zero, no
    /// listeners, no checkpoints and nothing pending.
    pub fn clear(&mut self)
        requires
            old(self).wf(),
        ensures
            final(self).wf(),
            final(self)@ == clear_model(old(self)@),
    {
        self.nodes.clear();
        self.value = V::none();
        self.update_tracker.clear();
        self.update_listeners.clear();
        self.snapshot_change_accumulator.clear();
        self.snapshots.clear();
        assert(self@.snapshots =~= Seq::empty());
        assert(self@.listeners =~= Seq::empty());
    }

    /// A copy of the subtree at `path` as a tree of its own (no history, no
    /// listeners), or `None` where no node is there.
    pub fn get_tree(&self, path: &str) -> (r: Option<Self>)
        requires
            self.wf(),
        ensures
            r is Some <==> self@.nodes.contains_key(path@),
            r matches Some(t) ==> t.wf() && t@ == subtree_model(self@, path@),
    {
        let key = String::from_str(path);
        match self.nodes.find(&key) {
            None => None,
            Some(i) => {
                let ghost p = path@;
                let ghost src = self.nodes;
                let root_tracker = self.nodes.tracker_at(i);
                let root_value = self.nodes.value_at(i).duplicate();
                let mut table: NodeTable<V> = NodeTable::new();
                proof {
                    src.lemma_keys();
                }
                assert(table@ =~= gathered(src, p, 0));
                let mut j: usize = 0;
                while j < self.nodes.len()
                    invariant
                        self.wf(),
                        src == self.nodes,
                        p == path@,
                        table.wf(),
                        j <= src.size(),
                        table@ == gathered(src, p, j as int),
                        forall|ii: int| 0 <= ii < src.size() ==> #[trigger] src@.contains_key(src.key_at(ii)),
                        forall|a: int, b: int|
                            0 <= a < b < src.size() ==> #[trigger] src.key_at(a) != #[trigger] src.key_at(b),
                    decreases src.size() - j,
                {
                    let k = self.nodes.path_at(j);
                    let ks = k.as_str();
                    assert(ks@ == src.key_at(j as int));
                    match relative_path(path, ks) {
                        Some(rel) => {
                            let ghost r = rel@;
                            proof {
                                lemma_relative_key(p, ks@);
                                assert(child_key(p, r) == ks@);
                                if table@.contains_key(r) {
                                    let jj = choose|jj: int| 0 <= jj < j && src.key_at(jj) == child_key(p, r);
                                    assert(src.key_at(jj) != src.key_at(j as int));
                                }
                            }
                            let v = self.nodes.value_at(j).duplicate();
                            let t = self.nodes.tracker_at(j);
                            table.push_entry(rel, v, t);
                            assert forall|rr: Seq<char>| #[trigger] gathered(src, p, j + 1).contains_key(rr)
                                <==> table@.contains_key(rr) by {
                                if gathered(src, p, j + 1).contains_key(rr) && rr != r {
                                    let jj = choose|jj: int| 0 <= jj < j + 1 && src.key_at(jj) == child_key(p, rr);
                                    if jj == j {
                                        lemma_child_key(p, rr);
                                    }
                                }
                                if rr == r {
                                    assert(src.key_at(j as int) == child_key(p, rr));
                                }
                            }
                            assert(table@ =~= gathered(src, p, j + 1));
                        },
                        None => {
                            assert forall|rr: Seq<char>| #[trigger] gathered(src, p, j + 1).contains_key(rr)
                                implies gathered(src, p, j as int).contains_key(rr) by {
                                let jj = choose|jj: int| 0 <= jj < j + 1 && src.key_at(jj) == child_key(p, rr);
                                if jj == j {
                                    lemma_child_key(p, rr);
                                }
                            }
                            assert(table@ =~= gathered(src, p, j + 1));
                        },
                    }
                    j = j + 1;
                }
                let r = ObservableKVTree {
                    nodes: table,
                    value: root_value,
                    update_tracker: root_tracker,
                    update_listeners: Vec::new(),
                    snapshots: Vec::new(),
                    snapshot_change_accumulator: Snapshot::empty(),
                };
                assert(r@.listeners =~= Seq::empty());
                assert forall|rr: Seq<char>| #[trigger] r@.nodes.contains_key(rr) <==> src@.contains_key(
                    child_key(p, rr),
                ) by {
                    if src@.contains_key(child_key(p, rr)) {
                        let jj = choose|jj: int| 0 <= jj < src.size() && src.key_at(jj) == child_key(p, rr);
                        assert(gathered(src, p, j as int).contains_key(rr));
                    }
                }
                assert(r@.nodes =~= subtree_model(self@, p).nodes);
                assert(r@.snapshots =~= Seq::empty());
                assert(snapshots_wf(r.snapshots@));
                proof {
                    lemma_subtree_wf(self@, p);
                }
                Some(r)
            },
        }
    }

    /// Installs `value` as the subtree at `path` by merge-replace: the path is
    /// written with the value of `value`'s root, each node below `path` that
    /// `value` lacks is removed, and each node of `value` is installed below
    /// `path`. Every touched node, the root included, is notified exactly once.
    /// Nothing is recorded for checkpoints or broadcast.
    pub fn set_tree(&mut self, path: &str, value: Self)
        requires
            old(self).wf(),
            value.wf(),
            old(self)@.root.version < i32::MAX,
        ensures
            final(self).wf(),
            final(self)@ == set_tree_model(old(self)@, path@, value@),
    {
        let ghost t0 = self@;
        let ghost p = path@;
        let ghost sub = value@;
        assert(forall|k: Seq<char>| #[trigger] t0.nodes.contains_key(k) ==> t0.nodes[k].version
            <= t0.root.version);
        self.nodes.touch_ancestors(path);
        self.nodes.touch(String::from_str(path), Some(value.value.duplicate()));
        let ghost n1 = self@.nodes;
        assert(n1 =~= write_nodes(t0.nodes, p, sub.root.value));
        let ghost t1 = self@;

        // Drop the nodes below `path` that `value` lacks.
        let mut i: usize = 0;
        while i < self.nodes.len()
            invariant
                self.shaped(),
                value.shaped(),
                p == path@,
                sub == value@,
                self@ == (TreeModel { nodes: self@.nodes, ..t1 }),
                i <= self.nodes.size(),
                forall|k: Seq<char>| #[trigger] self@.nodes.contains_key(k) ==> n1.contains_key(k)
                    && self@.nodes[k] == n1[k],
                forall|k: Seq<char>| #[trigger] n1.contains_key(k) && kept(p, sub.nodes, k)
                    ==> self@.nodes.contains_key(k),
                forall|jj: int| 0 <= jj < i ==> kept(p, sub.nodes, #[trigger] self.nodes.key_at(jj)),
            decreases self.nodes.size() - i,
        {
            let k = self.nodes.path_at(i);
            let ks = k.as_str();
            let ghost kv = ks@;
            let gone = match relative_path(path, ks) {
                Some(rel) => value.nodes.find(&rel).is_none(),
                None => false,
            };
            assert(gone == !kept(p, sub.nodes, kv));
            if gone {
                self.nodes.remove_entry(i);
            } else {
                i = i + 1;
            }
        }
        let ghost n2 = self@.nodes;
        proof {
            self.nodes.lemma_keys();
            assert forall|k: Seq<char>| #[trigger] n2.contains_key(k) implies kept(p, sub.nodes, k) by {
                let jj = choose|jj: int| 0 <= jj < self.nodes.size() && self.nodes.key_at(jj) == k;
            }
        }
        assert(n2 =~= prune_nodes(n1, p, sub.nodes));

        // Install every node of `value` below `path`.
        proof {
            value.nodes.lemma_keys();
        }
        assert(install_nodes(n2, p, first_entries(value.nodes, 0)) =~= n2);
        let mut j: usize = 0;
        while j < value.nodes.len()
            invariant
                self.shaped(),
                value.shaped(),
                p == path@,
                sub == value@,
                sub.nodes == value.nodes@,
                self@ == (TreeModel { nodes: self@.nodes, ..t1 }),
                j <= value.nodes.size(),
                self@.nodes == install_nodes(n2, p, first_entries(value.nodes, j as int)),
                forall|k: Seq<char>| #[trigger] n2.contains_key(k) && !on_path(k, p) ==> n2[k].version
                    <= t0.root.version,
                t0.root.version < i32::MAX,
                forall|a: int, b: int|
                    0 <= a < b < value.nodes.size() ==> #[trigger] value.nodes.key_at(a)
                        != #[trigger] value.nodes.key_at(b),
                forall|ii: int|
                    0 <= ii < value.nodes.size() ==> #[trigger] value.nodes@.contains_key(
                        value.nodes.key_at(ii),
                    ),
            decreases value.nodes.size() - j,
        {
            let rel = value.nodes.path_at(j);
            let ck = join_path(path, rel.as_str());
            let v = value.nodes.value_at(j).duplicate();
            let ghost r = rel@;
            let ghost g = first_entries(value.nodes, j as int);
            proof {
                lemma_child_key(p, r);
                lemma_descendant_not_on_path(p, ck@);
                if g.contains_key(r) {
                    let jj = choose|jj: int| 0 <= jj < j && value.nodes.key_at(jj) == r;
                    assert(value.nodes.key_at(jj) != value.nodes.key_at(j as int));
                }
            }
            self.nodes.touch(ck, Some(v));
            proof {
                let g2 = first_entries(value.nodes, j + 1);
                assert forall|rr: Seq<char>| #[trigger] g2.contains_key(rr) <==> g.insert(r, sub.nodes[r]).contains_key(rr) by {
                    if g2.contains_key(rr) && rr != r {
                        let jj = choose|jj: int| 0 <= jj < j + 1 && value.nodes.key_at(jj) == rr;
                        assert(jj != j);
                    }
                    if rr == r {
                        assert(value.nodes.key_at(j as int) == rr);
                    }
                }
                assert(g2 =~= g.insert(r, sub.nodes[r]));
                assert forall|k: Seq<char>| #[trigger] install_nodes(n2, p, g2).contains_key(k) <==> self@.nodes.contains_key(k) by {
                    if is_strict_ancestor(p, k) && relative_key(p, k) == r {
                        lemma_relative_key(p, k);
                    }
                }
                assert forall|k: Seq<char>| #[trigger] install_nodes(n2, p, g2).contains_key(k) implies install_nodes(n2, p, g2)[k] == self@.nodes[k] by {
                    if is_strict_ancestor(p, k) && relative_key(p, k) == r {
                        lemma_relative_key(p, k);
                    }
                }
                assert(self@.nodes.dom() =~= install_nodes(n2, p, g2).dom());
                assert(self@.nodes =~= install_nodes(n2, p, g2));
            }
            j = j + 1;
        }
        assert forall|r: Seq<char>| #[trigger] first_entries(value.nodes, j as int).contains_key(r) <==> sub.nodes.contains_key(r) by {
            if sub.nodes.contains_key(r) {
                let jj = choose|jj: int| 0 <= jj < value.nodes.size() && value.nodes.key_at(jj) == r;
            }
        }
        assert(first_entries(value.nodes, j as int) =~= sub.nodes);
        self.update_tracker.notify_update();
        let ghost t2 = self@;
        assert forall|k: Seq<char>| #[trigger] t2.nodes.contains_key(k) implies 0 <= t2.nodes[k].version
            <= t2.root.version by {
            if t0.nodes.contains_key(k) {
                assert(0 <= t0.nodes[k].version <= t0.root.version);
            }
        }
        assert(t2 == set_tree_model(t0, p, sub));
        proof {
            assert(versions_nonneg(t0.nodes));
            lemma_graft_closed(t0.nodes, p, sub.root.value, sub.nodes);
        }
    }
}

impl<V: CanBeNone> ObservableKVTree<V> {
    /// The checkpoint at index `i` of the history, oldest first.
    pub fn snapshot_at(&self, i: usize) -> (r: &Snapshot<V>)
        requires
            self.wf(),
            i < self@.snapshots.len(),
        ensures
            r.wf(),
            r@ == self@.snapshots[i as int],
    {
        &self.snapshots[i]
    }

    /// The number of checkpoints taken.
    pub fn snapshot_count(&self) -> (r: usize)
        ensures
            r == self@.snapshots.len(),
    {
        self.snapshots.len()
    }

    /// The changes recorded since the last checkpoint.
    pub fn snapshot_change_accumulator(&self) -> (r: &Snapshot<V>)
        requires
            self.wf(),
        ensures
            r.wf(),
            r@.records == self@.pending,
    {
        &self.snapshot_change_accumulator
    }
}

impl<V: CanBeNone> Default for ObservableKVTree<V> {
    fn default() -> (r: Self)
        ensures
            r.wf(),
            r@ == empty_model::<V>(),
    {
        ObservableKVTree::new()
    }
}

impl<V: CanBeNone> ObservableKVTree<V> {
    /// The names of the direct children of the node at `path`, or of the root
    /// where `path` is `None`, each once, in storage order.
    pub fn child_names(&self, path: Option<&str>) -> (r: Vec<String>)
        requires
            self.shaped(),
        ensures
            forall|i: int| 0 <= i < r@.len() ==> is_child_name(self@.nodes, opt_view(path), #[trigger] r@[i]@),
            forall|c: Seq<char>| is_child_name(self@.nodes, opt_view(path), c) ==> exists|i: int|
                0 <= i < r@.len() && r@[i]@ == c,
            forall|i: int, j: int| 0 <= i < j < r@.len() ==> #[trigger] r@[i]@ != #[trigger] r@[j]@,
    {
        let ghost src = self.nodes;
        let ghost p = opt_view(path);
        proof {
            src.lemma_keys();
        }
        let mut r: Vec<String> = Vec::new();
        let mut j: usize = 0;
        while j < self.nodes.len()
            invariant
                self.shaped(),
                src == self.nodes,
                p == opt_view(path),
                j <= src.size(),
                forall|ii: int| 0 <= ii < src.size() ==> #[trigger] src@.contains_key(src.key_at(ii)),
                forall|a: int, b: int|
                    0 <= a < b < src.size() ==> #[trigger] src.key_at(a) != #[trigger] src.key_at(b),
                forall|i: int| 0 <= i < r@.len() ==> is_child_name(src@, p, #[trigger] r@[i]@),
                forall|i: int| 0 <= i < r@.len() ==> stored_before(src, p, j as int, #[trigger] r@[i]@),
                forall|jj: int, c: Seq<char>|
                    0 <= jj < j && is_segment(c) && src.key_at(jj) == full_key(p, c) ==> exists|i: int|
                        0 <= i < r@.len() && #[trigger] r@[i]@ == c,
                forall|a: int, b: int| 0 <= a < b < r@.len() ==> #[trigger] r@[a]@ != #[trigger] r@[b]@,
            decreases src.size() - j,
        {
            let k = self.nodes.path_at(j);
            let ks = k.as_str();
            assert(ks@ == src.key_at(j as int));
            let name: Option<String> = match path {
                Some(pp) => relative_path(pp, ks),
                None => Some(String::from_str(ks)),
            };
            match name {
                Some(c) => {
                    let ghost cv = c@;
                    proof {
                        match path {
                            Some(pp) => {
                                lemma_relative_key(pp@, ks@);
                            },
                            None => {},
                        }
                    }
                    assert(full_key(p, cv) == ks@);
                    if segment_check(c.as_str()) {
                        proof {
                            assert forall|i: int| 0 <= i < r@.len() implies r@[i]@ != cv by {
                                assert(stored_before(src, p, j as int, r@[i]@));
                                let jj = choose|jj: int| 0 <= jj < j && src.key_at(jj) == full_key(p, r@[i]@);
                                if r@[i]@ == cv {
                                    assert(src.key_at(jj) != src.key_at(j as int));
                                }
                            }
                        }
                        let ghost old_r = r@;
                        r.push(c);
                        assert(r@[old_r.len() as int]@ == cv);
                        assert forall|i: int| 0 <= i < r@.len() implies stored_before(src, p, j + 1, #[trigger] r@[i]@) by {
                            if i < old_r.len() {
                                assert(r@[i] == old_r[i]);
                                assert(stored_before(src, p, j as int, old_r[i]@));
                            } else {
                                assert(src.key_at(j as int) == full_key(p, r@[i]@));
                            }
                        }
                        assert forall|jj: int, c2: Seq<char>|
                            0 <= jj < j + 1 && is_segment(c2) && src.key_at(jj) == full_key(p, c2) implies exists|i: int|
                                0 <= i < r@.len() && #[trigger] r@[i]@ == c2 by {
                            if jj == j {
                                lemma_full_key_injective(p, c2, cv);
                                assert(r@[old_r.len() as int]@ == c2);
                            } else {
                                let i = choose|i: int| 0 <= i < old_r.len() && old_r[i]@ == c2;
                                assert(r@[i]@ == c2);
                            }
                        }
                    } else {
                        assert forall|jj: int, c2: Seq<char>|
                            0 <= jj < j + 1 && is_segment(c2) && src.key_at(jj) == full_key(p, c2) implies exists|i: int|
                                0 <= i < r@.len() && #[trigger] r@[i]@ == c2 by {
                            if jj == j {
                                lemma_full_key_injective(p, c2, cv);
                            }
                        }
                    }
                },
                None => {
                    assert forall|jj: int, c2: Seq<char>|
                        0 <= jj < j + 1 && is_segment(c2) && src.key_at(jj) == full_key(p, c2) implies exists|i: int|
                            0 <= i < r@.len() && #[trigger] r@[i]@ == c2 by {
                        if jj == j {
                            match p {
                                Some(pv) => {
                                    lemma_child_key(pv, c2);
                                },
                                None => {},
                            }
                        }
                    }
                },
            }
            j = j + 1;
        }
        assert forall|c: Seq<char>| is_child_name(self@.nodes, p, c) implies exists|i: int|
            0 <= i < r@.len() && r@[i]@ == c by {
            let jj = choose|jj: int| 0 <= jj < src.size() && src.key_at(jj) == full_key(p, c);
        }
        r
    }
}

/// Some node stored before index `j` is the child named `c` of the node at `p`.
spec fn stored_before<V>(t: NodeTable<V>, p: Option<Seq<char>>, j: int, c: Seq<char>) -> bool {
    exists|jj: int| 0 <= jj < j && t.key_at(jj) == full_key(p, c)
}

/// The view of an optional path.
pub open spec fn opt_view(p: Option<&str>) -> Option<Seq<char>> {
    match p {
        Some(s) => Some(s@),
        None => None,
    }
}

/// The full path of the child named `c` of the node at `p` (of the root, where
/// `p` is `None`).
pub open spec fn full_key(p: Option<Seq<char>>, c: Seq<char>) -> Seq<char> {
    match p {
        Some(p) => child_key(p, c),
        None => c,
    }
}

proof fn lemma_full_key_injective(p: Option<Seq<char>>, a: Seq<char>, b: Seq<char>)
    requires
        full_key(p, a) == full_key(p, b),
    ensures
        a == b,
{
    match p {
        Some(pv) => {
            lemma_child_key(pv, a);
            lemma_child_key(pv, b);
        },
        None => {},
    }
}

} // verus!
