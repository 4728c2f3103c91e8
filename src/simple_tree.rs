use vstd::prelude::*;
use crate::model::{NodeModel, node_or_fresh, write_nodes, nodes_closed, versions_nonneg, lemma_write_nodes_closed};
use crate::path::{
    child_key, is_strict_ancestor, lemma_ancestor_by_length, lemma_child_ancestor, lemma_child_key,
    lemma_relative_key, relative_path,
};
use crate::table::{NodeTable, touched, touched_below, gathered};

verus! {

/// What a node's update tracker is told: that the node was written, and that
/// a new cycle starts.
pub trait NotifyUpdate {
    /// Whether the node was written in the current cycle.
    spec fn is_notified(&self) -> bool;

    fn notify_update(&mut self)
        ensures
            final(self).is_notified(),
    ;

    fn reset_update_cycle(&mut self)
        ensures
            !final(self).is_notified(),
    ;
}

/// An update tracker that remembers whether its node was written in the
/// current cycle.
#[derive(Clone, Copy, Debug)]
pub struct SimpleUpdateTracker {
    updated: bool,
}

impl SimpleUpdateTracker {
    pub fn was_updated(&self) -> (r: bool)
        ensures
            r == self.is_notified(),
    {
        self.updated
    }
}

impl NotifyUpdate for SimpleUpdateTracker {
    closed spec fn is_notified(&self) -> bool {
        self.updated
    }

    fn notify_update(&mut self) {
        self.updated = true;
    }

    fn reset_update_cycle(&mut self) {
        self.updated = false;
    }
}

impl Default for SimpleUpdateTracker {
    fn default() -> (r: Self)
        ensures
            !r.is_notified(),
    {
        SimpleUpdateTracker { updated: false }
    }
}

/// The abstract state of an `ObservableTree`: the root's value, version and
/// whether its tracker is notified, and every node below it by full path. A
/// node's `updated` flag is whether its tracker is notified.
pub struct SimpleTreeModel<V> {
    pub value: Option<V>,
    pub version: int,
    pub notified: bool,
    pub nodes: Map<Seq<char>, NodeModel<Option<V>>>,
}

/// A tree of optional values addressed by dotted paths, with a version per
/// node and an update tracker of the caller's choosing per node.
///
/// A write creates the missing nodes on its path, increments the version of
/// the node and of each ancestor, the root included, and notifies each of
/// their trackers once.
pub struct ObservableTree<V, U> {
    nodes: NodeTable<Option<V>>,
    /// `trackers[i]` belongs to the node stored at index `i` of `nodes`.
    trackers: Vec<U>,
    value: Option<V>,
    version: i32,
    pub update_tracker: U,
}

impl<V, U: NotifyUpdate> View for ObservableTree<V, U> {
    type V = SimpleTreeModel<V>;

    closed spec fn view(&self) -> SimpleTreeModel<V> {
        SimpleTreeModel {
            value: self.value,
            version: self.version as int,
            notified: self.update_tracker.is_notified(),
            nodes: self.nodes@,
        }
    }
}

impl<V, U: NotifyUpdate> ObservableTree<V, U> {
    /// The node table is well formed and each node has its tracker, which is
    /// notified exactly when the node counts as updated.
    pub closed spec fn shaped(&self) -> bool {
        &&& self.nodes.wf()
        &&& self.trackers@.len() == self.nodes.size()
        &&& forall|i: int|
            0 <= i < self.nodes.size() ==> #[trigger] self.trackers@[i].is_notified()
                == self.nodes@[self.nodes.key_at(i)].updated
    }

    /// The invariant of a tree that can be written to: versions are
    /// non-negative, no node is ahead of the root, and the nodes form a tree in
    /// which no node is ahead of its ancestors.
    pub open spec fn wf(&self) -> bool {
        &&& self.shaped()
        &&& 0 <= self@.version <= i32::MAX
        &&& forall|k: Seq<char>| #[trigger]
            self@.nodes.contains_key(k) ==> 0 <= self@.nodes[k].version <= self@.version
        &&& nodes_closed(self@.nodes)
    }

    /// The root's update tracker.
    pub fn root_tracker(&self) -> (r: &U)
        ensures
            r.is_notified() == self@.notified,
    {
        &self.update_tracker
    }

    /// The version of the root.
    pub fn version(&self) -> (r: i32)
        ensures
            r as int == self@.version,
    {
        self.version
    }
}

impl<V: Copy, U: NotifyUpdate + Default + Copy> ObservableTree<V, U> {
    pub fn new() -> (r: Self)
        ensures
            r.wf(),
            r@ == (SimpleTreeModel::<V> { value: None, version: 0, notified: false, nodes: Map::empty() }),
    {
        let mut root = U::default();
        root.reset_update_cycle();
        ObservableTree {
            nodes: NodeTable::new(),
            trackers: Vec::new(),
            value: None,
            version: 0,
            update_tracker: root,
        }
    }

    /// Notifies the node at `key` and its tracker, creating both where
    /// missing, and stores `value` in the node where one is given.
    fn touch_node(&mut self, key: String, value: Option<Option<V>>)
        requires
            old(self).shaped(),
            old(self)@.nodes.contains_key(key@) ==> old(self)@.nodes[key@].version < i32::MAX,
        ensures
            final(self).shaped(),
            final(self)@ == (SimpleTreeModel {
                nodes: old(self)@.nodes.insert(key@, touched(node_or_fresh(old(self)@.nodes, key@), value)),
                ..old(self)@
            }),
    {
        proof {
            self.nodes.lemma_keys();
        }
        let ghost k = key@;
        match self.nodes.find(&key) {
            Some(i) => {
                self.nodes.touch(key, value);
                let mut t = self.trackers[i];
                t.notify_update();
                self.trackers.set(i, t);
                assert forall|j: int| 0 <= j < self.nodes.size() implies #[trigger] self.trackers@[j].is_notified()
                    == self.nodes@[self.nodes.key_at(j)].updated by {
                    if j != i {
                        assert(old(self).nodes.key_at(j) != old(self).nodes.key_at(i as int));
                    }
                }
            },
            None => {
                self.nodes.touch(key, value);
                let mut t = U::default();
                t.notify_update();
                self.trackers.push(t);
                assert forall|j: int| 0 <= j < self.nodes.size() implies #[trigger] self.trackers@[j].is_notified()
                    == self.nodes@[self.nodes.key_at(j)].updated by {
                    if j < old(self).nodes.size() {
                        assert(old(self).nodes@.contains_key(old(self).nodes.key_at(j)));
                    }
                }
            },
        }
    }

    /// Writes `value` at `path`: the node and each ancestor, the root included,
    /// are created where missing, get one more version and have their
    /// trackers notified once.
    pub fn set_path(&mut self, path: &str, value: V)
        requires
            old(self).wf(),
            old(self)@.version < i32::MAX,
        ensures
            final(self).wf(),
            final(self)@ == (SimpleTreeModel {
                version: old(self)@.version + 1,
                notified: true,
                nodes: write_nodes(old(self)@.nodes, path@, Some(value)),
                ..old(self)@
            }),
    {
        let ghost t0 = self@;
        let ghost n0 = self@.nodes;
        let len = path.unicode_len();
        let mut i: usize = 0;
        assert(touched_below(n0, path@, 0) =~= n0);
        while i < len
            invariant
                self.shaped(),
                len == path@.len(),
                i <= len,
                t0.version < i32::MAX,
                forall|k: Seq<char>| #[trigger] n0.contains_key(k) ==> n0[k].version <= t0.version,
                nodes_closed(n0),
                forall|k: Seq<char>| #[trigger] n0.contains_key(k) ==> 0 <= n0[k].version,
                self@ == (SimpleTreeModel { nodes: touched_below(n0, path@, i as int), ..t0 }),
            decreases len - i,
        {
            if path.get_char(i) == '.' {
                let prefix = String::from_str(path.substring_char(0, i));
                let ghost q = prefix@;
                assert(is_strict_ancestor(q, path@));
                assert(n0.contains_key(q) ==> n0[q].version <= t0.version);
                self.touch_node(prefix, None);
                assert forall|k: Seq<char>| is_strict_ancestor(k, path@) && k.len() == i implies k == q by {
                    lemma_ancestor_by_length(k, q, path@);
                }
                assert(self@.nodes =~= touched_below(n0, path@, i + 1));
            } else {
                assert(touched_below(n0, path@, i as int) =~= touched_below(n0, path@, i + 1));
            }
            i = i + 1;
        }
        assert(n0.contains_key(path@) ==> n0[path@].version <= t0.version);
        self.touch_node(String::from_str(path), Some(Some(value)));
        assert(self@.nodes =~= write_nodes(n0, path@, Some(value)));
        proof {
            assert(versions_nonneg(n0));
            lemma_write_nodes_closed(n0, path@, Some(value));
        }
        self.version = self.version + 1;
        self.update_tracker.notify_update();
        assert forall|k: Seq<char>| #[trigger] self@.nodes.contains_key(k) implies 0 <= self@.nodes[k].version
            <= self@.version by {
            if n0.contains_key(k) {
                assert(0 <= n0[k].version <= t0.version);
            }
        }
    }

    /// The value at `path`, or `None` where no node is there or it holds none.
    pub fn get_path(&self, path: &str) -> (r: Option<V>)
        requires
            self.shaped(),
        ensures
            r == (if self@.nodes.contains_key(path@) {
                self@.nodes[path@].value
            } else {
                None
            }),
    {
        let key = String::from_str(path);
        match self.nodes.find(&key) {
            Some(i) => *self.nodes.value_at(i),
            None => None,
        }
    }

    /// A copy of the subtree at `path`, trackers included, or `None` where no
    /// node is there.
    pub fn get_path_meta(&self, path: &str) -> (r: Option<Self>)
        requires
            self.wf(),
        ensures
            r is Some <==> self@.nodes.contains_key(path@),
            r matches Some(t) ==> t.wf() && t@ == (SimpleTreeModel {
                value: self@.nodes[path@].value,
                version: self@.nodes[path@].version,
                notified: self@.nodes[path@].updated,
                nodes: Map::new(
                    |r: Seq<char>| self@.nodes.contains_key(child_key(path@, r)),
                    |r: Seq<char>| self@.nodes[child_key(path@, r)],
                ),
            }),
    {
        let key = String::from_str(path);
        match self.nodes.find(&key) {
            None => None,
            Some(i) => {
                let ghost p = path@;
                let ghost src = self.nodes;
                let root_version = self.nodes.tracker_at(i).version();
                let root_value = *self.nodes.value_at(i);
                let root_tracker = self.trackers[i];
                let mut table: NodeTable<Option<V>> = NodeTable::new();
                let mut trackers: Vec<U> = Vec::new();
                proof {
                    src.lemma_keys();
                }
                assert(table@ =~= gathered(src, p, 0));
                let mut j: usize = 0;
                while j < self.nodes.len()
                    invariant
                        self.wf(),
                        src == self.nodes,
                        p == path@,
                        table.wf(),
                        trackers@.len() == table.size(),
                        forall|m: int|
                            0 <= m < table.size() ==> #[trigger] trackers@[m].is_notified()
                                == table@[table.key_at(m)].updated,
                        j <= src.size(),
                        table@ == gathered(src, p, j as int),
                        forall|ii: int| 0 <= ii < src.size() ==> #[trigger] src@.contains_key(src.key_at(ii)),
                        forall|a: int, b: int|
                            0 <= a < b < src.size() ==> #[trigger] src.key_at(a) != #[trigger] src.key_at(b),
                    decreases src.size() - j,
                {
                    let k = self.nodes.path_at(j);
                    let ks = k.as_str();
                    assert(ks@ == src.key_at(j as int));
                    match relative_path(path, ks) {
                        Some(rel) => {
                            let ghost r = rel@;
                            proof {
                                lemma_relative_key(p, ks@);
                                if table@.contains_key(r) {
                                    let jj = choose|jj: int| 0 <= jj < j && src.key_at(jj) == child_key(p, r);
                                    assert(src.key_at(jj) != src.key_at(j as int));
                                }
                            }
                            let v = *self.nodes.value_at(j);
                            let t = self.nodes.tracker_at(j);
                            let ghost tb = table;
                            proof {
                                tb.lemma_keys();
                            }
                            table.push_entry(rel, v, t);
                            trackers.push(self.trackers[j]);
                            assert forall|m: int| 0 <= m < table.size() implies #[trigger] trackers@[m].is_notified()
                                == table@[table.key_at(m)].updated by {
                                if m < tb.size() {
                                    assert(tb@.contains_key(tb.key_at(m)));
                                }
                            }
                            assert forall|rr: Seq<char>| #[trigger] gathered(src, p, j + 1).contains_key(rr)
                                <==> table@.contains_key(rr) by {
                                if gathered(src, p, j + 1).contains_key(rr) && rr != r {
                                    let jj = choose|jj: int| 0 <= jj < j + 1 && src.key_at(jj) == child_key(p, rr);
                                    if jj == j {
                                        lemma_child_key(p, rr);
                                    }
                                }
                                if rr == r {
                                    assert(src.key_at(j as int) == child_key(p, rr));
                                }
                            }
                            assert(table@ =~= gathered(src, p, j + 1));
                        },
                        None => {
                            assert forall|rr: Seq<char>| #[trigger] gathered(src, p, j + 1).contains_key(rr)
                                implies gathered(src, p, j as int).contains_key(rr) by {
                                let jj = choose|jj: int| 0 <= jj < j + 1 && src.key_at(jj) == child_key(p, rr);
                                if jj == j {
                                    lemma_child_key(p, rr);
                                }
                            }
                            assert(table@ =~= gathered(src, p, j + 1));
                        },
                    }
                    j = j + 1;
                }
                let r = ObservableTree {
                    nodes: table,
                    trackers,
                    value: root_value,
                    version: root_version,
                    update_tracker: root_tracker,
                };
                assert forall|rr: Seq<char>| #[trigger] r@.nodes.contains_key(rr) <==> src@.contains_key(
                    child_key(p, rr),
                ) by {
                    if src@.contains_key(child_key(p, rr)) {
                        let jj = choose|jj: int| 0 <= jj < src.size() && src.key_at(jj) == child_key(p, rr);
                        assert(gathered(src, p, j as int).contains_key(rr));
                    }
                }
                assert forall|rr: Seq<char>| #[trigger] r@.nodes.contains_key(rr) implies 0 <= r@.nodes[rr].version
                    <= r@.version by {
                    lemma_child_key(p, rr);
                    assert(self@.nodes.contains_key(child_key(p, rr)));
                }
                assert forall|k: Seq<char>, a: Seq<char>|
                    #[trigger] r@.nodes.contains_key(k) && #[trigger] is_strict_ancestor(a, k) implies r@.nodes.contains_key(a)
                        && r@.nodes[k].version <= r@.nodes[a].version by {
                    lemma_child_ancestor(p, a, k);
                    assert(self@.nodes.contains_key(child_key(p, k)));
                }
                assert(r@.nodes =~= Map::new(
                    |rr: Seq<char>| self@.nodes.contains_key(child_key(p, rr)),
                    |rr: Seq<char>| self@.nodes[child_key(p, rr)],
                ));
                Some(r)
            },
        }
    }

    /// Starts a new cycle: every tracker, the root's included, is told so.
    pub fn reset_update_cycle(&mut self)
        requires
            old(self).wf(),
        ensures
            final(self).wf(),
            final(self)@ == (SimpleTreeModel {
                notified: false,
                nodes: old(self)@.nodes.map_values(
                    |n: NodeModel<Option<V>>| NodeModel { updated: false, ..n },
                ),
                ..old(self)@
            }),
    {
        self.update_tracker.reset_update_cycle();
        self.nodes.reset_all();
        let ghost mid = self@;
        let ghost table = self.nodes;
        assert(mid.nodes =~= old(self)@.nodes.map_values(
            |n: NodeModel<Option<V>>| NodeModel { updated: false, ..n },
        ));
        let mut i: usize = 0;
        while i < self.trackers.len()
            invariant
                self@ == mid,
                self.nodes == table,
                table.wf(),
                self.trackers@.len() == table.size(),
                i <= self.trackers@.len(),
                forall|j: int| 0 <= j < i ==> !(#[trigger] self.trackers@[j]).is_notified(),
            decreases self.trackers@.len() - i,
        {
            let mut t = self.trackers[i];
            t.reset_update_cycle();
            self.trackers.set(i, t);
            i = i + 1;
        }
        proof {
            table.lemma_keys();
        }
    }
}

impl<V: Copy, U: NotifyUpdate + Default + Copy> Default for ObservableTree<V, U> {
    fn default() -> (r: Self)
        ensures
            r.wf(),
            r@ == (SimpleTreeModel::<V> { value: None, version: 0, notified: false, nodes: Map::empty() }),
    {
        ObservableTree::new()
    }
}

} // verus!
