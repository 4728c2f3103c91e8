use vstd::prelude::*;
use crate::model::{NodeModel, node_or_fresh, notified, with_value};
use crate::path::{child_key, is_strict_ancestor};
use crate::tracker::{LeafVersionTracker, TrackerModel};
use crate::value::CanBeNone;

verus! {

/// The node after one notification, holding `value` where one is given.
pub open spec fn touched<V>(n: NodeModel<V>, value: Option<V>) -> NodeModel<V> {
    match value {
        Some(v) => with_value(notified(n), v),
        None => notified(n),
    }
}

/// The nodes after notifying every strict ancestor of `p` shorter than `n`.
pub open spec fn touched_below<V: CanBeNone>(
    nodes: Map<Seq<char>, NodeModel<V>>,
    p: Seq<char>,
    n: int,
) -> Map<Seq<char>, NodeModel<V>> {
    Map::new(
        |k: Seq<char>| nodes.contains_key(k) || (is_strict_ancestor(k, p) && k.len() < n),
        |k: Seq<char>|
            if is_strict_ancestor(k, p) && k.len() < n {
                notified(node_or_fresh(nodes, k))
            } else {
                nodes[k]
            },
    )
}

/// The nodes of `t` stored before index `j` that lie below `p`, keyed by their
/// path relative to `p`.
pub open spec fn gathered<V>(t: NodeTable<V>, p: Seq<char>, j: int) -> Map<Seq<char>, NodeModel<V>> {
    Map::new(
        |r: Seq<char>| exists|jj: int| 0 <= jj < j && t.key_at(jj) == child_key(p, r),
        |r: Seq<char>| t@[child_key(p, r)],
    )
}

/// The nodes below a root, keyed by their full dotted path.
///
/// This holds the same information as nested child maps: a path segment never
/// contains a dot, so a full path names exactly one chain of segments.
#[derive(Clone)]
pub struct NodeTable<V> {
    paths: Vec<String>,
    values: Vec<V>,
    trackers: Vec<LeafVersionTracker>,
    node_map: Ghost<Map<Seq<char>, NodeModel<V>>>,
}

impl<V> View for NodeTable<V> {
    type V = Map<Seq<char>, NodeModel<V>>;

    closed spec fn view(&self) -> Map<Seq<char>, NodeModel<V>> {
        self.node_map@
    }
}

impl<V> NodeTable<V> {
    spec fn entry(&self, i: int) -> NodeModel<V> {
        NodeModel {
            value: self.values@[i],
            version: self.trackers@[i]@.version,
            updated: self.trackers@[i]@.updated,
        }
    }

    /// The columns line up, each path is stored once, and the entries are
    /// exactly the nodes of the view.
    pub closed spec fn wf(&self) -> bool {
        &&& self.values@.len() == self.paths@.len()
        &&& self.trackers@.len() == self.paths@.len()
        &&& forall|i: int, j: int|
            0 <= i < j < self.paths@.len() ==> #[trigger] self.paths@[i]@ != #[trigger] self.paths@[j]@
        &&& forall|i: int|
            0 <= i < self.paths@.len() ==> {
                &&& #[trigger] self.node_map@.contains_key(self.paths@[i]@)
                &&& self.node_map@[self.paths@[i]@] == self.entry(i)
                &&& self.trackers@[i]@.resume_pointer is None
            }
        &&& forall|k: Seq<char>| #[trigger]
            self.node_map@.contains_key(k) ==> exists|i: int|
                0 <= i < self.paths@.len() && self.paths@[i]@ == k
    }

    /// The number of stored nodes.
    pub closed spec fn size(&self) -> nat {
        self.paths@.len()
    }

    /// The full path of the node stored at index `i`.
    pub closed spec fn key_at(&self, i: int) -> Seq<char> {
        self.paths@[i]@
    }

    pub proof fn lemma_keys(&self)
        requires
            self.wf(),
        ensures
            forall|i: int| 0 <= i < self.size() ==> #[trigger] self@.contains_key(self.key_at(i)),
            forall|k: Seq<char>| #[trigger]
                self@.contains_key(k) ==> exists|i: int| 0 <= i < self.size() && self.key_at(i) == k,
            forall|i: int, j: int|
                0 <= i < j < self.size() ==> #[trigger] self.key_at(i) != #[trigger] self.key_at(j),
    {
        assert forall|k: Seq<char>| #[trigger] self@.contains_key(k) implies exists|i: int|
            0 <= i < self.size() && self.key_at(i) == k by {
            let i = choose|i: int| 0 <= i < self.paths@.len() && self.paths@[i]@ == k;
            assert(self.key_at(i) == k);
        }
    }

    pub fn new() -> (r: Self)
        ensures
            r.wf(),
            r@ == Map::<Seq<char>, NodeModel<V>>::empty(),
            r.size() == 0,
    {
        NodeTable { paths: Vec::new(), values: Vec::new(), trackers: Vec::new(), node_map: Ghost(Map::empty()) }
    }

    pub fn len(&self) -> (r: usize)
        requires
            self.wf(),
        ensures
            r == self.size(),
    {
        self.paths.len()
    }

    pub fn path_at(&self, i: usize) -> (r: &String)
        requires
            self.wf(),
            i < self.size(),
        ensures
            r@ == self.key_at(i as int),
    {
        &self.paths[i]
    }

    pub fn value_at(&self, i: usize) -> (r: &V)
        requires
            self.wf(),
            i < self.size(),
        ensures
            *r == self@[self.key_at(i as int)].value,
    {
        assert(self.node_map@.contains_key(self.paths@[i as int]@));
        &self.values[i]
    }

    pub fn tracker_at(&self, i: usize) -> (r: LeafVersionTracker)
        requires
            self.wf(),
            i < self.size(),
        ensures
            r@ == (TrackerModel {
                updated: self@[self.key_at(i as int)].updated,
                version: self@[self.key_at(i as int)].version,
                resume_pointer: None,
            }),
    {
        assert(self.node_map@.contains_key(self.paths@[i as int]@));
        self.trackers[i]
    }

    /// The index of the node at `key`, if it exists.
    pub fn find(&self, key: &String) -> (r: Option<usize>)
        requires
            self.wf(),
        ensures
            r is None <==> !self@.contains_key(key@),
            r matches Some(i) ==> i < self.size() && self.key_at(i as int) == key@,
    {
        let mut i: usize = 0;
        while i < self.paths.len()
            invariant
                self.wf(),
                i <= self.paths@.len(),
                forall|j: int| 0 <= j < i ==> self.paths@[j]@ != key@,
            decreases self.paths@.len() - i,
        {
            if self.paths[i] == *key {
                assert(self.node_map@.contains_key(self.paths@[i as int]@));
                return Some(i);
            }
            i = i + 1;
        }
        None
    }

    /// Adds a node that does not exist yet.
    pub fn push_entry(&mut self, key: String, value: V, tracker: LeafVersionTracker)
        requires
            old(self).wf(),
            !old(self)@.contains_key(key@),
            tracker@.resume_pointer is None,
        ensures
            final(self).wf(),
            final(self)@ == old(self)@.insert(
                key@,
                NodeModel { value, version: tracker@.version, updated: tracker@.updated },
            ),
            final(self).size() == old(self).size() + 1,
            forall|i: int| 0 <= i < old(self).size() ==> final(self).key_at(i) == old(self).key_at(i),
            final(self).key_at(old(self).size() as int) == key@,
    {
        let ghost k = key@;
        let ghost n = NodeModel { value, version: tracker@.version, updated: tracker@.updated };
        let ghost old_paths = self.paths@;
        self.paths.push(key);
        self.values.push(value);
        self.trackers.push(tracker);
        self.node_map = Ghost(self.node_map@.insert(k, n));
        assert forall|i: int| 0 <= i < old_paths.len() implies old_paths[i]@ != k by {
            assert(old(self).node_map@.contains_key(old_paths[i]@));
        }
        assert forall|kk: Seq<char>| #[trigger] self.node_map@.contains_key(kk) implies exists|i: int|
            0 <= i < self.paths@.len() && self.paths@[i]@ == kk by {
            if kk == k {
                assert(self.paths@[old_paths.len() as int]@ == kk);
            } else {
                assert(old(self).node_map@.contains_key(kk));
                let i = choose|i: int| 0 <= i < old_paths.len() && old_paths[i]@ == kk;
                assert(self.paths@[i]@ == kk);
            }
        }
    }

    /// Removes the node stored at index `i`.
    pub fn remove_entry(&mut self, i: usize)
        requires
            old(self).wf(),
            i < old(self).size(),
        ensures
            final(self).wf(),
            final(self)@ == old(self)@.remove(old(self).key_at(i as int)),
            final(self).size() == old(self).size() - 1,
            forall|j: int| 0 <= j < i ==> final(self).key_at(j) == old(self).key_at(j),
            forall|j: int| i <= j < final(self).size() ==> final(self).key_at(j) == old(self).key_at(j + 1),
    {
        let ghost k = self.paths@[i as int]@;
        let ghost old_paths = self.paths@;
        self.paths.remove(i);
        self.values.remove(i);
        self.trackers.remove(i);
        self.node_map = Ghost(self.node_map@.remove(k));
        assert forall|a: int, b: int| 0 <= a < b < self.paths@.len() implies #[trigger] self.paths@[a]@
            != #[trigger] self.paths@[b]@ by {
            let a0 = if a < i { a } else { a + 1 };
            let b0 = if b < i { b } else { b + 1 };
            assert(old_paths[a0]@ != old_paths[b0]@);
        }
        assert forall|j: int| 0 <= j < self.paths@.len() implies {
            &&& #[trigger] self.node_map@.contains_key(self.paths@[j]@)
            &&& self.node_map@[self.paths@[j]@] == self.entry(j)
            &&& self.trackers@[j]@.resume_pointer is None
        } by {
            let j0 = if j < i { j } else { j + 1 };
            assert(old(self).node_map@.contains_key(old_paths[j0]@));
            if j < i {
                assert(old_paths[j0]@ != k);
            } else {
                assert(old_paths[i as int]@ != old_paths[j0]@);
            }
        }
        assert forall|kk: Seq<char>| #[trigger] self.node_map@.contains_key(kk) implies exists|j: int|
            0 <= j < self.paths@.len() && self.paths@[j]@ == kk by {
            assert(old(self).node_map@.contains_key(kk));
            let j0 = choose|j: int| 0 <= j < old_paths.len() && old_paths[j]@ == kk;
            if j0 < i {
                assert(self.paths@[j0]@ == kk);
            } else {
                assert(self.paths@[j0 - 1]@ == kk);
            }
        }
    }

    /// Marks every node as not updated.
    pub fn reset_all(&mut self)
        requires
            old(self).wf(),
        ensures
            final(self).wf(),
            final(self)@ == old(self)@.map_values(|n: NodeModel<V>| NodeModel { updated: false, ..n }),
            final(self).size() == old(self).size(),
            forall|i: int| 0 <= i < old(self).size() ==> final(self).key_at(i) == old(self).key_at(i),
    {
        let mut i: usize = 0;
        while i < self.trackers.len()
            invariant
                self.paths@ == old(self).paths@,
                self.values@ == old(self).values@,
                self.node_map@ == old(self).node_map@,
                self.trackers@.len() == old(self).trackers@.len(),
                i <= self.trackers@.len(),
                forall|j: int| 0 <= j < self.trackers@.len() ==> (#[trigger] self.trackers@[j])@ == (
                    if j < i {
                        TrackerModel { updated: false, ..old(self).trackers@[j]@ }
                    } else {
                        old(self).trackers@[j]@
                    }),
            decreases self.trackers@.len() - i,
        {
            let mut t = self.trackers[i];
            t.reset_update_cycle();
            self.trackers.set(i, t);
            i = i + 1;
        }
        self.node_map = Ghost(
            self.node_map@.map_values(|n: NodeModel<V>| NodeModel { updated: false, ..n }),
        );
        assert forall|j: int| 0 <= j < self.paths@.len() implies {
            &&& #[trigger] self.node_map@.contains_key(self.paths@[j]@)
            &&& self.node_map@[self.paths@[j]@] == self.entry(j)
            &&& self.trackers@[j]@.resume_pointer is None
        } by {
            assert(old(self).node_map@.contains_key(old(self).paths@[j]@));
        }
        assert forall|k: Seq<char>| #[trigger] self.node_map@.contains_key(k) implies exists|j: int|
            0 <= j < self.paths@.len() && self.paths@[j]@ == k by {
            assert(old(self).node_map@.contains_key(k));
            let j = choose|j: int| 0 <= j < old(self).paths@.len() && old(self).paths@[j]@ == k;
            assert(self.paths@[j]@ == k);
        }
    }

    /// Removes every node.
    pub fn clear(&mut self)
        ensures
            final(self).wf(),
            final(self)@ == Map::<Seq<char>, NodeModel<V>>::empty(),
    {
        self.paths.clear();
        self.values.clear();
        self.trackers.clear();
        self.node_map = Ghost(Map::empty());
    }
}

impl<V: CanBeNone> NodeTable<V> {
    /// Notifies the node at `key`, creating it first where it is missing, and
    /// stores `value` in it where one is given.
    pub fn touch(&mut self, key: String, value: Option<V>)
        requires
            old(self).wf(),
            old(self)@.contains_key(key@) ==> old(self)@[key@].version < i32::MAX,
        ensures
            final(self).wf(),
            final(self)@ == old(self)@.insert(key@, touched(node_or_fresh(old(self)@, key@), value)),
            forall|i: int| 0 <= i < old(self).size() ==> final(self).key_at(i) == old(self).key_at(i),
            old(self)@.contains_key(key@) ==> final(self).size() == old(self).size(),
            !old(self)@.contains_key(key@) ==> final(self).size() == old(self).size() + 1
                && final(self).key_at(old(self).size() as int) == key@,
    {
        match self.find(&key) {
            Some(i) => {
                let ghost k = key@;
                assert(self.node_map@.contains_key(self.paths@[i as int]@));
                let mut t = self.trackers[i];
                t.notify_update();
                self.trackers.set(i, t);
                match value {
                    Some(v) => {
                        self.values.set(i, v);
                    },
                    None => {},
                }
                self.node_map = Ghost(self.node_map@.insert(k, self.entry(i as int)));
                assert(self.node_map@[k] == touched(node_or_fresh(old(self)@, k), value));
                assert forall|j: int| 0 <= j < self.paths@.len() implies {
                    &&& #[trigger] self.node_map@.contains_key(self.paths@[j]@)
                    &&& self.node_map@[self.paths@[j]@] == self.entry(j)
                    &&& self.trackers@[j]@.resume_pointer is None
                } by {
                    if j != i {
                        if j < i {
                            assert(self.paths@[j]@ != self.paths@[i as int]@);
                        } else {
                            assert(self.paths@[i as int]@ != self.paths@[j]@);
                        }
                        assert(old(self).node_map@.contains_key(old(self).paths@[j]@));
                    }
                }
                assert forall|kk: Seq<char>| #[trigger] self.node_map@.contains_key(kk) implies exists|j: int|
                    0 <= j < self.paths@.len() && self.paths@[j]@ == kk by {
                    if kk == k {
                        assert(self.paths@[i as int]@ == kk);
                    } else {
                        assert(old(self).node_map@.contains_key(kk));
                    }
                }
            },
            None => {
                let mut t = LeafVersionTracker::new();
                t.notify_update();
                let v = match value {
                    Some(v) => v,
                    None => V::none(),
                };
                self.push_entry(key, v, t);
            },
        }
    }

    /// Notifies every strict ancestor of `path`, creating the missing ones.
    pub fn touch_ancestors(&mut self, path: &str)
        requires
            old(self).wf(),
            forall|k: Seq<char>| #[trigger] old(self)@.contains_key(k) ==> old(self)@[k].version < i32::MAX,
        ensures
            final(self).wf(),
            final(self)@ == touched_below(old(self)@, path@, path@.len() as int),
    {
        let ghost n0 = self@;
        let len = path.unicode_len();
        let mut i: usize = 0;
        assert(touched_below(n0, path@, 0) =~= n0);
        while i < len
            invariant
                self.wf(),
                len == path@.len(),
                i <= len,
                forall|k: Seq<char>| #[trigger] n0.contains_key(k) ==> n0[k].version < i32::MAX,
                self@ == touched_below(n0, path@, i as int),
            decreases len - i,
        {
            if path.get_char(i) == '.' {
                let prefix = String::from_str(path.substring_char(0, i));
                let ghost q = prefix@;
                assert(is_strict_ancestor(q, path@));
                self.touch(prefix, None);
                assert forall|k: Seq<char>| is_strict_ancestor(k, path@) && k.len() == i implies k == q by {
                    crate::path::lemma_ancestor_by_length(k, q, path@);
                }
                assert(self@ =~= touched_below(n0, path@, i + 1));
            } else {
                assert(touched_below(n0, path@, i as int) =~= touched_below(n0, path@, i + 1));
            }
            i = i + 1;
        }
    }
}

} // verus!
