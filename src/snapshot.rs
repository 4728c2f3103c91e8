use vstd::prelude::*;
use crate::value::CanBeNone;
use crate::model::{RecordModel, SnapshotModel, record_write, has_record};

verus! {

/// A checkpoint: for each path changed in an interval, the value it had before
/// the interval and the value it had at its end. The same type accumulates the
/// changes of the interval still open.
///
/// Records are kept in the order in which their paths were first written.
#[derive(Clone, Debug)]
pub struct Snapshot<V> {
    paths: Vec<String>,
    old_values: Vec<V>,
    new_values: Vec<V>,
    version: i32,
}

impl<V> View for Snapshot<V> {
    type V = SnapshotModel<V>;

    closed spec fn view(&self) -> SnapshotModel<V> {
        SnapshotModel {
            version: self.version as int,
            records: Seq::new(
                self.paths@.len(),
                |i: int|
                    RecordModel {
                        path: self.paths@[i]@,
                        old_value: self.old_values@[i],
                        new_value: self.new_values@[i],
                    },
            ),
        }
    }
}

impl<V> Snapshot<V> {
    /// The three columns line up and no path is recorded twice.
    pub closed spec fn wf(&self) -> bool {
        &&& self.old_values@.len() == self.paths@.len()
        &&& self.new_values@.len() == self.paths@.len()
        &&& forall|i: int, j: int|
            0 <= i < j < self.paths@.len() ==> #[trigger] self.paths@[i]@ != #[trigger] self.paths@[j]@
    }

    pub fn empty() -> (r: Self)
        ensures
            r.wf(),
            r@ == (SnapshotModel::<V> { version: 0, records: Seq::empty() }),
    {
        let r = Snapshot { paths: Vec::new(), old_values: Vec::new(), new_values: Vec::new(), version: 0 };
        assert(r@.records =~= Seq::<RecordModel<V>>::empty());
        r
    }

    pub fn version(&self) -> (r: i32)
        ensures
            r as int == self@.version,
    {
        self.version
    }

    pub fn len(&self) -> (r: usize)
        requires
            self.wf(),
        ensures
            r == self@.records.len(),
    {
        self.paths.len()
    }

    pub fn path_at(&self, i: usize) -> (r: &String)
        requires
            self.wf(),
            i < self@.records.len(),
        ensures
            r@ == self@.records[i as int].path,
    {
        &self.paths[i]
    }

    pub fn old_value_at(&self, i: usize) -> (r: &V)
        requires
            self.wf(),
            i < self@.records.len(),
        ensures
            *r == self@.records[i as int].old_value,
    {
        &self.old_values[i]
    }

    pub fn new_value_at(&self, i: usize) -> (r: &V)
        requires
            self.wf(),
            i < self@.records.len(),
        ensures
            *r == self@.records[i as int].new_value,
    {
        &self.new_values[i]
    }

    /// The index of the record for `path`, if there is one.
    pub fn find(&self, path: &String) -> (r: Option<usize>)
        requires
            self.wf(),
        ensures
            r is None <==> !has_record(self@.records, path@),
            r matches Some(i) ==> i < self@.records.len() && self@.records[i as int].path == path@,
    {
        let mut i: usize = 0;
        while i < self.paths.len()
            invariant
                self.wf(),
                i <= self.paths@.len(),
                forall|j: int| 0 <= j < i ==> self@.records[j].path != path@,
            decreases self.paths@.len() - i,
        {
            if self.paths[i] == *path {
                assert(self@.records[i as int].path == path@);
                return Some(i);
            }
            i = i + 1;
        }
        None
    }
}

impl<V: CanBeNone> Snapshot<V> {
    /// A faithful copy.
    pub fn duplicate(&self) -> (r: Self)
        requires
            self.wf(),
        ensures
            r.wf(),
            r@ == self@,
    {
        let mut paths: Vec<String> = Vec::new();
        let mut old_values: Vec<V> = Vec::new();
        let mut new_values: Vec<V> = Vec::new();
        let mut i: usize = 0;
        while i < self.paths.len()
            invariant
                self.wf(),
                i <= self.paths@.len(),
                paths@.len() == i,
                old_values@.len() == i,
                new_values@.len() == i,
                forall|j: int| 0 <= j < i ==> #[trigger] paths@[j]@ == self.paths@[j]@,
                forall|j: int| 0 <= j < i ==> #[trigger] old_values@[j] == self.old_values@[j],
                forall|j: int| 0 <= j < i ==> #[trigger] new_values@[j] == self.new_values@[j],
            decreases self.paths@.len() - i,
        {
            paths.push(self.paths[i].clone());
            old_values.push(self.old_values[i].duplicate());
            new_values.push(self.new_values[i].duplicate());
            i = i + 1;
        }
        let r = Snapshot { paths, old_values, new_values, version: self.version };
        assert forall|a: int, b: int| 0 <= a < b < r.paths@.len() implies #[trigger] r.paths@[a]@
            != #[trigger] r.paths@[b]@ by {
            assert(self.paths@[a]@ != self.paths@[b]@);
        }
        assert(r@.records =~= self@.records);
        r
    }

    /// Records a write of `value` at `path`, which held `old_value` before it.
    pub fn record(&mut self, path: &String, old_value: &V, value: V)
        requires
            old(self).wf(),
        ensures
            final(self).wf(),
            final(self)@ == (SnapshotModel {
                records: record_write(old(self)@.records, path@, *old_value, value),
                ..old(self)@
            }),
    {
        let found = self.find(path);
        match found {
            Some(i) => {
                let ghost before = self@;
                self.set_new_value(i, value);
                assert(self@.records =~= record_write(before.records, path@, *old_value, value));
            },
            None => {
                let ghost before = self@;
                assert forall|a: int| 0 <= a < self.paths@.len() implies self.paths@[a]@ != path@ by {
                    assert(before.records[a].path == self.paths@[a]@);
                }
                self.paths.push(path.clone());
                self.old_values.push(old_value.duplicate());
                self.new_values.push(value);
                assert(self.wf());
                assert(self@.records =~= record_write(before.records, path@, *old_value, value));
            },
        }
    }

}

impl<V> Snapshot<V> {
    fn set_new_value(&mut self, i: usize, value: V)
        requires
            old(self).wf(),
            i < old(self)@.records.len(),
        ensures
            final(self).wf(),
            final(self).paths@ == old(self).paths@,
            final(self).old_values@ == old(self).old_values@,
            final(self).new_values@ == old(self).new_values@.update(i as int, value),
            final(self).version == old(self).version,
    {
        self.new_values.set(i, value);
    }

    /// Forgets every record; the version goes back to zero.
    pub fn clear(&mut self)
        ensures
            final(self).wf(),
            final(self)@ == (SnapshotModel::<V> { version: 0, records: Seq::empty() }),
    {
        self.paths.clear();
        self.old_values.clear();
        self.new_values.clear();
        self.version = 0;
        assert(self@.records =~= Seq::<RecordModel<V>>::empty());
    }

    /// Moves the records out into a checkpoint tagged `version`, leaving this
    /// one empty.
    pub fn take(&mut self, version: i32) -> (r: Self)
        requires
            old(self).wf(),
        ensures
            final(self).wf(),
            final(self)@ == (SnapshotModel::<V> { version: 0, records: Seq::empty() }),
            r.wf(),
            r@ == (SnapshotModel { version: version as int, records: old(self)@.records }),
    {
        let mut r = Snapshot::empty();
        core::mem::swap(self, &mut r);
        r.version = version;
        r
    }
}

} // verus!
