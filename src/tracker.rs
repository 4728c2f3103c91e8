use vstd::prelude::*;

verus! {

/// The abstract state of a version tracker.
pub struct TrackerModel {
    pub updated: bool,
    pub version: int,
    pub resume_pointer: Option<int>,
}

/// Per-node version counter and "updated in this cycle" flag.
///
/// The root's tracker also holds the checkpoint the tree was last moved to
/// while navigating its history (`None` at the live tip).
#[derive(Clone, Copy, Debug)]
pub struct LeafVersionTracker {
    updated: bool,
    version: i32,
    corresponding_previous_version: Option<i32>,
}

impl View for LeafVersionTracker {
    type V = TrackerModel;

    closed spec fn view(&self) -> TrackerModel {
        TrackerModel {
            updated: self.updated,
            version: self.version as int,
            resume_pointer: match self.corresponding_previous_version {
                Some(v) => Some(v as int),
                None => None,
            },
        }
    }
}

impl LeafVersionTracker {
    /// A tracker that was never notified.
    pub fn new() -> (r: Self)
        ensures
            r@ == (TrackerModel { updated: false, version: 0, resume_pointer: None }),
    {
        LeafVersionTracker { updated: false, version: 0, corresponding_previous_version: None }
    }

    pub fn was_updated(&self) -> (r: bool)
        ensures
            r == self@.updated,
    {
        self.updated
    }

    pub fn version(&self) -> (r: i32)
        ensures
            r as int == self@.version,
    {
        self.version
    }

    pub fn corresponding_previous_version(&self) -> (r: Option<i32>)
        ensures
            r matches Some(v) ==> self@.resume_pointer == Some(v as int),
            r is None ==> self@.resume_pointer is None,
    {
        self.corresponding_previous_version
    }

    /// Marks the node as written: it is updated and its version grows by one.
    pub(crate) fn notify_update(&mut self)
        requires
            old(self)@.version < i32::MAX,
        ensures
            final(self)@ == (TrackerModel {
                updated: true,
                version: old(self)@.version + 1,
                ..old(self)@
            }),
    {
        self.updated = true;
        self.version = self.version + 1;
    }

    /// Starts a new cycle: the node no longer counts as updated.
    pub(crate) fn reset_update_cycle(&mut self)
        ensures
            final(self)@ == (TrackerModel { updated: false, ..old(self)@ }),
    {
        self.updated = false;
    }

    /// Records the checkpoint the tree now stands at.
    pub(crate) fn set_resume_pointer(&mut self, v: Option<i32>)
        ensures
            final(self)@.updated == old(self)@.updated,
            final(self)@.version == old(self)@.version,
            v matches Some(x) ==> final(self)@.resume_pointer == Some(x as int),
            v is None ==> final(self)@.resume_pointer is None,
    {
        self.corresponding_previous_version = v;
    }

    /// Forgets everything: no update, version zero, no resume pointer.
    pub(crate) fn clear(&mut self)
        ensures
            final(self)@ == (TrackerModel { updated: false, version: 0, resume_pointer: None }),
    {
        self.updated = false;
        self.version = 0;
        self.corresponding_previous_version = None;
    }
}

} // verus!
