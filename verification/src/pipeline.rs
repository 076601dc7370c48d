//! Pipeline façade: the per-document draft registry, the process-wide
//! event counter that doubles as a monotonic clock, and the wait
//! predicates of the snapshot operations.

use crate::document::DocumentState;
use crate::link::RootGraph;
use vstd::prelude::*;

verus! {

broadcast use vstd::std_specs::hash::group_hash_axioms;

/// What the façade keeps per open document: the mailbox itself lives
/// with the runtime; here stand the ownership marker and the timestamp
/// of the event that spawned the current actor.
#[derive(Clone, Copy, Debug, PartialEq, Eq, Structural)]
pub struct DraftMeta {
    pub state: DocumentState,
    pub timestamp: u64,
}

/// What `open` decided: spawn a fresh actor, replace the current one,
/// or ignore the event; the timestamp stamps the new actor.
#[derive(Clone, Copy, Debug, PartialEq, Eq, Structural)]
pub enum OpenOutcome {
    Spawned(u64),
    Replaced(u64),
    Ignored,
}

/// The shared state of the pipeline façade. Every ingress event draws a
/// fresh timestamp from the event counter, so timestamps are strictly
/// monotonic process-wide; the ghost history records them.
pub struct Pipeline {
    pub drafts: vstd::hash_map::HashMapWithView<u64, DraftMeta>,
    pub revision_counter: u64,
    pub events: Ghost<Seq<u64>>,
}

impl Pipeline {
    pub open spec fn wf(self) -> bool {
        &&& self.events@.len() == self.revision_counter
        &&& forall|i: int| 0 <= i < self.events@.len() ==> self.events@[i] == i + 1
        &&& forall|fid: u64|
            self.drafts@.contains_key(fid) ==> #[trigger] self.drafts@[fid].timestamp
                <= self.revision_counter
    }

    pub fn new() -> (r: Pipeline)
        ensures
            r.wf(),
            r.revision_counter == 0,
            r.drafts@ == Map::<u64, DraftMeta>::empty(),
            r.events@ == Seq::<u64>::empty(),
    {
        Pipeline {
            drafts: vstd::hash_map::HashMapWithView::new(),
            revision_counter: 0,
            events: Ghost(Seq::empty()),
        }
    }

    /// Draws the next timestamp: the counter after this ingress event.
    fn next_timestamp(&mut self) -> (ts: u64)
        requires
            old(self).wf(),
            old(self).revision_counter < 0xFFFF_FFFF_FFFF_FFFFu64,
        ensures
            final(self).wf(),
            final(self).drafts@ == old(self).drafts@,
            ts == old(self).revision_counter + 1,
            final(self).revision_counter == ts,
            final(self).events@ == old(self).events@.push(ts),
    {
        self.revision_counter = self.revision_counter + 1;
        let ts = self.revision_counter;
        proof {
            self.events@ = self.events@.push(ts);
        }
        ts
    }

    /// An `open` event: spawn an actor for an unknown document, replace
    /// the actor when the new ownership may overwrite the current one,
    /// and ignore the event otherwise.
    pub fn open(&mut self, fid: u64, state: DocumentState) -> (r: OpenOutcome)
        requires
            old(self).wf(),
            old(self).revision_counter < 0xFFFF_FFFF_FFFF_FFFFu64,
        ensures
            final(self).wf(),
            match r {
                OpenOutcome::Spawned(ts) => {
                    &&& !old(self).drafts@.contains_key(fid)
                    &&& ts == old(self).revision_counter + 1
                    &&& final(self).revision_counter == ts
                    &&& final(self).events@ == old(self).events@.push(ts)
                    &&& final(self).drafts@ == old(self).drafts@.insert(
                        fid,
                        DraftMeta { state, timestamp: ts },
                    )
                },
                OpenOutcome::Replaced(ts) => {
                    &&& old(self).drafts@.contains_key(fid)
                    &&& old(self).drafts@[fid].state.spec_can_update(state)
                    &&& ts == old(self).revision_counter + 1
                    &&& final(self).revision_counter == ts
                    &&& final(self).events@ == old(self).events@.push(ts)
                    &&& final(self).drafts@ == old(self).drafts@.insert(
                        fid,
                        DraftMeta { state, timestamp: ts },
                    )
                },
                OpenOutcome::Ignored => {
                    &&& old(self).drafts@.contains_key(fid)
                    &&& !old(self).drafts@[fid].state.spec_can_update(state)
                    &&& *final(self) == *old(self)
                },
            },
    {
        let existing = self.drafts.get(&fid);
        match existing {
            None => {
                let ts = self.next_timestamp();
                self.drafts.insert(fid, DraftMeta { state, timestamp: ts });
                OpenOutcome::Spawned(ts)
            },
            Some(meta) => {
                let can = meta.state.can_update(&state);
                if can {
                    let ts = self.next_timestamp();
                    self.drafts.insert(fid, DraftMeta { state, timestamp: ts });
                    OpenOutcome::Replaced(ts)
                } else {
                    OpenOutcome::Ignored
                }
            },
        }
    }

    /// An `update` event: known documents draw a fresh timestamp for the
    /// change message; events for unknown documents are dropped.
    pub fn update(&mut self, fid: u64) -> (r: Option<u64>)
        requires
            old(self).wf(),
            old(self).revision_counter < 0xFFFF_FFFF_FFFF_FFFFu64,
        ensures
            final(self).wf(),
            final(self).drafts@ == old(self).drafts@,
            match r {
                Some(ts) => {
                    &&& old(self).drafts@.contains_key(fid)
                    &&& ts == old(self).revision_counter + 1
                    &&& final(self).revision_counter == ts
                    &&& final(self).events@ == old(self).events@.push(ts)
                },
                None => !old(self).drafts@.contains_key(fid) && *final(self) == *old(self),
            },
    {
        if self.drafts.contains_key(&fid) {
            Some(self.next_timestamp())
        } else {
            None
        }
    }

    /// A configuration document arriving from outside the draft stage
    /// (a workspace scan): counted as an ingress event; the returned
    /// timestamp stamps the message forwarded to the link stage.
    pub fn update_config(&mut self) -> (ts: u64)
        requires
            old(self).wf(),
            old(self).revision_counter < 0xFFFF_FFFF_FFFF_FFFFu64,
        ensures
            final(self).wf(),
            final(self).drafts@ == old(self).drafts@,
            ts == old(self).revision_counter + 1,
            final(self).revision_counter == ts,
            final(self).events@ == old(self).events@.push(ts),
    {
        self.next_timestamp()
    }

    /// A `touch` is an update with an empty change batch: it rebumps the
    /// revision for a known document and carries no edit.
    pub fn touch(&mut self, fid: u64) -> (r: Option<u64>)
        requires
            old(self).wf(),
            old(self).revision_counter < 0xFFFF_FFFF_FFFF_FFFFu64,
        ensures
            final(self).wf(),
            final(self).drafts@ == old(self).drafts@,
            match r {
                Some(ts) => {
                    &&& old(self).drafts@.contains_key(fid)
                    &&& ts == old(self).revision_counter + 1
                    &&& final(self).revision_counter == ts
                    &&& final(self).events@ == old(self).events@.push(ts)
                },
                None => !old(self).drafts@.contains_key(fid) && *final(self) == *old(self),
            },
    {
        self.update(fid)
    }

    /// A `delete` event: the draft leaves the registry only when the
    /// deleting owner may overwrite it; the returned timestamp stamps
    /// the delete message sent downstream.
    pub fn delete(&mut self, fid: u64, state: DocumentState) -> (r: Option<u64>)
        requires
            old(self).wf(),
            old(self).revision_counter < 0xFFFF_FFFF_FFFF_FFFFu64,
        ensures
            final(self).wf(),
            match r {
                Some(ts) => {
                    &&& old(self).drafts@.contains_key(fid)
                    &&& old(self).drafts@[fid].state.spec_can_update(state)
                    &&& ts == old(self).revision_counter + 1
                    &&& final(self).revision_counter == ts
                    &&& final(self).events@ == old(self).events@.push(ts)
                    &&& final(self).drafts@ == old(self).drafts@.remove(fid)
                },
                None => {
                    &&& *final(self) == *old(self)
                    &&& (old(self).drafts@.contains_key(fid) ==> !old(
                        self,
                    ).drafts@[fid].state.spec_can_update(state))
                },
            },
    {
        let existing = self.drafts.get(&fid);
        match existing {
            Some(meta) => {
                let can = meta.state.can_update(&state);
                if can {
                    self.drafts.remove(&fid);
                    Some(self.next_timestamp())
                } else {
                    None
                }
            },
            None => None,
        }
    }

    /// True when an `open` carrying file-system ownership at `mtime`
    /// would succeed.
    pub fn should_load(&self, fid: u64, mtime: u64) -> (r: bool)
        ensures
            r == (!self.drafts@.contains_key(fid) || self.drafts@[fid].state.spec_can_update(
                DocumentState::OwnedByOs(mtime),
            )),
    {
        match self.drafts.get(&fid) {
            Some(meta) => meta.state.can_update(&DocumentState::OwnedByOs(mtime)),
            None => true,
        }
    }

    /// The timestamp and ownership of a known document.
    pub fn stat(&self, fid: u64) -> (r: Option<(u64, DocumentState)>)
        ensures
            match r {
                Some(p) => self.drafts@.contains_key(fid) && p.0 == self.drafts@[fid].timestamp
                    && p.1 == self.drafts@[fid].state,
                None => !self.drafts@.contains_key(fid),
            },
    {
        match self.drafts.get(&fid) {
            Some(meta) => Some((meta.timestamp, meta.state)),
            None => None,
        }
    }

    /// The wait condition of `snapshot_root`: the snapshot knows the
    /// document.
    pub fn snapshot_root_ready(root: &RootGraph, fid: u64) -> (r: bool)
        ensures
            r == (root.timestamps.spec_get(fid) is Some),
    {
        root.containes(fid)
    }

    /// The wait condition of `snapshot_root_sync`: the snapshot carries
    /// a timestamp for the document at least as new as `ts`.
    pub fn snapshot_root_sync_ready(root: &RootGraph, fid: u64, ts: u64) -> (r: bool)
        ensures
            r == match root.timestamps.spec_get(fid) {
                Some(t) => ts <= t,
                None => false,
            },
    {
        match root.timestamp(fid) {
            Some(t) => ts <= t,
            None => false,
        }
    }

    /// The wait condition of `sync_root_global`: the snapshot's revision
    /// has caught up with every ingress event counted so far.
    pub fn sync_root_global_ready(&self, root: &RootGraph) -> (r: bool)
        ensures
            r == (self.revision_counter <= root.revision),
    {
        self.revision_counter <= root.revision
    }
}

/// Timestamps handed out by the pipeline grow strictly with the events:
/// any two events of one run, in order, carry strictly increasing
/// timestamps — in particular the ones routed to any single document.
pub proof fn lemma_event_timestamps_monotone(p: Pipeline, i: int, j: int)
    requires
        p.wf(),
        0 <= i < j < p.events@.len(),
    ensures
        p.events@[i] < p.events@[j],
{
}

/// After `n` ingress events and no further input, the global sync
/// predicate holds of a snapshot exactly when its revision has reached
/// `n`: the wait of `sync_root_global` resolves only on such snapshots.
pub proof fn lemma_sync_global(p: Pipeline, root: RootGraph, n: int)
    requires
        p.wf(),
        p.events@.len() == n,
    ensures
        (p.revision_counter <= root.revision) <==> (root.revision >= n),
{
}

} // verus!
