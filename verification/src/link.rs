//! Link stage: fans in the documents published by all drafts, drops
//! stale messages by timestamp, debounces into snapshot publications,
//! and models the published cross-file snapshot (`RootGraph`).

use vstd::prelude::*;

verus! {

broadcast use vstd::std_specs::hash::group_hash_axioms;

// --- a small association map for per-file timestamps ---

pub open spec fn spec_find(s: Seq<(u64, u64)>, k: u64) -> Option<u64>
    decreases s.len(),
{
    if s.len() == 0 {
        None
    } else if s[0].0 == k {
        Some(s[0].1)
    } else {
        spec_find(s.drop_first(), k)
    }
}

proof fn lemma_find_push(s: Seq<(u64, u64)>, k: u64, v: u64, k2: u64)
    ensures
        spec_find(s, k2) is Some ==> spec_find(s.push((k, v)), k2) == spec_find(s, k2),
        spec_find(s, k2) is None && k2 == k ==> spec_find(s.push((k, v)), k2) == Some::<u64>(v),
        spec_find(s, k2) is None && k2 != k ==> spec_find(s.push((k, v)), k2) == None::<u64>,
    decreases s.len(),
{
    if s.len() == 0 {
        assert(s.push((k, v))[0] == (k, v));
        assert(s.push((k, v)).drop_first() =~= Seq::<(u64, u64)>::empty());
    } else {
        assert(s.push((k, v)).drop_first() =~= s.drop_first().push((k, v)));
        lemma_find_push(s.drop_first(), k, v, k2);
    }
}

proof fn lemma_find_remove(s: Seq<(u64, u64)>, i: int, k2: u64)
    requires
        0 <= i < s.len(),
        forall|a: int, b: int| 0 <= a < b < s.len() ==> (#[trigger] s[a]).0 != (#[trigger] s[b]).0,
    ensures
        k2 == s[i].0 ==> spec_find(s.remove(i), k2) == None::<u64>,
        k2 != s[i].0 ==> spec_find(s.remove(i), k2) == spec_find(s, k2),
    decreases s.len(),
{
    if i == 0 {
        assert(s.remove(0) =~= s.drop_first());
        if k2 == s[0].0 {
            lemma_find_absent(s.drop_first(), k2, s);
        }
    } else {
        assert(s.remove(i)[0] == s[0]);
        assert(s.remove(i).drop_first() =~= s.drop_first().remove(i - 1));
        assert(forall|a: int, b: int|
            0 <= a < b < s.drop_first().len() ==> (#[trigger] s.drop_first()[a]).0 != (
            #[trigger] s.drop_first()[b]).0);
        lemma_find_remove(s.drop_first(), i - 1, k2);
    }
}

/// A key held by no entry of `t` (all entries came after position 0 of a
/// unique-keyed sequence whose head holds the key) is not found.
proof fn lemma_find_absent(t: Seq<(u64, u64)>, k: u64, orig: Seq<(u64, u64)>)
    requires
        orig.len() >= 1,
        t =~= orig.drop_first(),
        orig[0].0 == k,
        forall|a: int, b: int|
            0 <= a < b < orig.len() ==> (#[trigger] orig[a]).0 != (#[trigger] orig[b]).0,
    ensures
        spec_find(t, k) is None,
{
    lemma_find_none_when_no_key(t, k);
    assert(forall|j: int| 0 <= j < t.len() ==> (#[trigger] t[j]) == orig[j + 1]);
    assert forall|j: int| 0 <= j < t.len() implies (#[trigger] t[j]).0 != k by {
        assert(orig[0].0 != orig[j + 1].0);
    }
}

proof fn lemma_find_none_when_no_key(s: Seq<(u64, u64)>, k: u64)
    ensures
        (forall|j: int| 0 <= j < s.len() ==> (#[trigger] s[j]).0 != k) ==> spec_find(s, k)
            is None,
    decreases s.len(),
{
    if s.len() > 0 {
        lemma_find_none_when_no_key(s.drop_first(), k);
        assert(forall|j: int|
            0 <= j < s.drop_first().len() ==> (#[trigger] s.drop_first()[j]) == s[j + 1]);
    }
}

proof fn lemma_find_index(s: Seq<(u64, u64)>, k: u64, i: int)
    requires
        0 <= i < s.len(),
        s[i].0 == k,
        forall|j: int| 0 <= j < i ==> (#[trigger] s[j]).0 != k,
    ensures
        spec_find(s, k) == Some(s[i].1),
    decreases i,
{
    if i > 0 {
        assert(forall|j: int|
            0 <= j < s.drop_first().len() ==> (#[trigger] s.drop_first()[j]) == s[j + 1]);
        lemma_find_index(s.drop_first(), k, i - 1);
    }
}

/// Per-file timestamps, as a unique-keyed association vector so that a
/// published snapshot can carry an exact copy.
pub struct TsMap {
    pub entries: Vec<(u64, u64)>,
}

impl TsMap {
    pub open spec fn wf(self) -> bool {
        forall|a: int, b: int|
            0 <= a < b < self.entries@.len() ==> (#[trigger] self.entries@[a]).0 != (
            #[trigger] self.entries@[b]).0
    }

    pub open spec fn spec_get(self, k: u64) -> Option<u64> {
        spec_find(self.entries@, k)
    }

    pub fn new() -> (r: TsMap)
        ensures
            r.wf(),
            forall|k: u64| r.spec_get(k) is None,
    {
        TsMap { entries: Vec::new() }
    }

    fn find_index(&self, k: u64) -> (r: Option<usize>)
        ensures
            match r {
                Some(i) => i < self.entries@.len() && self.entries@[i as int].0 == k && (forall|
                    j: int,
                |
                    0 <= j < i ==> (#[trigger] self.entries@[j]).0 != k) && self.spec_get(k)
                    == Some(self.entries@[i as int].1),
                None => self.spec_get(k) is None,
            },
    {
        let mut i: usize = 0;
        while i < self.entries.len()
            invariant
                0 <= i <= self.entries@.len(),
                forall|j: int| 0 <= j < i ==> (#[trigger] self.entries@[j]).0 != k,
            decreases self.entries@.len() - i,
        {
            if self.entries[i].0 == k {
                proof {
                    lemma_find_index(self.entries@, k, i as int);
                }
                return Some(i);
            }
            i += 1;
        }
        proof {
            lemma_find_none_when_no_key(self.entries@, k);
        }
        None
    }

    pub fn get(&self, k: u64) -> (r: Option<u64>)
        ensures
            r == self.spec_get(k),
    {
        match self.find_index(k) {
            Some(i) => Some(self.entries[i].1),
            None => None,
        }
    }

    pub fn contains(&self, k: u64) -> (r: bool)
        ensures
            r == (self.spec_get(k) is Some),
    {
        self.find_index(k).is_some()
    }

    /// Removes the entry of `k`, leaving every other key untouched.
    pub fn remove(&mut self, k: u64)
        requires
            old(self).wf(),
        ensures
            final(self).wf(),
            final(self).spec_get(k) is None,
            forall|k2: u64| k2 != k ==> final(self).spec_get(k2) == old(self).spec_get(k2),
    {
        match self.find_index(k) {
            Some(i) => {
                let ghost pre = self.entries@;
                self.entries.remove(i);
                proof {
                    assert forall|k2: u64| k2 != k implies spec_find(pre.remove(i as int), k2)
                        == spec_find(pre, k2) by {
                        lemma_find_remove(pre, i as int, k2);
                    }
                    lemma_find_remove(pre, i as int, k);
                    assert forall|a: int, b: int|
                        0 <= a < b < self.entries@.len() implies (
                    #[trigger] self.entries@[a]).0 != (#[trigger] self.entries@[b]).0 by {
                        if b < i {
                        } else if a < i {
                            assert(self.entries@[b] == pre[b + 1]);
                        } else {
                            assert(self.entries@[a] == pre[a + 1]);
                            assert(self.entries@[b] == pre[b + 1]);
                        }
                    }
                }
            },
            None => {},
        }
    }

    /// Stores `v` under `k`, leaving every other key untouched.
    pub fn set(&mut self, k: u64, v: u64)
        requires
            old(self).wf(),
        ensures
            final(self).wf(),
            final(self).spec_get(k) == Some(v),
            forall|k2: u64| k2 != k ==> final(self).spec_get(k2) == old(self).spec_get(k2),
    {
        self.remove(k);
        let ghost mid = self.entries@;
        self.entries.push((k, v));
        proof {
            assert forall|k2: u64| true implies #[trigger] spec_find(mid.push((k, v)), k2) == (
            if k2 == k {
                Some(v)
            } else {
                spec_find(mid, k2)
            }) by {
            lemma_find_push(mid, k, v, k2);
            if k2 == k {
                lemma_find_push(mid, k, v, k);
            }
        }
            assert forall|a: int, b: int|
                0 <= a < b < self.entries@.len() implies (#[trigger] self.entries@[a]).0 != (
            #[trigger] self.entries@[b]).0 by {
                if b == self.entries@.len() - 1 {
                    assert(self.entries@[a] == mid[a]);
                    if mid[a].0 == k {
                        lemma_find_index(mid, k, a);
                    }
                }
            }
        }
    }

    /// An exact copy, entry for entry.
    pub fn snapshot(&self) -> (r: TsMap)
        ensures
            r.entries@ == self.entries@,
    {
        let mut out: Vec<(u64, u64)> = Vec::new();
        let mut i: usize = 0;
        while i < self.entries.len()
            invariant
                0 <= i <= self.entries@.len(),
                out@ =~= self.entries@.take(i as int),
            decreases self.entries@.len() - i,
        {
            out.push(self.entries[i]);
            proof {
                assert(out@ =~= self.entries@.take(i + 1));
            }
            i += 1;
        }
        proof {
            assert(self.entries@.take(self.entries@.len() as int) =~= self.entries@);
        }
        TsMap { entries: out }
    }
}

// --- the published snapshot ---

/// The cross-file analysis snapshot consumers await: its revision and
/// the per-file timestamps that went into its construction. Name
/// resolution itself is an outside collaborator.
pub struct RootGraph {
    pub revision: u64,
    pub timestamps: TsMap,
}

impl RootGraph {
    pub fn new(revision: u64, timestamps: TsMap) -> (r: RootGraph)
        ensures
            r.revision == revision,
            r.timestamps.entries@ == timestamps.entries@,
    {
        RootGraph { revision, timestamps }
    }

    /// Does this snapshot know the document?
    pub fn containes(&self, fid: u64) -> (r: bool)
        ensures
            r == (self.timestamps.spec_get(fid) is Some),
    {
        self.timestamps.contains(fid)
    }

    /// The timestamp this snapshot carries for the document.
    pub fn timestamp(&self, fid: u64) -> (r: Option<u64>)
        ensures
            r == self.timestamps.spec_get(fid),
    {
        self.timestamps.get(fid)
    }
}

} // verus!

verus! {

// --- the fan-in state machine ---

/// A message from a draft to the link stage. Document payloads are
/// opaque to this stage: it reads only the file and the timestamp.
pub enum LinkMsg<A, C> {
    Delete(u64, u64),
    UpdateAst(u64, u64, A),
    UpdateConfig(u64, u64, C),
    Shutdown,
}

/// The link stage's state: the latest accepted document per file, the
/// greatest timestamp seen per file, the running revision, the debounce
/// flag, and — as ghost history — every revision published so far.
#[verifier::reject_recursive_types(A)]
#[verifier::reject_recursive_types(C)]
pub struct LinkState<A, C> {
    pub latest_ast: vstd::hash_map::HashMapWithView<u64, A>,
    pub latest_configs: vstd::hash_map::HashMapWithView<u64, C>,
    pub timestamps: TsMap,
    pub doc_timestamps: TsMap,
    pub revision: u64,
    pub dirty: bool,
    pub published: Ghost<Seq<u64>>,
}

impl<A, C> LinkState<A, C> {
    pub open spec fn wf(self) -> bool {
        &&& self.timestamps.wf()
        &&& self.doc_timestamps.wf()
        &&& forall|i: int, j: int|
            0 <= i < j < self.published@.len() ==> self.published@[i] < self.published@[j]
        &&& self.published@.len() > 0 ==> self.published@.last() <= self.revision
        &&& self.dirty ==> (self.published@.len() == 0 || self.published@.last()
            < self.revision)
    }

    /// The staleness filter: a message for a file is accepted only when
    /// its timestamp exceeds everything already seen for that file.
    pub open spec fn spec_accepts(self, fid: u64, ts: u64) -> bool {
        match self.timestamps.spec_get(fid) {
            Some(t) => t < ts,
            None => true,
        }
    }

    pub fn new() -> (r: LinkState<A, C>)
        ensures
            r.wf(),
            r.revision == 0,
            !r.dirty,
            r.published@ == Seq::<u64>::empty(),
            forall|fid: u64| r.spec_accepts(fid, 0) && r.timestamps.spec_get(fid) is None,
            forall|fid: u64| r.doc_timestamps.spec_get(fid) is None,
            r.latest_ast@ == Map::<u64, A>::empty(),
            r.latest_configs@ == Map::<u64, C>::empty(),
    {
        LinkState {
            latest_ast: vstd::hash_map::HashMapWithView::new(),
            latest_configs: vstd::hash_map::HashMapWithView::new(),
            timestamps: TsMap::new(),
            doc_timestamps: TsMap::new(),
            revision: 0,
            dirty: false,
            published: Ghost(Seq::empty()),
        }
    }

    fn accepts(&self, fid: u64, ts: u64) -> (r: bool)
        ensures
            r == self.spec_accepts(fid, ts),
    {
        match self.timestamps.get(fid) {
            Some(t) => t < ts,
            None => true,
        }
    }

    /// One step of the fan-in loop. A stale message changes no map, yet
    /// the revision advances and the dirty flag is set on every message
    /// but shutdown, so downstream cancellation still observes activity.
    /// Returns false exactly on shutdown.
    pub fn handle_msg(&mut self, msg: LinkMsg<A, C>) -> (cont: bool)
        requires
            old(self).wf(),
            old(self).revision < 0xFFFF_FFFF_FFFF_FFFFu64,
        ensures
            final(self).wf(),
            final(self).published == old(self).published,
            match msg {
                LinkMsg::Shutdown => !cont && *final(self) == *old(self),
                LinkMsg::Delete(fid, ts) => {
                    &&& cont
                    &&& final(self).revision == old(self).revision + 1
                    &&& final(self).dirty
                    &&& if old(self).spec_accepts(fid, ts) {
                        &&& final(self).timestamps.spec_get(fid) == Some(ts)
                        &&& final(self).doc_timestamps.spec_get(fid) is None
                        &&& final(self).latest_ast@ == old(self).latest_ast@.remove(fid)
                        &&& final(self).latest_configs@ == old(self).latest_configs@.remove(fid)
                    } else {
                        &&& final(self).timestamps == old(self).timestamps
                        &&& final(self).doc_timestamps == old(self).doc_timestamps
                        &&& final(self).latest_ast@ == old(self).latest_ast@
                        &&& final(self).latest_configs@ == old(self).latest_configs@
                    }
                    &&& forall|f2: u64|
                        f2 != fid ==> final(self).timestamps.spec_get(f2) == old(
                            self,
                        ).timestamps.spec_get(f2) && final(self).doc_timestamps.spec_get(f2)
                            == old(self).doc_timestamps.spec_get(f2)
                },
                LinkMsg::UpdateAst(fid, ts, ast) => {
                    &&& cont
                    &&& final(self).revision == old(self).revision + 1
                    &&& final(self).dirty
                    &&& final(self).latest_configs@ == old(self).latest_configs@
                    &&& if old(self).spec_accepts(fid, ts) {
                        &&& final(self).timestamps.spec_get(fid) == Some(ts)
                        &&& final(self).doc_timestamps.spec_get(fid) == Some(ts)
                        &&& final(self).latest_ast@ == old(self).latest_ast@.insert(fid, ast)
                    } else {
                        &&& final(self).timestamps == old(self).timestamps
                        &&& final(self).doc_timestamps == old(self).doc_timestamps
                        &&& final(self).latest_ast@ == old(self).latest_ast@
                    }
                    &&& forall|f2: u64|
                        f2 != fid ==> final(self).timestamps.spec_get(f2) == old(
                            self,
                        ).timestamps.spec_get(f2) && final(self).doc_timestamps.spec_get(f2)
                            == old(self).doc_timestamps.spec_get(f2)
                },
                LinkMsg::UpdateConfig(fid, ts, conf) => {
                    &&& cont
                    &&& final(self).revision == old(self).revision + 1
                    &&& final(self).dirty
                    &&& final(self).latest_ast@ == old(self).latest_ast@
                    &&& if old(self).spec_accepts(fid, ts) {
                        &&& final(self).timestamps.spec_get(fid) == Some(ts)
                        &&& final(self).doc_timestamps.spec_get(fid) == Some(ts)
                        &&& final(self).latest_configs@ == old(self).latest_configs@.insert(
                            fid,
                            conf,
                        )
                    } else {
                        &&& final(self).timestamps == old(self).timestamps
                        &&& final(self).doc_timestamps == old(self).doc_timestamps
                        &&& final(self).latest_configs@ == old(self).latest_configs@
                    }
                    &&& forall|f2: u64|
                        f2 != fid ==> final(self).timestamps.spec_get(f2) == old(
                            self,
                        ).timestamps.spec_get(f2) && final(self).doc_timestamps.spec_get(f2)
                            == old(self).doc_timestamps.spec_get(f2)
                },
            },
    {
        match msg {
            LinkMsg::Shutdown => false,
            LinkMsg::Delete(fid, ts) => {
                if self.accepts(fid, ts) {
                    self.latest_ast.remove(&fid);
                    self.latest_configs.remove(&fid);
                    self.timestamps.set(fid, ts);
                    self.doc_timestamps.remove(fid);
                }
                self.revision = self.revision + 1;
                self.dirty = true;
                true
            },
            LinkMsg::UpdateAst(fid, ts, ast) => {
                if self.accepts(fid, ts) {
                    self.timestamps.set(fid, ts);
                    self.doc_timestamps.set(fid, ts);
                    self.latest_ast.insert(fid, ast);
                }
                self.revision = self.revision + 1;
                self.dirty = true;
                true
            },
            LinkMsg::UpdateConfig(fid, ts, conf) => {
                if self.accepts(fid, ts) {
                    self.timestamps.set(fid, ts);
                    self.doc_timestamps.set(fid, ts);
                    self.latest_configs.insert(fid, conf);
                }
                self.revision = self.revision + 1;
                self.dirty = true;
                true
            },
        }
    }

    /// One debounce tick: publishes the current revision when work is
    /// pending, at most once per revision.
    pub fn tick(&mut self) -> (r: Option<u64>)
        requires
            old(self).wf(),
        ensures
            final(self).wf(),
            final(self).revision == old(self).revision,
            final(self).latest_ast@ == old(self).latest_ast@,
            final(self).latest_configs@ == old(self).latest_configs@,
            final(self).timestamps == old(self).timestamps,
            final(self).doc_timestamps == old(self).doc_timestamps,
            match r {
                Some(rev) => {
                    &&& old(self).dirty
                    &&& rev == old(self).revision
                    &&& !final(self).dirty
                    &&& final(self).published@ == old(self).published@.push(rev)
                },
                None => !old(self).dirty && *final(self) == *old(self),
            },
    {
        if self.dirty {
            self.dirty = false;
            let rev = self.revision;
            proof {
                self.published@ = self.published@.push(rev);
            }
            Some(rev)
        } else {
            None
        }
    }
}

impl<A, C> LinkState<A, C> {
    /// The per-file timestamps that go into a published snapshot: those
    /// of the documents the snapshot is built from, exactly.
    pub fn snapshot_timestamps(&self) -> (r: TsMap)
        ensures
            r.entries@ == self.doc_timestamps.entries@,
    {
        self.doc_timestamps.snapshot()
    }
}

/// Revisions published on the watch channel grow strictly: a consumer
/// never observes a snapshot whose revision is not above its
/// predecessor's.
pub proof fn lemma_revision_monotonic<A, C>(s: LinkState<A, C>, i: int, j: int)
    requires
        s.wf(),
        0 <= i < j < s.published@.len(),
    ensures
        s.published@[i] < s.published@[j],
{
}

/// The staleness filter makes per-document timestamps strictly
/// monotonic: with `t1` the last accepted timestamp of a document, a
/// later message for it is accepted exactly when it is strictly newer.
pub proof fn lemma_timestamps_monotone<A, C>(s: LinkState<A, C>, fid: u64, t1: u64, t2: u64)
    requires
        s.timestamps.spec_get(fid) == Some(t1),
    ensures
        s.spec_accepts(fid, t2) <==> t1 < t2,
{
}

} // verus!
