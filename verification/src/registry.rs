//! The job registry: the single source of truth for which output targets are
//! currently being produced.
//!
//! The registry maps a job key (the output path) to a [`Slot`]: either a
//! reservation placed before the external process is spawned, or the live
//! process handle.  Admission works optimistically: `try_admit` reserves the
//! key, the caller spawns the process outside any lock, and `activate`
//! replaces the reservation with the real handle.  Removal — by natural
//! completion, by cancellation or by `drain_all` — is the single hand-off
//! point for a handle, so exactly one party ever cleans a job up.
//!
//! The embedding application guards each whole operation with one
//! mutual-exclusion lock; every operation here is a bounded map mutation that
//! performs no process or file work.

use vstd::prelude::*;

verus! {

/// What the registry holds for one admitted key.
pub enum Slot<H> {
    /// The key is reserved: its process is not spawned yet.
    Reserved,
    /// The job's live process handle.
    Active(H),
}

/// Outcome of looking a key up for cancellation.
pub enum CancelLookup<H> {
    /// The key is not registered; nothing was changed and the caller must
    /// not touch the filesystem.
    UnknownKey,
    /// The key was only reserved: its start was revoked before a process
    /// existed, so there is nothing to signal.
    PendingStart,
    /// The job's handle, removed from the registry; the caller now owns the
    /// process teardown.
    Reaped(H),
}

#[verifier::reject_recursive_types(H)]
pub struct Registry<H> {
    entries: Vec<(String, Slot<H>)>,
}

/// The mapping that an entry list denotes.
pub open spec fn entries_map<H>(entries: Seq<(String, Slot<H>)>) -> Map<Seq<char>, Slot<H>>
    decreases entries.len(),
{
    if entries.len() == 0 {
        Map::empty()
    } else {
        entries_map(entries.drop_last()).insert(entries.last().0@, entries.last().1)
    }
}

/// No key occurs twice.
pub open spec fn unique_keys<H>(entries: Seq<(String, Slot<H>)>) -> bool {
    forall|i: int, j: int|
        0 <= i < j < entries.len() ==> (#[trigger] entries[i]).0@ != (#[trigger] entries[j]).0@
}

/// The map an admission leaves behind: unchanged when the key is already
/// present, else extended with a reservation.
pub open spec fn admit_map<H>(m: Map<Seq<char>, Slot<H>>, k: Seq<char>) -> Map<
    Seq<char>,
    Slot<H>,
> {
    if m.dom().contains(k) {
        m
    } else {
        m.insert(k, Slot::Reserved)
    }
}

/// A key denotes an entry exactly when some entry carries it.
pub proof fn lemma_entries_map_contains<H>(entries: Seq<(String, Slot<H>)>, k: Seq<char>)
    ensures
        entries_map(entries).dom().contains(k) <==> (exists|i: int|
            0 <= i < entries.len() && (#[trigger] entries[i]).0@ == k),
    decreases entries.len(),
{
    if entries.len() > 0 {
        lemma_entries_map_contains(entries.drop_last(), k);
        if entries.last().0@ == k {
            assert(entries[entries.len() - 1].0@ == k);
        } else {
            if entries_map(entries).dom().contains(k) {
                let i = choose|i: int|
                    0 <= i < entries.len() - 1 && (#[trigger] entries.drop_last()[i]).0@ == k;
                assert(entries[i].0@ == k);
            }
            if exists|i: int| 0 <= i < entries.len() && (#[trigger] entries[i]).0@ == k {
                let i = choose|i: int| 0 <= i < entries.len() && (#[trigger] entries[i]).0@ == k;
                assert(entries.drop_last()[i].0@ == k);
            }
        }
    }
}

/// Under unique keys, the entry holding a key gives the map's value at it.
pub proof fn lemma_entries_map_index<H>(entries: Seq<(String, Slot<H>)>, i: int)
    requires
        unique_keys(entries),
        0 <= i < entries.len(),
    ensures
        entries_map(entries).dom().contains(entries[i].0@),
        entries_map(entries)[entries[i].0@] == entries[i].1,
    decreases entries.len(),
{
    if i < entries.len() - 1 {
        assert(unique_keys(entries.drop_last()));
        assert(entries.drop_last()[i] == entries[i]);
        lemma_entries_map_index(entries.drop_last(), i);
        assert(entries.last().0@ != entries[i].0@);
    }
}

/// Under unique keys, the map has exactly as many keys as there are entries.
pub proof fn lemma_entries_map_len<H>(entries: Seq<(String, Slot<H>)>)
    requires
        unique_keys(entries),
    ensures
        entries_map(entries).dom().finite(),
        entries_map(entries).dom().len() == entries.len(),
    decreases entries.len(),
{
    if entries.len() > 0 {
        let dl = entries.drop_last();
        assert(unique_keys(dl));
        lemma_entries_map_len(dl);
        lemma_entries_map_contains(dl, entries.last().0@);
        assert(forall|i: int| 0 <= i < dl.len() ==> (#[trigger] dl[i]).0@ != entries.last().0@);
        assert(!entries_map(dl).dom().contains(entries.last().0@));
    }
}

/// Removing one entry removes exactly its key from the denoted map.
pub proof fn lemma_entries_map_remove<H>(entries: Seq<(String, Slot<H>)>, i: int)
    requires
        unique_keys(entries),
        0 <= i < entries.len(),
    ensures
        unique_keys(entries.remove(i)),
        entries_map(entries.remove(i)) == entries_map(entries).remove(entries[i].0@),
    decreases entries.len(),
{
    let k = entries[i].0@;
    let e2 = entries.remove(i);
    assert forall|p: int, q: int| 0 <= p < q < e2.len() implies (#[trigger] e2[p]).0@ != (
    #[trigger] e2[q]).0@ by {
        let p0: int = if p < i {
            p
        } else {
            p + 1
        };
        let q0: int = if q < i {
            q
        } else {
            q + 1
        };
        assert(e2[p] == entries[p0]);
        assert(e2[q] == entries[q0]);
    }
    let dl = entries.drop_last();
    assert(unique_keys(dl));
    if i == entries.len() - 1 {
        assert(e2 =~= dl);
        lemma_entries_map_contains(dl, k);
        assert(forall|j: int| 0 <= j < dl.len() ==> (#[trigger] dl[j]).0@ != k);
        assert(!entries_map(dl).dom().contains(k));
        assert(entries_map(dl).insert(k, entries[i].1).remove(k) =~= entries_map(dl));
    } else {
        assert(e2.drop_last() =~= dl.remove(i));
        assert(e2.last() == entries.last());
        assert(dl[i] == entries[i]);
        lemma_entries_map_remove(dl, i);
        let lk = entries.last().0@;
        let lv = entries.last().1;
        assert(lk != k);
        assert(entries_map(e2) == entries_map(dl).remove(k).insert(lk, lv));
        assert(entries_map(dl).insert(lk, lv).remove(k) =~= entries_map(dl).remove(k).insert(
            lk,
            lv,
        ));
    }
}

impl<H> View for Registry<H> {
    type V = Map<Seq<char>, Slot<H>>;

    closed spec fn view(&self) -> Map<Seq<char>, Slot<H>> {
        entries_map(self.entries@)
    }
}

impl<H> Registry<H> {
    /// Keys are unique, so the entry list denotes a map faithfully.
    pub closed spec fn wf(&self) -> bool {
        unique_keys(self.entries@)
    }

    pub fn new() -> (r: Self)
        ensures
            r.wf(),
            r@ == Map::<Seq<char>, Slot<H>>::empty(),
    {
        Registry { entries: Vec::new() }
    }

    /// Index of the entry carrying `key`, if any.
    fn find_key(&self, key: &String) -> (r: Option<usize>)
        ensures
            r matches Some(i) ==> i < self.entries@.len() && self.entries@[i as int].0@ == key@,
            r is None ==> forall|j: int|
                0 <= j < self.entries@.len() ==> (#[trigger] self.entries@[j]).0@ != key@,
    {
        let mut i: usize = 0;
        while i < self.entries.len()
            invariant
                i <= self.entries@.len(),
                forall|j: int| 0 <= j < i ==> (#[trigger] self.entries@[j]).0@ != key@,
            decreases self.entries@.len() - i,
        {
            if self.entries[i].0 == *key {
                return Some(i);
            }
            i = i + 1;
        }
        None
    }

    /// How many jobs are registered.
    pub fn len(&self) -> (n: usize)
        requires
            self.wf(),
        ensures
            n == self@.dom().len(),
            self@.dom().finite(),
    {
        proof {
            lemma_entries_map_len(self.entries@);
        }
        self.entries.len()
    }

    /// Whether no job is registered.
    pub fn is_empty(&self) -> (r: bool)
        requires
            self.wf(),
        ensures
            r == (self@.dom().len() == 0),
            self@.dom().finite(),
    {
        proof {
            lemma_entries_map_len(self.entries@);
        }
        self.entries.len() == 0
    }

    /// The slot registered under `key`, if any.
    pub fn get(&self, key: &String) -> (r: Option<&Slot<H>>)
        requires
            self.wf(),
        ensures
            r is Some <==> self@.dom().contains(key@),
            r matches Some(s) ==> *s == self@[key@],
    {
        proof {
            lemma_entries_map_contains(self.entries@, key@);
        }
        match self.find_key(key) {
            Some(i) => {
                proof {
                    lemma_entries_map_index(self.entries@, i as int);
                }
                Some(&self.entries[i].1)
            },
            None => None,
        }
    }

    /// Atomically check absence of `key` and reserve it.  Refused exactly
    /// when the key is already registered, in which case nothing changes.
    pub fn try_admit(&mut self, key: &String) -> (admitted: bool)
        requires
            old(self).wf(),
        ensures
            final(self).wf(),
            admitted == !old(self)@.dom().contains(key@),
            final(self)@ == admit_map(old(self)@, key@),
    {
        proof {
            lemma_entries_map_contains(self.entries@, key@);
        }
        match self.find_key(key) {
            Some(_) => false,
            None => {
                let ghost pre = self.entries@;
                self.entries.push((key.clone(), Slot::Reserved));
                proof {
                    assert(self.entries@.drop_last() =~= pre);
                    assert(self.entries@.last().0@ == key@);
                    assert forall|p: int, q: int|
                        0 <= p < q < self.entries@.len() implies (
                    #[trigger] self.entries@[p]).0@ != (#[trigger] self.entries@[q]).0@ by {
                        if q < self.entries@.len() - 1 {
                            assert(pre[p] == self.entries@[p]);
                            assert(pre[q] == self.entries@[q]);
                        } else {
                            assert(pre[p] == self.entries@[p]);
                        }
                    }
                }
                true
            },
        }
    }

    /// Replace the reservation for `key` with the job's live handle.
    /// Refused — leaving the registry unchanged and the handle returned —
    /// when the reservation is gone (a cancellation revoked the start) or
    /// the key holds an active handle already.
    pub fn activate(&mut self, key: &String, handle: H) -> (r: Option<H>)
        requires
            old(self).wf(),
        ensures
            final(self).wf(),
            old(self)@.dom().contains(key@) && old(self)@[key@] is Reserved ==> r is None
                && final(self)@ == old(self)@.insert(key@, Slot::Active(handle)),
            !(old(self)@.dom().contains(key@) && old(self)@[key@] is Reserved) ==> r == Some(handle)
                && final(self)@ == old(self)@,
    {
        proof {
            lemma_entries_map_contains(self.entries@, key@);
        }
        match self.find_key(key) {
            Some(i) => {
                proof {
                    lemma_entries_map_index(self.entries@, i as int);
                }
                let reserved = matches!(self.entries[i].1, Slot::Reserved);
                if reserved {
                    let ghost pre = self.entries@;
                    proof {
                        lemma_entries_map_remove(self.entries@, i as int);
                    }
                    let pair = self.entries.remove(i);
                    let ghost mid = self.entries@;
                    self.entries.push((pair.0, Slot::Active(handle)));
                    proof {
                        assert(self.entries@.drop_last() =~= mid);
                        lemma_entries_map_contains(mid, key@);
                        assert(forall|j: int|
                            0 <= j < mid.len() ==> (#[trigger] mid[j]).0@ != key@);
                        assert forall|p: int, q: int|
                            0 <= p < q < self.entries@.len() implies (
                        #[trigger] self.entries@[p]).0@ != (#[trigger] self.entries@[q]).0@ by {
                            if q < self.entries@.len() - 1 {
                                assert(mid[p] == self.entries@[p]);
                                assert(mid[q] == self.entries@[q]);
                            } else {
                                assert(mid[p] == self.entries@[p]);
                            }
                        }
                        assert(entries_map(self.entries@) == entries_map(mid).insert(
                            key@,
                            Slot::Active(handle),
                        ));
                        assert(entries_map(mid).insert(key@, Slot::Active(handle)) =~= entries_map(
                            pre,
                        ).insert(key@, Slot::Active(handle)));
                    }
                    None
                } else {
                    Some(handle)
                }
            },
            None => Some(handle),
        }
    }

    /// Remove `key` and hand its slot out; the single hand-off point.
    /// Absent keys leave the registry unchanged.
    pub fn remove(&mut self, key: &String) -> (r: Option<Slot<H>>)
        requires
            old(self).wf(),
        ensures
            final(self).wf(),
            r is Some <==> old(self)@.dom().contains(key@),
            r matches Some(s) ==> s == old(self)@[key@] && final(self)@ == old(self)@.remove(key@),
            r is None ==> final(self)@ == old(self)@,
    {
        proof {
            lemma_entries_map_contains(self.entries@, key@);
        }
        match self.find_key(key) {
            Some(i) => {
                proof {
                    lemma_entries_map_index(self.entries@, i as int);
                    lemma_entries_map_remove(self.entries@, i as int);
                }
                let pair = self.entries.remove(i);
                Some(pair.1)
            },
            None => None,
        }
    }

    /// Look `key` up for cancellation: remove it and say what was found.
    /// An unknown key changes nothing, so the caller performs no process
    /// signalling and no file deletion for it.
    pub fn cancel_lookup(&mut self, key: &String) -> (r: CancelLookup<H>)
        requires
            old(self).wf(),
        ensures
            final(self).wf(),
            !old(self)@.dom().contains(key@) ==> r is UnknownKey && final(self)@ == old(self)@,
            old(self)@.dom().contains(key@) ==> final(self)@ == old(self)@.remove(key@),
            old(self)@.dom().contains(key@) && old(self)@[key@] is Reserved ==> r is PendingStart,
            old(self)@.dom().contains(key@) ==> (old(self)@[key@] matches Slot::Active(h) ==> r
                == CancelLookup::Reaped(h)),
    {
        match self.remove(key) {
            None => CancelLookup::UnknownKey,
            Some(Slot::Reserved) => CancelLookup::PendingStart,
            Some(Slot::Active(h)) => CancelLookup::Reaped(h),
        }
    }

    /// Remove every entry in one step, for shutdown: afterwards the registry
    /// is empty, and the returned list carries exactly the removed jobs.
    pub fn drain_all(&mut self) -> (r: Vec<(String, Slot<H>)>)
        requires
            old(self).wf(),
        ensures
            final(self).wf(),
            final(self)@ == Map::<Seq<char>, Slot<H>>::empty(),
            unique_keys(r@),
            entries_map(r@) == old(self)@,
    {
        let mut out: Vec<(String, Slot<H>)> = Vec::new();
        core::mem::swap(&mut out, &mut self.entries);
        out
    }
}

/// Once an admission of a key succeeds, a second admission of the same key
/// is refused until the key is removed: of two concurrent starts for one
/// target, exactly one runs.
pub proof fn lemma_second_admission_refused<H>(m: Map<Seq<char>, Slot<H>>, k: Seq<char>)
    requires
        !m.dom().contains(k),
    ensures
        admit_map(m, k).dom().contains(k),
{
}

/// Removal is the single hand-off point: after a key is removed it is
/// absent, and a second removal of it finds nothing and changes nothing —
/// exactly one of a racing completion and cancellation cleans the job up.
pub proof fn lemma_removal_single_handoff<H>(m: Map<Seq<char>, Slot<H>>, k: Seq<char>)
    ensures
        !m.remove(k).dom().contains(k),
        m.remove(k).remove(k) == m.remove(k),
{
    assert(m.remove(k).remove(k) =~= m.remove(k));
}

} // verus!
