//! The directory cache: the authoritative map from path to listing state,
//! generation-stamped. It deduplicates in-flight loads, fences stale results
//! by generation token, remaps the selection on reload, and applies a
//! bounded LRU eviction policy that spares the paths on display.
//!
//! The cache never performs I/O: an operation that wants a directory read
//! returns a `LoadJob`, and the surrounding program hands the outcome back
//! through `apply_result`.

use vstd::prelude::*;
use crate::entry::{DirectoryEntry, EntryView, entry_views, clone_bytes, bytes_eq};
use crate::listing::{
    Listing, ListingView, Status, StatusView, LoadError, LoadErrorView, remap_index,
    remap_selection,
};

verus! {

/// A directory read the cache wants performed: the path to enumerate and
/// the generation token to hand back with the outcome.
pub struct LoadJob {
    pub path: Vec<u8>,
    pub token: u64,
}

/// Mathematical value of a `LoadJob`.
pub ghost struct JobView {
    pub path: Seq<u8>,
    pub token: u64,
}

impl View for LoadJob {
    type V = JobView;

    open spec fn view(&self) -> JobView {
        JobView { path: self.path@, token: self.token }
    }
}

/// What a finished load delivers: the enumerated (and already sorted)
/// entries, or a typed failure.
pub enum LoadOutcome {
    Entries(Vec<DirectoryEntry>),
    Failure(LoadError),
}

/// Mathematical value of a `LoadOutcome`.
pub ghost enum OutcomeView {
    Entries(Seq<EntryView>),
    Failure(LoadErrorView),
}

impl View for LoadOutcome {
    type V = OutcomeView;

    open spec fn view(&self) -> OutcomeView {
        match self {
            LoadOutcome::Entries(es) => OutcomeView::Entries(entry_views(es@)),
            LoadOutcome::Failure(e) => OutcomeView::Failure(e@),
        }
    }
}

/// One cached path with its listing and load-coordination state.
pub struct Slot {
    pub path: Vec<u8>,
    pub listing: Listing,
    /// Generation counter of dispatched loads for this path; every
    /// dispatched job carries its value at dispatch time as the token.
    pub load_gen: u64,
    /// Whether a load for this path is outstanding.
    pub in_flight: bool,
    /// Logical time of the last lookup, for the LRU policy.
    pub last_access: u64,
}

/// Mathematical value of a `Slot`.
pub ghost struct SlotView {
    pub path: Seq<u8>,
    pub listing: ListingView,
    pub load_gen: u64,
    pub in_flight: bool,
    pub last_access: u64,
}

impl View for Slot {
    type V = SlotView;

    open spec fn view(&self) -> SlotView {
        SlotView {
            path: self.path@,
            listing: self.listing@,
            load_gen: self.load_gen,
            in_flight: self.in_flight,
            last_access: self.last_access,
        }
    }
}

/// The views of a sequence of slots.
pub open spec fn slot_views(s: Seq<Slot>) -> Seq<SlotView> {
    s.map_values(|x: Slot| x@)
}

/// Some slot carries this path.
pub open spec fn has_path(s: Seq<SlotView>, p: Seq<u8>) -> bool {
    exists|i: int| 0 <= i < s.len() && s[i].path == p
}

/// The index of the slot carrying this path (meaningful under
/// `unique_paths` and `has_path`).
pub open spec fn idx_of(s: Seq<SlotView>, p: Seq<u8>) -> int {
    choose|i: int| 0 <= i < s.len() && s[i].path == p
}

/// The slot carrying this path.
pub open spec fn slot_at(s: Seq<SlotView>, p: Seq<u8>) -> SlotView {
    s[idx_of(s, p)]
}

/// No two slots carry the same path.
pub open spec fn unique_paths(s: Seq<SlotView>) -> bool {
    forall|i: int, j: int| 0 <= i < j < s.len() ==> s[i].path != s[j].path
}

/// Under unique paths, the slot found at `i` is the slot of its path.
pub proof fn lemma_idx_unique(s: Seq<SlotView>, i: int)
    requires
        unique_paths(s),
        0 <= i < s.len(),
    ensures
        has_path(s, s[i].path),
        idx_of(s, s[i].path) == i,
{
    assert(has_path(s, s[i].path));
    let k = idx_of(s, s[i].path);
    assert(0 <= k < s.len() && s[k].path == s[i].path);
    if k != i {
        assert(s[k].path != s[i].path);
    }
}

/// A fresh Loading slot, as inserted the first time a path is requested.
pub open spec fn fresh_slot(p: Seq<u8>, now: u64) -> SlotView {
    SlotView {
        path: p,
        listing: ListingView {
            entries: Seq::empty(),
            generation: 0u64,
            status: StatusView::Loading,
            loaded_at: now,
            selected_index: 0usize,
        },
        load_gen: 1u64,
        in_flight: true,
        last_access: now,
    }
}

/// A slot after a plain lookup: only the access time moves.
pub open spec fn touched(o: SlotView, now: u64) -> SlotView {
    SlotView {
        path: o.path,
        listing: o.listing,
        load_gen: o.load_gen,
        in_flight: o.in_flight,
        last_access: now,
    }
}

/// A slot after a lookup that found it stale with no load outstanding: a
/// refresh is dispatched under the next generation token.
pub open spec fn redispatched(o: SlotView, now: u64) -> SlotView {
    SlotView {
        path: o.path,
        listing: o.listing,
        load_gen: (o.load_gen + 1) as u64,
        in_flight: true,
        last_access: now,
    }
}

/// A slot after `invalidate`: marked stale (its entries stay visible) and a
/// refresh dispatched under the next generation token, which fences any
/// older outstanding load.
pub open spec fn invalidated(o: SlotView) -> SlotView {
    SlotView {
        path: o.path,
        listing: ListingView {
            entries: o.listing.entries,
            generation: o.listing.generation,
            status: StatusView::Stale,
            loaded_at: o.listing.loaded_at,
            selected_index: o.listing.selected_index,
        },
        load_gen: (o.load_gen + 1) as u64,
        in_flight: true,
        last_access: o.last_access,
    }
}

/// Whether a result carrying `token` is applied to this slot, or discarded
/// as obsolete: it is discarded exactly when a strictly newer load for the
/// path has been dispatched since.
pub open spec fn slot_applies(o: SlotView, token: u64) -> bool {
    token >= o.load_gen
}

/// A slot after a load outcome is applied: the listing becomes Ready with
/// the delivered entries (cursor remapped by name) or Failed (last entries
/// kept on display), and the listing generation strictly increases.
pub open spec fn applied_slot(o: SlotView, outcome: OutcomeView, now: u64) -> SlotView {
    SlotView {
        path: o.path,
        listing: match outcome {
            OutcomeView::Entries(es) => ListingView {
                entries: es,
                generation: (o.listing.generation + 1) as u64,
                status: StatusView::Ready,
                loaded_at: now,
                selected_index: remap_index(
                    o.listing.entries,
                    o.listing.selected_index as int,
                    es,
                ) as usize,
            },
            OutcomeView::Failure(e) => ListingView {
                entries: o.listing.entries,
                generation: (o.listing.generation + 1) as u64,
                status: StatusView::Failed(e),
                loaded_at: now,
                selected_index: o.listing.selected_index,
            },
        },
        load_gen: o.load_gen,
        in_flight: false,
        last_access: o.last_access,
    }
}

/// Whether a lookup of `p` dispatches a load: yes when the path is absent,
/// and when its listing is stale with no load outstanding. A path already
/// Loading attaches to the outstanding load instead.
pub open spec fn get_dispatches(s: Seq<SlotView>, p: Seq<u8>) -> bool {
    if !has_path(s, p) {
        true
    } else {
        slot_at(s, p).listing.status is Stale && !slot_at(s, p).in_flight
    }
}

/// The authoritative map from path to listing state.
pub struct DirCache {
    pub slots: Vec<Slot>,
    /// Largest number of cached listings the LRU policy tolerates.
    pub capacity: usize,
    /// Logical time, bumped on every mutating lookup.
    pub clock: u64,
}

impl DirCache {
    /// The views of the cached slots.
    pub open spec fn sview(self) -> Seq<SlotView> {
        slot_views(self.slots@)
    }

    /// Well-formedness: paths are unique, every cursor is in bounds, and
    /// every counter is bounded by the logical clock.
    pub open spec fn wf(self) -> bool {
        &&& unique_paths(self.sview())
        &&& forall|i: int|
            0 <= i < self.sview().len() ==> (#[trigger] self.sview()[i]).listing.wf()
        &&& forall|i: int|
            0 <= i < self.sview().len() ==> {
                let s = #[trigger] self.sview()[i];
                s.load_gen <= self.clock && s.last_access <= self.clock
                    && s.listing.generation <= self.clock && s.listing.loaded_at <= self.clock
            }
    }

    /// An empty cache.
    pub fn new(capacity: usize) -> (r: DirCache)
        ensures
            r.wf(),
            r.sview() == Seq::<SlotView>::empty(),
            r.capacity == capacity,
            r.clock == 0u64,
    {
        let r = DirCache { slots: Vec::new(), capacity, clock: 0 };
        proof {
            assert(r.sview() =~= Seq::<SlotView>::empty());
        }
        r
    }

    /// Whether the logical clock has headroom for another operation.
    pub fn can_advance(&self) -> (r: bool)
        ensures
            r == (self.clock < u64::MAX),
    {
        self.clock < u64::MAX
    }

    /// Find the slot carrying `path`.
    fn find_slot(&self, path: &Vec<u8>) -> (r: Option<usize>)
        requires
            self.wf(),
        ensures
            match r {
                Some(i) => {
                    &&& (i as int) < self.sview().len()
                    &&& self.sview()[i as int].path == path@
                    &&& has_path(self.sview(), path@)
                    &&& idx_of(self.sview(), path@) == i as int
                },
                None => !has_path(self.sview(), path@),
            },
    {
        let ghost s = self.sview();
        let mut i: usize = 0;
        while i < self.slots.len()
            invariant
                i <= self.slots@.len(),
                s == self.sview(),
                unique_paths(s),
                s.len() == self.slots@.len(),
                forall|k: int| 0 <= k < s.len() ==> s[k] == self.slots@[k]@,
                forall|k: int| 0 <= k < i ==> s[k].path != path@,
            decreases self.slots@.len() - i,
        {
            if bytes_eq(&self.slots[i].path, path) {
                proof {
                    lemma_idx_unique(s, i as int);
                }
                return Some(i);
            }
            i = i + 1;
        }
        proof {
            if has_path(s, path@) {
                let k = idx_of(s, path@);
                assert(0 <= k < s.len() && s[k].path == path@);
            }
        }
        None
    }

    /// Return the current listing for `path` at once, never blocking: a
    /// cached listing is returned whatever its status; an absent path gets
    /// a fresh Loading listing and a dispatched load; a stale path with no
    /// load outstanding gets a refresh dispatched. At most one load per
    /// path is ever outstanding: a lookup while the path is Loading
    /// attaches to the outstanding load and dispatches nothing.
    pub fn get_or_load(&mut self, path: &Vec<u8>) -> (r: (Listing, Option<LoadJob>))
        requires
            old(self).wf(),
            old(self).clock < u64::MAX,
        ensures
            final(self).wf(),
            final(self).capacity == old(self).capacity,
            final(self).clock == old(self).clock + 1,
            ({
                let s0 = old(self).sview();
                let s1 = final(self).sview();
                let now = final(self).clock;
                if !has_path(s0, path@) {
                    &&& s1 == s0.push(fresh_slot(path@, now))
                    &&& r.0@ == fresh_slot(path@, now).listing
                    &&& (r.1 matches Some(j) && j.path@ == path@ && j.token == 1u64)
                } else {
                    let o = slot_at(s0, path@);
                    let i = idx_of(s0, path@);
                    &&& r.0@ == o.listing
                    &&& if o.listing.status is Stale && !o.in_flight {
                        &&& s1 == s0.update(i, redispatched(o, now))
                        &&& (r.1 matches Some(j)
                            && j.path@ == path@
                            && j.token == o.load_gen + 1)
                    } else {
                        &&& s1 == s0.update(i, touched(o, now))
                        &&& r.1 is None
                    }
                }
            }),
            (r.1 is Some) == get_dispatches(old(self).sview(), path@),
    {
        let ghost s0 = self.sview();
        let found = self.find_slot(path);
        self.clock = self.clock + 1;
        let now = self.clock;
        proof {
            assert(self.sview() == s0);
        }
        match found {
            None => {
                let listing = Listing::new_loading(now);
                let snap = listing.clone();
                let slot = Slot {
                    path: clone_bytes(path),
                    listing,
                    load_gen: 1,
                    in_flight: true,
                    last_access: now,
                };
                proof {
                    assert(slot@ == fresh_slot(path@, now));
                }
                self.slots.push(slot);
                proof {
                    assert(self.sview() =~= s0.push(fresh_slot(path@, now)));
                    assert forall|k: int| 0 <= k < self.sview().len() implies {
                        let s = #[trigger] self.sview()[k];
                        s.load_gen <= self.clock && s.last_access <= self.clock
                            && s.listing.generation <= self.clock
                            && s.listing.loaded_at <= self.clock && s.listing.wf()
                    } by {
                        if k < s0.len() {
                            assert(s0[k] == old(self).sview()[k]);
                        }
                    }
                    assert(unique_paths(self.sview())) by {
                        assert forall|a: int, b: int|
                            0 <= a < b < self.sview().len() implies self.sview()[a].path
                            != self.sview()[b].path by {
                            if b == s0.len() {
                                assert(self.sview()[a] == s0[a]);
                                lemma_idx_unique(s0, a);
                            }
                        }
                    }
                }
                (snap, Some(LoadJob { path: clone_bytes(path), token: 1 }))
            },
            Some(i) => {
                let ghost o = s0[i as int];
                let mut slot = self.slots.remove(i);
                proof {
                    assert(slot@ == o);
                }
                slot.last_access = now;
                let is_stale = matches!(slot.listing.status, Status::Stale);
                let job = if is_stale && !slot.in_flight {
                    slot.load_gen = slot.load_gen + 1;
                    slot.in_flight = true;
                    Some(LoadJob { path: clone_bytes(path), token: slot.load_gen })
                } else {
                    None
                };
                let snap = slot.listing.clone();
                let ghost nslot = slot@;
                self.slots.insert(i, slot);
                proof {
                    assert(self.slots@ =~= old(self).slots@.update(i as int, self.slots@[i as int]));
                    assert(self.sview() =~= s0.update(i as int, nslot));
                    if o.listing.status is Stale && !o.in_flight {
                        assert(nslot == redispatched(o, now));
                    } else {
                        assert(nslot == touched(o, now));
                    }
                    assert forall|k: int| 0 <= k < self.sview().len() implies {
                        let s = #[trigger] self.sview()[k];
                        s.load_gen <= self.clock && s.last_access <= self.clock
                            && s.listing.generation <= self.clock
                            && s.listing.loaded_at <= self.clock && s.listing.wf()
                    } by {
                        if k != i as int {
                            assert(self.sview()[k] == s0[k]);
                        }
                    }
                    assert(unique_paths(self.sview())) by {
                        assert forall|a: int, b: int|
                            0 <= a < b < self.sview().len() implies self.sview()[a].path
                            != self.sview()[b].path by {
                            assert(s0[a].path != s0[b].path);
                            assert(self.sview()[a].path == s0[a].path);
                            assert(self.sview()[b].path == s0[b].path);
                        }
                    }
                }
                (snap, job)
            },
        }
    }

    /// Mark `path` stale (its last entries stay on display) and dispatch a
    /// refresh under the next generation token, fencing any older load
    /// still outstanding. A path not cached is a no-op.
    pub fn invalidate(&mut self, path: &Vec<u8>) -> (job: Option<LoadJob>)
        requires
            old(self).wf(),
            old(self).clock < u64::MAX,
        ensures
            final(self).wf(),
            final(self).capacity == old(self).capacity,
            final(self).clock == old(self).clock + 1,
            ({
                let s0 = old(self).sview();
                let s1 = final(self).sview();
                if !has_path(s0, path@) {
                    s1 == s0 && job is None
                } else {
                    let o = slot_at(s0, path@);
                    &&& s1 == s0.update(idx_of(s0, path@), invalidated(o))
                    &&& (job matches Some(j)
                        && j.path@ == path@
                        && j.token == o.load_gen + 1)
                }
            }),
    {
        let ghost s0 = self.sview();
        let found = self.find_slot(path);
        self.clock = self.clock + 1;
        proof {
            assert(self.sview() == s0);
        }
        match found {
            None => {
                proof {
                    assert(self.sview() =~= s0);
                }
                None
            },
            Some(i) => {
                let ghost o = s0[i as int];
                let mut slot = self.slots.remove(i);
                proof {
                    assert(slot@ == o);
                }
                slot.listing.status = Status::Stale;
                slot.load_gen = slot.load_gen + 1;
                slot.in_flight = true;
                let token = slot.load_gen;
                let ghost nslot = slot@;
                self.slots.insert(i, slot);
                proof {
                    assert(self.slots@ =~= old(self).slots@.update(i as int, self.slots@[i as int]));
                    assert(self.sview() =~= s0.update(i as int, nslot));
                    assert(nslot == invalidated(o));
                    assert forall|k: int| 0 <= k < self.sview().len() implies {
                        let s = #[trigger] self.sview()[k];
                        s.load_gen <= self.clock && s.last_access <= self.clock
                            && s.listing.generation <= self.clock
                            && s.listing.loaded_at <= self.clock && s.listing.wf()
                    } by {
                        if k != i as int {
                            assert(self.sview()[k] == s0[k]);
                        }
                    }
                    assert(unique_paths(self.sview())) by {
                        assert forall|a: int, b: int|
                            0 <= a < b < self.sview().len() implies self.sview()[a].path
                            != self.sview()[b].path by {
                            assert(s0[a].path != s0[b].path);
                            assert(self.sview()[a].path == s0[a].path);
                            assert(self.sview()[b].path == s0[b].path);
                        }
                    }
                }
                Some(LoadJob { path: clone_bytes(path), token })
            },
        }
    }

    /// Apply a finished load. The result is applied only when no strictly
    /// newer load for the path has been dispatched since the job left:
    /// an obsolete result is discarded whole, whatever order results
    /// arrive in. Applying replaces the listing with Ready entries (cursor
    /// remapped by name) or a Failure, and strictly increases the listing
    /// generation.
    pub fn apply_result(&mut self, path: &Vec<u8>, token: u64, outcome: LoadOutcome) -> (applied:
        bool)
        requires
            old(self).wf(),
            old(self).clock < u64::MAX,
        ensures
            final(self).wf(),
            final(self).capacity == old(self).capacity,
            final(self).clock == old(self).clock + 1,
            ({
                let s0 = old(self).sview();
                let s1 = final(self).sview();
                let now = final(self).clock;
                if !has_path(s0, path@) {
                    s1 == s0 && !applied
                } else if !slot_applies(slot_at(s0, path@), token) {
                    s1 == s0 && !applied
                } else {
                    &&& applied
                    &&& s1 == s0.update(
                        idx_of(s0, path@),
                        applied_slot(slot_at(s0, path@), outcome@, now),
                    )
                }
            }),
    {
        let ghost s0 = self.sview();
        let found = self.find_slot(path);
        self.clock = self.clock + 1;
        let now = self.clock;
        proof {
            assert(self.sview() == s0);
        }
        match found {
            None => {
                proof {
                    assert(self.sview() =~= s0);
                }
                false
            },
            Some(i) => {
                let ghost o = s0[i as int];
                if token < self.slots[i].load_gen {
                    proof {
                        assert(self.sview() =~= s0);
                    }
                    return false;
                }
                let mut slot = self.slots.remove(i);
                proof {
                    assert(slot@ == o);
                    assert(o.listing.wf());
                }
                match outcome {
                    LoadOutcome::Entries(es) => {
                        let sel = remap_selection(&slot.listing.entries, slot.listing.selected_index, &es);
                        slot.listing.entries = es;
                        slot.listing.selected_index = sel;
                        slot.listing.status = Status::Ready;
                    },
                    LoadOutcome::Failure(e) => {
                        slot.listing.status = Status::Failed(e);
                    },
                }
                slot.listing.generation = slot.listing.generation + 1;
                slot.listing.loaded_at = now;
                slot.in_flight = false;
                let ghost nslot = slot@;
                self.slots.insert(i, slot);
                proof {
                    assert(self.slots@ =~= old(self).slots@.update(i as int, self.slots@[i as int]));
                    assert(self.sview() =~= s0.update(i as int, nslot));
                    assert(nslot == applied_slot(o, outcome@, now));
                    assert(nslot.listing.wf());
                    assert forall|k: int| 0 <= k < self.sview().len() implies {
                        let s = #[trigger] self.sview()[k];
                        s.load_gen <= self.clock && s.last_access <= self.clock
                            && s.listing.generation <= self.clock
                            && s.listing.loaded_at <= self.clock && s.listing.wf()
                    } by {
                        if k != i as int {
                            assert(self.sview()[k] == s0[k]);
                        }
                    }
                    assert(unique_paths(self.sview())) by {
                        assert forall|a: int, b: int|
                            0 <= a < b < self.sview().len() implies self.sview()[a].path
                            != self.sview()[b].path by {
                            assert(s0[a].path != s0[b].path);
                            assert(self.sview()[a].path == s0[a].path);
                            assert(self.sview()[b].path == s0[b].path);
                        }
                    }
                }
                true
            },
        }
    }

    /// Move the cursor of a cached listing; refused (false, no change) when
    /// the path is absent or the index is out of the listing's bounds.
    pub fn set_selected(&mut self, path: &Vec<u8>, sel: usize) -> (ok: bool)
        requires
            old(self).wf(),
        ensures
            final(self).wf(),
            final(self).capacity == old(self).capacity,
            final(self).clock == old(self).clock,
            ({
                let s0 = old(self).sview();
                let s1 = final(self).sview();
                if has_path(s0, path@) && (sel as int) < slot_at(s0, path@).listing.entries.len() {
                    let o = slot_at(s0, path@);
                    &&& ok
                    &&& s1 == s0.update(
                        idx_of(s0, path@),
                        (SlotView {
                            path: o.path,
                            listing: (ListingView {
                                entries: o.listing.entries,
                                generation: o.listing.generation,
                                status: o.listing.status,
                                loaded_at: o.listing.loaded_at,
                                selected_index: sel,
                            }),
                            load_gen: o.load_gen,
                            in_flight: o.in_flight,
                            last_access: o.last_access,
                        }),
                    )
                } else {
                    s1 == s0 && !ok
                }
            }),
    {
        let ghost s0 = self.sview();
        let found = self.find_slot(path);
        match found {
            None => {
                proof {
                    assert(self.sview() =~= s0);
                }
                false
            },
            Some(i) => {
                if sel >= self.slots[i].listing.entries.len() {
                    proof {
                        assert(self.sview() =~= s0);
                        assert(slot_at(s0, path@).listing.entries.len() == self.slots@[
                            i as int]@.listing.entries.len());
                    }
                    return false;
                }
                let ghost o = s0[i as int];
                let mut slot = self.slots.remove(i);
                slot.listing.selected_index = sel;
                let ghost nslot = slot@;
                self.slots.insert(i, slot);
                proof {
                    assert(self.slots@ =~= old(self).slots@.update(i as int, self.slots@[i as int]));
                    assert(self.sview() =~= s0.update(i as int, nslot));
                    assert forall|k: int| 0 <= k < self.sview().len() implies {
                        let s = #[trigger] self.sview()[k];
                        s.load_gen <= self.clock && s.last_access <= self.clock
                            && s.listing.generation <= self.clock
                            && s.listing.loaded_at <= self.clock && s.listing.wf()
                    } by {
                        if k != i as int {
                            assert(self.sview()[k] == s0[k]);
                        }
                    }
                    assert(unique_paths(self.sview())) by {
                        assert forall|a: int, b: int|
                            0 <= a < b < self.sview().len() implies self.sview()[a].path
                            != self.sview()[b].path by {
                            assert(s0[a].path != s0[b].path);
                            assert(self.sview()[a].path == s0[a].path);
                            assert(self.sview()[b].path == s0[b].path);
                        }
                    }
                }
                true
            },
        }
    }

    /// A read-only snapshot of the listing cached for `path`, if any.
    pub fn peek(&self, path: &Vec<u8>) -> (r: Option<Listing>)
        requires
            self.wf(),
        ensures
            match r {
                Some(l) => has_path(self.sview(), path@) && l@ == slot_at(
                    self.sview(),
                    path@,
                ).listing,
                None => !has_path(self.sview(), path@),
            },
    {
        match self.find_slot(path) {
            Some(i) => Some(self.slots[i].listing.clone()),
            None => None,
        }
    }
}

/// Whether `p` stands among the protected paths.
pub open spec fn prot_contains(prot: Seq<Vec<u8>>, p: Seq<u8>) -> bool {
    exists|k: int| 0 <= k < prot.len() && prot[k]@ == p
}

/// Whether the given path stands among the protected paths.
fn path_protected(protected: &Vec<Vec<u8>>, path: &Vec<u8>) -> (r: bool)
    ensures
        r == prot_contains(protected@, path@),
{
    let mut k: usize = 0;
    while k < protected.len()
        invariant
            k <= protected@.len(),
            forall|j: int| 0 <= j < k ==> protected@[j]@ != path@,
        decreases protected.len() - k,
    {
        if bytes_eq(&protected[k], path) {
            return true;
        }
        k = k + 1;
    }
    false
}

/// Removing one slot keeps the others, untouched and still unique.
proof fn lemma_remove_slot(s: Seq<SlotView>, i: int)
    requires
        unique_paths(s),
        0 <= i < s.len(),
    ensures
        unique_paths(s.remove(i)),
        !has_path(s.remove(i), s[i].path),
        forall|p: Seq<u8>|
            #[trigger] has_path(s.remove(i), p) ==> has_path(s, p) && slot_at(s.remove(i), p)
                == slot_at(s, p),
        forall|p: Seq<u8>|
            #[trigger] has_path(s, p) && p != s[i].path ==> has_path(s.remove(i), p),
{
    let t = s.remove(i);
    s.remove_ensures(i);
    assert(unique_paths(t)) by {
        assert forall|a: int, b: int| 0 <= a < b < t.len() implies t[a].path != t[b].path by {
            let a0: int = if a < i { a } else { a + 1 };
            let b0: int = if b < i { b } else { b + 1 };
            assert(t[a] == s[a0] && t[b] == s[b0]);
        }
    }
    assert(!has_path(t, s[i].path)) by {
        if has_path(t, s[i].path) {
            let k = idx_of(t, s[i].path);
            let k0: int = if k < i { k } else { k + 1 };
            assert(t[k] == s[k0]);
            assert(s[k0].path == s[i].path);
            assert(k0 != i);
        }
    }
    assert forall|p: Seq<u8>| #[trigger] has_path(t, p) implies has_path(s, p) && slot_at(t, p)
        == slot_at(s, p) by {
        let k = idx_of(t, p);
        assert(0 <= k < t.len() && t[k].path == p);
        let k0: int = if k < i { k } else { k + 1 };
        assert(t[k] == s[k0]);
        lemma_idx_unique(s, k0);
        lemma_idx_unique(t, k);
    }
    assert forall|p: Seq<u8>| #[trigger] has_path(s, p) && p != s[i].path implies has_path(
        t,
        p,
    ) by {
        let k0 = idx_of(s, p);
        assert(0 <= k0 < s.len() && s[k0].path == p);
        assert(k0 != i);
        let k: int = if k0 < i { k0 } else { k0 - 1 };
        assert(t[k] == s[k0]);
    }
}

impl DirCache {
    /// Apply the bounded LRU policy: while the cache is over capacity,
    /// evict the least recently used slot whose path is not protected (the
    /// displayed columns: current path and active ancestor chain). Kept
    /// slots are untouched; protected slots always survive; an evicted slot
    /// was accessed no later than any kept unprotected slot.
    pub fn evict_if_needed(&mut self, protected: &Vec<Vec<u8>>)
        requires
            old(self).wf(),
        ensures
            final(self).wf(),
            final(self).capacity == old(self).capacity,
            final(self).clock == old(self).clock,
            final(self).sview().len() <= old(self).sview().len(),
            old(self).sview().len() <= old(self).capacity ==> final(self).sview() == old(
                self,
            ).sview(),
            forall|p: Seq<u8>|
                #[trigger] has_path(final(self).sview(), p) ==> has_path(old(self).sview(), p)
                    && slot_at(final(self).sview(), p) == slot_at(old(self).sview(), p),
            forall|p: Seq<u8>|
                #[trigger] prot_contains(protected@, p) && has_path(old(self).sview(), p)
                    ==> has_path(final(self).sview(), p),
            final(self).sview().len() > final(self).capacity ==> forall|i: int|
                0 <= i < final(self).sview().len() ==> prot_contains(
                    protected@,
                    #[trigger] final(self).sview()[i].path,
                ),
            forall|p: Seq<u8>, q: Seq<u8>|
                #[trigger] has_path(old(self).sview(), p) && !has_path(final(self).sview(), p)
                    && #[trigger] has_path(final(self).sview(), q) && !prot_contains(
                    protected@,
                    q,
                ) ==> slot_at(old(self).sview(), p).last_access <= slot_at(
                    final(self).sview(),
                    q,
                ).last_access,
    {
        let ghost s0 = old(self).sview();
        loop
            invariant
                self.wf(),
                self.capacity == old(self).capacity,
                self.clock == old(self).clock,
                self.sview().len() <= s0.len(),
                s0 == old(self).sview(),
                s0.len() <= self.capacity ==> self.sview() == s0,
                forall|p: Seq<u8>|
                    #[trigger] has_path(self.sview(), p) ==> has_path(s0, p) && slot_at(
                        self.sview(),
                        p,
                    ) == slot_at(s0, p),
                forall|p: Seq<u8>|
                    #[trigger] prot_contains(protected@, p) && has_path(s0, p) ==> has_path(
                        self.sview(),
                        p,
                    ),
                forall|p: Seq<u8>, q: Seq<u8>|
                    #[trigger] has_path(s0, p) && !has_path(self.sview(), p)
                        && #[trigger] has_path(self.sview(), q) && !prot_contains(protected@, q)
                        ==> slot_at(s0, p).last_access <= slot_at(
                        self.sview(),
                        q,
                    ).last_access,
            decreases self.slots@.len(),
        {
            let ghost cur = self.sview();
            if self.slots.len() <= self.capacity {
                return ;
            }
            // find the least recently used unprotected slot
            let mut found = false;
            let mut best: usize = 0;
            let mut j: usize = 0;
            while j < self.slots.len()
                invariant
                    j <= self.slots@.len(),
                    cur == self.sview(),
                    cur.len() == self.slots@.len(),
                    forall|k: int| 0 <= k < cur.len() ==> cur[k] == self.slots@[k]@,
                    found ==> (best as int) < cur.len() && !prot_contains(
                        protected@,
                        cur[best as int].path,
                    ),
                    found ==> forall|k: int|
                        0 <= k < j && !prot_contains(protected@, (#[trigger] cur[k]).path)
                            ==> cur[best as int].last_access <= cur[k].last_access,
                    !found ==> forall|k: int|
                        0 <= k < j ==> prot_contains(protected@, (#[trigger] cur[k]).path),
                decreases self.slots@.len() - j,
            {
                if !path_protected(protected, &self.slots[j].path) {
                    if !found {
                        found = true;
                        best = j;
                    } else if self.slots[j].last_access < self.slots[best].last_access {
                        best = j;
                    }
                }
                j = j + 1;
            }
            if !found {
                // everything cached is on display; nothing can go
                return ;
            }
            let ghost victim = cur[best as int];
            let _ = self.slots.remove(best);
            proof {
                assert(self.sview() =~= cur.remove(best as int));
                lemma_remove_slot(cur, best as int);
                lemma_idx_unique(cur, best as int);
                assert forall|p: Seq<u8>|
                    #[trigger] has_path(s0, p) && !has_path(self.sview(), p) && p != victim.path
                        implies !has_path(cur, p) by {
                    if has_path(cur, p) {
                        assert(has_path(cur.remove(best as int), p));
                    }
                }
                assert forall|p: Seq<u8>, q: Seq<u8>|
                    #[trigger] has_path(s0, p) && !has_path(self.sview(), p)
                        && #[trigger] has_path(self.sview(), q) && !prot_contains(protected@, q)
                        implies slot_at(s0, p).last_access <= slot_at(
                        self.sview(),
                        q,
                    ).last_access by {
                    assert(has_path(cur, q) && slot_at(self.sview(), q) == slot_at(cur, q));
                    let kq = idx_of(cur, q);
                    assert(0 <= kq < cur.len() && cur[kq].path == q);
                    assert(!prot_contains(protected@, cur[kq].path));
                    assert(victim.last_access <= cur[kq].last_access);
                    if p == victim.path {
                        assert(slot_at(s0, p) == slot_at(cur, p));
                        assert(idx_of(cur, victim.path) == best as int);
                        assert(slot_at(cur, p).last_access == victim.last_access);
                    } else {
                        assert(!has_path(cur, p));
                    }
                }
            }
        }
    }
}

/// Generation fencing, stated once and for all interleavings: when loads A
/// and B for one path were dispatched with A's token strictly below B's,
/// then from the moment B is dispatched A can never be applied — before
/// B's own result lands, and equally after it has: the slot reflects B's
/// outcome, never A's.
pub proof fn lemma_generation_fencing(
    o: SlotView,
    token_a: u64,
    token_b: u64,
    outcome_a: OutcomeView,
    outcome_b: OutcomeView,
    now: u64,
)
    requires
        token_a < token_b,
        token_b <= o.load_gen,
    ensures
        !slot_applies(o, token_a),
        !slot_applies(applied_slot(o, outcome_b, now), token_a),
        applied_slot(o, outcome_b, now).load_gen == o.load_gen,
{
}

/// Deduplication of concurrent loads: while a load for a path is
/// outstanding, a lookup dispatches nothing and leaves the load
/// outstanding; so however many lookups of that path arrive while it is
/// Loading, only the one load that first created the slot is ever
/// dispatched.
pub proof fn lemma_single_flight(s: Seq<SlotView>, p: Seq<u8>, now: u64)
    requires
        unique_paths(s),
        has_path(s, p),
        slot_at(s, p).in_flight,
    ensures
        !get_dispatches(s, p),
        ({
            let i = idx_of(s, p);
            let s1 = s.update(i, touched(slot_at(s, p), now));
            &&& has_path(s1, p)
            &&& slot_at(s1, p).in_flight
            &&& slot_at(s1, p).load_gen == slot_at(s, p).load_gen
            &&& !get_dispatches(s1, p)
        }),
{
    let i = idx_of(s, p);
    assert(0 <= i < s.len() && s[i].path == p);
    let s1 = s.update(i, touched(s[i], now));
    assert(s1[i].path == p);
    assert(has_path(s1, p));
    assert(unique_paths(s1)) by {
        assert forall|a: int, b: int| 0 <= a < b < s1.len() implies s1[a].path != s1[b].path by {
            assert(s1[a].path == s[a].path);
            assert(s1[b].path == s[b].path);
        }
    }
    lemma_idx_unique(s1, i);
}

} // verus!
