//! The navigation controller: the ordered column stack (ancestor chain,
//! current directory, preview), the four navigation operations, the two
//! view toggles, and the render-ready snapshot. Columns never own
//! filesystem data; they index into the cache by path.

use vstd::prelude::*;
use crate::cache::{
    DirCache, LoadJob, SlotView, has_path, slot_at, idx_of, unique_paths,
};
use crate::entry::{DirectoryEntry, EntryKind, entry_views, clone_bytes};
use crate::listing::{ListingView, Status, visible_views, visible_entries};
use crate::path::{
    valid_path, parent_of, root_path, parent_path, child_path, is_root, name_ok,
};

verus! {

/// The role of one pane in the miller-columns layout.
#[derive(Clone, Copy, PartialEq, Eq, Structural, Debug)]
pub enum Role {
    Ancestor,
    Current,
    Preview,
}

/// One visual pane: the path it displays and its role. The listing it
/// renders lives in the cache, keyed by this path.
pub struct Column {
    pub path: Vec<u8>,
    pub role: Role,
}

/// Mathematical value of a `Column`.
pub ghost struct ColumnView {
    pub path: Seq<u8>,
    pub role: Role,
}

impl View for Column {
    type V = ColumnView;

    open spec fn view(&self) -> ColumnView {
        ColumnView { path: self.path@, role: self.role }
    }
}

/// The views of a sequence of columns.
pub open spec fn col_views(s: Seq<Column>) -> Seq<ColumnView> {
    s.map_values(|c: Column| c@)
}

/// Index of the Current column: the last column, or the one before a
/// trailing Preview.
pub open spec fn cur_index(c: Seq<ColumnView>) -> int {
    if c.len() >= 2 && c[c.len() - 1].role is Preview {
        c.len() - 2
    } else {
        c.len() - 1
    }
}

/// Structure of the column stack: exactly one Current column showing the
/// focused path; before it a contiguous, gap-free ancestor chain, each
/// column the parent of the next, outermost first; after it at most one
/// Preview column showing a child of the focused path.
pub open spec fn columns_wf(c: Seq<ColumnView>, focused: Seq<u8>) -> bool {
    let cur = cur_index(c);
    &&& c.len() >= 1
    &&& 0 <= cur < c.len()
    &&& c[cur].role is Current
    &&& c[cur].path == focused
    &&& forall|k: int|
        0 <= k < cur ==> (#[trigger] c[k]).role is Ancestor && valid_path(c[k].path) && c[k].path
            == parent_of(c[k + 1].path)
    &&& (cur < c.len() - 1 ==> c[c.len() - 1].role is Preview && valid_path(c[c.len() - 1].path)
        && parent_of(c[c.len() - 1].path) == focused)
}

/// What `enter` decided.
pub enum EnterOutcome {
    /// The selection was a directory; the focus moved into it.
    Entered,
    /// The selection was not a directory; the path is handed out for an
    /// external opener.
    OpenFile(Vec<u8>),
    /// Navigation was refused: the target listing is Failed, or the entry
    /// name cannot form a path.
    Refused,
    /// Nothing to enter: no listing or no entries yet.
    NotReady,
}

/// A render-ready view of one column.
pub struct ColumnSnapshot {
    pub path: Vec<u8>,
    pub role: Role,
    pub status: Status,
    /// The entries to draw: hidden names filtered out unless shown, order
    /// reversed when the reversed toggle is set.
    pub entries: Vec<DirectoryEntry>,
    /// Name of the selected entry of the underlying listing, when any.
    pub selected_name: Option<Vec<u8>>,
    /// Generation of the underlying listing.
    pub generation: u64,
}

/// The rendered order of a listing's visible entries.
pub open spec fn rendered_views(
    entries: Seq<crate::entry::EntryView>,
    show_hidden: bool,
    reversed: bool,
) -> Seq<crate::entry::EntryView> {
    if reversed {
        visible_views(entries, show_hidden).reverse()
    } else {
        visible_views(entries, show_hidden)
    }
}

/// Entries in reverse order.
fn reverse_entries(v: Vec<DirectoryEntry>) -> (r: Vec<DirectoryEntry>)
    ensures
        entry_views(r@) == entry_views(v@).reverse(),
{
    let mut r: Vec<DirectoryEntry> = Vec::new();
    let mut i: usize = v.len();
    while i > 0
        invariant
            i <= v@.len(),
            r@.len() == v@.len() - i,
            forall|k: int| 0 <= k < r@.len() ==> r@[k]@ == v@[v@.len() - 1 - k]@,
        decreases i,
    {
        i = i - 1;
        r.push(v[i].clone());
    }
    proof {
        assert(entry_views(r@) =~= entry_views(v@).reverse());
    }
    r
}

/// The slots of `s1` keep the paths and listings of `s0` (new slots may
/// follow; coordination fields may move).
pub open spec fn listings_preserved(s0: Seq<SlotView>, s1: Seq<SlotView>) -> bool {
    &&& s1.len() >= s0.len()
    &&& forall|k: int|
        0 <= k < s0.len() ==> (#[trigger] s1[k]).path == s0[k].path && s1[k].listing
            == s0[k].listing
}

/// Pointwise preservation carries over to lookup by path.
pub proof fn lemma_listings_preserved_at(s0: Seq<SlotView>, s1: Seq<SlotView>, p: Seq<u8>)
    requires
        unique_paths(s0),
        unique_paths(s1),
        listings_preserved(s0, s1),
        has_path(s0, p),
    ensures
        has_path(s1, p),
        slot_at(s1, p).listing == slot_at(s0, p).listing,
{
    let k = idx_of(s0, p);
    assert(0 <= k < s0.len() && s0[k].path == p);
    assert(s1[k].path == p);
    crate::cache::lemma_idx_unique(s1, k);
    crate::cache::lemma_idx_unique(s0, k);
}

/// One cache lookup preserves every cached listing: it only appends a fresh
/// slot or moves one slot's coordination fields.
pub proof fn lemma_get_preserves(s0: Seq<SlotView>, s1: Seq<SlotView>, p: Seq<u8>, now: u64)
    requires
        ({
            ||| s1 == s0.push(crate::cache::fresh_slot(p, now))
            ||| (has_path(s0, p) && 0 <= idx_of(s0, p) < s0.len() && (s1 == s0.update(
                idx_of(s0, p),
                crate::cache::touched(slot_at(s0, p), now),
            ) || s1 == s0.update(
                idx_of(s0, p),
                crate::cache::redispatched(slot_at(s0, p), now),
            )))
        }),
    ensures
        listings_preserved(s0, s1),
{
}

/// Preservation composes.
pub proof fn lemma_listings_preserved_trans(a: Seq<SlotView>, b: Seq<SlotView>, c: Seq<SlotView>)
    requires
        listings_preserved(a, b),
        listings_preserved(b, c),
    ensures
        listings_preserved(a, c),
{
}

/// The token a dispatched load for `p` would carry: the next generation of
/// its slot, or the first generation when the path is not cached yet.
pub open spec fn dispatch_token(s: Seq<SlotView>, p: Seq<u8>) -> u64 {
    if has_path(s, p) {
        (slot_at(s, p).load_gen + 1) as u64
    } else {
        1u64
    }
}

/// A job for `p` carrying token `t` stands among the returned jobs.
pub open spec fn has_job(jobs: Seq<LoadJob>, p: Seq<u8>, t: u64) -> bool {
    exists|k: int| 0 <= k < jobs.len() && jobs[k]@.path == p && jobs[k]@.token == t
}

/// Some column displays this path.
pub open spec fn displayed(c: Seq<ColumnView>, p: Seq<u8>) -> bool {
    exists|k: int| 0 <= k < c.len() && c[k].path == p
}

/// A cache step that neither renames existing slots, changes the slot of
/// `p`, nor appends a slot for `p`, leaves `p`'s slot exactly as it was —
/// present or absent.
pub proof fn lemma_other_slot_unchanged(s0: Seq<SlotView>, s1: Seq<SlotView>, p: Seq<u8>)
    requires
        unique_paths(s0),
        unique_paths(s1),
        s1.len() >= s0.len(),
        forall|k: int| 0 <= k < s0.len() ==> (#[trigger] s1[k]).path == s0[k].path,
        forall|k: int| 0 <= k < s0.len() ==> (#[trigger] s0[k]).path == p ==> s1[k] == s0[k],
        forall|k: int| s0.len() <= k < s1.len() ==> (#[trigger] s1[k]).path != p,
    ensures
        has_path(s1, p) == has_path(s0, p),
        has_path(s0, p) ==> slot_at(s1, p) == slot_at(s0, p),
{
    if has_path(s0, p) {
        let k = idx_of(s0, p);
        assert(0 <= k < s0.len() && s0[k].path == p);
        assert(s1[k] == s0[k]);
        crate::cache::lemma_idx_unique(s1, k);
        crate::cache::lemma_idx_unique(s0, k);
    } else {
        if has_path(s1, p) {
            let k = idx_of(s1, p);
            assert(0 <= k < s1.len() && s1[k].path == p);
            if k < s0.len() {
                assert(s0[k].path == p);
            }
        }
    }
}

/// One `get_or_load` of `q` leaves the slot of any other path exactly as
/// it was.
pub proof fn lemma_get_preserves_other(
    s0: Seq<SlotView>,
    s1: Seq<SlotView>,
    q: Seq<u8>,
    p: Seq<u8>,
    now: u64,
)
    requires
        unique_paths(s0),
        unique_paths(s1),
        q != p,
        ({
            ||| s1 == s0.push(crate::cache::fresh_slot(q, now))
            ||| (has_path(s0, q) && 0 <= idx_of(s0, q) < s0.len() && (s1 == s0.update(
                idx_of(s0, q),
                crate::cache::touched(slot_at(s0, q), now),
            ) || s1 == s0.update(
                idx_of(s0, q),
                crate::cache::redispatched(slot_at(s0, q), now),
            )))
        }),
    ensures
        has_path(s1, p) == has_path(s0, p),
        has_path(s0, p) ==> slot_at(s1, p) == slot_at(s0, p),
        crate::cache::get_dispatches(s1, p) == crate::cache::get_dispatches(s0, p),
        dispatch_token(s1, p) == dispatch_token(s0, p),
{
    if s1 == s0.push(crate::cache::fresh_slot(q, now)) {
        lemma_other_slot_unchanged(s0, s1, p);
    } else {
        let i = idx_of(s0, q);
        assert(s0[i].path == q);
        assert forall|k: int| 0 <= k < s0.len() && (#[trigger] s0[k]).path == p implies s1[k]
            == s0[k] by {
            assert(k != i);
        }
        lemma_other_slot_unchanged(s0, s1, p);
    }
}

/// Whether rebuilding the stack for `path` ends in a Preview pane, and for
/// which child: a preview appears exactly when the listing cached for
/// `path` has entries and the selected one is a directory whose name can
/// form a path.
pub open spec fn preview_choice(s: Seq<SlotView>, path: Seq<u8>) -> Option<Seq<u8>> {
    if has_path(s, path) && slot_at(s, path).listing.entries.len() > 0 {
        let l = slot_at(s, path).listing;
        let e = l.entries[l.selected_index as int];
        if e.kind == EntryKind::Directory && crate::path::valid_name(e.name) {
            Option::Some(crate::path::child_of(path, e.name))
        } else {
            Option::None
        }
    } else {
        Option::None
    }
}

/// Appending a job keeps every job already present.
proof fn lemma_has_job_push(jobs: Seq<LoadJob>, j: LoadJob, p: Seq<u8>, t: u64)
    requires
        has_job(jobs, p, t),
    ensures
        has_job(jobs.push(j), p, t),
{
    let k = choose|k: int| 0 <= k < jobs.len() && jobs[k]@.path == p && jobs[k]@.token == t;
    assert(jobs.push(j)[k] == jobs[k]);
}

/// A column stack assembled from an ancestor chain (innermost parent
/// first), a Current pane, and an optional Preview pane is well formed,
/// puts the Current pane right after the ancestors, and ends as promised.
#[verifier::rlimit(60)]
proof fn lemma_stack_shape(
    c: Seq<ColumnView>,
    chainv: Seq<Seq<u8>>,
    path: Seq<u8>,
    preview: Option<Seq<u8>>,
)
    requires
        valid_path(path),
        forall|k: int| 0 <= k < chainv.len() ==> valid_path(#[trigger] chainv[k]),
        forall|k: int| 0 < k < chainv.len() ==> #[trigger] chainv[k] == parent_of(chainv[k - 1]),
        chainv.len() > 0 ==> chainv[0] == parent_of(path),
        ({
            let cn = chainv.len() as int;
            &&& (match preview {
                Option::Some(child) => c.len() == cn + 2 && c[cn + 1].role is Preview && c[cn
                    + 1].path == child && valid_path(child) && parent_of(child) == path,
                Option::None => c.len() == cn + 1,
            })
            &&& forall|k: int|
                0 <= k < cn ==> (#[trigger] c[k]).role is Ancestor && c[k].path == chainv[cn - 1
                    - k]
            &&& c[cn].role is Current
            &&& c[cn].path == path
        }),
    ensures
        columns_wf(c, path),
        cur_index(c) == chainv.len() as int,
        (match preview {
            Option::Some(child) => c[c.len() - 1].role is Preview && c[c.len() - 1].path == child,
            Option::None => cur_index(c) == c.len() - 1,
        }),
        chainv.len() > 0 ==> c[0].path == chainv[chainv.len() - 1],
        chainv.len() == 0 ==> c[0].path == path,
{
    let cn = chainv.len() as int;
    assert(cur_index(c) == cn) by {
        match preview {
            Option::Some(_) => {
                assert(c[c.len() - 1].role is Preview);
            },
            Option::None => {
                assert(c[c.len() - 1].role is Current);
            },
        }
    }
    assert(columns_wf(c, path)) by {
        assert forall|k: int| 0 <= k < cn implies (#[trigger] c[k]).role is Ancestor && valid_path(
            c[k].path,
        ) && c[k].path == parent_of(c[k + 1].path) by {
            assert(c[k].path == chainv[cn - 1 - k]);
            if k + 1 < cn {
                assert(c[k + 1].path == chainv[cn - 1 - (k + 1)]);
                assert(chainv[cn - 2 - k] == parent_of(chainv[cn - 2 - k - 1]) || cn - 2 - k == 0);
            } else {
                assert(c[k + 1].path == path);
                assert(chainv[0] == parent_of(path));
            }
        }
    }
    if cn > 0 {
        assert(c[0].path == chainv[cn - 1]);
    }
}

/// The navigation controller's whole state: the cache it owns, the column
/// stack, the focused path, and the two view toggles.
pub struct NavEngine {
    pub cache: DirCache,
    pub columns: Vec<Column>,
    pub focused: Vec<u8>,
    pub show_hidden: bool,
    pub sort_reversed: bool,
    /// How many ancestor columns are rebuilt at most.
    pub depth_limit: usize,
}

impl NavEngine {
    /// The views of the column stack.
    pub open spec fn cols(self) -> Seq<ColumnView> {
        col_views(self.columns@)
    }

    /// Well-formed engine: well-formed cache, valid focused path, and a
    /// well-structured column stack.
    pub open spec fn wf(self) -> bool {
        &&& self.cache.wf()
        &&& valid_path(self.focused@)
        &&& columns_wf(self.cols(), self.focused@)
    }

    /// Clock headroom for one navigation operation, which dispatches at
    /// most one lookup per rebuilt column.
    pub open spec fn room(self) -> bool {
        self.cache.clock as int + self.depth_limit as int + 3 <= u64::MAX as int
    }

    /// Whether the logical clock has headroom for one more operation.
    pub fn has_room(&self) -> (r: bool)
        ensures
            r == self.room(),
    {
        (self.cache.clock as u128) + (self.depth_limit as u128) + 3 <= (u64::MAX as u128)
    }

    /// Rebuild the column stack for `path` and return the loads to run.
    /// Never called when the target listing is known Failed.
    #[verifier::rlimit(100)]
    fn rebuild(&mut self, path: &Vec<u8>) -> (jobs: Vec<LoadJob>)
        requires
            old(self).cache.wf(),
            valid_path(path@),
            old(self).room(),
        ensures
            final(self).wf(),
            final(self).focused@ == path@,
            final(self).show_hidden == old(self).show_hidden,
            final(self).sort_reversed == old(self).sort_reversed,
            final(self).depth_limit == old(self).depth_limit,
            final(self).cache.capacity == old(self).cache.capacity,
            final(self).cache.clock as int <= old(self).cache.clock as int + old(
                self,
            ).depth_limit as int + 2,
            listings_preserved(old(self).cache.sview(), final(self).cache.sview()),
            has_path(final(self).cache.sview(), path@),
            crate::cache::get_dispatches(old(self).cache.sview(), path@) ==> has_job(
                jobs@,
                path@,
                dispatch_token(old(self).cache.sview(), path@),
            ),
            cur_index(final(self).cols()) == old(self).depth_limit as int
                || final(self).cols()[0].path == root_path(),
            ({
                let c = final(self).cols();
                match preview_choice(old(self).cache.sview(), path@) {
                    Option::Some(child) => c[c.len() - 1].role is Preview && c[c.len() - 1].path
                        == child,
                    Option::None => cur_index(c) == c.len() - 1,
                }
            }),
            !has_path(old(self).cache.sview(), path@) ==> ({
                let l = slot_at(final(self).cache.sview(), path@).listing;
                l.status is Loading && l.entries.len() == 0 && l.generation == 0
            }),
    {
        let ghost s_start = self.cache.sview();
        // ancestor chain, innermost parent first
        let mut chain: Vec<Vec<u8>> = Vec::new();
        let mut p = clone_bytes(path);
        while chain.len() < self.depth_limit && p.len() > 1
            invariant
                valid_path(p@),
                chain@.len() <= self.depth_limit,
                p@.len() <= path@.len(),
                forall|k: int| 0 <= k < chain@.len() ==> (#[trigger] chain@[k])@.len() < path@.len(),
                chain@.len() > 0 ==> chain@[0]@ == parent_of(path@),
                chain@.len() > 0 ==> p@ == chain@[chain@.len() - 1]@,
                chain@.len() == 0 ==> p@ == path@,
                forall|k: int| 0 <= k < chain@.len() ==> valid_path((#[trigger] chain@[k])@),
                forall|k: int|
                    0 < k < chain@.len() ==> (#[trigger] chain@[k])@ == parent_of(chain@[k - 1]@),
            decreases p@.len(),
        {
            proof {
                crate::path::lemma_parent_shorter(p@);
            }
            let q = parent_path(&p);
            chain.push(clone_bytes(&q));
            p = q;
        }
        proof {
            // the chain stopped at the depth limit or at the root
            if chain@.len() < self.depth_limit {
                assert(p@.len() <= 1);
                assert(p@ =~= root_path());
            }
        }
        let ghost chain_full = chain@.len() == self.depth_limit;
        let ghost chain_root = p@ == root_path();
        // columns: ancestors outermost first, then the current pane
        let mut cols: Vec<Column> = Vec::new();
        let mut jobs: Vec<LoadJob> = Vec::new();
        let mut i: usize = chain.len();
        while i > 0
            invariant
                i <= chain@.len(),
                self.cache.wf(),
                self.cache.capacity == old(self).cache.capacity,
                self.cache.clock as int <= old(self).cache.clock as int + (chain@.len() - i),
                chain@.len() <= old(self).depth_limit,
                listings_preserved(s_start, self.cache.sview()),
                s_start == old(self).cache.sview(),
                old(self).room(),
                self.show_hidden == old(self).show_hidden,
                self.sort_reversed == old(self).sort_reversed,
                self.depth_limit == old(self).depth_limit,
                self.focused@ == old(self).focused@,
                cols@.len() == chain@.len() - i,
                forall|k: int| 0 <= k < chain@.len() ==> valid_path((#[trigger] chain@[k])@),
                forall|k: int|
                    0 < k < chain@.len() ==> (#[trigger] chain@[k])@ == parent_of(chain@[k - 1]@),
                forall|k: int|
                    0 <= k < cols@.len() ==> (#[trigger] cols@[k])@.role is Ancestor
                        && cols@[k]@.path == chain@[chain@.len() - 1 - k]@,
                forall|k: int| 0 <= k < chain@.len() ==> (#[trigger] chain@[k])@.len() < path@.len(),
                has_path(self.cache.sview(), path@) == has_path(s_start, path@),
                has_path(s_start, path@) ==> slot_at(self.cache.sview(), path@) == slot_at(
                    s_start,
                    path@,
                ),
            decreases i,
        {
            i = i - 1;
            let ghost prev = self.cache.sview();
            let (_, job) = self.cache.get_or_load(&chain[i]);
            if let Some(j) = job {
                jobs.push(j);
            }
            cols.push(Column { path: clone_bytes(&chain[i]), role: Role::Ancestor });
            proof {
                lemma_get_preserves(prev, self.cache.sview(), chain@[i as int]@, self.cache.clock);
                lemma_listings_preserved_trans(s_start, prev, self.cache.sview());
                // an ancestor is strictly shorter, so it never touches the
                // target path's slot
                assert(chain@[i as int]@.len() < path@.len());
                assert(chain@[i as int]@ != path@);
                lemma_get_preserves_other(
                    prev,
                    self.cache.sview(),
                    chain@[i as int]@,
                    path@,
                    self.cache.clock,
                );
            }
        }
        let ghost s_mid = self.cache.sview();
        let (listing, job) = self.cache.get_or_load(path);
        let ghost s_target = self.cache.sview();
        proof {
            lemma_get_preserves(s_mid, self.cache.sview(), path@, self.cache.clock);
            lemma_listings_preserved_trans(s_start, s_mid, self.cache.sview());
            if has_path(s_mid, path@) {
                let k = idx_of(s_mid, path@);
                assert(self.cache.sview()[k].path == path@);
            } else {
                assert(self.cache.sview().last().path == path@);
                crate::cache::lemma_idx_unique(s_target, s_target.len() - 1);
                assert(slot_at(s_target, path@) == crate::cache::fresh_slot(
                    path@,
                    self.cache.clock,
                ));
            }
            assert(has_path(self.cache.sview(), path@));
            // the target's slot is the one the caller saw, so whether a job
            // was dispatched, and under which token, is decided by it
            assert(crate::cache::get_dispatches(s_mid, path@) == crate::cache::get_dispatches(
                s_start,
                path@,
            ));
            assert(dispatch_token(s_mid, path@) == dispatch_token(s_start, path@));
        }
        if let Some(j) = job {
            proof {
                assert(j@.path == path@ && j@.token == dispatch_token(s_start, path@));
            }
            jobs.push(j);
        }
        let ghost jobs_with_target = jobs@;
        proof {
            if crate::cache::get_dispatches(s_start, path@) {
                assert(jobs@[jobs@.len() - 1]@.path == path@);
                assert(has_job(jobs@, path@, dispatch_token(s_start, path@)));
            }
        }
        cols.push(Column { path: clone_bytes(path), role: Role::Current });
        proof {
            // the listing the preview decision reads is the one the caller
            // could see in the cache, or a fresh empty one
            if has_path(s_start, path@) {
                assert(listing@ == slot_at(s_start, path@).listing);
            } else {
                assert(listing@.entries.len() == 0);
            }
        }
        // eagerly preview a selected directory
        let ghost mut preview_pushed: Option<Seq<u8>> = Option::None;
        if listing.entries.len() > 0 {
            proof {
                let i = crate::cache::idx_of(self.cache.sview(), path@);
                assert(0 <= i < self.cache.sview().len() && self.cache.sview()[i].path == path@);
                assert(self.cache.sview()[i].listing.wf());
            }
            let sel = listing.selected_index;
            let e = &listing.entries[sel];
            if matches!(e.kind, EntryKind::Directory) && name_ok(&e.name) {
                proof {
                    crate::path::lemma_child_parent(path@, e.name@);
                }
                let child = child_path(path, &e.name);
                let ghost childv = child@;
                proof {
                    assert(childv.len() > path@.len());
                    assert(childv != path@);
                    assert(preview_choice(s_start, path@) == Option::Some(childv));
                    preview_pushed = Option::Some(childv);
                }
                let ghost s_pre = self.cache.sview();
                let (_, pjob) = self.cache.get_or_load(&child);
                proof {
                    lemma_get_preserves(s_pre, self.cache.sview(), child@, self.cache.clock);
                    lemma_listings_preserved_trans(s_start, s_pre, self.cache.sview());
                    lemma_get_preserves_other(
                        s_pre,
                        self.cache.sview(),
                        childv,
                        path@,
                        self.cache.clock,
                    );
                }
                if let Some(j) = pjob {
                    proof {
                        if crate::cache::get_dispatches(s_start, path@) {
                            lemma_has_job_push(
                                jobs_with_target,
                                j,
                                path@,
                                dispatch_token(s_start, path@),
                            );
                        }
                    }
                    jobs.push(j);
                }
                cols.push(Column { path: child, role: Role::Preview });
            }
        }
        proof {
            if preview_pushed is None {
                assert(preview_choice(s_start, path@) is None);
            }
        }
        self.columns = cols;
        self.focused = clone_bytes(path);
        proof {
            let c = self.cols();
            let cn = chain@.len() as int;
            let chainv = chain@.map_values(|v: Vec<u8>| v@);
            assert(forall|k: int| 0 <= k < cn ==> #[trigger] chainv[k] == chain@[k]@);
            assert(preview_pushed == preview_choice(s_start, path@));
            lemma_stack_shape(c, chainv, path@, preview_pushed);
            // the chain ran to the depth limit or up to the root
            assert(cur_index(c) == old(self).depth_limit as int || c[0].path == root_path()) by {
                if !chain_full {
                    assert(chain_root);
                    if cn > 0 {
                        assert(c[0].path == chainv[cn - 1]);
                        assert(chain@[cn - 1]@ == p@);
                    } else {
                        assert(p@ == path@);
                    }
                }
            }
            // a path seen for the first time is cached Loading and empty
            if !has_path(s_start, path@) {
                match preview_pushed {
                    Option::Some(child) => {
                        assert(slot_at(self.cache.sview(), path@) == slot_at(s_target, path@));
                    },
                    Option::None => {
                        assert(self.cache.sview() == s_target);
                    },
                }
            }
        }
        jobs
    }

    /// A fresh engine focused on `start`, with its ancestor chain and
    /// preview requested, and the loads it wants returned beside it.
    pub fn new(
        start: &Vec<u8>,
        show_hidden: bool,
        cache_capacity: usize,
        depth_limit: usize,
    ) -> (r: (NavEngine, Vec<LoadJob>))
        requires
            valid_path(start@),
            depth_limit as int + 3 <= u64::MAX as int,
        ensures
            r.0.wf(),
            r.0.focused@ == start@,
            r.0.show_hidden == show_hidden,
            !r.0.sort_reversed,
            r.0.depth_limit == depth_limit,
            r.0.cache.capacity == cache_capacity,
            has_job(r.1@, start@, 1u64),
            has_path(r.0.cache.sview(), start@),
            ({
                let l = slot_at(r.0.cache.sview(), start@).listing;
                l.status is Loading && l.entries.len() == 0 && l.generation == 0
            }),
            cur_index(r.0.cols()) == depth_limit as int || r.0.cols()[0].path == root_path(),
    {
        let mut engine = NavEngine {
            cache: DirCache::new(cache_capacity),
            columns: Vec::new(),
            focused: clone_bytes(start),
            show_hidden,
            sort_reversed: false,
            depth_limit,
        };
        proof {
            assert(!has_path(engine.cache.sview(), start@));
            assert(crate::cache::get_dispatches(engine.cache.sview(), start@));
            assert(dispatch_token(engine.cache.sview(), start@) == 1u64);
        }
        let jobs = engine.rebuild(start);
        (engine, jobs)
    }

    /// Move the focus to `path`: rebuild the ancestor chain and current
    /// column through the cache, and preview a selected child directory.
    /// Refused — nothing changes — when the target's cached listing is
    /// Failed; the failure stays surfaced in its own column.
    #[verifier::rlimit(60)]
    pub fn focus(&mut self, path: &Vec<u8>) -> (r: (bool, Vec<LoadJob>))
        requires
            old(self).wf(),
            valid_path(path@),
            old(self).room(),
        ensures
            final(self).wf(),
            final(self).show_hidden == old(self).show_hidden,
            final(self).sort_reversed == old(self).sort_reversed,
            final(self).depth_limit == old(self).depth_limit,
            final(self).cache.capacity == old(self).cache.capacity,
            listings_preserved(old(self).cache.sview(), final(self).cache.sview()),
            ({
                let s0 = old(self).cache.sview();
                if has_path(s0, path@) && slot_at(s0, path@).listing.status is Failed {
                    &&& !r.0
                    &&& *final(self) == *old(self)
                } else {
                    &&& r.0
                    &&& final(self).focused@ == path@
                    &&& has_path(final(self).cache.sview(), path@)
                    &&& (crate::cache::get_dispatches(s0, path@) ==> has_job(
                        r.1@,
                        path@,
                        dispatch_token(s0, path@),
                    ))
                    &&& (cur_index(final(self).cols()) == old(self).depth_limit as int
                        || final(self).cols()[0].path == root_path())
                    &&& (match preview_choice(s0, path@) {
                        Option::Some(child) => final(self).cols()[final(self).cols().len()
                            - 1].role is Preview && final(self).cols()[final(self).cols().len()
                            - 1].path == child,
                        Option::None => cur_index(final(self).cols())
                            == final(self).cols().len() - 1,
                    })
                    &&& (!has_path(s0, path@) ==> ({
                        let l = slot_at(final(self).cache.sview(), path@).listing;
                        l.status is Loading && l.entries.len() == 0 && l.generation == 0
                    }))
                }
            }),
    {
        let refused = match self.cache.peek(path) {
            Some(l) => matches!(l.status, Status::Failed(_)),
            None => false,
        };
        if refused {
            return (false, Vec::new());
        }
        let jobs = self.rebuild(path);
        (true, jobs)
    }

    /// Move the focus to the parent directory; at the root nothing happens.
    /// The parent's previously recorded selection is restored with its
    /// cached listing.
    #[verifier::rlimit(60)]
    pub fn up(&mut self) -> (r: (bool, Vec<LoadJob>))
        requires
            old(self).wf(),
            old(self).room(),
        ensures
            final(self).wf(),
            final(self).show_hidden == old(self).show_hidden,
            final(self).sort_reversed == old(self).sort_reversed,
            final(self).depth_limit == old(self).depth_limit,
            final(self).cache.capacity == old(self).cache.capacity,
            listings_preserved(old(self).cache.sview(), final(self).cache.sview()),
            old(self).focused@ == root_path() ==> *final(self) == *old(self) && !r.0,
            r.0 ==> final(self).focused@ == parent_of(old(self).focused@),
            old(self).focused@ != root_path() ==> ({
                let parent = parent_of(old(self).focused@);
                let s0 = old(self).cache.sview();
                if has_path(s0, parent) && slot_at(s0, parent).listing.status is Failed {
                    &&& !r.0
                    &&& *final(self) == *old(self)
                } else {
                    &&& r.0
                    &&& final(self).focused@ == parent
                    &&& (crate::cache::get_dispatches(s0, parent) ==> has_job(
                        r.1@,
                        parent,
                        dispatch_token(s0, parent),
                    ))
                }
            }),
    {
        if is_root(&self.focused) {
            return (false, Vec::new());
        }
        proof {
            if self.focused@.len() == 1 {
                assert(self.focused@ =~= root_path());
            }
        }
        let parent = parent_path(&clone_bytes(&self.focused));
        proof {
            crate::path::lemma_parent_shorter(self.focused@);
        }
        let r = self.focus(&parent);
        r
    }

    /// Clamp of a cursor moved by `delta` within `len` entries.
    pub open spec fn moved_sel(sel: int, delta: int, len: int) -> int {
        let raw = sel + delta;
        if raw < 0 {
            0
        } else if raw >= len {
            len - 1
        } else {
            raw
        }
    }

    /// Move the cursor of the current listing by `delta`, clamped to its
    /// bounds, and re-derive the preview column for the newly selected
    /// entry. The previous preview's listing stays cached, just no longer
    /// displayed.
    #[verifier::rlimit(100)]
    pub fn move_selection(&mut self, delta: i64) -> (jobs: Vec<LoadJob>)
        requires
            old(self).wf(),
            old(self).room(),
        ensures
            final(self).wf(),
            final(self).focused@ == old(self).focused@,
            final(self).show_hidden == old(self).show_hidden,
            final(self).sort_reversed == old(self).sort_reversed,
            final(self).depth_limit == old(self).depth_limit,
            final(self).cache.capacity == old(self).cache.capacity,
            ({
                let s0 = old(self).cache.sview();
                let s1 = final(self).cache.sview();
                let p = old(self).focused@;
                if has_path(s0, p) && slot_at(s0, p).listing.entries.len() > 0 {
                    let l = slot_at(s0, p).listing;
                    &&& has_path(s1, p)
                    &&& slot_at(s1, p).listing.selected_index as int == Self::moved_sel(
                        l.selected_index as int,
                        delta as int,
                        l.entries.len() as int,
                    )
                    &&& slot_at(s1, p).listing.entries == l.entries
                    &&& slot_at(s1, p).listing.status == l.status
                    &&& slot_at(s1, p).listing.generation == l.generation
                } else {
                    s1 == s0
                }
            }),
            ({
                let s0 = old(self).cache.sview();
                let p = old(self).focused@;
                let c1 = final(self).cols();
                if has_path(s0, p) && slot_at(s0, p).listing.entries.len() > 0 {
                    let l = slot_at(s0, p).listing;
                    let e = l.entries[Self::moved_sel(
                        l.selected_index as int,
                        delta as int,
                        l.entries.len() as int,
                    )];
                    if e.kind == EntryKind::Directory && crate::path::valid_name(e.name) {
                        let child = crate::path::child_of(p, e.name);
                        &&& c1[c1.len() - 1].role is Preview
                        &&& c1[c1.len() - 1].path == child
                        &&& (crate::cache::get_dispatches(s0, child) ==> has_job(
                            jobs@,
                            child,
                            dispatch_token(s0, child),
                        ))
                    } else {
                        cur_index(c1) == c1.len() - 1
                    }
                } else {
                    c1 == old(self).cols()
                }
            }),
    {
        let ghost s0 = self.cache.sview();
        let listing = match self.cache.peek(&self.focused) {
            Some(l) => l,
            None => {
                return Vec::new();
            },
        };
        if listing.entries.len() == 0 {
            return Vec::new();
        }
        let len = listing.entries.len();
        let raw: i128 = listing.selected_index as i128 + delta as i128;
        let new_sel: usize = if raw < 0 {
            0
        } else if raw >= len as i128 {
            len - 1
        } else {
            raw as usize
        };
        let focused_now = clone_bytes(&self.focused);
        let ok = self.cache.set_selected(&focused_now, new_sel);
        proof {
            assert(slot_at(s0, self.focused@).listing.entries.len() == listing@.entries.len());
            assert(ok);
        }
        let ghost s_set = self.cache.sview();
        proof {
            assert(new_sel as int == Self::moved_sel(
                slot_at(s0, self.focused@).listing.selected_index as int,
                delta as int,
                slot_at(s0, self.focused@).listing.entries.len() as int,
            ));
            assert(listing@.entries[new_sel as int] == slot_at(s0, self.focused@).listing.entries[
                new_sel as int]);
        }
        self.drop_preview_col();
        // preview the newly selected entry when it is a directory
        let mut jobs: Vec<LoadJob> = Vec::new();
        let e = &listing.entries[new_sel];
        if matches!(e.kind, EntryKind::Directory) && name_ok(&e.name) {
            proof {
                crate::path::lemma_child_parent(self.focused@, e.name@);
            }
            let child = child_path(&focused_now, &e.name);
            let ghost childv = child@;
            proof {
                // the moved cursor changed only the focused slot, whose
                // path is shorter than the child's
                assert(childv.len() > self.focused@.len());
                assert(childv != self.focused@);
                assert forall|k: int|
                    0 <= k < s0.len() && (#[trigger] s0[k]).path == childv implies s_set[k]
                    == s0[k] by {
                    assert(k != idx_of(s0, self.focused@));
                }
                lemma_other_slot_unchanged(s0, s_set, childv);
                assert(crate::cache::get_dispatches(s_set, childv) == crate::cache::get_dispatches(
                    s0,
                    childv,
                ));
                assert(dispatch_token(s_set, childv) == dispatch_token(s0, childv));
            }
            let ghost s_pre = self.cache.sview();
            let (_, pjob) = self.cache.get_or_load(&child);
            proof {
                lemma_get_preserves(s_pre, self.cache.sview(), child@, self.cache.clock);
            }
            if let Some(j) = pjob {
                proof {
                    assert(j@.path == childv && j@.token == dispatch_token(s0, childv));
                }
                jobs.push(j);
            }
            self.push_preview_col(child);
            proof {
                let c1 = self.cols();
                assert(c1[c1.len() - 1].role is Preview && c1[c1.len() - 1].path == childv);
                if crate::cache::get_dispatches(s0, childv) {
                    assert(jobs@[0]@.path == childv);
                    assert(has_job(jobs@, childv, dispatch_token(s0, childv)));
                }
            }
        }
        proof {
            let p = old(self).focused@;
            assert(listings_preserved(s_set, self.cache.sview()));
            lemma_set_then_preserved(s0, s_set, self.cache.sview(), p, new_sel);
        }
        jobs
    }

    /// Drop a trailing Preview column; the previewed listing stays cached,
    /// just no longer displayed.
    #[verifier::rlimit(100)]
    fn drop_preview_col(&mut self)
        requires
            old(self).wf(),
        ensures
            final(self).wf(),
            final(self).cache == old(self).cache,
            final(self).focused@ == old(self).focused@,
            final(self).show_hidden == old(self).show_hidden,
            final(self).sort_reversed == old(self).sort_reversed,
            final(self).depth_limit == old(self).depth_limit,
            cur_index(final(self).cols()) == final(self).cols().len() - 1,
    {
        let n = self.columns.len();
        if n >= 2 && matches!(self.columns[n - 1].role, Role::Preview) {
            let _ = self.columns.pop();
            proof {
                let c0 = old(self).cols();
                let c1 = self.cols();
                assert(c1 =~= c0.take(c0.len() - 1));
                assert(cur_index(c0) == c0.len() - 2);
                assert(c1[c1.len() - 1].role is Current);
                assert(cur_index(c1) == c1.len() - 1);
                assert(forall|k: int| 0 <= k < c1.len() ==> c1[k] == c0[k]);
                assert(columns_wf(c1, self.focused@));
            }
        } else {
            proof {
                let c = self.cols();
                assert(cur_index(c) == c.len() - 1);
            }
        }
    }

    /// Append a Preview column for a child of the focused path.
    #[verifier::rlimit(100)]
    fn push_preview_col(&mut self, child: Vec<u8>)
        requires
            old(self).wf(),
            cur_index(old(self).cols()) == old(self).cols().len() - 1,
            valid_path(child@),
            parent_of(child@) == old(self).focused@,
        ensures
            final(self).wf(),
            final(self).cache == old(self).cache,
            final(self).focused@ == old(self).focused@,
            final(self).show_hidden == old(self).show_hidden,
            final(self).sort_reversed == old(self).sort_reversed,
            final(self).depth_limit == old(self).depth_limit,
            final(self).cols() == old(self).cols().push(
                (ColumnView { path: child@, role: Role::Preview }),
            ),
    {
        let ghost c0 = self.cols();
        let ghost cv = child@;
        self.columns.push(Column { path: child, role: Role::Preview });
        proof {
            let c1 = self.cols();
            assert(c1 =~= c0.push(ColumnView { path: cv, role: Role::Preview }));
            assert(cur_index(c1) == c1.len() - 2);
            assert(forall|k: int| 0 <= k < c0.len() ==> c1[k] == c0[k]);
            assert(columns_wf(c1, self.focused@));
        }
    }

    /// Enter the selected entry: a directory becomes the new focus (unless
    /// its cached listing is Failed, which refuses the move and leaves the
    /// selection put); anything else is handed out for an external opener.
    pub fn enter(&mut self) -> (r: (EnterOutcome, Vec<LoadJob>))
        requires
            old(self).wf(),
            old(self).room(),
        ensures
            final(self).wf(),
            final(self).show_hidden == old(self).show_hidden,
            final(self).sort_reversed == old(self).sort_reversed,
            final(self).depth_limit == old(self).depth_limit,
            final(self).cache.capacity == old(self).cache.capacity,
            listings_preserved(old(self).cache.sview(), final(self).cache.sview()),
            (r.0 matches EnterOutcome::OpenFile(p) ==> valid_path(p@) && parent_of(p@) == old(
                self,
            ).focused@ && *final(self) == *old(self)),
            (r.0 is Refused ==> *final(self) == *old(self)),
            (r.0 is NotReady ==> *final(self) == *old(self)),
            (r.0 is Entered ==> parent_of(final(self).focused@) == old(self).focused@),
            (r.0 is Entered ==> ({
                let s0 = old(self).cache.sview();
                let l = slot_at(s0, old(self).focused@).listing;
                let e = l.entries[l.selected_index as int];
                let child = crate::path::child_of(old(self).focused@, e.name);
                &&& (crate::cache::get_dispatches(s0, child) ==> has_job(
                    r.1@,
                    child,
                    dispatch_token(s0, child),
                ))
                &&& (cur_index(final(self).cols()) == old(self).depth_limit as int
                    || final(self).cols()[0].path == root_path())
            })),
            ({
                let s0 = old(self).cache.sview();
                let p = old(self).focused@;
                if !has_path(s0, p) || slot_at(s0, p).listing.entries.len() == 0 {
                    r.0 is NotReady
                } else {
                    let l = slot_at(s0, p).listing;
                    let e = l.entries[l.selected_index as int];
                    let child = crate::path::child_of(p, e.name);
                    if !crate::path::valid_name(e.name) {
                        r.0 is Refused
                    } else if e.kind != EntryKind::Directory {
                        r.0 matches EnterOutcome::OpenFile(q) && q@ == child
                    } else if has_path(s0, child) && slot_at(s0, child).listing.status is Failed {
                        r.0 is Refused
                    } else {
                        r.0 is Entered && final(self).focused@ == child
                    }
                }
            }),
    {
        let ghost s0 = self.cache.sview();
        let listing = match self.cache.peek(&self.focused) {
            Some(l) => l,
            None => {
                return (EnterOutcome::NotReady, Vec::new());
            },
        };
        if listing.entries.len() == 0 {
            return (EnterOutcome::NotReady, Vec::new());
        }
        proof {
            let i = crate::cache::idx_of(s0, self.focused@);
            assert(0 <= i < s0.len() && s0[i].path == self.focused@);
            assert(s0[i].listing.wf());
        }
        let sel = listing.selected_index;
        let e = &listing.entries[sel];
        if !name_ok(&e.name) {
            return (EnterOutcome::Refused, Vec::new());
        }
        proof {
            crate::path::lemma_child_parent(self.focused@, e.name@);
        }
        let child = child_path(&clone_bytes(&self.focused), &e.name);
        if matches!(e.kind, EntryKind::Directory) {
            let (ok, jobs) = self.focus(&child);
            if ok {
                (EnterOutcome::Entered, jobs)
            } else {
                (EnterOutcome::Refused, jobs)
            }
        } else {
            (EnterOutcome::OpenFile(child), Vec::new())
        }
    }

    /// Mark a path stale and request its refresh; the engine's columns and
    /// focus are untouched. A path not cached is a no-op.
    pub fn invalidate(&mut self, path: &Vec<u8>) -> (job: Option<LoadJob>)
        requires
            old(self).wf(),
            old(self).cache.clock < u64::MAX,
        ensures
            final(self).wf(),
            final(self).cols() == old(self).cols(),
            final(self).focused@ == old(self).focused@,
            final(self).show_hidden == old(self).show_hidden,
            final(self).sort_reversed == old(self).sort_reversed,
            ({
                let s0 = old(self).cache.sview();
                let s1 = final(self).cache.sview();
                if !has_path(s0, path@) {
                    s1 == s0 && job is None
                } else {
                    let o = slot_at(s0, path@);
                    &&& s1 == s0.update(idx_of(s0, path@), crate::cache::invalidated(o))
                    &&& (job matches Some(j)
                        && j.path@ == path@
                        && j.token == o.load_gen + 1)
                }
            }),
    {
        self.cache.invalidate(path)
    }

    /// Hand a finished load to the cache. The column stack and the focus
    /// never move: a load finishing for a directory the user has already
    /// left populates the cache for later reuse but does not change what
    /// is displayed.
    pub fn apply_result(&mut self, path: &Vec<u8>, token: u64, outcome: crate::cache::LoadOutcome) -> (applied: bool)
        requires
            old(self).wf(),
            old(self).cache.clock < u64::MAX,
        ensures
            final(self).wf(),
            final(self).cols() == old(self).cols(),
            final(self).focused@ == old(self).focused@,
            final(self).show_hidden == old(self).show_hidden,
            final(self).sort_reversed == old(self).sort_reversed,
            ({
                let s0 = old(self).cache.sview();
                let s1 = final(self).cache.sview();
                let now = final(self).cache.clock;
                if !has_path(s0, path@) {
                    s1 == s0 && !applied
                } else if !crate::cache::slot_applies(slot_at(s0, path@), token) {
                    s1 == s0 && !applied
                } else {
                    &&& applied
                    &&& s1 == s0.update(
                        idx_of(s0, path@),
                        crate::cache::applied_slot(slot_at(s0, path@), outcome@, now),
                    )
                }
            }),
    {
        self.cache.apply_result(path, token, outcome)
    }

    /// Evict least-recently-used listings over capacity, sparing every
    /// displayed column's path.
    #[verifier::rlimit(100)]
    pub fn evict_if_needed(&mut self)
        requires
            old(self).wf(),
        ensures
            final(self).wf(),
            final(self).cols() == old(self).cols(),
            final(self).focused@ == old(self).focused@,
            final(self).show_hidden == old(self).show_hidden,
            final(self).sort_reversed == old(self).sort_reversed,
            final(self).depth_limit == old(self).depth_limit,
            final(self).cache.capacity == old(self).cache.capacity,
            final(self).cache.clock == old(self).cache.clock,
            final(self).cache.sview().len() <= old(self).cache.sview().len(),
            old(self).cache.sview().len() <= old(self).cache.capacity
                ==> final(self).cache.sview() == old(self).cache.sview(),
            forall|p: Seq<u8>|
                #[trigger] has_path(final(self).cache.sview(), p) ==> has_path(
                    old(self).cache.sview(),
                    p,
                ) && slot_at(final(self).cache.sview(), p) == slot_at(old(self).cache.sview(), p),
            forall|k: int|
                0 <= k < old(self).cols().len() ==> has_path(
                    old(self).cache.sview(),
                    (#[trigger] old(self).cols()[k]).path,
                ) ==> has_path(final(self).cache.sview(), old(self).cols()[k].path),
            final(self).cache.sview().len() > final(self).cache.capacity ==> forall|i: int|
                0 <= i < final(self).cache.sview().len() ==> displayed(
                    old(self).cols(),
                    (#[trigger] final(self).cache.sview()[i]).path,
                ),
            forall|p: Seq<u8>, q: Seq<u8>|
                #[trigger] has_path(old(self).cache.sview(), p) && !has_path(
                    final(self).cache.sview(),
                    p,
                ) && #[trigger] has_path(final(self).cache.sview(), q) && !displayed(
                    old(self).cols(),
                    q,
                ) ==> slot_at(old(self).cache.sview(), p).last_access <= slot_at(
                    final(self).cache.sview(),
                    q,
                ).last_access,
    {
        let mut protected: Vec<Vec<u8>> = Vec::new();
        let mut k: usize = 0;
        while k < self.columns.len()
            invariant
                k <= self.columns@.len(),
                protected@.len() == k,
                forall|j: int| 0 <= j < k ==> (#[trigger] protected@[j])@ == self.cols()[j].path,
            decreases self.columns@.len() - k,
        {
            protected.push(clone_bytes(&self.columns[k].path));
            k = k + 1;
        }
        self.cache.evict_if_needed(&protected);
        proof {
            assert forall|k2: int|
                0 <= k2 < old(self).cols().len() && has_path(
                    old(self).cache.sview(),
                    (#[trigger] old(self).cols()[k2]).path,
                ) implies has_path(self.cache.sview(), old(self).cols()[k2].path) by {
                assert(protected@[k2]@ == old(self).cols()[k2].path);
                assert(crate::cache::prot_contains(protected@, old(self).cols()[k2].path));
            }
            // a path is protected exactly when some column displays it
            assert forall|x: Seq<u8>|
                crate::cache::prot_contains(protected@, x) == displayed(
                    old(self).cols(),
                    x,
                ) by {
                if crate::cache::prot_contains(protected@, x) {
                    let j = choose|j: int|
                        0 <= j < protected@.len() && protected@[j]@ == x;
                    assert(old(self).cols()[j].path == x);
                    assert(displayed(old(self).cols(), x));
                }
                if displayed(old(self).cols(), x) {
                    let j = choose|j: int|
                        0 <= j < old(self).cols().len() && old(self).cols()[j].path == x;
                    assert(protected@[j]@ == x);
                    assert(crate::cache::prot_contains(protected@, x));
                }
            }
        }
    }

    /// Show or hide hidden entries. A pure view toggle: the cache — and so
    /// every listing — is untouched and no load is dispatched.
    pub fn set_show_hidden(&mut self, show: bool)
        requires
            old(self).wf(),
        ensures
            final(self).wf(),
            final(self).show_hidden == show,
            final(self).cache == old(self).cache,
            final(self).cols() == old(self).cols(),
            final(self).focused@ == old(self).focused@,
            final(self).sort_reversed == old(self).sort_reversed,
    {
        self.show_hidden = show;
    }

    /// Reverse the rendered order. A pure view toggle: the cache is
    /// untouched and no load is dispatched.
    pub fn set_sort_reversed(&mut self, reversed: bool)
        requires
            old(self).wf(),
        ensures
            final(self).wf(),
            final(self).sort_reversed == reversed,
            final(self).cache == old(self).cache,
            final(self).cols() == old(self).cols(),
            final(self).focused@ == old(self).focused@,
            final(self).show_hidden == old(self).show_hidden,
    {
        self.sort_reversed = reversed;
    }

    /// The render-ready snapshot: one entry per column, in order, each with
    /// its listing's status, its visible entries in rendered order, and the
    /// selected entry's name. Read-only and derived purely from the cached
    /// values; a column whose path has no cached listing (evicted) renders
    /// as Loading and empty.
    #[verifier::rlimit(100)]
    pub fn current_snapshot(&self) -> (r: Vec<ColumnSnapshot>)
        requires
            self.wf(),
        ensures
            r@.len() == self.cols().len(),
            forall|k: int|
                0 <= k < r@.len() ==> {
                    let snap = #[trigger] r@[k];
                    let col = self.cols()[k];
                    &&& snap.path@ == col.path
                    &&& snap.role == col.role
                    &&& if has_path(self.cache.sview(), col.path) {
                        let l = slot_at(self.cache.sview(), col.path).listing;
                        &&& snap.status@ == l.status
                        &&& entry_views(snap.entries@) == rendered_views(
                            l.entries,
                            self.show_hidden,
                            self.sort_reversed,
                        )
                        &&& snap.generation == l.generation
                        &&& (if l.entries.len() > 0 {
                            snap.selected_name matches Some(n) && n@ == l.entries[
                                l.selected_index as int].name
                        } else {
                            snap.selected_name is None
                        })
                    } else {
                        &&& snap.status@ is Loading
                        &&& snap.entries@.len() == 0
                        &&& snap.selected_name is None
                    }
                },
    {
        let mut r: Vec<ColumnSnapshot> = Vec::new();
        let mut k: usize = 0;
        while k < self.columns.len()
            invariant
                self.wf(),
                k <= self.columns@.len(),
                r@.len() == k,
                forall|j: int|
                    0 <= j < k ==> {
                        let snap = #[trigger] r@[j];
                        let col = self.cols()[j];
                        &&& snap.path@ == col.path
                        &&& snap.role == col.role
                        &&& if has_path(self.cache.sview(), col.path) {
                            let l = slot_at(self.cache.sview(), col.path).listing;
                            &&& snap.status@ == l.status
                            &&& entry_views(snap.entries@) == rendered_views(
                                l.entries,
                                self.show_hidden,
                                self.sort_reversed,
                            )
                            &&& snap.generation == l.generation
                            &&& (if l.entries.len() > 0 {
                                snap.selected_name matches Some(n) && n@ == l.entries[
                                    l.selected_index as int].name
                            } else {
                                snap.selected_name is None
                            })
                        } else {
                            &&& snap.status@ is Loading
                            &&& snap.entries@.len() == 0
                            &&& snap.selected_name is None
                        }
                    },
            decreases self.columns@.len() - k,
        {
            let col = &self.columns[k];
            let snap = match self.cache.peek(&col.path) {
                Some(l) => {
                    let vis = visible_entries(&l.entries, self.show_hidden);
                    let shown = if self.sort_reversed {
                        reverse_entries(vis)
                    } else {
                        vis
                    };
                    let selected_name = if l.entries.len() > 0 {
                        Some(clone_bytes(&l.entries[l.selected_index].name))
                    } else {
                        None
                    };
                    ColumnSnapshot {
                        path: clone_bytes(&col.path),
                        role: col.role,
                        status: l.status.clone(),
                        entries: shown,
                        selected_name,
                        generation: l.generation,
                    }
                },
                None => ColumnSnapshot {
                    path: clone_bytes(&col.path),
                    role: col.role,
                    status: Status::Loading,
                    entries: Vec::new(),
                    selected_name: None,
                    generation: 0,
                },
            };
            r.push(snap);
            k = k + 1;
        }
        r
    }
}

/// After moving the cursor and then possibly refreshing the preview, the
/// focused listing shows the new cursor and its entries are untouched.
proof fn lemma_set_then_preserved(
    s0: Seq<SlotView>,
    s_set: Seq<SlotView>,
    s1: Seq<SlotView>,
    p: Seq<u8>,
    new_sel: usize,
)
    requires
        unique_paths(s0),
        unique_paths(s_set),
        unique_paths(s1),
        has_path(s0, p),
        slot_at(s0, p).listing.entries.len() > 0,
        (new_sel as int) < slot_at(s0, p).listing.entries.len(),
        s_set == s0.update(
            idx_of(s0, p),
            (SlotView {
                path: slot_at(s0, p).path,
                listing: (ListingView {
                    entries: slot_at(s0, p).listing.entries,
                    generation: slot_at(s0, p).listing.generation,
                    status: slot_at(s0, p).listing.status,
                    loaded_at: slot_at(s0, p).listing.loaded_at,
                    selected_index: new_sel,
                }),
                load_gen: slot_at(s0, p).load_gen,
                in_flight: slot_at(s0, p).in_flight,
                last_access: slot_at(s0, p).last_access,
            }),
        ),
        listings_preserved(s_set, s1),
    ensures
        has_path(s1, p),
        slot_at(s1, p).listing.selected_index == new_sel,
        slot_at(s1, p).listing.entries == slot_at(s0, p).listing.entries,
        slot_at(s1, p).listing.status == slot_at(s0, p).listing.status,
        slot_at(s1, p).listing.generation == slot_at(s0, p).listing.generation,
{
    let i = idx_of(s0, p);
    assert(0 <= i < s0.len() && s0[i].path == p);
    assert(s_set[i].path == p);
    crate::cache::lemma_idx_unique(s_set, i);
    lemma_listings_preserved_at(s_set, s1, p);
}

} // verus!
