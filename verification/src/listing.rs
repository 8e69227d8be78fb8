//! Cached directory listings: load status, typed load failures, the listing
//! value itself, the selection remap applied on reload, and the hidden-file
//! view filter (a view-level predicate, so toggling it needs no reload).

use vstd::prelude::*;
use crate::entry::{DirectoryEntry, EntryView, entry_views, hidden, clone_bytes};

verus! {

/// Why a directory load failed. All failures are path-scoped and
/// recoverable; none aborts the engine.
pub enum LoadError {
    NotFound,
    PermissionDenied,
    NotADirectory,
    /// Any other I/O failure, with its description as raw bytes.
    IoError(Vec<u8>),
}

/// Mathematical value of a `LoadError`.
pub ghost enum LoadErrorView {
    NotFound,
    PermissionDenied,
    NotADirectory,
    IoError(Seq<u8>),
}

impl View for LoadError {
    type V = LoadErrorView;

    open spec fn view(&self) -> LoadErrorView {
        match self {
            LoadError::NotFound => LoadErrorView::NotFound,
            LoadError::PermissionDenied => LoadErrorView::PermissionDenied,
            LoadError::NotADirectory => LoadErrorView::NotADirectory,
            LoadError::IoError(d) => LoadErrorView::IoError(d@),
        }
    }
}

impl Clone for LoadError {
    /// A clone has the same mathematical value.
    fn clone(&self) -> (r: Self)
        ensures
            r@ == self@,
    {
        match self {
            LoadError::NotFound => LoadError::NotFound,
            LoadError::PermissionDenied => LoadError::PermissionDenied,
            LoadError::NotADirectory => LoadError::NotADirectory,
            LoadError::IoError(d) => LoadError::IoError(clone_bytes(d)),
        }
    }
}

/// Load status of one cached listing.
pub enum Status {
    /// A load is under way and no entries have arrived yet.
    Loading,
    /// The entries are current as far as the engine knows.
    Ready,
    /// The entries may be out of date; they are still rendered while a
    /// refresh is under way.
    Stale,
    /// The last load failed.
    Failed(LoadError),
}

/// Mathematical value of a `Status`.
pub ghost enum StatusView {
    Loading,
    Ready,
    Stale,
    Failed(LoadErrorView),
}

impl View for Status {
    type V = StatusView;

    open spec fn view(&self) -> StatusView {
        match self {
            Status::Loading => StatusView::Loading,
            Status::Ready => StatusView::Ready,
            Status::Stale => StatusView::Stale,
            Status::Failed(e) => StatusView::Failed(e@),
        }
    }
}

impl Clone for Status {
    /// A clone has the same mathematical value.
    fn clone(&self) -> (r: Self)
        ensures
            r@ == self@,
    {
        match self {
            Status::Loading => Status::Loading,
            Status::Ready => Status::Ready,
            Status::Stale => Status::Stale,
            Status::Failed(e) => Status::Failed(e.clone()),
        }
    }
}

/// The cached state of one directory path. Owned by the cache; consumers
/// receive clones, never a mutable handle.
pub struct Listing {
    /// Entries in the sort order applied at load time.
    pub entries: Vec<DirectoryEntry>,
    /// Bumped on every completed (re)load of this path.
    pub generation: u64,
    /// Load status.
    pub status: Status,
    /// Logical time of the last completed load.
    pub loaded_at: u64,
    /// Cursor position, kept within the entries' bounds.
    pub selected_index: usize,
}

/// Mathematical value of a `Listing`.
pub ghost struct ListingView {
    pub entries: Seq<EntryView>,
    pub generation: u64,
    pub status: StatusView,
    pub loaded_at: u64,
    pub selected_index: usize,
}

impl View for Listing {
    type V = ListingView;

    open spec fn view(&self) -> ListingView {
        ListingView {
            entries: entry_views(self.entries@),
            generation: self.generation,
            status: self.status@,
            loaded_at: self.loaded_at,
            selected_index: self.selected_index,
        }
    }
}

impl ListingView {
    /// The cursor sits inside the entries whenever there are any.
    pub open spec fn wf(self) -> bool {
        if self.entries.len() == 0 {
            self.selected_index == 0
        } else {
            self.selected_index < self.entries.len()
        }
    }
}

/// Entry-for-entry copy of a listing's entries.
pub fn clone_entries(v: &Vec<DirectoryEntry>) -> (r: Vec<DirectoryEntry>)
    ensures
        entry_views(r@) == entry_views(v@),
{
    let mut r: Vec<DirectoryEntry> = Vec::new();
    let mut i: usize = 0;
    while i < v.len()
        invariant
            i <= v.len(),
            r@.len() == i,
            forall|j: int| 0 <= j < i ==> r@[j]@ == v@[j]@,
        decreases v.len() - i,
    {
        r.push(v[i].clone());
        i = i + 1;
    }
    proof {
        assert(entry_views(r@) =~= entry_views(v@));
    }
    r
}

impl Clone for Listing {
    /// A clone has the same mathematical value. This is the read-only
    /// snapshot handed to consumers.
    fn clone(&self) -> (r: Self)
        ensures
            r@ == self@,
    {
        Listing {
            entries: clone_entries(&self.entries),
            generation: self.generation,
            status: self.status.clone(),
            loaded_at: self.loaded_at,
            selected_index: self.selected_index,
        }
    }
}

impl Listing {
    /// A fresh listing: empty, Loading, generation zero.
    pub fn new_loading(now: u64) -> (r: Listing)
        ensures
            r@ == (ListingView {
                entries: Seq::empty(),
                generation: 0u64,
                status: StatusView::Loading,
                loaded_at: now,
                selected_index: 0usize,
            }),
            r@.wf(),
    {
        let r = Listing {
            entries: Vec::new(),
            generation: 0,
            status: Status::Loading,
            loaded_at: now,
            selected_index: 0,
        };
        proof {
            assert(entry_views(r.entries@) =~= Seq::<EntryView>::empty());
        }
        r
    }
}

/// Index of the first entry carrying `name`, or -1 when none does.
pub open spec fn first_with_name(s: Seq<EntryView>, name: Seq<u8>) -> int
    decreases s.len(),
{
    if s.len() == 0 {
        -1
    } else if s[0].name == name {
        0
    } else {
        let r = first_with_name(s.drop_first(), name);
        if r < 0 {
            -1
        } else {
            r + 1
        }
    }
}

/// Where the cursor lands after a reload: the first entry with the
/// previously selected name when it is still present; otherwise the old
/// index when it is still in bounds; otherwise the last index (or 0 when
/// the new listing is empty).
pub open spec fn remap_index(
    old_entries: Seq<EntryView>,
    old_sel: int,
    new_entries: Seq<EntryView>,
) -> int {
    if new_entries.len() == 0 {
        0
    } else if old_entries.len() == 0 {
        0
    } else {
        let name = old_entries[old_sel].name;
        let f = first_with_name(new_entries, name);
        if f >= 0 {
            f
        } else if old_sel < new_entries.len() {
            old_sel
        } else {
            new_entries.len() - 1
        }
    }
}

/// A scan that stopped at `j` found the first occurrence of the name.
proof fn lemma_first_with_name_found(s: Seq<EntryView>, name: Seq<u8>, j: int)
    requires
        0 <= j < s.len(),
        s[j].name == name,
        forall|k: int| 0 <= k < j ==> s[k].name != name,
    ensures
        first_with_name(s, name) == j,
    decreases j,
{
    if j > 0 {
        lemma_first_with_name_found(s.drop_first(), name, j - 1);
    }
}

/// A scan that found no occurrence is right: there is none.
proof fn lemma_first_with_name_absent(s: Seq<EntryView>, name: Seq<u8>)
    requires
        forall|k: int| 0 <= k < s.len() ==> s[k].name != name,
    ensures
        first_with_name(s, name) == -1,
    decreases s.len(),
{
    if s.len() > 0 {
        lemma_first_with_name_absent(s.drop_first(), name);
    }
}

/// Remap the cursor across a reload, by entry name, clamped to the new
/// bounds.
pub fn remap_selection(
    old_entries: &Vec<DirectoryEntry>,
    old_sel: usize,
    new_entries: &Vec<DirectoryEntry>,
) -> (r: usize)
    requires
        old_entries@.len() > 0 ==> old_sel < old_entries@.len(),
        old_entries@.len() == 0 ==> old_sel == 0,
    ensures
        r as int == remap_index(entry_views(old_entries@), old_sel as int, entry_views(new_entries@)),
        new_entries@.len() > 0 ==> r < new_entries@.len(),
        new_entries@.len() == 0 ==> r == 0,
{
    let ghost olds = entry_views(old_entries@);
    let ghost news = entry_views(new_entries@);
    if new_entries.len() == 0 || old_entries.len() == 0 {
        return 0;
    }
    let name = &old_entries[old_sel].name;
    proof {
        assert(olds[old_sel as int].name == name@);
    }
    let mut j: usize = 0;
    while j < new_entries.len()
        invariant
            j <= new_entries.len(),
            olds == entry_views(old_entries@),
            news == entry_views(new_entries@),
            news.len() == new_entries@.len(),
            olds.len() == old_entries@.len(),
            old_entries@.len() > 0,
            new_entries@.len() > 0,
            old_sel < old_entries@.len(),
            olds[old_sel as int].name == name@,
            forall|k: int| 0 <= k < j ==> news[k].name != name@,
            forall|k: int| 0 <= k < news.len() ==> news[k].name == new_entries@[k]@.name,
        decreases new_entries.len() - j,
    {
        if crate::entry::bytes_eq(&new_entries[j].name, name) {
            proof {
                assert(news[j as int].name == name@);
                lemma_first_with_name_found(news, name@, j as int);
                assert(first_with_name(news, olds[old_sel as int].name) == j as int);
                assert(remap_index(olds, old_sel as int, news) == j as int);
            }
            return j;
        }
        j = j + 1;
    }
    proof {
        lemma_first_with_name_absent(news, name@);
    }
    if old_sel < new_entries.len() {
        old_sel
    } else {
        new_entries.len() - 1
    }
}

/// The rendered portion of a listing's entries: hidden entries are shown
/// only when `show_hidden` is set. The listing itself always holds the full
/// enumerated set, so this is a pure function of the cached value.
pub open spec fn visible_views(s: Seq<EntryView>, show_hidden: bool) -> Seq<EntryView> {
    s.filter(|e: EntryView| show_hidden || !hidden(e))
}

/// Compute the rendered entries of a listing without touching the cache.
pub fn visible_entries(entries: &Vec<DirectoryEntry>, show_hidden: bool) -> (r: Vec<DirectoryEntry>)
    ensures
        entry_views(r@) == visible_views(entry_views(entries@), show_hidden),
{
    let ghost all = entry_views(entries@);
    let ghost pred = |e: EntryView| show_hidden || !hidden(e);
    let mut r: Vec<DirectoryEntry> = Vec::new();
    let mut i: usize = 0;
    proof {
        reveal(Seq::filter);
        assert(all.take(0).filter(pred) =~= Seq::<EntryView>::empty());
        assert(entry_views(r@) =~= Seq::<EntryView>::empty());
    }
    while i < entries.len()
        invariant
            i <= entries.len(),
            all.len() == entries@.len(),
            forall|k: int| 0 <= k < all.len() ==> all[k] == entries@[k]@,
            pred == (|e: EntryView| show_hidden || !hidden(e)),
            entry_views(r@) == all.take(i as int).filter(pred),
        decreases entries.len() - i,
    {
        let ghost prefix = all.take(i as int);
        proof {
            reveal(Seq::filter);
            assert(all.take(i + 1).drop_last() =~= prefix);
            assert(all.take(i + 1).last() == all[i as int]);
        }
        if show_hidden || !entries[i].is_hidden() {
            r.push(entries[i].clone());
            proof {
                assert(entry_views(r@) =~= prefix.filter(pred).push(all[i as int]));
                assert(all.take(i + 1).filter(pred) == prefix.filter(pred).push(all[i as int]));
            }
        } else {
            proof {
                assert(all.take(i + 1).filter(pred) == prefix.filter(pred));
            }
        }
        i = i + 1;
    }
    proof {
        assert(all.take(entries@.len() as int) =~= all);
    }
    r
}

} // verus!
