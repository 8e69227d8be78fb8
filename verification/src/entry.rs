//! Directory entries: one filesystem child with its metadata, the
//! hidden-file naming convention, and the sort order used for stable
//! rendering (directories first, case-insensitive name, byte tie-break).

use vstd::prelude::*;

verus! {

/// What kind of filesystem object an entry is. `Unknown` marks an entry
/// whose metadata could not be read; such an entry degrades alone and never
/// fails the enclosing listing.
#[derive(Clone, Copy, PartialEq, Eq, Structural, Debug)]
pub enum EntryKind {
    File,
    Directory,
    Symlink,
    Other,
    Unknown,
}

/// One filesystem child: raw name bytes, kind, and optional metadata.
/// Immutable once constructed; a changed entry is a new value.
pub struct DirectoryEntry {
    /// Raw path component, as bytes.
    pub name: Vec<u8>,
    /// Kind of the entry; `Unknown` when metadata could not be read.
    pub kind: EntryKind,
    /// Size in bytes, if available.
    pub size: Option<u64>,
    /// Modification time in seconds, if available.
    pub modified: Option<u64>,
    /// Platform permission bits, opaque to the engine.
    pub permissions: u32,
    /// Resolved symlink target, or `None` when broken or unresolved.
    pub symlink_target: Option<Vec<u8>>,
}

/// Mathematical value of a `DirectoryEntry`.
pub ghost struct EntryView {
    pub name: Seq<u8>,
    pub kind: EntryKind,
    pub size: Option<u64>,
    pub modified: Option<u64>,
    pub permissions: u32,
    pub symlink_target: Option<Seq<u8>>,
}

impl View for DirectoryEntry {
    type V = EntryView;

    open spec fn view(&self) -> EntryView {
        EntryView {
            name: self.name@,
            kind: self.kind,
            size: self.size,
            modified: self.modified,
            permissions: self.permissions,
            symlink_target: match self.symlink_target {
                Some(t) => Some(t@),
                None => None,
            },
        }
    }
}

/// The views of a sequence of entries.
pub open spec fn entry_views(s: Seq<DirectoryEntry>) -> Seq<EntryView> {
    s.map_values(|e: DirectoryEntry| e@)
}

/// Byte-for-byte copy of a byte vector.
pub fn clone_bytes(v: &Vec<u8>) -> (r: Vec<u8>)
    ensures
        r@ == v@,
{
    let mut r: Vec<u8> = Vec::new();
    let mut i: usize = 0;
    while i < v.len()
        invariant
            i <= v.len(),
            r@ == v@.take(i as int),
        decreases v.len() - i,
    {
        r.push(v[i]);
        assert(v@.take(i as int).push(v@[i as int]) =~= v@.take(i + 1));
        i = i + 1;
    }
    proof {
        assert(r@ =~= v@);
    }
    r
}

impl Clone for DirectoryEntry {
    /// A clone has the same mathematical value.
    fn clone(&self) -> (r: Self)
        ensures
            r@ == self@,
    {
        DirectoryEntry {
            name: clone_bytes(&self.name),
            kind: self.kind,
            size: self.size,
            modified: self.modified,
            permissions: self.permissions,
            symlink_target: match &self.symlink_target {
                Some(t) => Some(clone_bytes(t)),
                None => None,
            },
        }
    }
}

impl DirectoryEntry {
    /// Entry with degraded metadata: only the name is known. Used when the
    /// metadata of a single child cannot be read, so that one bad entry
    /// never fails the whole listing.
    pub fn degraded(name: Vec<u8>) -> (e: DirectoryEntry)
        ensures
            e@.name == name@,
            e@.kind == EntryKind::Unknown,
            e@.size is None,
            e@.modified is None,
            e@.symlink_target is None,
    {
        DirectoryEntry {
            name,
            kind: EntryKind::Unknown,
            size: None,
            modified: None,
            permissions: 0,
            symlink_target: None,
        }
    }

    /// Whether the naming convention marks this entry hidden.
    pub fn is_hidden(&self) -> (r: bool)
        ensures
            r == hidden(self@),
    {
        self.name.len() > 0 && self.name[0] == 46u8
    }
}

/// An entry is hidden when its name starts with an ASCII full stop.
pub open spec fn hidden(e: EntryView) -> bool {
    e.name.len() > 0 && e.name[0] == 46u8
}

/// ASCII lower-case folding of one byte.
pub open spec fn fold_byte(b: u8) -> u8 {
    if 65 <= b <= 90 {
        (b + 32) as u8
    } else {
        b
    }
}

/// ASCII lower-case folding of a name.
pub open spec fn folded(s: Seq<u8>) -> Seq<u8> {
    s.map_values(|b: u8| fold_byte(b))
}

/// Lexicographic order on byte sequences (reflexive).
pub open spec fn bytes_le(a: Seq<u8>, b: Seq<u8>) -> bool
    decreases a.len(),
{
    if a.len() == 0 {
        true
    } else if b.len() == 0 {
        false
    } else if a[0] < b[0] {
        true
    } else if a[0] > b[0] {
        false
    } else {
        bytes_le(a.drop_first(), b.drop_first())
    }
}

/// Name order: case-insensitive lexicographic, with a tie-break on the raw
/// bytes for names that fold to the same sequence.
pub open spec fn name_le(a: Seq<u8>, b: Seq<u8>) -> bool {
    if folded(a) == folded(b) {
        bytes_le(a, b)
    } else {
        bytes_le(folded(a), folded(b))
    }
}

/// Directories sort before everything else.
pub open spec fn rank(k: EntryKind) -> int {
    if k == EntryKind::Directory {
        0
    } else {
        1
    }
}

/// The deterministic sort order of the listing: directories before
/// non-directories, then by name.
pub open spec fn entry_le(a: EntryView, b: EntryView) -> bool {
    rank(a.kind) < rank(b.kind) || (rank(a.kind) == rank(b.kind) && name_le(a.name, b.name))
}

/// ASCII lower-case folding of one byte.
fn fold_byte_exec(b: u8) -> (r: u8)
    ensures
        r == fold_byte(b),
{
    if 65 <= b && b <= 90 {
        b + 32
    } else {
        b
    }
}

/// ASCII lower-case folding of a whole name.
fn fold_name(v: &Vec<u8>) -> (r: Vec<u8>)
    ensures
        r@ == folded(v@),
{
    let mut r: Vec<u8> = Vec::new();
    let mut i: usize = 0;
    while i < v.len()
        invariant
            i <= v.len(),
            r@.len() == i,
            forall|j: int| 0 <= j < i ==> r@[j] == fold_byte(v@[j]),
        decreases v.len() - i,
    {
        r.push(fold_byte_exec(v[i]));
        i = i + 1;
    }
    proof {
        assert(r@ =~= folded(v@));
    }
    r
}

/// Skipping the common prefix of two sequences does not change their
/// lexicographic comparison.
proof fn lemma_bytes_le_skip(a: Seq<u8>, b: Seq<u8>, i: int)
    requires
        0 <= i <= a.len(),
        i <= b.len(),
        forall|j: int| 0 <= j < i ==> a[j] == b[j],
    ensures
        bytes_le(a, b) == bytes_le(a.skip(i), b.skip(i)),
    decreases i,
{
    if i > 0 {
        assert(a.len() > 0 && b.len() > 0);
        assert(a[0] == b[0]);
        assert(a.drop_first().skip(i - 1) =~= a.skip(i));
        assert(b.drop_first().skip(i - 1) =~= b.skip(i));
        assert(forall|j: int|
            0 <= j < i - 1 ==> a.drop_first()[j] == b.drop_first()[j]);
        lemma_bytes_le_skip(a.drop_first(), b.drop_first(), i - 1);
    } else {
        assert(a.skip(0) =~= a);
        assert(b.skip(0) =~= b);
    }
}

/// Lexicographic comparison of two byte vectors.
fn bytes_le_exec(a: &Vec<u8>, b: &Vec<u8>) -> (r: bool)
    ensures
        r == bytes_le(a@, b@),
{
    let mut i: usize = 0;
    loop
        invariant
            i <= a.len(),
            i <= b.len(),
            forall|j: int| 0 <= j < i ==> a@[j] == b@[j],
        decreases a.len() - i,
    {
        proof {
            lemma_bytes_le_skip(a@, b@, i as int);
        }
        if i >= a.len() {
            assert(a@.skip(i as int).len() == 0);
            return true;
        }
        if i >= b.len() {
            assert(b@.skip(i as int).len() == 0);
            assert(a@.skip(i as int).len() > 0);
            return false;
        }
        assert(a@.skip(i as int)[0] == a@[i as int]);
        assert(b@.skip(i as int)[0] == b@[i as int]);
        if a[i] < b[i] {
            return true;
        }
        if a[i] > b[i] {
            return false;
        }
        i = i + 1;
    }
}

/// Equality of two byte vectors, as their mathematical values.
pub fn bytes_eq(a: &Vec<u8>, b: &Vec<u8>) -> (r: bool)
    ensures
        r == (a@ == b@),
{
    let r = a == b;
    proof {
        if r {
            assert(a@ =~= b@);
        }
    }
    r
}

/// Name order, executable form.
fn name_le_exec(a: &Vec<u8>, b: &Vec<u8>) -> (r: bool)
    ensures
        r == name_le(a@, b@),
{
    let fa = fold_name(a);
    let fb = fold_name(b);
    if bytes_eq(&fa, &fb) {
        bytes_le_exec(a, b)
    } else {
        bytes_le_exec(&fa, &fb)
    }
}

/// The listing sort order, executable form.
pub fn entry_le_exec(a: &DirectoryEntry, b: &DirectoryEntry) -> (r: bool)
    ensures
        r == entry_le(a@, b@),
{
    let ra: u8 = if a.kind == EntryKind::Directory { 0 } else { 1 };
    let rb: u8 = if b.kind == EntryKind::Directory { 0 } else { 1 };
    if ra < rb {
        true
    } else if ra > rb {
        false
    } else {
        name_le_exec(&a.name, &b.name)
    }
}

} // verus!
