//! Manifests: what a directory holds.

use vstd::prelude::*;
use crate::digest;
use crate::text;

verus! {

/// A file or a directory, by its path below the root.
#[derive(Debug, PartialEq, Eq)]
pub struct FileEntry {
    pub path: String,
    pub size: u64,
    /// Seconds since the start of 1970.
    pub modified: u64,
    pub is_dir: bool,
    pub checksum: Option<[u8; 32]>,
}

/// An entry, with its path and its checksum as sequences.
#[verifier::ext_equal]
pub struct EntryView {
    pub path: Seq<char>,
    pub size: u64,
    pub modified: u64,
    pub is_dir: bool,
    pub checksum: Option<Seq<u8>>,
}

impl View for FileEntry {
    type V = EntryView;

    open spec fn view(&self) -> EntryView {
        EntryView {
            path: self.path@,
            size: self.size,
            modified: self.modified,
            is_dir: self.is_dir,
            checksum: match self.checksum {
                Some(digest) => Some(digest@),
                None => None,
            },
        }
    }
}

pub open spec fn views(entries: Seq<FileEntry>) -> Seq<EntryView> {
    Seq::new(entries.len(), |i: int| entries[i]@)
}

impl Clone for FileEntry {
    fn clone(&self) -> (res: Self)
        ensures
            res@ == self@,
    {
        FileEntry {
            path: self.path.clone(),
            size: self.size,
            modified: self.modified,
            is_dir: self.is_dir,
            checksum: self.checksum,
        }
    }
}

/// Hashes the content of a file as it is read.
pub struct ContentHasher {
    hasher: blake3::Hasher,
}

impl ContentHasher {
    /// What has been read.
    pub closed spec fn content(&self) -> Seq<u8> {
        digest::hasher_input(self.hasher)
    }

    pub fn new() -> (res: Self)
        ensures
            res.content() == Seq::<u8>::empty(),
    {
        ContentHasher { hasher: digest::hasher_new() }
    }

    pub fn update(&mut self, read: &[u8])
        ensures
            final(self).content() == old(self).content() + read@,
    {
        digest::hasher_update(&mut self.hasher, read);
    }

    pub fn finish(&self) -> (res: [u8; 32])
        ensures
            res@ == digest::blake3_digest(self.content()),
    {
        digest::hasher_finalize(&self.hasher)
    }
}

impl FileEntry {
    pub fn new(path: String, size: u64, modified: u64, is_dir: bool) -> (res: Self)
        ensures
            res == (FileEntry { path, size, modified, is_dir, checksum: None }),
    {
        FileEntry { path, size, modified, is_dir, checksum: None }
    }

    /// The entry for what a walk found at a path below the root.
    pub fn from_metadata(relative_path: String, size: u64, modified: u64, is_dir: bool) -> (res:
        Self)
        ensures
            res == (FileEntry { path: relative_path, size, modified, is_dir, checksum: None }),
    {
        FileEntry::new(relative_path, size, modified, is_dir)
    }

    /// Whether a checksum belongs to this entry: it does to files that hold anything.
    pub open spec fn wants_checksum(&self) -> bool {
        !self.is_dir && self.size > 0
    }

    pub fn needs_checksum(&self) -> (res: bool)
        ensures
            res == self.wants_checksum(),
    {
        !self.is_dir && self.size > 0
    }

    /// The entry with the checksum of its content, where it has one.
    pub fn with_checksum(self, content: &ContentHasher) -> (res: Self)
        ensures
            res@ == (if self.wants_checksum() {
                EntryView {
                    checksum: Some(digest::blake3_digest(content.content())),
                    ..self@
                }
            } else {
                self@
            }),
    {
        if self.needs_checksum() {
            FileEntry {
                path: self.path,
                size: self.size,
                modified: self.modified,
                is_dir: self.is_dir,
                checksum: Some(content.finish()),
            }
        } else {
            self
        }
    }
}

/// Whether a walk leaves out what has this name, and all below it.
pub open spec fn is_ignored(name: Seq<char>) -> bool {
    name == "target"@ || name == "node_modules"@ || name == ".git"@
}

pub fn is_ignored_name(name: &str) -> (res: bool)
    ensures
        res == is_ignored(name@),
{
    text::same_text(name, "target") || text::same_text(name, "node_modules") || text::same_text(
        name,
        ".git",
    )
}

/// Whether the characters from `i` to `j` are one of the names of a path, which slashes part.
pub open spec fn is_name_of(path: Seq<char>, i: int, j: int) -> bool {
    &&& 0 <= i <= j <= path.len()
    &&& i == 0 || path[i - 1] == '/'
    &&& j == path.len() || path[j] == '/'
    &&& forall|k: int| i <= k < j ==> #[trigger] path[k] != '/'
}

/// Whether a walk leaves out what stands at a path: one of its names is ignored.
pub open spec fn is_left_out(path: Seq<char>) -> bool {
    exists|i: int, j: int| #[trigger] is_name_of(path, i, j) && is_ignored(path.subrange(i, j))
}

/// Two names of a path that end at one place are one name.
proof fn lemma_name_is_unique(path: Seq<char>, i: int, start: int, j: int)
    requires
        is_name_of(path, i, j),
        is_name_of(path, start, j),
    ensures
        i == start,
{
    if i < start {
        assert(path[start - 1] == '/');
    } else if start < i {
        assert(path[i - 1] == '/');
    }
}

/// Whether one of the names in a path is ignored.
pub fn has_ignored_name(path: &str) -> (res: bool)
    ensures
        res == is_left_out(path@),
{
    let size: usize = path.unicode_len();
    let mut start: usize = 0;
    let mut k: usize = 0;
    loop
        invariant
            start <= k <= size == path@.len(),
            start == 0 || path@[start - 1] == '/',
            forall|n: int| start <= n < k ==> #[trigger] path@[n] != '/',
            forall|i: int, j: int|
                #[trigger] is_name_of(path@, i, j) && j < start ==> !is_ignored(
                    path@.subrange(i, j),
                ),
        decreases size - k,
    {
        if k == size || path.get_char(k) == '/' {
            assert(is_name_of(path@, start as int, k as int));
            if is_ignored_name(path.substring_char(start, k)) {
                return true;
            }
            assert forall|i: int, j: int| #[trigger] is_name_of(path@, i, j) && j <= k implies
                !is_ignored(path@.subrange(i, j)) by {
                if j >= start {
                    if j < k {
                        assert(path@[j] == '/');
                    }
                    lemma_name_is_unique(path@, i, start as int, k as int);
                }
            }
            if k == size {
                return false;
            }
            start = k + 1;
        }
        k = k + 1;
    }
}

/// What stays of what a walk found.
pub open spec fn kept(found: Seq<EntryView>) -> Seq<EntryView> {
    found.filter(|e: EntryView| !is_left_out(e.path))
}

/// An entry with slashes between the names of its path.
pub open spec fn in_slashes(entry: EntryView) -> EntryView {
    EntryView { path: text::with_slashes(entry.path), ..entry }
}

/// The entries that a manifest lists of what a walk found: first what is left out goes, by the
/// names as they were found, then slashes part the names.
pub open spec fn listing_of(found: Seq<EntryView>) -> Seq<EntryView> {
    Seq::new(kept(found).len(), |i: int| in_slashes(kept(found)[i]))
}

/// Drops what a walk leaves out, and puts slashes between names.
fn keep_entries(found: &Vec<FileEntry>) -> (res: Vec<FileEntry>)
    ensures
        views(res@) == listing_of(views(found@)),
{
    let ghost all = views(found@);
    let mut res: Vec<FileEntry> = Vec::new();
    let mut i: usize = 0;
    proof {
        reveal(Seq::filter);
        assert(all.take(0) =~= Seq::empty());
        assert(views(res@) =~= listing_of(all.take(0)));
    }
    while i < found.len()
        invariant
            i <= found@.len(),
            all == views(found@),
            views(res@) == listing_of(all.take(i as int)),
        decreases found@.len() - i,
    {
        let ghost now = all.take(i + 1);
        proof {
            reveal(Seq::filter);
            assert(now.drop_last() =~= all.take(i as int));
            assert(kept(now) == (if is_left_out(all[i as int].path) {
                kept(all.take(i as int))
            } else {
                kept(all.take(i as int)).push(all[i as int])
            }));
        }
        if !has_ignored_name(found[i].path.as_str()) {
            let ghost before = views(res@);
            let mut entry: FileEntry = found[i].clone();
            entry.path = text::replace_backslashes(found[i].path.as_str());
            let ghost shown = entry@;
            res.push(entry);
            assert(shown == in_slashes(all[i as int]));
            assert(views(res@) =~= before.push(shown));
            assert(listing_of(now) =~= before.push(shown));
        }
        i = i + 1;
    }
    assert(all.take(i as int) =~= all);
    res
}

/// Whether no name of a path is empty or stands for a directory itself, and nothing in it means
/// more than a name or the end of one on any system.
pub open spec fn is_plain_path(path: Seq<char>) -> bool {
    &&& forall|k: int| 0 <= k < path.len() ==> #[trigger] path[k] != '\\' && path[k] != ':'
    &&& forall|i: int, j: int|
        #[trigger] is_name_of(path, i, j) ==> i < j && path.subrange(i, j) != seq!['.']
            && path.subrange(i, j) != seq!['.', '.']
}

/// A path with a slash behind it.
pub open spec fn as_prefix(root: Seq<char>) -> Seq<char> {
    if root.len() > 0 && root.last() == '/' {
        root
    } else {
        root.push('/')
    }
}

/// What follows the root in a path.
pub open spec fn below(root: Seq<char>, path: Seq<char>) -> Seq<char> {
    path.skip(as_prefix(root).len() as int)
}

/// Whether a path is the root, a slash, and a plain path. The root is written in a way that means
/// the same on any system.
pub open spec fn lies_below(root: Seq<char>, path: Seq<char>) -> bool {
    &&& root.len() > 0
    &&& !(root.len() > 1 && root[0] == '/' && root[1] == '/')
    &&& forall|k: int| 0 <= k < root.len() ==> #[trigger] root[k] != '\\' && root[k] != ':'
    &&& as_prefix(root).len() <= path.len()
    &&& path.take(as_prefix(root).len() as int) == as_prefix(root)
    &&& is_plain_path(below(root, path))
}

/// `pathdiff::diff_paths`: the path that leads from the root to what lies below it, which is what
/// follows the root in its path, with the separator of the system between names. Of paths that
/// do not lie below the root as `lies_below` says nothing is claimed, since how they read differs
/// between systems.
#[verifier::external_body]
fn path_difference(path: &str, root: &str) -> (res: Option<String>)
    ensures
        lies_below(root@, path@) ==> match res {
            Some(found) => text::with_slashes(found@) == below(root@, path@),
            None => false,
        },
{
    pathdiff::diff_paths(path, root).map(|found| found.to_string_lossy().into_owned())
}

/// No path leads from the root to what a walk found.
#[derive(Clone, Copy, Debug, PartialEq, Eq, Structural)]
pub struct NotBelow;

/// The entry for what a walk found, given the path that leads to it from the root: the root
/// itself has none.
pub fn entry_at(
    root: &str,
    path: &str,
    relative_path: Option<String>,
    size: u64,
    modified: u64,
    is_dir: bool,
) -> (res: Result<Option<FileEntry>, NotBelow>)
    ensures
        if path@ == root@ {
            res == Ok::<Option<FileEntry>, NotBelow>(None)
        } else {
            match relative_path {
                None => res == Err::<Option<FileEntry>, NotBelow>(NotBelow),
                Some(relative) => res matches Ok(Some(entry)) && entry@ == (EntryView {
                    path: relative@,
                    size,
                    modified,
                    is_dir,
                    checksum: None,
                }),
            }
        },
{
    if text::same_text(path, root) {
        return Ok(None);
    }
    match relative_path {
        None => Err(NotBelow),
        Some(relative) => Ok(
            Some(FileEntry::from_metadata(relative, size, modified, is_dir)),
        ),
    }
}

/// The entry for what a walk from `root` found at `path`. What lies below the root is entered
/// under what follows the root in its path, and the root itself is left out.
pub fn entry_below(root: &str, path: &str, size: u64, modified: u64, is_dir: bool) -> (res: Result<
    Option<FileEntry>,
    NotBelow,
>)
    ensures
        path@ == root@ <==> res == Ok::<Option<FileEntry>, NotBelow>(None),
        lies_below(root@, path@) ==> (res matches Ok(Some(entry)) && in_slashes(entry@) == (
        EntryView { path: below(root@, path@), size, modified, is_dir, checksum: None })),
        res matches Ok(Some(entry)) ==> entry@ == (EntryView {
            path: entry@.path,
            size,
            modified,
            is_dir,
            checksum: None,
        }),
{
    let relative_path: Option<String> = path_difference(path, root);
    assert(lies_below(root@, path@) ==> path@.len() > root@.len()) by {
        if lies_below(root@, path@) && path@.len() == as_prefix(root@).len() {
            assert(is_name_of(below(root@, path@), 0, 0));
        }
    }
    entry_at(root, path, relative_path, size, modified, is_dir)
}

/// What entries are ordered by: the bytes of their paths.
pub open spec fn key(entry: EntryView) -> Seq<u8> {
    vstd::utf8::encode_utf8(entry.path)
}

pub open spec fn is_sorted(entries: Seq<EntryView>) -> bool {
    forall|i: int, j: int|
        0 <= i <= j < entries.len() ==> text::bytes_le(
            key(#[trigger] entries[i]),
            key(#[trigger] entries[j]),
        )
}

/// The entries with one path, in order.
pub open spec fn at_path(entries: Seq<EntryView>, path: Seq<u8>) -> Seq<EntryView> {
    entries.filter(|e: EntryView| key(e) == path)
}

/// Whether `sorted` holds the entries in the order of their paths, those with one path in the
/// order they had.
pub open spec fn is_sorting_of(sorted: Seq<EntryView>, entries: Seq<EntryView>) -> bool {
    &&& is_sorted(sorted)
    &&& forall|path: Seq<u8>| #[trigger] at_path(sorted, path) == at_path(entries, path)
}

proof fn lemma_at_path_concat(front: Seq<EntryView>, back: Seq<EntryView>, path: Seq<u8>)
    ensures
        at_path(front + back, path) == at_path(front, path) + at_path(back, path),
{
    Seq::filter_distributes_over_add(front, back, |e: EntryView| key(e) == path);
}

proof fn lemma_at_path_one(entry: EntryView, path: Seq<u8>)
    ensures
        at_path(seq![entry], path) == (if key(entry) == path {
            seq![entry]
        } else {
            Seq::empty()
        }),
{
    reveal(Seq::filter);
    let one = seq![entry];
    assert(one.drop_last() =~= Seq::empty());
    reveal_with_fuel(Seq::filter, 2);
    assert(at_path(one, path) =~= (if key(entry) == path {
        seq![entry]
    } else {
        Seq::empty()
    }));
}

proof fn lemma_at_path_none(entries: Seq<EntryView>, path: Seq<u8>)
    requires
        forall|i: int| 0 <= i < entries.len() ==> key(#[trigger] entries[i]) != path,
    ensures
        at_path(entries, path) == Seq::<EntryView>::empty(),
{
    entries.lemma_all_neg_filter_empty(|e: EntryView| key(e) == path);
    assert(at_path(entries, path) =~= Seq::empty());
}

/// Whether everything in `front` may stand before everything in `back`.
spec fn precedes(front: Seq<EntryView>, back: Seq<EntryView>) -> bool {
    forall|i: int, j: int|
        0 <= i < front.len() && 0 <= j < back.len() ==> text::bytes_le(
            key(#[trigger] front[i]),
            key(#[trigger] back[j]),
        )
}

fn entry_is_before(a: &FileEntry, b: &FileEntry) -> (res: bool)
    ensures
        res == text::bytes_le(key(a@), key(b@)),
{
    text::is_before(a.path.as_str().as_bytes(), b.path.as_str().as_bytes())
}

proof fn lemma_push_sorted(
    out: Seq<EntryView>,
    next: EntryView,
    rest: Seq<EntryView>,
    other: Seq<EntryView>,
)
    requires
        is_sorted(out),
        precedes(out, seq![next]),
        precedes(out, rest),
        precedes(out, other),
        forall|j: int| 0 <= j < rest.len() ==> text::bytes_le(key(next), key(#[trigger] rest[j])),
        forall|j: int| 0 <= j < other.len() ==> text::bytes_le(key(next), key(#[trigger] other[j])),
    ensures
        is_sorted(out.push(next)),
        precedes(out.push(next), rest),
        precedes(out.push(next), other),
{
    let longer = out.push(next);
    text::lemma_bytes_le_reflexive(key(next));
    assert forall|i: int, j: int| 0 <= i <= j < longer.len() implies text::bytes_le(
        key(#[trigger] longer[i]),
        key(#[trigger] longer[j]),
    ) by {
        if j == out.len() && i < out.len() {
            assert(text::bytes_le(key(out[i]), key(seq![next][0])));
        }
    }
}

/// Merges two sorted runs; of entries with one path those of the first come first.
fn merge(a: &Vec<FileEntry>, b: &Vec<FileEntry>) -> (res: Vec<FileEntry>)
    requires
        is_sorted(views(a@)),
        is_sorted(views(b@)),
    ensures
        is_sorting_of(views(res@), views(a@) + views(b@)),
{
    let ghost va = views(a@);
    let ghost vb = views(b@);
    let mut res: Vec<FileEntry> = Vec::new();
    let mut i: usize = 0;
    let mut j: usize = 0;
    proof {
        assert(va.skip(0) =~= va);
        assert(vb.skip(0) =~= vb);
        assert forall|path: Seq<u8>| #[trigger] at_path(views(res@), path) + at_path(
            va.skip(0),
            path,
        ) + at_path(vb.skip(0), path) == at_path(va, path) + at_path(vb, path) by {
            lemma_at_path_none(views(res@), path);
            assert(at_path(views(res@), path) + at_path(va, path) =~= at_path(va, path));
        }
    }
    while i < a.len() || j < b.len()
        invariant
            i <= a@.len(),
            j <= b@.len(),
            va == views(a@),
            vb == views(b@),
            is_sorted(va),
            is_sorted(vb),
            is_sorted(views(res@)),
            precedes(views(res@), va.skip(i as int)),
            precedes(views(res@), vb.skip(j as int)),
            forall|path: Seq<u8>|
                #[trigger] at_path(views(res@), path) + at_path(va.skip(i as int), path) + at_path(
                    vb.skip(j as int),
                    path,
                ) == at_path(va, path) + at_path(vb, path),
        decreases a@.len() - i + b@.len() - j,
    {
        let from_a: bool = if i == a.len() {
            false
        } else if j == b.len() {
            true
        } else {
            entry_is_before(&a[i], &b[j])
        };
        let ghost before = views(res@);
        let ghost rest_a = va.skip(i as int);
        let ghost rest_b = vb.skip(j as int);
        if from_a {
            let entry: FileEntry = a[i].clone();
            let ghost next = entry@;
            res.push(entry);
            proof {
                let tail = va.skip(i + 1);
                assert(rest_a =~= seq![next] + tail);
                assert(views(res@) =~= before.push(next));
                assert(next == rest_a[0]);
                assert(forall|k: int| 0 <= k < tail.len() ==> #[trigger] tail[k] == rest_a[k + 1]);
                assert(forall|k: int|
                    0 <= k < tail.len() ==> text::bytes_le(key(va[i as int]), key(#[trigger] va[i + 1
                        + k])));
                assert forall|k: int| 0 <= k < rest_b.len() implies text::bytes_le(
                    key(next),
                    key(#[trigger] rest_b[k]),
                ) by {
                    assert(text::bytes_le(key(vb[j as int]), key(vb[j + k])));
                    text::lemma_bytes_le_transitive(key(next), key(vb[j as int]), key(vb[j + k]));
                }
                lemma_push_sorted(before, next, tail, rest_b);
                assert forall|path: Seq<u8>| #[trigger] at_path(views(res@), path) + at_path(
                    tail,
                    path,
                ) + at_path(rest_b, path) == at_path(va, path) + at_path(vb, path) by {
                    lemma_at_path_concat(before, seq![next], path);
                    lemma_at_path_concat(seq![next], tail, path);
                    assert(before + seq![next] =~= before.push(next));
                    assert(at_path(before, path) + at_path(rest_a, path) + at_path(rest_b, path)
                        == at_path(va, path) + at_path(vb, path));
                    assert(at_path(before, path) + (at_path(seq![next], path) + at_path(tail, path))
                        =~= (at_path(before, path) + at_path(seq![next], path)) + at_path(
                        tail,
                        path,
                    ));
                }
            }
            i = i + 1;
        } else {
            let entry: FileEntry = b[j].clone();
            let ghost next = entry@;
            res.push(entry);
            proof {
                let tail = vb.skip(j + 1);
                assert(rest_b =~= seq![next] + tail);
                assert(views(res@) =~= before.push(next));
                assert(next == rest_b[0]);
                assert(forall|k: int| 0 <= k < tail.len() ==> #[trigger] tail[k] == rest_b[k + 1]);
                assert(forall|k: int|
                    0 <= k < tail.len() ==> text::bytes_le(key(vb[j as int]), key(#[trigger] vb[j + 1
                        + k])));
                assert forall|k: int| 0 <= k < rest_a.len() implies text::bytes_le(
                    key(next),
                    key(#[trigger] rest_a[k]),
                ) && key(rest_a[k]) != key(next) by {
                    assert(text::bytes_le(key(va[i as int]), key(va[i + k])));
                    text::lemma_bytes_le_total(key(va[i as int]), key(next));
                    text::lemma_bytes_le_transitive(key(next), key(va[i as int]), key(va[i + k]));
                }
                lemma_push_sorted(before, next, tail, rest_a);
                assert forall|path: Seq<u8>| #[trigger] at_path(views(res@), path) + at_path(
                    rest_a,
                    path,
                ) + at_path(tail, path) == at_path(va, path) + at_path(vb, path) by {
                    lemma_at_path_concat(before, seq![next], path);
                    lemma_at_path_concat(seq![next], tail, path);
                    lemma_at_path_one(next, path);
                    assert(before + seq![next] =~= before.push(next));
                    assert(at_path(before, path) + at_path(rest_a, path) + at_path(rest_b, path)
                        == at_path(va, path) + at_path(vb, path));
                    if key(next) == path {
                        lemma_at_path_none(rest_a, path);
                    }
                    assert(at_path(before, path) + at_path(rest_a, path) + (at_path(
                        seq![next],
                        path,
                    ) + at_path(tail, path)) =~= (at_path(before, path) + at_path(
                        seq![next],
                        path,
                    )) + at_path(rest_a, path) + at_path(tail, path));
                }
            }
            j = j + 1;
        }
    }
    proof {
        assert forall|path: Seq<u8>| #[trigger] at_path(views(res@), path) == at_path(
            va + vb,
            path,
        ) by {
            lemma_at_path_concat(va, vb, path);
            lemma_at_path_none(va.skip(i as int), path);
            lemma_at_path_none(vb.skip(j as int), path);
            let none = Seq::<EntryView>::empty();
            assert(at_path(views(res@), path) + none + none =~= at_path(views(res@), path));
        }
    }
    res
}

/// Puts entries in the order of their paths, those with one path in the order they had.
pub fn sort_entries(entries: Vec<FileEntry>) -> (res: Vec<FileEntry>)
    ensures
        is_sorting_of(views(res@), views(entries@)),
    decreases entries@.len(),
{
    let size: usize = entries.len();
    if size < 2 {
        proof {
            let all = views(entries@);
            assert forall|i: int, j: int| 0 <= i <= j < all.len() implies text::bytes_le(
                key(#[trigger] all[i]),
                key(#[trigger] all[j]),
            ) by {
                text::lemma_bytes_le_reflexive(key(all[i]));
            }
        }
        return entries;
    }
    let mut front: Vec<FileEntry> = entries;
    let ghost all = views(front@);
    let back: Vec<FileEntry> = front.split_off(size / 2);
    let ghost va = views(front@);
    let ghost vb = views(back@);
    assert(va + vb =~= all);
    let sorted_front: Vec<FileEntry> = sort_entries(front);
    let sorted_back: Vec<FileEntry> = sort_entries(back);
    let res: Vec<FileEntry> = merge(&sorted_front, &sorted_back);
    proof {
        assert forall|path: Seq<u8>| #[trigger] at_path(views(res@), path) == at_path(all, path) by {
            lemma_at_path_concat(va, vb, path);
            lemma_at_path_concat(views(sorted_front@), views(sorted_back@), path);
            assert(at_path(views(sorted_front@), path) == at_path(va, path));
            assert(at_path(views(sorted_back@), path) == at_path(vb, path));
        }
    }
    res
}

/// A number for a list of entries, out of their sizes, times and the lengths of their paths.
pub open spec fn root_hash_of(entries: Seq<EntryView>) -> u64
    decreases entries.len(),
{
    if entries.len() == 0 {
        0
    } else {
        let last = entries.last();
        root_hash_of(entries.drop_last()).wrapping_mul(31).wrapping_add(last.size).wrapping_add(
            last.modified,
        ).wrapping_add(key(last).len() as u64)
    }
}

/// Whether an entry stands for one that was found and not left out.
pub open spec fn is_listed_from(entry: EntryView, found: Seq<EntryView>) -> bool {
    exists|j: int|
        0 <= j < found.len() && !is_left_out((#[trigger] found[j]).path) && entry == in_slashes(
            found[j],
        )
}

/// What is sorted holds nothing that was left out.
proof fn lemma_sorting_keeps(sorted: Seq<EntryView>, found: Seq<EntryView>)
    requires
        is_sorting_of(sorted, listing_of(found)),
    ensures
        forall|i: int| 0 <= i < sorted.len() ==> is_listed_from(#[trigger] sorted[i], found),
{
    assert forall|i: int| 0 <= i < sorted.len() implies is_listed_from(
        #[trigger] sorted[i],
        found,
    ) by {
        let entry = sorted[i];
        let path = key(entry);
        let same = |e: EntryView| key(e) == path;
        let stays = |e: EntryView| !is_left_out(e.path);
        sorted.lemma_filter_contains(same, i);
        assert(at_path(sorted, path) == at_path(listing_of(found), path));
        listing_of(found).lemma_filter_contains_rev(same, entry);
        let n = choose|n: int| 0 <= n < listing_of(found).len() && listing_of(found)[n] == entry;
        let from = kept(found)[n];
        found.lemma_filter_pred(stays, n);
        assert(kept(found).contains(from));
        found.lemma_filter_contains_rev(stays, from);
        let j = choose|j: int| 0 <= j < found.len() && found[j] == from;
        assert(!is_left_out(found[j].path));
    }
}

/// The sum of the sizes of entries.
pub open spec fn sizes_total(entries: Seq<EntryView>) -> nat
    decreases entries.len(),
{
    if entries.len() == 0 {
        0
    } else {
        sizes_total(entries.drop_last()) + entries.last().size as nat
    }
}

proof fn lemma_sizes_total_grows(entries: Seq<EntryView>, n: int)
    requires
        0 <= n <= entries.len(),
    ensures
        sizes_total(entries.take(n)) <= sizes_total(entries),
    decreases entries.len(),
{
    if n < entries.len() {
        lemma_sizes_total_grows(entries.drop_last(), n);
        assert(entries.drop_last().take(n) =~= entries.take(n));
    } else {
        assert(entries.take(n) =~= entries);
    }
}

/// What a directory holds.
#[derive(Debug)]
pub struct Manifest {
    pub entries: Vec<FileEntry>,
    pub root_hash: u64,
}

impl Manifest {
    /// The entries, in order.
    pub open spec fn listed(&self) -> Seq<EntryView> {
        views(self.entries@)
    }

    pub fn new(entries: Vec<FileEntry>) -> (res: Self)
        ensures
            res.entries == entries,
            res.root_hash == root_hash_of(views(entries@)),
    {
        let root_hash: u64 = Self::compute_hash(entries.as_slice());
        Manifest { entries, root_hash }
    }

    pub fn compute_hash(entries: &[FileEntry]) -> (hash: u64)
        ensures
            hash == root_hash_of(views(entries@)),
    {
        let ghost all = views(entries@);
        let mut hash: u64 = 0;
        let mut i: usize = 0;
        assert(all.take(0) =~= Seq::empty());
        while i < entries.len()
            invariant
                i <= entries@.len(),
                all == views(entries@),
                hash == root_hash_of(all.take(i as int)),
            decreases entries@.len() - i,
        {
            assert(all.take(i + 1).drop_last() =~= all.take(i as int));
            let entry: &FileEntry = &entries[i];
            hash = hash.wrapping_mul(31).wrapping_add(entry.size).wrapping_add(
                entry.modified,
            ).wrapping_add(entry.path.as_str().as_bytes().len() as u64);
            i = i + 1;
        }
        assert(all.take(i as int) =~= all);
        hash
    }

    /// The manifest of what a walk found, in whatever order it came, without what lies at or
    /// below an ignored name.
    pub fn from_walk(found: Vec<FileEntry>) -> (res: Self)
        ensures
            is_sorting_of(res.listed(), listing_of(views(found@))),
            forall|i: int|
                0 <= i < res.listed().len() ==> is_listed_from(
                    #[trigger] res.listed()[i],
                    views(found@),
                ),
            forall|i: int|
                0 <= i < res.entries@.len() ==> exists|j: int|
                    {
                        &&& 0 <= j < found@.len()
                        &&& (#[trigger] res.entries@[i]).path@ == text::with_slashes(
                            (#[trigger] found@[j]).path@,
                        )
                        &&& res.entries@[i].size == found@[j].size
                        &&& res.entries@[i].modified == found@[j].modified
                        &&& res.entries@[i].is_dir == found@[j].is_dir
                        &&& match (res.entries@[i].checksum, found@[j].checksum) {
                            (Some(a), Some(b)) => a@ == b@,
                            (None, None) => true,
                            _ => false,
                        }
                    },
            res.root_hash == root_hash_of(res.listed()),
    {
        let entries: Vec<FileEntry> = keep_entries(&found);
        let sorted: Vec<FileEntry> = sort_entries(entries);
        proof {
            let all = views(sorted@);
            lemma_sorting_keeps(all, views(found@));
            assert forall|i: int| 0 <= i < sorted@.len() implies exists|j: int|
                {
                    &&& 0 <= j < found@.len()
                    &&& (#[trigger] sorted@[i]).path@ == text::with_slashes(
                        (#[trigger] found@[j]).path@,
                    )
                    &&& sorted@[i].size == found@[j].size
                    &&& sorted@[i].modified == found@[j].modified
                    &&& sorted@[i].is_dir == found@[j].is_dir
                    &&& match (sorted@[i].checksum, found@[j].checksum) {
                        (Some(a), Some(b)) => a@ == b@,
                        (None, None) => true,
                        _ => false,
                    }
                } by {
                let j = law_listed_was_found(all, views(found@), i);
                assert(all[i] == sorted@[i]@);
                assert(views(found@)[j] == found@[j]@);
                assert(all[i].path =~= text::with_slashes(found@[j].path@));
            }
        }
        Manifest::new(sorted)
    }

    /// The first entry with this path.
    pub fn find_entry(&self, path: &str) -> (res: Option<&FileEntry>)
        ensures
            match res {
                Some(entry) => exists|i: int|
                    0 <= i < self.entries@.len() && #[trigger] self.entries@[i] == *entry
                        && entry.path@ == path@ && forall|j: int|
                        0 <= j < i ==> (#[trigger] self.entries@[j]).path@ != path@,
                None => forall|j: int|
                    0 <= j < self.entries@.len() ==> (#[trigger] self.entries@[j]).path@ != path@,
            },
    {
        let wanted: String = path.to_owned();
        let mut i: usize = 0;
        while i < self.entries.len()
            invariant
                i <= self.entries@.len(),
                wanted@ == path@,
                forall|j: int| 0 <= j < i ==> (#[trigger] self.entries@[j]).path@ != path@,
            decreases self.entries@.len() - i,
        {
            if self.entries[i].path == wanted {
                return Some(&self.entries[i]);
            }
            i = i + 1;
        }
        None
    }

    pub fn len(&self) -> (res: usize)
        ensures
            res == self.entries@.len(),
    {
        self.entries.len()
    }

    pub fn is_empty(&self) -> (res: bool)
        ensures
            res == (self.entries@.len() == 0),
    {
        self.entries.len() == 0
    }

    /// The sum of the sizes of the entries.
    pub fn total_size(&self) -> (res: u64)
        requires
            sizes_total(self.listed()) <= u64::MAX,
        ensures
            res == sizes_total(self.listed()),
    {
        let ghost all = self.listed();
        let mut total: u64 = 0;
        let mut i: usize = 0;
        assert(all.take(0) =~= Seq::empty());
        while i < self.entries.len()
            invariant
                i <= self.entries@.len(),
                all == self.listed(),
                sizes_total(all) <= u64::MAX,
                total == sizes_total(all.take(i as int)),
            decreases self.entries@.len() - i,
        {
            proof {
                assert(all.take(i + 1).drop_last() =~= all.take(i as int));
                lemma_sizes_total_grows(all, i + 1);
            }
            total = total + self.entries[i].size;
            i = i + 1;
        }
        assert(all.take(i as int) =~= all);
        total
    }
}

impl Clone for Manifest {
    fn clone(&self) -> (res: Self)
        ensures
            res.listed() == self.listed(),
            res.root_hash == self.root_hash,
    {
        let mut entries: Vec<FileEntry> = Vec::new();
        let mut i: usize = 0;
        assert(views(entries@) =~= self.listed().take(0));
        while i < self.entries.len()
            invariant
                i <= self.entries@.len(),
                views(entries@) == self.listed().take(i as int),
            decreases self.entries@.len() - i,
        {
            let ghost before = views(entries@);
            let entry: FileEntry = self.entries[i].clone();
            let ghost shown = entry@;
            entries.push(entry);
            proof {
                assert(views(entries@) =~= before.push(shown));
                assert(self.listed().take(i + 1) =~= self.listed().take(i as int).push(shown));
            }
            i = i + 1;
        }
        assert(self.listed().take(i as int) =~= self.listed());
        Manifest { entries, root_hash: self.root_hash }
    }
}

/// An entry of a manifest stands for one that the walk found, with the same size, time of change,
/// kind and checksum, and the same path but for backslashes, which have become slashes; no name in
/// the path that was found is ignored.
pub proof fn law_listed_was_found(sorted: Seq<EntryView>, found: Seq<EntryView>, i: int) -> (j: int)
    requires
        is_sorting_of(sorted, listing_of(found)),
        0 <= i < sorted.len(),
    ensures
        0 <= j < found.len(),
        sorted[i].size == found[j].size,
        sorted[i].modified == found[j].modified,
        sorted[i].is_dir == found[j].is_dir,
        sorted[i].checksum == found[j].checksum,
        sorted[i].path.len() == found[j].path.len(),
        forall|c: int|
            0 <= c < found[j].path.len() ==> #[trigger] sorted[i].path[c] == (if found[j].path[c]
                == '\\' {
                '/'
            } else {
                found[j].path[c]
            }),
        forall|a: int, b: int|
            0 <= a <= b <= found[j].path.len() && (a == 0 || found[j].path[a - 1] == '/') && (b
                == found[j].path.len() || found[j].path[b] == '/') && (forall|c: int|
                a <= c < b ==> #[trigger] found[j].path[c] != '/') ==> {
                let name = #[trigger] found[j].path.subrange(a, b);
                name != "target"@ && name != "node_modules"@ && name != ".git"@
            },
{
    lemma_sorting_keeps(sorted, found);
    assert(is_listed_from(sorted[i], found));
    let j = choose|j: int|
        0 <= j < found.len() && !is_left_out((#[trigger] found[j]).path) && sorted[i]
            == in_slashes(found[j]);
    assert forall|a: int, b: int|
        0 <= a <= b <= found[j].path.len() && (a == 0 || found[j].path[a - 1] == '/') && (b
            == found[j].path.len() || found[j].path[b] == '/') && (forall|c: int|
            a <= c < b ==> #[trigger] found[j].path[c] != '/') implies {
        let name = #[trigger] found[j].path.subrange(a, b);
        name != "target"@ && name != "node_modules"@ && name != ".git"@
    } by {
        assert(is_name_of(found[j].path, a, b));
    }
    j
}

/// Whatever a walk found is listed, as long as no name in its path is ignored.
pub proof fn law_found_is_listed(sorted: Seq<EntryView>, found: Seq<EntryView>, j: int) -> (i: int)
    requires
        is_sorting_of(sorted, listing_of(found)),
        0 <= j < found.len(),
        forall|a: int, b: int|
            0 <= a <= b <= found[j].path.len() && (a == 0 || found[j].path[a - 1] == '/') && (b
                == found[j].path.len() || found[j].path[b] == '/') && (forall|c: int|
                a <= c < b ==> #[trigger] found[j].path[c] != '/') ==> {
                let name = #[trigger] found[j].path.subrange(a, b);
                name != "target"@ && name != "node_modules"@ && name != ".git"@
            },
    ensures
        0 <= i < sorted.len(),
        sorted[i].size == found[j].size,
        sorted[i].modified == found[j].modified,
        sorted[i].is_dir == found[j].is_dir,
        sorted[i].checksum == found[j].checksum,
        sorted[i].path.len() == found[j].path.len(),
        forall|c: int|
            0 <= c < found[j].path.len() ==> #[trigger] sorted[i].path[c] == (if found[j].path[c]
                == '\\' {
                '/'
            } else {
                found[j].path[c]
            }),
{
    let stays = |e: EntryView| !is_left_out(e.path);
    if is_left_out(found[j].path) {
        let (a, b) = choose|a: int, b: int|
            #[trigger] is_name_of(found[j].path, a, b) && is_ignored(found[j].path.subrange(a, b));
        let name = found[j].path.subrange(a, b);
        assert(false);
    }
    found.lemma_filter_contains(stays, j);
    let n = choose|n: int| 0 <= n < kept(found).len() && kept(found)[n] == found[j];
    let entry = in_slashes(found[j]);
    let listing = listing_of(found);
    assert(listing[n] == entry);
    let path = key(entry);
    let same = |e: EntryView| key(e) == path;
    listing.lemma_filter_contains(same, n);
    assert(at_path(sorted, path) == at_path(listing, path));
    assert(at_path(sorted, path).contains(entry));
    sorted.lemma_filter_contains_rev(same, entry);
    let i = choose|i: int| 0 <= i < sorted.len() && sorted[i] == entry;
    i
}

/// Taking only what a test lets through leaves what it lets through as often as it was.
proof fn lemma_filter_counts(
    entries: Seq<EntryView>,
    test: spec_fn(EntryView) -> bool,
    entry: EntryView,
)
    requires
        test(entry),
    ensures
        entries.filter(test).to_multiset().count(entry) == entries.to_multiset().count(entry),
    decreases entries.len(),
{
    reveal(Seq::filter);
    broadcast use vstd::seq_lib::group_to_multiset_ensures;

    if entries.len() > 0 {
        let front = entries.drop_last();
        lemma_filter_counts(front, test, entry);
        assert(front.push(entries.last()) =~= entries);
    } else {
        assert(entries.filter(test) =~= entries);
    }
}

/// Sorting loses nothing and adds nothing.
pub proof fn law_sorting_keeps_all(sorted: Seq<EntryView>, entries: Seq<EntryView>)
    requires
        is_sorting_of(sorted, entries),
    ensures
        sorted.to_multiset() == entries.to_multiset(),
        sorted.len() == entries.len(),
{
    broadcast use vstd::seq_lib::group_to_multiset_ensures;

    assert forall|entry: EntryView|
        #[trigger] sorted.to_multiset().count(entry) == entries.to_multiset().count(entry) by {
        let path = key(entry);
        let same = |e: EntryView| key(e) == path;
        assert(at_path(sorted, path) == at_path(entries, path));
        lemma_filter_counts(sorted, same, entry);
        lemma_filter_counts(entries, same, entry);
    }
    assert(sorted.to_multiset() =~= entries.to_multiset());
    assert(sorted.to_multiset().len() == sorted.len());
    assert(entries.to_multiset().len() == entries.len());
}

/// Sorting puts the bytes of the paths in the order of a dictionary: of two entries the first has
/// a path that the other's goes on from, or the smaller byte where the two first differ.
pub proof fn law_sorting_orders(sorted: Seq<EntryView>, entries: Seq<EntryView>, i: int, j: int) -> (
    n: int)
    requires
        is_sorting_of(sorted, entries),
        0 <= i < j < sorted.len(),
    ensures
        ({
            let a = vstd::utf8::encode_utf8(sorted[i].path);
            let b = vstd::utf8::encode_utf8(sorted[j].path);
            &&& 0 <= n <= a.len()
            &&& n <= b.len()
            &&& a.take(n) == b.take(n)
            &&& n == a.len() || n < b.len() && a[n] < b[n]
        }),
{
    assert(text::bytes_le(key(sorted[i]), key(sorted[j])));
    text::law_dictionary_order(key(sorted[i]), key(sorted[j]))
}

/// The hash of a list with one more entry: 31 times that of the list, and the size, the time of
/// change and the number of bytes in the path of the entry, in 64 bits.
pub proof fn law_root_hash_step(entries: Seq<EntryView>, entry: EntryView)
    ensures
        root_hash_of(Seq::empty()) == 0,
        root_hash_of(entries.push(entry)) == root_hash_of(entries).wrapping_mul(31).wrapping_add(
            entry.size,
        ).wrapping_add(entry.modified).wrapping_add(
            vstd::utf8::encode_utf8(entry.path).len() as u64,
        ),
{
    assert(entries.push(entry).drop_last() =~= entries);
}

/// The sizes of two lists together are those of the one and those of the other, and that of one
/// entry is its size.
pub proof fn law_sizes_add_up(front: Seq<EntryView>, back: Seq<EntryView>, entry: EntryView)
    ensures
        sizes_total(front + back) == sizes_total(front) + sizes_total(back),
        sizes_total(seq![entry]) == entry.size,
    decreases back.len(),
{
    let one = seq![entry];
    assert(one.drop_last() =~= Seq::empty());
    assert(sizes_total(one) == sizes_total(one.drop_last()) + one.last().size);
    if back.len() == 0 {
        assert(front + back =~= front);
    } else {
        law_sizes_add_up(front, back.drop_last(), entry);
        assert((front + back).drop_last() =~= front + back.drop_last());
    }
}

/// What is known of an entry is what its fields hold, and a list is known entry by entry.
pub proof fn law_entries_are_known(entries: Seq<FileEntry>, i: int)
    requires
        0 <= i < entries.len(),
    ensures
        views(entries).len() == entries.len(),
        views(entries)[i].path == entries[i].path@,
        views(entries)[i].size == entries[i].size,
        views(entries)[i].modified == entries[i].modified,
        views(entries)[i].is_dir == entries[i].is_dir,
        match entries[i].checksum {
            Some(checksum) => views(entries)[i].checksum == Some(checksum@),
            None => views(entries)[i].checksum == None::<Seq<u8>>,
        },
{
}

/// Every file that holds anything has a checksum, however large it is; nothing else has one.
pub proof fn law_files_with_content_have_checksums(entry: FileEntry)
    ensures
        entry.wants_checksum() <==> !entry.is_dir && entry.size > 0,
{
}

} // verus!
