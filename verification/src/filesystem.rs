//! The file tree: folders and files loaded lazily, a flattened view of the open folders, a
//! cursor in that view, and the peeked item whose ancestors are shown open.
//!
//! Loading runs outside the library: the operations that need a folder, an orphan file or a
//! buffer loaded return an `FsTask`, and the result comes back through `handle_event`.
use vstd::prelude::*;
use crate::buffer::Buffer;
use crate::file::File;
use crate::folder::Folder;
use crate::keys::{FileKey, FolderKey, Item};
use crate::slots::{odd_version, file_slots, files_contains, folders_contains, files_len, folders_len, files_get, files_get_mut, files_insert, files_new, folder_slots, folders_get, folders_get_mut, folders_insert, folders_new, slot_limit, Store};
use crate::text::{owned, parent_path_of, path_parent};

verus! {

/// A background load that the caller runs and answers with an `FSEvent`.
#[allow(inconsistent_fields)]
pub enum FsTask {
    /// Read the entries of a folder, then answer `FolderLoaded`.
    LoadFolder { key: FolderKey, path: String },
    /// Load a file that is not in the tree yet (with its buffer if asked), then answer
    /// `OrphanLoaded`.
    LoadOrphan { path: String, buffer: bool },
    /// Read the contents of a file, then answer `BufferLoaded`.
    LoadBuffer { key: FileKey, path: String },
}

/// Background task events used to sync the filesystem state.
#[allow(inconsistent_fields)]
pub enum FSEvent {
    FolderLoaded { key: FolderKey, files: Vec<File>, folders: Vec<Folder> },
    OrphanLoaded(File),
    BufferLoaded { key: FileKey, buffer: Buffer },
}

// ************************************************************************* //
//                              TREE MODEL                                   //
// ************************************************************************* //

/// The view entries of a list of sibling folders at a depth: each folder, followed by the
/// entries of its own contents when it is open or peeked.
pub open spec fn folder_entries(
    folders: Map<u64, Folder>,
    list: Seq<FolderKey>,
    depth: nat,
    fuel: nat,
) -> Seq<(Item, usize)>
    decreases fuel, list.len(),
{
    if list.len() == 0 {
        Seq::empty()
    } else {
        let k = list.last();
        let sub = if folders.contains_key(k.0) && (folders[k.0].open || folders[k.0].peeked) {
            flatten(folders, k.0, depth + 1, fuel)
        } else {
            Seq::empty()
        };
        folder_entries(folders, list.drop_last(), depth, fuel).push((Item::Folder(k), depth as usize))
            + sub
    }
}

/// The view entries of a list of sibling files at a depth.
pub open spec fn file_entries(list: Seq<FileKey>, depth: nat) -> Seq<(Item, usize)> {
    list.map_values(|f: FileKey| (Item::File(f), depth as usize))
}

/// The flattened contents of a folder, its child folders first (each followed by its own
/// contents when open or peeked), then its child files, all at `depth`.
pub open spec fn flatten(folders: Map<u64, Folder>, key: u64, depth: nat, fuel: nat) -> Seq<(Item, usize)>
    decreases fuel, 0nat,
{
    if fuel == 0 || !folders.contains_key(key) {
        Seq::empty()
    } else {
        folder_entries(folders, folders[key].child_folders@, depth, (fuel - 1) as nat)
            + file_entries(folders[key].child_files@, depth)
    }
}

/// The folders above a folder, following parent links for at most `fuel` steps.
pub open spec fn folder_ancestors(folders: Map<u64, Folder>, k: u64, fuel: nat) -> Set<u64>
    decreases fuel,
{
    if fuel == 0 || !folders.contains_key(k) {
        Set::empty()
    } else {
        match folders[k].parent {
            None => Set::empty(),
            Some(p) => folder_ancestors(folders, p.0, (fuel - 1) as nat).insert(p.0),
        }
    }
}

/// The shape of the tree: every folder has a depth no greater than `height`; child links
/// point to stored nodes one level deeper whose parent link points back; every parent link
/// points to a stored folder one level up that lists the child; files point to stored parents.
pub open spec fn tree_ok(
    folders: Map<u64, Folder>,
    files: Map<u64, File>,
    depth: Map<u64, nat>,
    height: nat,
) -> bool {
    &&& folders.dom().finite()
    &&& files.dom().finite()
    &&& height <= folders.len()
    &&& folders.len() < slot_limit()
    &&& files.len() < slot_limit()
    &&& forall|k: u64| #[trigger] folders.contains_key(k) ==> depth.contains_key(k) && depth[k] <= height
    &&& forall|k: u64, i: int|
        folders.contains_key(k) && 0 <= i < folders[k].child_folders@.len() ==> {
            let c = #[trigger] folders[k].child_folders@[i];
            &&& folders.contains_key(c.0)
            &&& depth[c.0] == depth[k] + 1
            &&& folders[c.0].parent == Some(FolderKey(k))
        }
    &&& forall|k: u64, i: int|
        folders.contains_key(k) && 0 <= i < folders[k].child_files@.len() ==> files.contains_key(
            (#[trigger] folders[k].child_files@[i]).0,
        )
    &&& forall|k: u64| #[trigger] folders.contains_key(k) ==> match folders[k].parent {
            None => depth[k] == 0,
            Some(p) => {
                &&& folders.contains_key(p.0)
                &&& depth[k] == depth[p.0] + 1
                &&& folders[p.0].child_folders@.contains(FolderKey(k))
            },
        }
    &&& forall|f: u64| #[trigger] files.contains_key(f) ==> match files[f].parent {
            None => true,
            Some(p) => folders.contains_key(p.0),
        }
}

/// A file as a loaded folder takes it in: an orphan (a file with no parent) gets the folder
/// as its parent; a file with a parent stays as it is.
pub open spec fn adopted(f: File, key: FolderKey) -> File {
    if f.parent is None { File { parent: Some(key), ..f } } else { f }
}

/// First entry of an association list of paths whose path is `p`.
pub open spec fn lookup(list: Seq<(String, Item)>, p: Seq<char>) -> Option<Item>
    decreases list.len(),
{
    if list.len() == 0 {
        None
    } else if list[0].0@ == p {
        Some(list[0].1)
    } else {
        lookup(list.drop_first(), p)
    }
}

/// Recursively flatten the contents of a folder into `view`.
fn recurse_view(
    view: &mut Vec<(Item, usize)>,
    folders: &Store<Folder>,
    key: FolderKey,
    depth: usize,
    Ghost(files): Ghost<Map<u64, File>>,
    Ghost(dm): Ghost<Map<u64, nat>>,
    Ghost(height): Ghost<nat>,
    Ghost(fuel): Ghost<nat>,
)
    requires
        tree_ok(folder_slots(*folders), files, dm, height),
        folder_slots(*folders).contains_key(key.0),
        depth == dm[key.0],
        fuel > height - depth,
    ensures
        final(view)@ == old(view)@ + flatten(folder_slots(*folders), key.0, depth as nat, fuel),
    decreases fuel,
{
    let ghost fm = folder_slots(*folders);
    let ghost start = view@;
    let folder = folders_get(folders, key.0);
    let n = folder.child_folders.len();
    let mut i: usize = 0;
    while i < n
        invariant
            tree_ok(fm, files, dm, height),
            fm == folder_slots(*folders),
            fm.contains_key(key.0),
            *folder == fm[key.0],
            n == folder.child_folders@.len(),
            depth == dm[key.0],
            fuel > height - depth,
            i <= n,
            view@ == start + folder_entries(fm, folder.child_folders@.take(i as int), depth as nat, (fuel - 1) as nat),
        decreases n - i,
    {
        let c = folder.child_folders[i];
        proof {
            assert(fm.contains_key(c.0));
            assert(dm[c.0] == dm[key.0] + 1);
            assert(fm.len() < slot_limit());
        }
        view.push((Item::Folder(c), depth));
        let child = folders_get(folders, c.0);
        if child.open || child.peeked {
            recurse_view(view, folders, c, depth + 1, Ghost(files), Ghost(dm), Ghost(height), Ghost((fuel - 1) as nat));
        }
        proof {
            let l = folder.child_folders@;
            assert(l.take(i + 1).drop_last() =~= l.take(i as int));
            assert(l.take(i + 1).last() == c);
        }
        i += 1;
    }
    proof {
        assert(folder.child_folders@.take(n as int) =~= folder.child_folders@);
    }
    let ghost mid = view@;
    let m = folder.child_files.len();
    let mut j: usize = 0;
    while j < m
        invariant
            m == folder.child_files@.len(),
            j <= m,
            view@ == mid + file_entries(folder.child_files@.take(j as int), depth as nat),
        decreases m - j,
    {
        let f = folder.child_files[j];
        view.push((Item::File(f), depth));
        proof {
            let l = folder.child_files@;
            assert(file_entries(l.take(j + 1), depth as nat) =~= file_entries(l.take(j as int), depth as nat).push((Item::File(f), depth)));
        }
        j += 1;
    }
    proof {
        assert(folder.child_files@.take(m as int) =~= folder.child_files@);
    }
}


/// An index clamped to the last index of a sequence of length `len` (0 when it is empty),
/// saturating at `usize::MAX`.
pub open spec fn clamp_index(index: int, len: int) -> usize {
    let i = if index > usize::MAX { usize::MAX as int } else { index };
    let last = if len == 0 { 0 } else { len - 1 };
    (if i < last { i } else { last }) as usize
}

/// Whether an item's key is stored.
pub open spec fn item_valid(folders: Map<u64, Folder>, files: Map<u64, File>, item: Item) -> bool {
    match item {
        Item::File(k) => files.contains_key(k.0),
        Item::Folder(k) => folders.contains_key(k.0),
    }
}

proof fn lemma_entries_valid(
    fm: Map<u64, Folder>,
    files: Map<u64, File>,
    dm: Map<u64, nat>,
    height: nat,
    list: Seq<FolderKey>,
    depth: nat,
    fuel: nat,
)
    requires
        tree_ok(fm, files, dm, height),
        forall|i: int| 0 <= i < list.len() ==> fm.contains_key((#[trigger] list[i]).0),
    ensures
        forall|i: int| 0 <= i < folder_entries(fm, list, depth, fuel).len() ==> item_valid(
            fm,
            files,
            (#[trigger] folder_entries(fm, list, depth, fuel)[i]).0,
        ),
    decreases fuel, list.len(),
{
    if list.len() > 0 {
        let k = list.last();
        let init = list.drop_last();
        assert forall|i: int| 0 <= i < init.len() implies fm.contains_key((#[trigger] init[i]).0) by {
            assert(init[i] == list[i]);
        }
        lemma_entries_valid(fm, files, dm, height, init, depth, fuel);
        let a = folder_entries(fm, init, depth, fuel).push((Item::Folder(k), depth as usize));
        let sub = if fm.contains_key(k.0) && (fm[k.0].open || fm[k.0].peeked) {
            flatten(fm, k.0, depth + 1, fuel)
        } else {
            Seq::empty()
        };
        if fm.contains_key(k.0) && (fm[k.0].open || fm[k.0].peeked) {
            lemma_flatten_valid(fm, files, dm, height, k.0, depth + 1, fuel);
        }
        assert(fm.contains_key(list[list.len() - 1].0));
        assert forall|i: int| 0 <= i < (a + sub).len() implies item_valid(fm, files, (#[trigger] (a + sub)[i]).0) by {
            if i < a.len() {
                assert((a + sub)[i] == a[i]);
                if i < a.len() - 1 {
                    assert(a[i] == folder_entries(fm, init, depth, fuel)[i]);
                }
            } else {
                assert((a + sub)[i] == sub[i - a.len()]);
            }
        }
        assert(folder_entries(fm, list, depth, fuel) == a + sub);
    }
}

proof fn lemma_flatten_valid(
    fm: Map<u64, Folder>,
    files: Map<u64, File>,
    dm: Map<u64, nat>,
    height: nat,
    key: u64,
    depth: nat,
    fuel: nat,
)
    requires
        tree_ok(fm, files, dm, height),
    ensures
        forall|i: int| 0 <= i < flatten(fm, key, depth, fuel).len() ==> item_valid(
            fm,
            files,
            (#[trigger] flatten(fm, key, depth, fuel)[i]).0,
        ),
    decreases fuel, 0nat,
{
    if fuel > 0 && fm.contains_key(key) {
        let l = fm[key].child_folders@;
        assert forall|i: int| 0 <= i < l.len() implies fm.contains_key((#[trigger] l[i]).0) by {
            assert(fm[key].child_folders@[i] == l[i]);
        }
        lemma_entries_valid(fm, files, dm, height, l, depth, (fuel - 1) as nat);
        let fl = fm[key].child_files@;
        let a = folder_entries(fm, l, depth, (fuel - 1) as nat);
        let b = file_entries(fl, depth);
        assert forall|i: int| 0 <= i < b.len() implies item_valid(fm, files, (#[trigger] b[i]).0) by {
            assert(fm[key].child_files@[i] == fl[i]);
        }
        assert forall|i: int| 0 <= i < (a + b).len() implies item_valid(fm, files, (#[trigger] (a + b)[i]).0) by {
            if i < a.len() {
                assert((a + b)[i] == a[i]);
            } else {
                assert((a + b)[i] == b[i - a.len()]);
            }
        }
    }
}


/// Two folder maps with the same keys, parents and children.
pub open spec fn same_shape(a: Map<u64, Folder>, b: Map<u64, Folder>) -> bool {
    &&& a.dom() == b.dom()
    &&& forall|k: u64| #[trigger] a.contains_key(k) ==> {
        &&& b[k].parent == a[k].parent
        &&& b[k].child_folders@ == a[k].child_folders@
        &&& b[k].child_files@ == a[k].child_files@
    }
}

proof fn lemma_shape_tree_ok(
    a: Map<u64, Folder>,
    b: Map<u64, Folder>,
    files: Map<u64, File>,
    dm: Map<u64, nat>,
    height: nat,
)
    requires
        tree_ok(a, files, dm, height),
        same_shape(a, b),
    ensures
        tree_ok(b, files, dm, height),
{
    assert(a.dom() =~= b.dom());
    assert forall|k: u64, i: int|
        b.contains_key(k) && 0 <= i < b[k].child_folders@.len() implies {
            let c = #[trigger] b[k].child_folders@[i];
            &&& b.contains_key(c.0)
            &&& dm[c.0] == dm[k] + 1
            &&& b[c.0].parent == Some(FolderKey(k))
        } by {
        assert(a.contains_key(k));
        assert(b[k].child_folders@[i] == a[k].child_folders@[i]);
        let c = a[k].child_folders@[i];
        assert(a.contains_key(c.0));
    }
    assert forall|k: u64, i: int|
        b.contains_key(k) && 0 <= i < b[k].child_files@.len() implies files.contains_key(
            (#[trigger] b[k].child_files@[i]).0,
        ) by {
        assert(a.contains_key(k));
        assert(b[k].child_files@[i] == a[k].child_files@[i]);
    }
    assert forall|k: u64| #[trigger] b.contains_key(k) implies match b[k].parent {
            None => dm[k] == 0,
            Some(p) => {
                &&& b.contains_key(p.0)
                &&& dm[k] == dm[p.0] + 1
                &&& b[p.0].child_folders@.contains(FolderKey(k))
            },
        } by {
        assert(a.contains_key(k));
        if let Some(p) = a[k].parent {
            assert(a.contains_key(p.0));
        }
    }
}

/// The ancestors of a stored folder depend only on the parent links, so they stay the same in a
/// map that keeps every stored folder with its parent.
proof fn lemma_ancestors_frame(a: Map<u64, Folder>, b: Map<u64, Folder>, k: u64, fuel: nat)
    requires
        a.contains_key(k),
        forall|j: u64| #[trigger] a.contains_key(j) ==> {
            &&& b.contains_key(j)
            &&& b[j].parent == a[j].parent
            &&& (a[j].parent matches Some(p) ==> a.contains_key(p.0))
        },
    ensures
        folder_ancestors(b, k, fuel) == folder_ancestors(a, k, fuel),
    decreases fuel,
{
    if fuel > 0 {
        if let Some(p) = a[k].parent {
            lemma_ancestors_frame(a, b, p.0, (fuel - 1) as nat);
        }
    }
}


/// Whether folder `k` is `top` or lies below it.
pub open spec fn below(folders: Map<u64, Folder>, depth: Map<u64, nat>, top: u64, k: u64) -> bool {
    k == top || folder_ancestors(folders, k, depth[k]).contains(top)
}

/// Ancestors are stored folders, strictly higher than the folder.
proof fn lemma_ancestors_higher(
    fm: Map<u64, Folder>,
    files: Map<u64, File>,
    dm: Map<u64, nat>,
    height: nat,
    k: u64,
    a: u64,
)
    requires
        tree_ok(fm, files, dm, height),
        fm.contains_key(k),
        folder_ancestors(fm, k, dm[k]).contains(a),
    ensures
        fm.contains_key(a),
        dm[a] < dm[k],
    decreases dm[k],
{
    if let Some(p) = fm[k].parent {
        if p.0 != a {
            lemma_ancestors_higher(fm, files, dm, height, p.0, a);
        }
    }
}

/// Above a folder, an ancestor `top` is reached through one of the children of `top`.
proof fn lemma_ancestor_child(
    fm: Map<u64, Folder>,
    files: Map<u64, File>,
    dm: Map<u64, nat>,
    height: nat,
    top: u64,
    k: u64,
)
    requires
        tree_ok(fm, files, dm, height),
        fm.contains_key(k),
        folder_ancestors(fm, k, dm[k]).contains(top),
    ensures
        exists|c: FolderKey| fm[top].child_folders@.contains(c) && #[trigger] below(fm, dm, c.0, k),
    decreases dm[k],
{
    let p = fm[k].parent->0;
    assert(fm.contains_key(p.0));
    if p.0 == top {
        assert(below(fm, dm, k, k));
    } else {
        lemma_ancestor_child(fm, files, dm, height, top, p.0);
        let c = choose|c: FolderKey| fm[top].child_folders@.contains(c) && #[trigger] below(fm, dm, c.0, p.0);
        assert(below(fm, dm, c.0, k));
    }
}

/// An ancestor of an ancestor is an ancestor.
proof fn lemma_ancestor_trans(
    fm: Map<u64, Folder>,
    files: Map<u64, File>,
    dm: Map<u64, nat>,
    height: nat,
    top: u64,
    c: u64,
    k: u64,
)
    requires
        tree_ok(fm, files, dm, height),
        fm.contains_key(k),
        folder_ancestors(fm, k, dm[k]).contains(c),
        folder_ancestors(fm, c, dm[c]).contains(top),
    ensures
        folder_ancestors(fm, k, dm[k]).contains(top),
    decreases dm[k],
{
    let p = fm[k].parent->0;
    assert(fm.contains_key(p.0));
    if p.0 != c {
        lemma_ancestor_trans(fm, files, dm, height, top, c, p.0);
    }
}

/// Closing or unpeeking folders never lengthens the flattened view.
proof fn lemma_entries_shrink(a: Map<u64, Folder>, b: Map<u64, Folder>, list: Seq<FolderKey>, depth: nat, fuel: nat)
    requires
        same_shape(a, b),
        forall|k: u64| #[trigger] a.contains_key(k) && (b[k].open || b[k].peeked) ==> (a[k].open || a[k].peeked),
    ensures
        folder_entries(b, list, depth, fuel).len() <= folder_entries(a, list, depth, fuel).len(),
    decreases fuel, list.len(),
{
    if list.len() > 0 {
        let k = list.last();
        lemma_entries_shrink(a, b, list.drop_last(), depth, fuel);
        assert(a.contains_key(k.0) == b.contains_key(k.0));
        if b.contains_key(k.0) && (b[k.0].open || b[k.0].peeked) {
            lemma_flatten_shrink(a, b, k.0, depth + 1, fuel);
        }
    }
}

proof fn lemma_flatten_shrink(a: Map<u64, Folder>, b: Map<u64, Folder>, key: u64, depth: nat, fuel: nat)
    requires
        same_shape(a, b),
        forall|k: u64| #[trigger] a.contains_key(k) && (b[k].open || b[k].peeked) ==> (a[k].open || a[k].peeked),
    ensures
        flatten(b, key, depth, fuel).len() <= flatten(a, key, depth, fuel).len(),
    decreases fuel, 0nat,
{
    assert(a.contains_key(key) == b.contains_key(key));
    if fuel > 0 && a.contains_key(key) {
        lemma_entries_shrink(a, b, a[key].child_folders@, depth, (fuel - 1) as nat);
    }
}


/// `base` overridden by a sequence of path entries, later entries winning.
pub open spec fn overlay(entries: Seq<(Seq<char>, Item)>, q: Seq<char>, base: Option<Item>) -> Option<Item>
    decreases entries.len(),
{
    if entries.len() == 0 {
        base
    } else if entries.last().0 == q {
        Some(entries.last().1)
    } else {
        overlay(entries.drop_last(), q, base)
    }
}

proof fn lemma_lookup_push(l: Seq<(String, Item)>, e: (String, Item), q: Seq<char>)
    requires
        lookup(l, e.0@) is None,
    ensures
        lookup(l.push(e), q) == (if e.0@ == q { Some(e.1) } else { lookup(l, q) }),
    decreases l.len(),
{
    if l.len() > 0 {
        assert(l.push(e)[0] == l[0]);
        assert(l.push(e).drop_first() =~= l.drop_first().push(e));
        assert(l[0].0@ != e.0@);
        if l[0].0@ != q {
            lemma_lookup_push(l.drop_first(), e, q);
        }
    } else {
        assert(l.push(e)[0] == e);
        assert(l.push(e).drop_first() =~= Seq::<(String, Item)>::empty());
        assert(lookup(l.push(e).drop_first(), q) is None);
        assert(lookup(l, q) is None);
    }
}

proof fn lemma_lookup_update(l: Seq<(String, Item)>, i: int, e: (String, Item), q: Seq<char>)
    requires
        0 <= i < l.len(),
        l[i].0@ == e.0@,
        forall|j: int| 0 <= j < i ==> l[j].0@ != e.0@,
    ensures
        lookup(l.update(i, e), q) == (if e.0@ == q { Some(e.1) } else { lookup(l, q) }),
    decreases i,
{
    if i > 0 {
        assert(l.update(i, e)[0] == l[0]);
        assert(l.update(i, e).drop_first() =~= l.drop_first().update(i - 1, e));
        if l[0].0@ != q {
            lemma_lookup_update(l.drop_first(), i - 1, e, q);
        }
    } else {
        assert(l.update(i, e)[0] == e);
        assert(l.update(i, e).drop_first() =~= l.drop_first());
    }
}

proof fn lemma_lookup_found(l: Seq<(String, Item)>, q: Seq<char>) -> (i: int)
    requires
        lookup(l, q) is Some,
    ensures
        0 <= i < l.len(),
        l[i].0@ == q,
        l[i].1 == lookup(l, q)->0,
    decreases l.len(),
{
    if l[0].0@ == q {
        0
    } else {
        let j = lemma_lookup_found(l.drop_first(), q);
        j + 1
    }
}


/// The positions of the incoming files that a folder keeps: all but those whose path is
/// stored as a folder.
pub open spec fn kept_files(paths: Seq<(String, Item)>, files: Seq<File>) -> Seq<int>
    decreases files.len(),
{
    if files.len() == 0 {
        Seq::empty()
    } else {
        let rest = kept_files(paths, files.drop_last());
        if lookup(paths, files.last().path@) matches Some(Item::Folder(_)) {
            rest
        } else {
            rest.push(files.len() - 1)
        }
    }
}

/// Path entries of files, by their stored paths.
pub open spec fn file_path_entries(files: Map<u64, File>, keys: Seq<FileKey>) -> Seq<(Seq<char>, Item)> {
    keys.map_values(|k: FileKey| (files[k.0].path@, Item::File(k)))
}

/// Path entries of folders, by their stored paths.
pub open spec fn folder_path_entries(folders: Map<u64, Folder>, keys: Seq<FolderKey>) -> Seq<(Seq<char>, Item)> {
    keys.map_values(|k: FolderKey| (folders[k.0].path@, Item::Folder(k)))
}

proof fn lemma_kept_bound(paths: Seq<(String, Item)>, files: Seq<File>)
    ensures
        kept_files(paths, files).len() <= files.len(),
        forall|j: int| 0 <= j < kept_files(paths, files).len() ==> 0 <= #[trigger] kept_files(paths, files)[j] < files.len(),
    decreases files.len(),
{
    if files.len() > 0 {
        lemma_kept_bound(paths, files.drop_last());
    }
}


/// The situation of attaching fresh, childless folders (and stored files) as the children of
/// a folder that had none.
pub open spec fn attach_pre(
    f0: Map<u64, Folder>,
    files0: Map<u64, File>,
    d0: Map<u64, nat>,
    h0: nat,
    f1: Map<u64, Folder>,
    files1: Map<u64, File>,
    d1: Map<u64, nat>,
    h1: nat,
    key: u64,
    keys: Seq<FolderKey>,
    fkeys: Seq<FileKey>,
) -> bool {
    &&& tree_ok(f0, files0, d0, h0)
    &&& f0.contains_key(key)
    &&& f1.contains_key(key)
    &&& f0[key].child_folders@.len() == 0
    &&& f0[key].child_files@.len() == 0
    &&& f1.dom().finite()
    &&& files1.dom().finite()
    &&& f1.len() < slot_limit()
    &&& files1.len() < slot_limit()
    &&& f1.len() >= f0.len() + keys.len()
    &&& forall|k: u64| #[trigger] f1.contains_key(k) ==> f0.contains_key(k) || keys.contains(FolderKey(k))
    &&& forall|i: int| 0 <= i < keys.len() ==> {
        let c = #[trigger] keys[i];
        &&& !f0.contains_key(c.0)
        &&& f1.contains_key(c.0)
        &&& f1[c.0].parent == Some(FolderKey(key))
        &&& f1[c.0].child_folders@.len() == 0
        &&& f1[c.0].child_files@.len() == 0
    }
    &&& f1[key] == (Folder { child_folders: f1[key].child_folders, child_files: f1[key].child_files, init: true, ..f0[key] })
    &&& f1[key].child_folders@ == keys
    &&& f1[key].child_files@ == fkeys
    &&& forall|i: int| 0 <= i < fkeys.len() ==> files1.contains_key((#[trigger] fkeys[i]).0)
    &&& forall|k: u64| #[trigger] f0.contains_key(k) && k != key ==> f1.contains_key(k) && f1[k] == f0[k]
    &&& forall|k: u64| #[trigger] files0.contains_key(k) ==> files1.contains_key(k) && files1[k] == files0[k]
    &&& forall|k: u64| #[trigger] files1.contains_key(k) ==> (files1[k].parent matches Some(p) ==> f0.contains_key(p.0))
    &&& forall|k: u64| #[trigger] f0.contains_key(k) ==> d1.contains_key(k) && d1[k] == d0[k]
    &&& forall|i: int| 0 <= i < keys.len() ==> d1.contains_key((#[trigger] keys[i]).0) && d1[keys[i].0] == d0[key] + 1
    &&& h1 == (if keys.len() > 0 && d0[key] + 1 > h0 { d0[key] + 1 } else { h0 })
}

proof fn lemma_attach_0(
    f0: Map<u64, Folder>,
    files0: Map<u64, File>,
    d0: Map<u64, nat>,
    h0: nat,
    f1: Map<u64, Folder>,
    files1: Map<u64, File>,
    d1: Map<u64, nat>,
    h1: nat,
    key: u64,
    keys: Seq<FolderKey>,
    fkeys: Seq<FileKey>,
)
    requires
        attach_pre(f0, files0, d0, h0, f1, files1, d1, h1, key, keys, fkeys),
    ensures
        forall|k: u64| #[trigger] f1.contains_key(k) ==> d1.contains_key(k) && d1[k] <= h1,
{
    assert forall|k: u64| #[trigger] f1.contains_key(k) implies d1.contains_key(k) && d1[k] <= h1 by {
        if !f0.contains_key(k) {
            let i = choose|i: int| 0 <= i < keys.len() && keys[i] == FolderKey(k);
            assert(keys[i].0 == k);
        }
    }
}

proof fn lemma_attach_1(
    f0: Map<u64, Folder>,
    files0: Map<u64, File>,
    d0: Map<u64, nat>,
    h0: nat,
    f1: Map<u64, Folder>,
    files1: Map<u64, File>,
    d1: Map<u64, nat>,
    h1: nat,
    key: u64,
    keys: Seq<FolderKey>,
    fkeys: Seq<FileKey>,
)
    requires
        attach_pre(f0, files0, d0, h0, f1, files1, d1, h1, key, keys, fkeys),
    ensures
        h1 <= f1.len(),
{
    assert(h1 <= f1.len()) by {
        if keys.len() > 0 && d0[key] + 1 > h0 {
            assert(d0[key] <= h0);
        }
    }
}

proof fn lemma_attach_2(
    f0: Map<u64, Folder>,
    files0: Map<u64, File>,
    d0: Map<u64, nat>,
    h0: nat,
    f1: Map<u64, Folder>,
    files1: Map<u64, File>,
    d1: Map<u64, nat>,
    h1: nat,
    key: u64,
    keys: Seq<FolderKey>,
    fkeys: Seq<FileKey>,
)
    requires
        attach_pre(f0, files0, d0, h0, f1, files1, d1, h1, key, keys, fkeys),
    ensures
        forall|k: u64, i: int|
        f1.contains_key(k) && 0 <= i < f1[k].child_folders@.len() ==> {
            let c = #[trigger] f1[k].child_folders@[i];
            &&& f1.contains_key(c.0)
            &&& d1[c.0] == d1[k] + 1
            &&& f1[c.0].parent == Some(FolderKey(k))
        },
{
    assert forall|k: u64, i: int|
        f1.contains_key(k) && 0 <= i < f1[k].child_folders@.len() implies {
            let c = #[trigger] f1[k].child_folders@[i];
            &&& f1.contains_key(c.0)
            &&& d1[c.0] == d1[k] + 1
            &&& f1[c.0].parent == Some(FolderKey(k))
        } by {
        if k == key {
            let c = keys[i];
            assert(f1[k].child_folders@[i] == c);
            assert(!f0.contains_key(c.0));
            assert(f1.contains_key(c.0));
            assert(d1[c.0] == d0[key] + 1);
            assert(d1[key] == d0[key]);
            assert(f1[c.0].parent == Some(FolderKey(key)));
        } else if f0.contains_key(k) {
            assert(f1[k] == f0[k]);
            let c = f0[k].child_folders@[i];
            assert(f1[k].child_folders@[i] == c);
            assert(f0.contains_key(c.0));
            assert(d1[c.0] == d0[c.0]);
            assert(d1[k] == d0[k]);
            assert(f0[c.0].parent == Some(FolderKey(k)));
            if c.0 == key {
                assert(f1[c.0].parent == f0[c.0].parent);
            } else {
                assert(f1[c.0] == f0[c.0]);
            }
        } else {
            let j = choose|j: int| 0 <= j < keys.len() && keys[j] == FolderKey(k);
            assert(keys[j].0 == k);
        }
    }
}

proof fn lemma_attach_3(
    f0: Map<u64, Folder>,
    files0: Map<u64, File>,
    d0: Map<u64, nat>,
    h0: nat,
    f1: Map<u64, Folder>,
    files1: Map<u64, File>,
    d1: Map<u64, nat>,
    h1: nat,
    key: u64,
    keys: Seq<FolderKey>,
    fkeys: Seq<FileKey>,
)
    requires
        attach_pre(f0, files0, d0, h0, f1, files1, d1, h1, key, keys, fkeys),
    ensures
        forall|k: u64, i: int|
        f1.contains_key(k) && 0 <= i < f1[k].child_files@.len() ==> files1.contains_key(
            (#[trigger] f1[k].child_files@[i]).0),
{
    assert forall|k: u64, i: int|
        f1.contains_key(k) && 0 <= i < f1[k].child_files@.len() implies files1.contains_key(
            (#[trigger] f1[k].child_files@[i]).0) by {
        if k == key {
            assert(f1[k].child_files@[i] == fkeys[i]);
        } else if f0.contains_key(k) {
            assert(files0.contains_key(f0[k].child_files@[i].0));
        } else {
            let j = choose|j: int| 0 <= j < keys.len() && keys[j] == FolderKey(k);
            assert(keys[j].0 == k);
        }
    }
}

proof fn lemma_attach_4(
    f0: Map<u64, Folder>,
    files0: Map<u64, File>,
    d0: Map<u64, nat>,
    h0: nat,
    f1: Map<u64, Folder>,
    files1: Map<u64, File>,
    d1: Map<u64, nat>,
    h1: nat,
    key: u64,
    keys: Seq<FolderKey>,
    fkeys: Seq<FileKey>,
)
    requires
        attach_pre(f0, files0, d0, h0, f1, files1, d1, h1, key, keys, fkeys),
    ensures
        forall|k: u64| #[trigger] f1.contains_key(k) ==> match f1[k].parent {
            None => d1[k] == 0,
            Some(p) => {
                &&& f1.contains_key(p.0)
                &&& d1[k] == d1[p.0] + 1
                &&& f1[p.0].child_folders@.contains(FolderKey(k))
            },
        },
{
    assert forall|k: u64| #[trigger] f1.contains_key(k) implies match f1[k].parent {
            None => d1[k] == 0,
            Some(p) => {
                &&& f1.contains_key(p.0)
                &&& d1[k] == d1[p.0] + 1
                &&& f1[p.0].child_folders@.contains(FolderKey(k))
            },
        } by {
        if f0.contains_key(k) {
            assert(f1[k].parent == f0[k].parent);
            assert(d1[k] == d0[k]);
            if let Some(p) = f0[k].parent {
                assert(f0.contains_key(p.0));
                assert(d1[p.0] == d0[p.0]);
                if p.0 == key {
                    assert(f0[key].child_folders@.contains(FolderKey(k)));
                    assert(false);
                }
                assert(f1[p.0] == f0[p.0]);
            } else {
                assert(d0[k] == 0);
            }
        } else {
            let j = choose|j: int| 0 <= j < keys.len() && keys[j] == FolderKey(k);
            assert(keys[j].0 == k);
            assert(f1[key].child_folders@[j] == FolderKey(k));
            assert(f1[key].child_folders@.contains(FolderKey(k)));
            assert(d1[k] == d0[key] + 1);
            assert(d1[key] == d0[key]);
        }
    }
}

proof fn lemma_attach_5(
    f0: Map<u64, Folder>,
    files0: Map<u64, File>,
    d0: Map<u64, nat>,
    h0: nat,
    f1: Map<u64, Folder>,
    files1: Map<u64, File>,
    d1: Map<u64, nat>,
    h1: nat,
    key: u64,
    keys: Seq<FolderKey>,
    fkeys: Seq<FileKey>,
)
    requires
        attach_pre(f0, files0, d0, h0, f1, files1, d1, h1, key, keys, fkeys),
    ensures
        forall|f: u64| #[trigger] files1.contains_key(f) ==> match files1[f].parent {
            None => true,
            Some(p) => f1.contains_key(p.0),
        },
{
    assert forall|f: u64| #[trigger] files1.contains_key(f) implies match files1[f].parent {
            None => true,
            Some(p) => f1.contains_key(p.0),
        } by {
        if files0.contains_key(f) {
            assert(files1[f] == files0[f]);
        }
        if let Some(p) = files1[f].parent {
            assert(f0.contains_key(p.0));
            if p.0 != key {
                assert(f1.contains_key(p.0));
            }
        }
    }
}

proof fn lemma_attach_6(
    f0: Map<u64, Folder>,
    files0: Map<u64, File>,
    d0: Map<u64, nat>,
    h0: nat,
    f1: Map<u64, Folder>,
    files1: Map<u64, File>,
    d1: Map<u64, nat>,
    h1: nat,
    key: u64,
    keys: Seq<FolderKey>,
    fkeys: Seq<FileKey>,
)
    requires
        attach_pre(f0, files0, d0, h0, f1, files1, d1, h1, key, keys, fkeys),
    ensures
        forall|k: u64| #[trigger] f1.contains_key(k) && !f1[k].init ==> f0.contains_key(k) && k != key && f1[k] == f0[k]
        || !f0.contains_key(k) && f1[k].child_folders@.len() == 0 && f1[k].child_files@.len() == 0,
{
    assert forall|k: u64| #[trigger] f1.contains_key(k) && !f1[k].init implies f0.contains_key(k) && k != key && f1[k] == f0[k]
        || !f0.contains_key(k) && f1[k].child_folders@.len() == 0 && f1[k].child_files@.len() == 0 by {
        if !f0.contains_key(k) {
            let j = choose|j: int| 0 <= j < keys.len() && keys[j] == FolderKey(k);
            assert(keys[j].0 == k);
        }
    }
}

/// Attaching fresh, childless folders (and stored files) as the children of a folder that had
/// none keeps the tree well shaped.
proof fn lemma_attach(
    f0: Map<u64, Folder>,
    files0: Map<u64, File>,
    d0: Map<u64, nat>,
    h0: nat,
    f1: Map<u64, Folder>,
    files1: Map<u64, File>,
    d1: Map<u64, nat>,
    h1: nat,
    key: u64,
    keys: Seq<FolderKey>,
    fkeys: Seq<FileKey>,
)
    requires
        attach_pre(f0, files0, d0, h0, f1, files1, d1, h1, key, keys, fkeys),
    ensures
        tree_ok(f1, files1, d1, h1),
        forall|k: u64| #[trigger] f1.contains_key(k) && !f1[k].init ==> f0.contains_key(k) && k != key && f1[k] == f0[k]
            || !f0.contains_key(k) && f1[k].child_folders@.len() == 0 && f1[k].child_files@.len() == 0,
{
    lemma_attach_0(f0, files0, d0, h0, f1, files1, d1, h1, key, keys, fkeys);
    lemma_attach_1(f0, files0, d0, h0, f1, files1, d1, h1, key, keys, fkeys);
    lemma_attach_2(f0, files0, d0, h0, f1, files1, d1, h1, key, keys, fkeys);
    lemma_attach_3(f0, files0, d0, h0, f1, files1, d1, h1, key, keys, fkeys);
    lemma_attach_4(f0, files0, d0, h0, f1, files1, d1, h1, key, keys, fkeys);
    lemma_attach_5(f0, files0, d0, h0, f1, files1, d1, h1, key, keys, fkeys);
    lemma_attach_6(f0, files0, d0, h0, f1, files1, d1, h1, key, keys, fkeys);
}


proof fn lemma_overlay_concat(a: Seq<(Seq<char>, Item)>, b: Seq<(Seq<char>, Item)>, q: Seq<char>, base: Option<Item>)
    ensures
        overlay(b, q, overlay(a, q, base)) == overlay(a + b, q, base),
    decreases b.len(),
{
    if b.len() == 0 {
        assert(a + b =~= a);
    } else {
        assert((a + b).drop_last() =~= a + b.drop_last());
        assert((a + b).last() == b.last());
        lemma_overlay_concat(a, b.drop_last(), q, base);
    }
}

pub struct Filesystem {
    /// File tree cursor
    selected: usize,
    /// Currently peeked item: its parent folders are shown open until another item is peeked.
    peeked: Option<Item>,
    /// Cached flattened view of the file tree, with the depth of each entry.
    view: Vec<(Item, usize)>,
    root: FolderKey,
    files: Store<File>,
    folders: Store<Folder>,
    /// Lookup list by path
    paths: Vec<(String, Item)>,
    /// Paths being loaded in the background
    loading: Vec<String>,
    /// Depth of each folder below the root
    depth: Ghost<Map<u64, nat>>,
    /// Bound on the depths
    height: Ghost<nat>,
}

impl Filesystem {
    pub closed spec fn folders_map(self) -> Map<u64, Folder> {
        folder_slots(self.folders)
    }

    pub closed spec fn files_map(self) -> Map<u64, File> {
        file_slots(self.files)
    }

    pub closed spec fn view_spec(self) -> Seq<(Item, usize)> {
        self.view@
    }

    pub closed spec fn selected_spec(self) -> usize {
        self.selected
    }

    pub closed spec fn peeked_spec(self) -> Option<Item> {
        self.peeked
    }

    pub closed spec fn root_spec(self) -> FolderKey {
        self.root
    }

    pub closed spec fn paths_spec(self) -> Seq<(String, Item)> {
        self.paths@
    }

    /// The paths being loaded in the background.
    pub closed spec fn loading_set(self) -> Set<Seq<char>> {
        Set::new(|p: Seq<char>| exists|i: int| 0 <= i < self.loading@.len() && #[trigger] self.loading@[i]@ == p)
    }

    /// Whether a path is being loaded in the background.
    pub open spec fn is_loading(self, p: Seq<char>) -> bool {
        self.loading_set().contains(p)
    }

    /// Number of levels between each folder and the root.
    pub closed spec fn depth_map(self) -> Map<u64, nat> {
        self.depth@
    }

    /// Number of levels between a folder and the root.
    pub open spec fn depth_of(self, k: u64) -> nat {
        self.depth_map()[k]
    }

    /// A recursion bound above every folder's depth.
    pub closed spec fn fuel(self) -> nat {
        self.height@ + 1
    }

    /// The view that the open and peeked folders give: the flattened contents of the root.
    pub open spec fn tree_view(self) -> Seq<(Item, usize)> {
        flatten(self.folders_map(), self.root_spec().0, 0, self.fuel())
    }

    pub open spec fn path_lookup(self, p: Seq<char>) -> Option<Item> {
        lookup(self.paths_spec(), p)
    }

    pub open spec fn valid_item(self, item: Item) -> bool {
        item_valid(self.folders_map(), self.files_map(), item)
    }

    /// The folders above an item.
    pub open spec fn ancestors(self, item: Item) -> Set<u64> {
        match item {
            Item::Folder(k) => folder_ancestors(self.folders_map(), k.0, self.depth_of(k.0)),
            Item::File(f) => match self.files_map()[f.0].parent {
                None => Set::empty(),
                Some(p) => folder_ancestors(self.folders_map(), p.0, self.depth_of(p.0)).insert(p.0),
            },
        }
    }

    /// Everything but the cursor is the same in both.
    pub open spec fn same_except_cursor(self, o: Self) -> bool {
        &&& self.folders_map() == o.folders_map()
        &&& self.files_map() == o.files_map()
        &&& self.view_spec() == o.view_spec()
        &&& self.peeked_spec() == o.peeked_spec()
        &&& self.root_spec() == o.root_spec()
        &&& self.paths_spec() == o.paths_spec()
        &&& self.fuel() == o.fuel()
        &&& self.depth_map() == o.depth_map()
        &&& self.loading_set() == o.loading_set()
    }

    /// The cursor points into the view, or is 0.
    pub open spec fn selection_ok(self) -> bool {
        self.selected_spec() == 0 || self.selected_spec() < self.view_spec().len()
    }

    /// Exactly the ancestors of the peeked item are marked peeked.
    pub open spec fn peek_ok(self) -> bool {
        &&& (self.peeked_spec() matches Some(it) ==> self.valid_item(it))
        &&& forall|k: u64| #[trigger] self.folders_map().contains_key(k) ==> (
            self.folders_map()[k].peeked <==> (self.peeked_spec() matches Some(it)
                && self.ancestors(it).contains(k)))
    }

    /// The invariant of the tree, the path list and the loading list.
    closed spec fn base_ok(self) -> bool {
        &&& tree_ok(self.folders_map(), self.files_map(), self.depth@, self.height@)
        &&& self.folders_map().contains_key(self.root.0)
        &&& self.folders_map()[self.root.0].parent is None
        &&& self.paths_valid()
        &&& forall|k: u64| #[trigger] self.folders_map().contains_key(k) ==> odd_version(k)
        &&& forall|k: u64| #[trigger] self.files_map().contains_key(k) ==> odd_version(k)
        &&& forall|i: int, j: int| 0 <= i < j < self.loading@.len() ==> self.loading@[i]@ != self.loading@[j]@
        &&& forall|k: u64| #[trigger] self.folders_map().contains_key(k) && !self.folders_map()[k].init ==> {
            &&& self.folders_map()[k].child_folders@.len() == 0
            &&& self.folders_map()[k].child_files@.len() == 0
        }
    }

    /// Every item of the path list is stored.
    closed spec fn paths_valid(self) -> bool {
        forall|i: int| 0 <= i < self.paths@.len() ==> self.valid_item((#[trigger] self.paths@[i]).1)
    }

    /// The invariant of everything but the view and the cursor.
    closed spec fn inner_ok(self) -> bool {
        &&& self.base_ok()
        &&& self.peek_ok()
    }

    pub closed spec fn wf(self) -> bool {
        &&& self.inner_ok()
        &&& self.view@ == self.tree_view()
        &&& forall|i: int| 0 <= i < self.view@.len() ==> self.valid_item((#[trigger] self.view@[i]).0)
        &&& self.selection_ok()
    }

    /// Recompute the view from the tree, and clamp the cursor into it.
    fn rebuild_view(&mut self)
        requires
            tree_ok(old(self).folders_map(), old(self).files_map(), old(self).depth@, old(self).height@),
            old(self).folders_map().contains_key(old(self).root.0),
            old(self).folders_map()[old(self).root.0].parent is None,
        ensures
            final(self).view@ == final(self).tree_view(),
            old(self).inner_ok() ==> final(self).wf(),
            forall|i: int| 0 <= i < final(self).view@.len() ==> final(self).valid_item((#[trigger] final(self).view@[i]).0),
            final(self).selected == (if old(self).selected < final(self).view@.len() { old(self).selected }
                else if final(self).view@.len() == 0 { 0 } else { (final(self).view@.len() - 1) as usize }),
            final(self).selection_ok(),
            final(self).peeked == old(self).peeked,
            final(self).root == old(self).root,
            final(self).files == old(self).files,
            final(self).folders == old(self).folders,
            final(self).paths == old(self).paths,
            final(self).loading == old(self).loading,
            final(self).depth == old(self).depth,
            final(self).height == old(self).height,
    {
        self.view.clear();
        proof {
            assert(self.depth@[self.root.0] == 0);
        }
        recurse_view(
            &mut self.view,
            &self.folders,
            self.root,
            0,
            Ghost(file_slots(self.files)),
            Ghost(self.depth@),
            Ghost(self.height@),
            Ghost(self.height@ + 1),
        );
        proof {
            assert(self.view@ =~= self.tree_view());
            lemma_flatten_valid(folder_slots(self.folders), file_slots(self.files), self.depth@, self.height@, self.root.0, 0, self.height@ + 1);
        }
        let len = self.view.len();
        let last = len.saturating_sub(1);
        if self.selected > last {
            self.selected = last;
        }
    }
}

impl Filesystem {
    /// A filesystem with only the root folder `.`, not loaded yet; the task loads it.
    pub fn new() -> (res: (Filesystem, FsTask))
        ensures
            res.0.wf(),
            res.0.folders_map().dom() == set![res.0.root_spec().0],
            res.0.folders_map()[res.0.root_spec().0].path@ == "."@,
            res.0.folders_map()[res.0.root_spec().0].parent is None,
            !res.0.folders_map()[res.0.root_spec().0].open,
            !res.0.folders_map()[res.0.root_spec().0].init,
            res.0.folders_map()[res.0.root_spec().0].child_folders@.len() == 0,
            res.0.folders_map()[res.0.root_spec().0].child_files@.len() == 0,
            res.0.files_map().dom() == Set::<u64>::empty(),
            res.0.view_spec().len() == 0,
            res.0.selected_spec() == 0,
            res.0.peeked_spec() is None,
            res.0.paths_spec().len() == 0,
            forall|p: Seq<char>| !res.0.is_loading(p),
            res.1 matches FsTask::LoadFolder { key, path } && key == res.0.root_spec() && path@ == "."@,
    {
        let mut folders = folders_new();
        let root = FolderKey(folders_insert(&mut folders, Folder::new(owned("."), None)));
        let fs = Filesystem {
            selected: 0,
            peeked: None,
            view: Vec::new(),
            root,
            files: files_new(),
            folders,
            paths: Vec::new(),
            loading: Vec::new(),
            depth: Ghost(Map::empty().insert(root.0, 0nat)),
            height: Ghost(0nat),
        };
        proof {
            let fm = fs.folders_map();
            assert(fm.dom() =~= set![root.0]);
            assert(fm.len() == 1) by {
                assert(fm.dom() =~= Set::<u64>::empty().insert(root.0));
            }
            assert(fs.files_map().dom() =~= Set::<u64>::empty());
            assert(fs.tree_view() =~= Seq::<(Item, usize)>::empty()) by {
                assert(fm[root.0].child_folders@ =~= Seq::<FolderKey>::empty());
                assert(fm[root.0].child_files@ =~= Seq::<FileKey>::empty());
                assert(file_entries(fm[root.0].child_files@, 0) =~= Seq::<(Item, usize)>::empty());
            }
            assert forall|k: u64| #[trigger] fm.contains_key(k) implies !fm[k].peeked by {
                assert(k == root.0);
            }
        }
        let task = fs.load_folder(root);
        (fs, task)
    }

    pub fn root_key(&self) -> (k: FolderKey)
        ensures
            k == self.root_spec(),
    {
        self.root
    }

    pub fn root(&self) -> (f: &Folder)
        requires
            self.wf(),
        ensures
            *f == self.folders_map()[self.root_spec().0],
    {
        folders_get(&self.folders, self.root.0)
    }

    pub fn folder(&self, key: FolderKey) -> (f: &Folder)
        requires
            self.folders_map().contains_key(key.0),
        ensures
            *f == self.folders_map()[key.0],
    {
        folders_get(&self.folders, key.0)
    }

    pub fn file(&self, key: FileKey) -> (f: &File)
        requires
            self.files_map().contains_key(key.0),
        ensures
            *f == self.files_map()[key.0],
    {
        files_get(&self.files, key.0)
    }

    pub fn file_parent(&self, key: FileKey) -> (p: Option<FolderKey>)
        requires
            self.files_map().contains_key(key.0),
        ensures
            p == self.files_map()[key.0].parent,
    {
        files_get(&self.files, key.0).parent
    }

    pub fn folder_parent(&self, key: FolderKey) -> (p: Option<FolderKey>)
        requires
            self.folders_map().contains_key(key.0),
        ensures
            p == self.folders_map()[key.0].parent,
    {
        folders_get(&self.folders, key.0).parent
    }

    /// The flattened view of the tree, with the depth of each entry.
    pub fn view(&self) -> (v: &[(Item, usize)])
        ensures
            v@ == self.view_spec(),
    {
        self.view.as_slice()
    }

    /// The buffer of a file, if loaded.
    pub fn preview(&self, key: FileKey) -> (b: Option<&Buffer>)
        requires
            self.files_map().contains_key(key.0),
        ensures
            match b {
                Some(b) => self.files_map()[key.0].buffer == Some(*b),
                None => self.files_map()[key.0].buffer is None,
            },
    {
        files_get(&self.files, key.0).buffer.as_ref()
    }

    // ************************************************* //
    //                      SELECTION                    //
    // ************************************************* //

    /// How the tree relates to itself after `select_item`, as that function's contract states it.
    pub open spec fn select_item_post(self, after: Filesystem, item: Item) -> bool {
        &&& self.same_except_cursor(after)
        &&& (exists|i: int| 0 <= i < self.view_spec().len() && self.view_spec()[i].0 == item) ==> {
            &&& after.selected_spec() < self.view_spec().len()
            &&& self.view_spec()[after.selected_spec() as int].0 == item
            &&& forall|i: int| 0 <= i < after.selected_spec() ==> self.view_spec()[i].0 != item
        }
        &&& !(exists|i: int| 0 <= i < self.view_spec().len() && self.view_spec()[i].0 == item)
            ==> after.selected_spec() == self.selected_spec()
    }

    /// Move the cursor to the first view entry of an item, if the view holds it.
    pub fn select_item(&mut self, item: Item)
        requires
            old(self).wf(),
        ensures
            final(self).wf(),
            old(self).select_item_post(*final(self), item),
    {
        let mut i: usize = 0;
        while i < self.view.len()
            invariant
                *self == *old(self),
                old(self).wf(),
                i <= self.view@.len(),
                forall|j: int| 0 <= j < i ==> self.view@[j].0 != item,
            decreases self.view@.len() - i,
        {
            if self.view[i].0 == item {
                self.selected = i;
                return;
            }
            i += 1;
        }
    }

    /// How the tree relates to itself after `select_index`, as that function's contract states it.
    pub open spec fn select_index_post(self, after: Filesystem, index: usize) -> bool {
        &&& self.same_except_cursor(after)
        &&& after.selected_spec() == clamp_index(index as int, self.view_spec().len() as int)
    }

    /// Move the cursor to an index, clamped to the last entry.
    pub fn select_index(&mut self, index: usize)
        requires
            old(self).wf(),
        ensures
            final(self).wf(),
            old(self).select_index_post(*final(self), index),
    {
        let last = self.view.len().saturating_sub(1);
        self.selected = if index < last { index } else { last };
    }

    /// The item under the cursor, if the view is not empty.
    pub fn selected_item(&self) -> (r: Option<Item>)
        requires
            self.wf(),
        ensures
            self.selected_spec() < self.view_spec().len() ==> r == Some(self.view_spec()[self.selected_spec() as int].0),
            self.selected_spec() >= self.view_spec().len() ==> r is None,
            r matches Some(it) ==> self.valid_item(it),
    {
        if self.selected >= self.view.len() {
            None
        } else {
            Some(self.view[self.selected].0)
        }
    }

    pub fn selected_index(&self) -> (r: usize)
        ensures
            r == self.selected_spec(),
    {
        self.selected
    }

    // ************************************************* //
    //                       MOVEMENT                    //
    // ************************************************* //

    /// Move the cursor `n` entries up, stopping at the first entry.
    pub fn up_n(&mut self, n: usize)
        requires
            old(self).wf(),
        ensures
            final(self).wf(),
            old(self).same_except_cursor(*final(self)),
            final(self).selected_spec() == (if old(self).selected_spec() >= n { old(self).selected_spec() - n } else { 0 }),
    {
        self.selected = self.selected.saturating_sub(n);
    }

    /// Move the cursor `n` entries down, stopping at the last entry.
    pub fn down_n(&mut self, n: usize)
        requires
            old(self).wf(),
        ensures
            final(self).wf(),
            old(self).same_except_cursor(*final(self)),
            final(self).selected_spec() == clamp_index(old(self).selected_spec() + n, old(self).view_spec().len() as int),
    {
        let target = self.selected.saturating_add(n);
        let last = self.view.len().saturating_sub(1);
        self.selected = if target < last { target } else { last };
    }

    /// How the tree relates to itself after `up`, as that function's contract states it.
    pub open spec fn up_post(self, after: Filesystem) -> bool {
        &&& self.same_except_cursor(after)
        &&& after.selected_spec() == (if self.selected_spec() >= 1 { self.selected_spec() - 1 } else { 0 })
    }

    pub fn up(&mut self)
        requires
            old(self).wf(),
        ensures
            final(self).wf(),
            old(self).up_post(*final(self)),
    {
        self.up_n(1);
    }

    /// How the tree relates to itself after `down`, as that function's contract states it.
    pub open spec fn down_post(self, after: Filesystem) -> bool {
        &&& self.same_except_cursor(after)
        &&& after.selected_spec() == clamp_index(self.selected_spec() + 1, self.view_spec().len() as int)
    }

    pub fn down(&mut self)
        requires
            old(self).wf(),
        ensures
            final(self).wf(),
            old(self).down_post(*final(self)),
    {
        self.down_n(1);
    }

    /// The task that loads the entries of a folder.
    fn load_folder(&self, key: FolderKey) -> (t: FsTask)
        requires
            self.folders_map().contains_key(key.0),
        ensures
            t matches FsTask::LoadFolder { key: k, path } && k == key && path@ == self.folders_map()[key.0].path@,
    {
        let path = folders_get(&self.folders, key.0).path.clone();
        FsTask::LoadFolder { key, path }
    }
}

impl Filesystem {
    /// Change the open flag of a stored folder, keeping every other invariant but the view's.
    fn set_open(&mut self, key: FolderKey, open: bool)
        requires
            old(self).inner_ok(),
            old(self).folders_map().contains_key(key.0),
        ensures
            final(self).inner_ok(),
            final(self).folders_map() == old(self).folders_map().insert(key.0, Folder { open, ..old(self).folders_map()[key.0] }),
            same_shape(old(self).folders_map(), final(self).folders_map()),
            final(self).files_map() == old(self).files_map(),
            final(self).files == old(self).files,
            final(self).view == old(self).view,
            final(self).selected == old(self).selected,
            final(self).peeked == old(self).peeked,
            final(self).root == old(self).root,
            final(self).paths == old(self).paths,
            final(self).loading == old(self).loading,
            final(self).depth == old(self).depth,
            final(self).height == old(self).height,
            forall|it: Item| old(self).valid_item(it) ==> final(self).ancestors(it) == old(self).ancestors(it),
    {
        let ghost a = self.folders_map();
        let f = folders_get_mut(&mut self.folders, key.0);
        f.open = open;
        proof {
            let b = self.folders_map();
            assert(b.dom() =~= a.dom());
            assert(same_shape(a, b));
            lemma_shape_tree_ok(a, b, self.files_map(), self.depth@, self.height@);
            assert forall|j: u64| #[trigger] a.contains_key(j) implies {
                &&& b.contains_key(j)
                &&& b[j].parent == a[j].parent
                &&& (a[j].parent matches Some(p) ==> a.contains_key(p.0))
            } by {
            }
            assert forall|it: Item| old(self).valid_item(it) implies self.ancestors(it) == old(self).ancestors(it) by {
                match it {
                    Item::Folder(k) => {
                        lemma_ancestors_frame(a, b, k.0, self.depth@[k.0]);
                    },
                    Item::File(f) => {
                        if let Some(p) = self.files_map()[f.0].parent {
                            lemma_ancestors_frame(a, b, p.0, self.depth@[p.0]);
                        }
                    },
                }
            }
            assert forall|k: u64| #[trigger] b.contains_key(k) implies (
                b[k].peeked <==> (self.peeked_spec() matches Some(it) && self.ancestors(it).contains(k))) by {
                assert(a.contains_key(k));
            }
        }
    }

    /// Open a folder. A folder opened for the first time must be loaded: the task loads it.
    pub fn open(&mut self, key: FolderKey) -> (task: Option<FsTask>)
        requires
            old(self).wf(),
            old(self).folders_map().contains_key(key.0),
        ensures
            final(self).wf(),
            final(self).folders_map() == old(self).folders_map().insert(key.0, Folder { open: true, ..old(self).folders_map()[key.0] }),
            final(self).files_map() == old(self).files_map(),
            final(self).paths_spec() == old(self).paths_spec(),
            final(self).loading_set() == old(self).loading_set(),
            final(self).peeked_spec() == old(self).peeked_spec(),
            final(self).root_spec() == old(self).root_spec(),
            final(self).view_spec() == final(self).tree_view(),
            final(self).selected_spec() == clamp_index(old(self).selected_spec() as int, final(self).view_spec().len() as int),
            old(self).folders_map()[key.0].open ==> *final(self) == *old(self) && task is None,
            !old(self).folders_map()[key.0].open && !old(self).folders_map()[key.0].init ==>
                (task matches Some(FsTask::LoadFolder { key: k, path }) && k == key && path@ == old(self).folders_map()[key.0].path@),
            !old(self).folders_map()[key.0].open && old(self).folders_map()[key.0].init ==> task is None,
    {
        if folders_get(&self.folders, key.0).open {
            proof {
                assert(self.folders_map().insert(key.0, Folder { open: true, ..self.folders_map()[key.0] }) =~= self.folders_map());
            }
            return None;
        }
        self.set_open(key, true);
        let task = if !folders_get(&self.folders, key.0).init {
            Some(self.load_folder(key))
        } else {
            None
        };
        self.rebuild_view();
        task
    }

    /// Close a folder.
    pub fn close(&mut self, key: FolderKey)
        requires
            old(self).wf(),
            old(self).folders_map().contains_key(key.0),
        ensures
            final(self).wf(),
            final(self).folders_map() == old(self).folders_map().insert(key.0, Folder { open: false, ..old(self).folders_map()[key.0] }),
            final(self).files_map() == old(self).files_map(),
            final(self).paths_spec() == old(self).paths_spec(),
            final(self).loading_set() == old(self).loading_set(),
            final(self).peeked_spec() == old(self).peeked_spec(),
            final(self).root_spec() == old(self).root_spec(),
            final(self).view_spec() == final(self).tree_view(),
            final(self).selected_spec() == clamp_index(old(self).selected_spec() as int, final(self).view_spec().len() as int),
    {
        self.set_open(key, false);
        self.rebuild_view();
    }

    /// How the tree relates to itself after `toggle`, as that function's contract states it.
    pub open spec fn toggle_post(self, after: Filesystem, key: FolderKey, task: Option<FsTask>) -> bool {
        &&& after.folders_map() == self.folders_map().insert(key.0, Folder { open: !self.folders_map()[key.0].open, ..self.folders_map()[key.0] })
        &&& after.files_map() == self.files_map()
        &&& after.paths_spec() == self.paths_spec()
        &&& after.loading_set() == self.loading_set()
        &&& after.peeked_spec() == self.peeked_spec()
        &&& after.root_spec() == self.root_spec()
        &&& after.view_spec() == after.tree_view()
        &&& after.selected_spec() == clamp_index(self.selected_spec() as int, after.view_spec().len() as int)
        &&& !self.folders_map()[key.0].open && !self.folders_map()[key.0].init ==>
            (task matches Some(FsTask::LoadFolder { key: k, path }) && k == key && path@ == self.folders_map()[key.0].path@)
        &&& self.folders_map()[key.0].open || self.folders_map()[key.0].init ==> task is None
    }

    /// Close an open folder, or open a closed one.
    pub fn toggle(&mut self, key: FolderKey) -> (task: Option<FsTask>)
        requires
            old(self).wf(),
            old(self).folders_map().contains_key(key.0),
        ensures
            final(self).wf(),
            old(self).toggle_post(*final(self), key, task),
    {
        let task = if folders_get(&self.folders, key.0).open {
            self.close(key);
            None
        } else {
            self.open(key)
        };
        let ghost mid_sel = self.selected;
        self.rebuild_view();
        task
    }
}

impl Filesystem {
    /// Whether folder `k` is `top` or lies below it.
    pub open spec fn in_subtree(self, top: u64, k: u64) -> bool {
        below(self.folders_map(), self.depth_map(), top, k)
    }

    fn close_rec(&mut self, key: FolderKey)
        requires
            old(self).inner_ok(),
            old(self).folders_map().contains_key(key.0),
            old(self).selection_ok(),
            old(self).tree_view().len() <= old(self).view@.len(),
        ensures
            final(self).wf(),
            same_shape(old(self).folders_map(), final(self).folders_map()),
            forall|k: u64| #[trigger] old(self).folders_map().contains_key(k) ==> final(self).folders_map()[k] == (Folder {
                open: old(self).folders_map()[k].open && !old(self).in_subtree(key.0, k),
                ..old(self).folders_map()[k]
            }),
            final(self).view@.len() <= old(self).tree_view().len(),
            final(self).selected == clamp_index(old(self).selected as int, final(self).view@.len() as int),
            final(self).files == old(self).files,
            final(self).peeked == old(self).peeked,
            final(self).root == old(self).root,
            final(self).paths == old(self).paths,
            final(self).loading == old(self).loading,
            final(self).depth == old(self).depth,
            final(self).height == old(self).height,
        decreases old(self).height@ - old(self).depth@[key.0],
    {
        let ghost orig = *old(self);
        let ghost fm0 = old(self).folders_map();
        let ghost dm = self.depth@;
        let ghost files = self.files_map();
        let ghost height = self.height@;
        self.set_open(key, false);
        proof {
            lemma_flatten_shrink(fm0, self.folders_map(), self.root.0, 0, self.height@ + 1);
        }
        let n = folders_get(&self.folders, key.0).child_folders.len();
        let ghost l = self.folders_map()[key.0].child_folders@;
        let mut i: usize = 0;
        while i < n
            invariant
                self.inner_ok(),
                same_shape(fm0, self.folders_map()),
                self.folders_map().contains_key(key.0),
                l == self.folders_map()[key.0].child_folders@,
                n == l.len(),
                i <= n,
                dm == self.depth@,
                files == self.files_map(),
                height == self.height@,
                fm0 == orig.folders_map(),
                orig == *old(self),
                orig.inner_ok(),
                orig.depth == self.depth,
                orig.depth@[key.0] <= height,
                self.selection_ok(),
                self.tree_view().len() <= self.view@.len(),
                self.view@.len() <= orig.view@.len(),
                self.tree_view().len() <= orig.tree_view().len(),
                orig.height == self.height,
                self.selected == clamp_index(orig.selected as int, self.view@.len() as int),
                forall|k: u64| #[trigger] fm0.contains_key(k) ==> self.folders_map()[k] == (Folder {
                    open: fm0[k].open && k != key.0 && !(exists|j: int| 0 <= j < i && below(fm0, dm, (#[trigger] l[j]).0, k)),
                    ..fm0[k]
                }),
                self.files == orig.files,
                self.peeked == orig.peeked,
                self.root == orig.root,
                self.paths == orig.paths,
                self.loading == orig.loading,
            decreases n - i,
        {
            let child = folders_get(&self.folders, key.0).child_folders[i];
            proof {
                assert(l[i as int] == child);
                assert(fm0.contains_key(key.0));
                assert(fm0[key.0].child_folders@[i as int] == child);
                assert(dm[child.0] == dm[key.0] + 1);
                assert(fm0.contains_key(child.0));
                assert(dm[child.0] <= height);
                assert(self.depth@[child.0] == orig.depth@[key.0] + 1);
            }
            let ghost before = *self;
            self.close_rec(child);
            proof {
                let fa = before.folders_map();
                let fb = self.folders_map();
                // Ancestors are the same in every map of this shape.
                assert forall|k: u64| #[trigger] fm0.contains_key(k) implies
                    below(fa, dm, child.0, k) == below(fm0, dm, child.0, k) by {
                    assert forall|j: u64| #[trigger] fm0.contains_key(j) implies {
                        &&& fa.contains_key(j)
                        &&& fa[j].parent == fm0[j].parent
                        &&& (fm0[j].parent matches Some(p) ==> fm0.contains_key(p.0))
                    } by {}
                    lemma_ancestors_frame(fm0, fa, k, dm[k]);
                }
                assert forall|k: u64| #[trigger] fm0.contains_key(k) implies self.folders_map()[k] == (Folder {
                    open: fm0[k].open && k != key.0 && !(exists|j: int| 0 <= j < i + 1 && below(fm0, dm, (#[trigger] l[j]).0, k)),
                    ..fm0[k]
                }) by {
                    assert(fa.contains_key(k));
                    if below(fm0, dm, child.0, k) {
                        assert(below(fm0, dm, l[i as int].0, k));
                    }
                    if exists|j: int| 0 <= j < i + 1 && below(fm0, dm, (#[trigger] l[j]).0, k) {
                        let j = choose|j: int| 0 <= j < i + 1 && below(fm0, dm, (#[trigger] l[j]).0, k);
                        if j < i {
                        } else {
                            assert(j == i);
                        }
                    }
                }
            }
            i += 1;
        }
        proof {
            let fc = self.folders_map();
            assert forall|k: u64| #[trigger] fm0.contains_key(k) implies
                (k != key.0 && (exists|j: int| 0 <= j < n && below(fm0, dm, (#[trigger] l[j]).0, k)))
                    == (k != key.0 && orig.in_subtree(key.0, k)) by {
                assert(orig.depth_map() == dm);
                assert(fm0[key.0].child_folders@ == l);
                if k != key.0 {
                    if exists|j: int| 0 <= j < n && below(fm0, dm, (#[trigger] l[j]).0, k) {
                        let j = choose|j: int| 0 <= j < n && below(fm0, dm, (#[trigger] l[j]).0, k);
                        let c = l[j];
                        assert(fm0[key.0].child_folders@[j] == c);
                        assert(fm0.contains_key(c.0));
                        assert(fm0[c.0].parent == Some(key));
                        assert(folder_ancestors(fm0, c.0, dm[c.0]).contains(key.0));
                        if k != c.0 {
                            lemma_ancestor_trans(fm0, files, dm, height, key.0, c.0, k);
                        }
                    }
                    if orig.in_subtree(key.0, k) {
                        lemma_ancestor_child(fm0, files, dm, height, key.0, k);
                        let c = choose|c: FolderKey| fm0[key.0].child_folders@.contains(c) && #[trigger] below(fm0, dm, c.0, k);
                        let j = choose|j: int| 0 <= j < l.len() && l[j] == c;
                        assert(below(fm0, dm, l[j].0, k));
                    }
                }
            }
            lemma_flatten_shrink(fc, fc, self.root.0, 0, self.height@ + 1);
        }
        self.rebuild_view();
    }

    /// How the tree relates to itself after `close_recurse`, as that function's contract states it.
    pub open spec fn close_recurse_post(self, after: Filesystem, key: FolderKey) -> bool {
        &&& after.folders_map().dom() == self.folders_map().dom()
        &&& forall|k: u64| #[trigger] self.folders_map().contains_key(k) ==> after.folders_map()[k] == (Folder {
            open: self.folders_map()[k].open && !self.in_subtree(key.0, k),
            ..self.folders_map()[k]
        })
        &&& after.files_map() == self.files_map()
        &&& after.paths_spec() == self.paths_spec()
        &&& after.loading_set() == self.loading_set()
        &&& after.peeked_spec() == self.peeked_spec()
        &&& after.root_spec() == self.root_spec()
        &&& after.view_spec() == after.tree_view()
        &&& after.selected_spec() == clamp_index(self.selected_spec() as int, after.view_spec().len() as int)
    }

    /// Close a folder and, recursively, every folder below it, loaded or not.
    pub fn close_recurse(&mut self, key: FolderKey)
        requires
            old(self).wf(),
            old(self).folders_map().contains_key(key.0),
        ensures
            final(self).wf(),
            old(self).close_recurse_post(*final(self), key),
    {
        self.close_rec(key);
    }
}

impl Filesystem {
    /// The item stored under a path.
    fn find_path(&self, p: &str) -> (r: Option<Item>)
        ensures
            r == lookup(self.paths@, p@),
    {
        let mut i: usize = 0;
        let t = owned(p);
        proof {
            assert(self.paths@.skip(0) =~= self.paths@);
        }
        while i < self.paths.len()
            invariant
                t@ == p@,
                i <= self.paths@.len(),
                lookup(self.paths@, p@) == lookup(self.paths@.skip(i as int), p@),
            decreases self.paths@.len() - i,
        {
            proof {
                assert(self.paths@.skip(i as int)[0] == self.paths@[i as int]);
                assert(self.paths@.skip(i as int).drop_first() =~= self.paths@.skip(i + 1));
            }
            if self.paths[i].0 == t {
                return Some(self.paths[i].1);
            }
            i += 1;
        }
        None
    }

    /// Store an item under a path, replacing what the path held.
    fn insert_path(&mut self, p: String, item: Item)
        requires
            old(self).paths_valid(),
            old(self).valid_item(item),
        ensures
            final(self).paths_valid(),
            old(self).base_ok() ==> final(self).base_ok(),
            old(self).inner_ok() ==> final(self).inner_ok(),
            forall|q: Seq<char>| #[trigger] lookup(final(self).paths@, q) == (if q == p@ { Some(item) } else { lookup(old(self).paths@, q) }),
            final(self).paths@.len() >= old(self).paths@.len(),
            final(self).files == old(self).files,
            final(self).folders == old(self).folders,
            final(self).view == old(self).view,
            final(self).selected == old(self).selected,
            final(self).peeked == old(self).peeked,
            final(self).root == old(self).root,
            final(self).loading == old(self).loading,
            final(self).depth == old(self).depth,
            final(self).height == old(self).height,
    {
        let mut i: usize = 0;
        while i < self.paths.len()
            invariant
                *self == *old(self),
                old(self).paths_valid(),
                old(self).valid_item(item),
                i <= self.paths@.len(),
                forall|j: int| 0 <= j < i ==> self.paths@[j].0@ != p@,
            decreases self.paths@.len() - i,
        {
            if self.paths[i].0 == p {
                let ghost e = (p, item);
                proof {
                    assert forall|q: Seq<char>| #[trigger] lookup(self.paths@.update(i as int, e), q) == (if q == p@ { Some(item) } else { lookup(self.paths@, q) }) by {
                        lemma_lookup_update(self.paths@, i as int, e, q);
                    }
                }
                self.paths.set(i, (p, item));
                proof {
                    assert(self.paths@ == old(self).paths@.update(i as int, e));
                    assert(self.paths@[i as int] == e);
                    assert forall|j: int| 0 <= j < self.paths@.len() implies self.valid_item((#[trigger] self.paths@[j]).1) by {
                        if j != i {
                            assert(self.paths@[j] == old(self).paths@[j]);
                        }
                    }
                }
                return;
            }
            i += 1;
        }
        proof {
            let l = self.paths@;
            if lookup(l, p@) is Some {
                let j = lemma_lookup_found(l, p@);
            }
            assert forall|q: Seq<char>| #[trigger] lookup(l.push((p, item)), q) == (if q == p@ { Some(item) } else { lookup(l, q) }) by {
                lemma_lookup_push(l, (p, item), q);
            }
        }
        self.paths.push((p, item));
        proof {
            assert forall|j: int| 0 <= j < self.paths@.len() implies self.valid_item((#[trigger] self.paths@[j]).1) by {
                if j < old(self).paths@.len() {
                    assert(self.paths@[j] == old(self).paths@[j]);
                }
            }
        }
    }

    /// Whether a path is being loaded.
    fn loading_has(&self, p: &str) -> (b: bool)
        ensures
            b == self.is_loading(p@),
    {
        let b = crate::text::contains_text(&self.loading, p);
        proof {
            if b {
                let i = choose|i: int| 0 <= i < self.loading@.len() && #[trigger] self.loading@[i]@ == p@;
                assert(self.loading_set().contains(p@));
            }
        }
        b
    }

    /// Mark a path, not marked yet, as being loaded.
    fn loading_insert(&mut self, p: String)
        requires
            old(self).inner_ok(),
            !old(self).is_loading(p@),
        ensures
            final(self).inner_ok(),
            final(self).loading_set() == old(self).loading_set().insert(p@),
            final(self).files == old(self).files,
            final(self).folders == old(self).folders,
            final(self).view == old(self).view,
            final(self).selected == old(self).selected,
            final(self).peeked == old(self).peeked,
            final(self).root == old(self).root,
            final(self).paths == old(self).paths,
            final(self).depth == old(self).depth,
            final(self).height == old(self).height,
    {
        let ghost p0 = p@;
        self.loading.push(p);
        proof {
            let l = self.loading@;
            assert forall|i: int| 0 <= i < old(self).loading@.len() implies #[trigger] old(self).loading@[i]@ != p0 by {
                if old(self).loading@[i]@ == p0 {
                    assert(old(self).loading_set().contains(p0));
                }
            }
            assert forall|i: int, j: int| 0 <= i < j < l.len() implies l[i]@ != l[j]@ by {
                if j < l.len() - 1 {
                    assert(l[i] == old(self).loading@[i] && l[j] == old(self).loading@[j]);
                } else {
                    assert(l[i] == old(self).loading@[i]);
                }
            }
            assert forall|q: Seq<char>| self.loading_set().contains(q) == old(self).loading_set().insert(p0).contains(q) by {
                if self.loading_set().contains(q) {
                    let i = choose|i: int| 0 <= i < l.len() && #[trigger] l[i]@ == q;
                    if i < l.len() - 1 {
                        assert(l[i] == old(self).loading@[i]);
                    }
                }
                if old(self).loading_set().contains(q) {
                    let i = choose|i: int| 0 <= i < old(self).loading@.len() && #[trigger] old(self).loading@[i]@ == q;
                    assert(l[i] == old(self).loading@[i]);
                }
                if q == p0 {
                    assert(l[l.len() - 1]@ == p0);
                }
            }
            assert(self.loading_set() =~= old(self).loading_set().insert(p0));
        }
    }

    /// Unmark a path as being loaded.
    fn loading_remove(&mut self, p: &str)
        requires
            old(self).inner_ok(),
        ensures
            final(self).inner_ok(),
            final(self).loading_set() == old(self).loading_set().remove(p@),
            final(self).files == old(self).files,
            final(self).folders == old(self).folders,
            final(self).view == old(self).view,
            final(self).selected == old(self).selected,
            final(self).peeked == old(self).peeked,
            final(self).root == old(self).root,
            final(self).paths == old(self).paths,
            final(self).depth == old(self).depth,
            final(self).height == old(self).height,
    {
        let t = owned(p);
        let mut i: usize = 0;
        while i < self.loading.len()
            invariant
                *self == *old(self),
                old(self).inner_ok(),
                t@ == p@,
                i <= self.loading@.len(),
                forall|j: int| 0 <= j < i ==> self.loading@[j]@ != p@,
            decreases self.loading@.len() - i,
        {
            if self.loading[i] == t {
                let ghost l0 = self.loading@;
                self.loading.remove(i);
                proof {
                    let l = self.loading@;
                    assert(l == l0.remove(i as int));
                    assert forall|a: int, b: int| 0 <= a < b < l.len() implies l[a]@ != l[b]@ by {
                        let a0 = if a < i { a } else { a + 1 };
                        let b0 = if b < i { b } else { b + 1 };
                        assert(l[a] == l0[a0] && l[b] == l0[b0]);
                    }
                    assert forall|q: Seq<char>| self.loading_set().contains(q) == old(self).loading_set().remove(p@).contains(q) by {
                        if self.loading_set().contains(q) {
                            let a = choose|a: int| 0 <= a < l.len() && #[trigger] l[a]@ == q;
                            let a0 = if a < i { a } else { a + 1 };
                            assert(l[a] == l0[a0]);
                            assert(l0[a0]@ != p@);
                        }
                        if old(self).loading_set().remove(p@).contains(q) {
                            let a0 = choose|a0: int| 0 <= a0 < l0.len() && #[trigger] l0[a0]@ == q;
                            assert(a0 != i);
                            let a = if a0 < i { a0 } else { a0 - 1 };
                            assert(l[a] == l0[a0]);
                        }
                    }
                    assert(self.loading_set() =~= old(self).loading_set().remove(p@));
                }
                return;
            }
            i += 1;
        }
        proof {
            assert(!self.loading_set().contains(p@));
            assert(self.loading_set() =~= old(self).loading_set().remove(p@));
        }
    }

    /// Load a file that is not in the tree yet, unless it is being loaded already.
    fn load_orphan(&mut self, path: String, buffer: bool) -> (task: Option<FsTask>)
        requires
            old(self).wf(),
        ensures
            final(self).wf(),
            old(self).is_loading(path@) ==> *final(self) == *old(self) && task is None,
            !old(self).is_loading(path@) ==> final(self).loading_set() == old(self).loading_set().insert(path@)
                && (task matches Some(FsTask::LoadOrphan { path: p, buffer: b }) && p@ == path@ && b == buffer),
            final(self).files == old(self).files,
            final(self).folders == old(self).folders,
            final(self).view == old(self).view,
            final(self).selected == old(self).selected,
            final(self).peeked == old(self).peeked,
            final(self).root == old(self).root,
            final(self).paths == old(self).paths,
            final(self).depth == old(self).depth,
            final(self).height == old(self).height,
    {
        if self.loading_has(path.as_str()) {
            return None;
        }
        let copy = path.clone();
        self.loading_insert(copy);
        Some(FsTask::LoadOrphan { path, buffer })
    }

    /// Load the buffer of a file, unless it is loaded or being loaded already.
    fn load_buffer(&mut self, key: FileKey) -> (task: Option<FsTask>)
        requires
            old(self).wf(),
            old(self).files_map().contains_key(key.0),
        ensures
            final(self).wf(),
            old(self).is_loading(old(self).files_map()[key.0].path@) || old(self).files_map()[key.0].buffer is Some
                ==> *final(self) == *old(self) && task is None,
            !(old(self).is_loading(old(self).files_map()[key.0].path@) || old(self).files_map()[key.0].buffer is Some)
                ==> final(self).loading_set() == old(self).loading_set().insert(old(self).files_map()[key.0].path@)
                && (task matches Some(FsTask::LoadBuffer { key: k, path: p }) && k == key && p@ == old(self).files_map()[key.0].path@),
            final(self).files == old(self).files,
            final(self).folders == old(self).folders,
            final(self).view == old(self).view,
            final(self).selected == old(self).selected,
            final(self).peeked == old(self).peeked,
            final(self).root == old(self).root,
            final(self).paths == old(self).paths,
            final(self).depth == old(self).depth,
            final(self).height == old(self).height,
    {
        let file = files_get(&self.files, key.0);
        if self.loading_has(file.path.as_str()) || file.buffer.is_some() {
            return None;
        }
        let path = file.path.clone();
        let copy = path.clone();
        self.loading_insert(copy);
        Some(FsTask::LoadBuffer { key, path })
    }
}

impl Filesystem {
    /// The parent folder of an item.
    pub open spec fn parent_of(self, item: Item) -> Option<FolderKey> {
        match item {
            Item::File(k) => self.files_map()[k.0].parent,
            Item::Folder(k) => self.folders_map()[k.0].parent,
        }
    }

    /// Levels between an item and the root (a parentless file is at level 0).
    spec fn rank(self, item: Item) -> nat {
        match self.parent_of(item) {
            None => 0,
            Some(p) => self.depth@[p.0] + 1,
        }
    }

    /// The ancestors of an item are its parent and the parent's ancestors.
    proof fn lemma_ancestors_step(self, item: Item)
        requires
            self.base_ok(),
            self.valid_item(item),
        ensures
            self.ancestors(item) == (match self.parent_of(item) {
                None => Set::empty(),
                Some(p) => self.ancestors(Item::Folder(p)).insert(p.0),
            }),
            self.parent_of(item) matches Some(p) ==> self.folders_map().contains_key(p.0)
                && !self.ancestors(Item::Folder(p)).contains(p.0)
                && self.rank(Item::Folder(p)) < self.rank(item),
    {
        let fm = self.folders_map();
        if let Some(p) = self.parent_of(item) {
            match item {
                Item::Folder(k) => {
                    assert(fm.contains_key(k.0));
                },
                Item::File(f) => {
                    assert(self.files_map().contains_key(f.0));
                },
            }
            assert(fm.contains_key(p.0));
            if self.ancestors(Item::Folder(p)).contains(p.0) {
                lemma_ancestors_higher(fm, self.files_map(), self.depth@, self.height@, p.0, p.0);
            }
            if let Some(q) = fm[p.0].parent {
                assert(fm.contains_key(q.0));
            }
        } else {
            if let Item::Folder(k) = item {
                assert(fm.contains_key(k.0));
            }
        }
    }

    /// The parent of an item.
    fn item_parent(&self, item: Item) -> (p: Option<FolderKey>)
        requires
            self.valid_item(item),
        ensures
            p == self.parent_of(item),
    {
        match item {
            Item::File(k) => files_get(&self.files, k.0).parent,
            Item::Folder(k) => folders_get(&self.folders, k.0).parent,
        }
    }

    /// Change the peeked flag of a stored folder.
    fn set_peeked(&mut self, key: FolderKey, peeked: bool)
        requires
            old(self).base_ok(),
            old(self).folders_map().contains_key(key.0),
        ensures
            final(self).base_ok(),
            final(self).folders_map() == old(self).folders_map().insert(key.0, Folder { peeked, ..old(self).folders_map()[key.0] }),
            same_shape(old(self).folders_map(), final(self).folders_map()),
            final(self).files == old(self).files,
            final(self).view == old(self).view,
            final(self).selected == old(self).selected,
            final(self).peeked == old(self).peeked,
            final(self).root == old(self).root,
            final(self).paths == old(self).paths,
            final(self).loading == old(self).loading,
            final(self).depth == old(self).depth,
            final(self).height == old(self).height,
            forall|it: Item| #[trigger] old(self).valid_item(it) ==> final(self).ancestors(it) == old(self).ancestors(it),
    {
        let ghost a = self.folders_map();
        let f = folders_get_mut(&mut self.folders, key.0);
        f.peeked = peeked;
        proof {
            let b = self.folders_map();
            assert(b.dom() =~= a.dom());
            assert(same_shape(a, b));
            lemma_shape_tree_ok(a, b, self.files_map(), self.depth@, self.height@);
            assert forall|j: u64| #[trigger] a.contains_key(j) implies {
                &&& b.contains_key(j)
                &&& b[j].parent == a[j].parent
                &&& (a[j].parent matches Some(p) ==> a.contains_key(p.0))
            } by {
            }
            assert forall|it: Item| #[trigger] old(self).valid_item(it) implies self.ancestors(it) == old(self).ancestors(it) by {
                match it {
                    Item::Folder(k) => {
                        lemma_ancestors_frame(a, b, k.0, self.depth@[k.0]);
                    },
                    Item::File(f) => {
                        if let Some(p) = self.files_map()[f.0].parent {
                            lemma_ancestors_frame(a, b, p.0, self.depth@[p.0]);
                        }
                    },
                }
            }
        }
    }

    /// Give a stored file a parent folder, keeping the invariant of the tree.
    fn set_file_parent(&mut self, f: FileKey, p: FolderKey)
        requires
            old(self).base_ok(),
            old(self).files_map().contains_key(f.0),
            old(self).folders_map().contains_key(p.0),
        ensures
            final(self).base_ok(),
            final(self).files_map() == old(self).files_map().insert(f.0, File { parent: Some(p), ..old(self).files_map()[f.0] }),
            final(self).folders == old(self).folders,
            final(self).view == old(self).view,
            final(self).selected == old(self).selected,
            final(self).peeked == old(self).peeked,
            final(self).root == old(self).root,
            final(self).paths == old(self).paths,
            final(self).loading == old(self).loading,
            final(self).depth == old(self).depth,
            final(self).height == old(self).height,
    {
        let ghost a = self.files_map();
        let ghost before = *self;
        let file = files_get_mut(&mut self.files, f.0);
        file.parent = Some(p);
        proof {
            let b = self.files_map();
            let fm = self.folders_map();
            assert(b.dom() =~= a.dom());
            assert(b.len() == a.len());
            assert forall|g: u64| #[trigger] b.contains_key(g) implies match b[g].parent {
                None => true,
                Some(q) => fm.contains_key(q.0),
            } by {
                if g != f.0 {
                    assert(a.contains_key(g));
                }
            }
            assert forall|kk: u64, ii: int|
                fm.contains_key(kk) && 0 <= ii < fm[kk].child_files@.len() implies b.contains_key(
                    (#[trigger] fm[kk].child_files@[ii]).0) by {
                assert(a.contains_key(fm[kk].child_files@[ii].0));
            }
            assert forall|g: u64| #[trigger] b.contains_key(g) implies odd_version(g) by {
                assert(a.contains_key(g));
            }
            assert(self.paths_valid()) by {
                assert forall|j: int| 0 <= j < self.paths@.len() implies self.valid_item((#[trigger] self.paths@[j]).1) by {
                    assert(before.valid_item(self.paths@[j].1));
                }
            }
        }
    }

    /// Mark exactly the ancestors of an item as peeked, where no folder was marked.
    fn mark_ancestors(&mut self, item: Item)
        requires
            old(self).base_ok(),
            old(self).valid_item(item),
            forall|k: u64| #[trigger] old(self).folders_map().contains_key(k) ==> !old(self).folders_map()[k].peeked,
        ensures
            final(self).base_ok(),
            same_shape(old(self).folders_map(), final(self).folders_map()),
            forall|k: u64| #[trigger] old(self).folders_map().contains_key(k) ==> final(self).folders_map()[k] == (Folder {
                peeked: old(self).ancestors(item).contains(k),
                ..old(self).folders_map()[k]
            }),
            forall|it: Item| #[trigger] old(self).valid_item(it) ==> final(self).ancestors(it) == old(self).ancestors(it),
            final(self).files == old(self).files,
            final(self).view == old(self).view,
            final(self).selected == old(self).selected,
            final(self).peeked == old(self).peeked,
            final(self).root == old(self).root,
            final(self).paths == old(self).paths,
            final(self).loading == old(self).loading,
            final(self).depth == old(self).depth,
            final(self).height == old(self).height,
    {
        let ghost orig = *old(self);
        let ghost fm0 = self.folders_map();
        let ghost b = orig.ancestors(item);
        proof {
            orig.lemma_ancestors_step(item);
        }
        match self.item_parent(item) {
            Some(first_parent) => {
                let mut p = first_parent;
                loop
                    invariant_except_break
                        self.base_ok(),
                        orig.base_ok(),
                        orig == *old(self),
                        orig.valid_item(Item::Folder(p)),
                        same_shape(fm0, self.folders_map()),
                        fm0 == orig.folders_map(),
                        b == orig.ancestors(item),
                        b.contains(p.0),
                        orig.ancestors(Item::Folder(p)).subset_of(b),
                        forall|it: Item| #[trigger] orig.valid_item(it) ==> self.ancestors(it) == orig.ancestors(it),
                        forall|k: u64| #[trigger] fm0.contains_key(k) ==> self.folders_map()[k] == (Folder {
                            peeked: b.contains(k) && !orig.ancestors(Item::Folder(p)).contains(k) && k != p.0,
                            ..fm0[k]
                        }),
                        self.files == orig.files,
                        self.view == orig.view,
                        self.selected == orig.selected,
                        self.peeked == orig.peeked,
                        self.root == orig.root,
                        self.paths == orig.paths,
                        self.loading == orig.loading,
                        self.depth == orig.depth,
                        self.height == orig.height,
                    ensures
                        self.base_ok(),
                        same_shape(fm0, self.folders_map()),
                        forall|it: Item| #[trigger] orig.valid_item(it) ==> self.ancestors(it) == orig.ancestors(it),
                        forall|k: u64| #[trigger] fm0.contains_key(k) ==> self.folders_map()[k] == (Folder {
                            peeked: b.contains(k),
                            ..fm0[k]
                        }),
                        self.files == orig.files,
                        self.view == orig.view,
                        self.selected == orig.selected,
                        self.peeked == orig.peeked,
                        self.root == orig.root,
                        self.paths == orig.paths,
                        self.loading == orig.loading,
                        self.depth == orig.depth,
                        self.height == orig.height,
                    decreases orig.rank(Item::Folder(p)),
                {
                    proof {
                        orig.lemma_ancestors_step(Item::Folder(p));
                    }
                    let ghost before = *self;
                    self.set_peeked(p, true);
                    proof {
                        assert forall|it: Item| #[trigger] orig.valid_item(it) implies self.ancestors(it) == orig.ancestors(it) by {
                            assert(before.valid_item(it));
                        }
                    }
                    match folders_get(&self.folders, p.0).parent {
                        Some(next) => {
                            proof {
                                assert(fm0[p.0].parent == Some(next));
                                assert forall|k: u64| #[trigger] fm0.contains_key(k) implies self.folders_map()[k] == (Folder {
                                    peeked: b.contains(k) && !orig.ancestors(Item::Folder(next)).contains(k) && k != next.0,
                                    ..fm0[k]
                                }) by {
                                    assert(before.folders_map().contains_key(k));
                                    assert(fm0.contains_key(next.0));
                                    if k == p.0 && orig.ancestors(Item::Folder(next)).contains(p.0) {
                                        lemma_ancestors_higher(fm0, orig.files_map(), orig.depth@, orig.height@, next.0, p.0);
                                    }
                                }
                            }
                            p = next;
                        },
                        None => {
                            proof {
                                assert forall|k: u64| #[trigger] fm0.contains_key(k) implies self.folders_map()[k] == (Folder {
                                    peeked: b.contains(k),
                                    ..fm0[k]
                                }) by {
                                    assert(before.folders_map().contains_key(k));
                                }
                            }
                            break;
                        },
                    }
                }
            },
            None => {
                proof {
                    assert forall|k: u64| #[trigger] fm0.contains_key(k) implies self.folders_map()[k] == (Folder {
                        peeked: b.contains(k),
                        ..fm0[k]
                    }) by {
                        assert(self.folders_map()[k] =~= fm0[k]);
                    }
                    assert(same_shape(fm0, self.folders_map()));
                }
            },
        }
    }

    /// Mark an item as peeked: its ancestors become peeked, shown open in the view, in place of
    /// those of the item peeked before.
    fn mark_peeked(&mut self, item: Item)
        requires
            old(self).wf(),
            old(self).valid_item(item),
        ensures
            final(self).wf(),
            final(self).peeked_spec() == Some(item),
            final(self).folders_map().dom() == old(self).folders_map().dom(),
            forall|k: u64| #[trigger] old(self).folders_map().contains_key(k) ==> final(self).folders_map()[k] == (Folder {
                peeked: old(self).ancestors(item).contains(k),
                ..old(self).folders_map()[k]
            }),
            old(self).peeked_spec() == Some(item) ==> *final(self) == *old(self),
            final(self).files_map() == old(self).files_map(),
            final(self).paths_spec() == old(self).paths_spec(),
            final(self).loading_set() == old(self).loading_set(),
            final(self).root_spec() == old(self).root_spec(),
            final(self).view_spec() == final(self).tree_view(),
            final(self).selected_spec() == clamp_index(old(self).selected_spec() as int, final(self).view_spec().len() as int),
    {
        let ghost orig = *old(self);
        let ghost fm0 = self.folders_map();
        if let Some(first) = self.peeked {
            if first == item {
                proof {
                    assert forall|k: u64| #[trigger] fm0.contains_key(k) implies fm0[k] == (Folder {
                        peeked: orig.ancestors(item).contains(k),
                        ..fm0[k]
                    }) by {}
                }
                return;
            }
            // Unpeek the ancestors of the previously peeked item
            let ghost a = orig.ancestors(first);
            let mut cur = first;
            loop
                invariant
                    self.base_ok(),
                    orig.wf(),
                    orig == *old(self),
                    orig.valid_item(cur),
                    same_shape(fm0, self.folders_map()),
                    fm0 == orig.folders_map(),
                    orig.peeked == Some(first),
                    a == orig.ancestors(first),
                    forall|it: Item| #[trigger] orig.valid_item(it) ==> self.ancestors(it) == orig.ancestors(it),
                    forall|k: u64| #[trigger] fm0.contains_key(k) ==> self.folders_map()[k] == (Folder {
                        peeked: a.contains(k) && orig.ancestors(cur).contains(k),
                        ..fm0[k]
                    }),
                    self.files == orig.files,
                    self.view == orig.view,
                    self.selected == orig.selected,
                    self.peeked == orig.peeked,
                    self.root == orig.root,
                    self.paths == orig.paths,
                    self.loading == orig.loading,
                    self.depth == orig.depth,
                    self.height == orig.height,
                ensures
                    orig.parent_of(cur) is None,
                    orig.valid_item(cur),
                decreases orig.rank(cur),
            {
                proof {
                    orig.lemma_ancestors_step(cur);
                }
                match self.item_parent(cur) {
                    None => {
                        break;
                    },
                    Some(parent) => {
                        let ghost before = *self;
                        self.set_peeked(parent, false);
                        proof {
                            assert forall|k: u64| #[trigger] fm0.contains_key(k) implies self.folders_map()[k] == (Folder {
                                peeked: a.contains(k) && orig.ancestors(Item::Folder(parent)).contains(k),
                                ..fm0[k]
                            }) by {
                                assert(before.folders_map().contains_key(k));
                            }
                            assert forall|it: Item| #[trigger] orig.valid_item(it) implies self.ancestors(it) == orig.ancestors(it) by {
                                assert(before.valid_item(it));
                            }
                        }
                        cur = Item::Folder(parent);
                    },
                }
            }
            proof {
                orig.lemma_ancestors_step(cur);
            }
        }
        let ghost s1 = *self;
        proof {
            assert forall|k: u64| #[trigger] fm0.contains_key(k) implies self.folders_map()[k] == (Folder {
                peeked: false,
                ..fm0[k]
            }) by {
                if orig.peeked is None {
                    assert(!fm0[k].peeked);
                }
            }
        }
        self.peeked = Some(item);
        let ghost b = orig.ancestors(item);
        proof {
            orig.lemma_ancestors_step(item);
        }
        match self.item_parent(item) {
            Some(first_parent) => {
                let mut p = first_parent;
                loop
                    invariant_except_break
                        self.base_ok(),
                        orig.wf(),
                        orig == *old(self),
                        orig.valid_item(Item::Folder(p)),
                        same_shape(fm0, self.folders_map()),
                        fm0 == orig.folders_map(),
                        b == orig.ancestors(item),
                        b.contains(p.0),
                        orig.ancestors(Item::Folder(p)).subset_of(b),
                        forall|it: Item| #[trigger] orig.valid_item(it) ==> self.ancestors(it) == orig.ancestors(it),
                        forall|k: u64| #[trigger] fm0.contains_key(k) ==> self.folders_map()[k] == (Folder {
                            peeked: b.contains(k) && !orig.ancestors(Item::Folder(p)).contains(k) && k != p.0,
                            ..fm0[k]
                        }),
                        self.files == orig.files,
                        self.view == orig.view,
                        self.selected == orig.selected,
                        self.peeked == Some(item),
                        self.root == orig.root,
                        self.paths == orig.paths,
                        self.loading == orig.loading,
                        self.depth == orig.depth,
                        self.height == orig.height,
                    ensures
                        self.base_ok(),
                        same_shape(fm0, self.folders_map()),
                        forall|it: Item| #[trigger] orig.valid_item(it) ==> self.ancestors(it) == orig.ancestors(it),
                        forall|k: u64| #[trigger] fm0.contains_key(k) ==> self.folders_map()[k] == (Folder {
                            peeked: b.contains(k),
                            ..fm0[k]
                        }),
                        self.files == orig.files,
                        self.view == orig.view,
                        self.selected == orig.selected,
                        self.peeked == Some(item),
                        self.root == orig.root,
                        self.paths == orig.paths,
                        self.loading == orig.loading,
                        self.depth == orig.depth,
                        self.height == orig.height,
                    decreases orig.rank(Item::Folder(p)),
                {
                    proof {
                        orig.lemma_ancestors_step(Item::Folder(p));
                    }
                    let ghost before = *self;
                    self.set_peeked(p, true);
                    proof {
                        assert forall|it: Item| #[trigger] orig.valid_item(it) implies self.ancestors(it) == orig.ancestors(it) by {
                            assert(before.valid_item(it));
                        }
                    }
                    match folders_get(&self.folders, p.0).parent {
                        Some(next) => {
                            proof {
                                assert(fm0[p.0].parent == Some(next));
                                assert forall|k: u64| #[trigger] fm0.contains_key(k) implies self.folders_map()[k] == (Folder {
                                    peeked: b.contains(k) && !orig.ancestors(Item::Folder(next)).contains(k) && k != next.0,
                                    ..fm0[k]
                                }) by {
                                    assert(before.folders_map().contains_key(k));
                                    assert(fm0.contains_key(next.0));
                                    if k == p.0 && orig.ancestors(Item::Folder(next)).contains(p.0) {
                                        lemma_ancestors_higher(fm0, orig.files_map(), orig.depth@, orig.height@, next.0, p.0);
                                    }
                                }
                            }
                            p = next;
                        },
                        None => {
                            proof {
                                assert forall|k: u64| #[trigger] fm0.contains_key(k) implies self.folders_map()[k] == (Folder {
                                    peeked: b.contains(k),
                                    ..fm0[k]
                                }) by {
                                    assert(before.folders_map().contains_key(k));
                                }
                            }
                            break;
                        },
                    }
                }
            },
            None => {},
        }
        proof {
            assert(self.peek_ok()) by {
                assert(self.valid_item(item));
                assert forall|k: u64| #[trigger] self.folders_map().contains_key(k) implies (
                    self.folders_map()[k].peeked <==> (self.peeked_spec() matches Some(it)
                        && self.ancestors(it).contains(k))) by {
                    assert(fm0.contains_key(k));
                }
            }
            assert(self.folders_map().dom() =~= fm0.dom());
        }
        self.rebuild_view();
    }

    /// The nearest folder of the tree above a path: its parent paths are read one after another
    /// until one is a folder of the tree; none once one is a file of the tree, or when there is
    /// no parent left.
    pub open spec fn nearest_folder(self, path: Seq<char>) -> Option<FolderKey>
        decreases path.len(),
    {
        match parent_path_of(path) {
            Some(q) => if q.len() < path.len() {
                match self.path_lookup(q) {
                    Some(Item::Folder(k)) => Some(k),
                    Some(Item::File(_)) => None,
                    None => self.nearest_folder(q),
                }
            } else {
                None
            },
            None => None,
        }
    }

    /// The folder whose loading peeking an item starts: for an orphan file (a file with no
    /// parent), the nearest folder of the tree above its path, when it is neither loaded nor
    /// being loaded.
    pub open spec fn parents_task(self, item: Item) -> Option<FolderKey> {
        match item {
            Item::File(f) => if self.files_map()[f.0].parent is None {
                match self.nearest_folder(self.files_map()[f.0].path@) {
                    Some(k) => if !self.folders_map()[k.0].init && !self.is_loading(self.folders_map()[k.0].path@) {
                        Some(k)
                    } else {
                        None
                    },
                    None => None,
                }
            } else {
                None
            },
            Item::Folder(_) => None,
        }
    }

    /// Start loading the parents of an orphan file: the task that loads the nearest folder of
    /// the tree above its path, which is marked as being loaded.
    fn load_parents(&mut self, item: Item) -> (task: Option<FsTask>)
        requires
            old(self).wf(),
            old(self).valid_item(item),
        ensures
            final(self).wf(),
            match old(self).parents_task(item) {
                Some(k) => final(self).loading_set() == old(self).loading_set().insert(old(self).folders_map()[k.0].path@)
                    && (task matches Some(FsTask::LoadFolder { key: kk, path: p }) && kk == k
                        && p@ == old(self).folders_map()[k.0].path@),
                None => final(self).loading_set() == old(self).loading_set() && task is None,
            },
            final(self).files == old(self).files,
            final(self).folders == old(self).folders,
            final(self).view == old(self).view,
            final(self).selected == old(self).selected,
            final(self).peeked == old(self).peeked,
            final(self).root == old(self).root,
            final(self).paths == old(self).paths,
            final(self).depth == old(self).depth,
            final(self).height == old(self).height,
    {
        let f = match item {
            Item::File(f) => f,
            Item::Folder(_) => {
                return None;
            },
        };
        let file = files_get(&self.files, f.0);
        if file.parent.is_some() {
            return None;
        }
        let ghost s = *self;
        let ghost target = s.nearest_folder(file.path@);
        let mut cur = file.path.clone();
        loop
            invariant
                *self == s,
                s == *old(self),
                s.wf(),
                item == Item::File(f),
                s.valid_item(item),
                s.files_map()[f.0].parent is None,
                target == s.nearest_folder(s.files_map()[f.0].path@),
                s.nearest_folder(cur@) == target,
            decreases cur@.len(),
        {
            match path_parent(cur.as_str()) {
                None => {
                    return None;
                },
                Some(q) => {
                    match self.find_path(q.as_str()) {
                        Some(Item::Folder(k)) => {
                            proof {
                                let i = lemma_lookup_found(self.paths@, q@);
                                assert(self.valid_item(self.paths@[i].1));
                            }
                            let folder = folders_get(&self.folders, k.0);
                            if folder.init || self.loading_has(folder.path.as_str()) {
                                return None;
                            }
                            let path = folder.path.clone();
                            let mark = path.clone();
                            self.loading_insert(mark);
                            return Some(FsTask::LoadFolder { key: k, path });
                        },
                        Some(Item::File(_)) => {
                            return None;
                        },
                        None => {
                            cur = q;
                        },
                    }
                },
            }
        }
    }

    /// Peek an item: its ancestors become peeked, shown open in the view, in place of those of
    /// the item peeked before. Peeking an orphan file also starts loading its parents: the
    /// returned task loads the nearest folder of the tree above it, unless that folder is loaded
    /// or being loaded already. Peeking the item already peeked changes nothing.
    pub fn peek(&mut self, item: Item) -> (task: Option<FsTask>)
        requires
            old(self).wf(),
            old(self).valid_item(item),
        ensures
            final(self).wf(),
            old(self).peeked_spec() == Some(item) ==> *final(self) == *old(self) && task is None,
            old(self).peeked_spec() != Some(item) ==> match old(self).parents_task(item) {
                Some(k) => final(self).loading_set() == old(self).loading_set().insert(old(self).folders_map()[k.0].path@)
                    && (task matches Some(FsTask::LoadFolder { key: kk, path: p }) && kk == k
                        && p@ == old(self).folders_map()[k.0].path@),
                None => final(self).loading_set() == old(self).loading_set() && task is None,
            },
            final(self).peeked_spec() == Some(item),
            final(self).folders_map().dom() == old(self).folders_map().dom(),
            forall|k: u64| #[trigger] old(self).folders_map().contains_key(k) ==> final(self).folders_map()[k] == (Folder {
                peeked: old(self).ancestors(item).contains(k),
                ..old(self).folders_map()[k]
            }),
            final(self).files_map() == old(self).files_map(),
            final(self).paths_spec() == old(self).paths_spec(),
            final(self).root_spec() == old(self).root_spec(),
            final(self).view_spec() == final(self).tree_view(),
            final(self).selected_spec() == clamp_index(old(self).selected_spec() as int, final(self).view_spec().len() as int),
    {
        if self.peeked == Some(item) {
            self.mark_peeked(item);
            return None;
        }
        let ghost s0 = *self;
        self.mark_peeked(item);
        let ghost s1 = *self;
        proof {
            assert(s1.valid_item(item));
            if let Item::File(f) = item {
                lemma_nearest_same(s0, s1, s0.files_map()[f.0].path@);
                if let Some(k) = s0.nearest_folder(s0.files_map()[f.0].path@) {
                    lemma_nearest_stored(s0, s0.files_map()[f.0].path@);
                    assert(s0.folders_map().contains_key(k.0));
                }
            }
            assert(s1.parents_task(item) == s0.parents_task(item));
        }
        self.load_parents(item)
    }

    /// Peek the item stored under a path; a path not in the tree yet is loaded as an orphan
    /// file (without its buffer) instead.
    pub fn peek_path(&mut self, path: &str) -> (task: Option<FsTask>)
        requires
            old(self).wf(),
        ensures
            final(self).wf(),
            old(self).path_lookup(path@) matches Some(item) ==> {
                &&& task is None
                &&& final(self).peeked_spec() == Some(item)
                &&& final(self).loading_set() == old(self).loading_set()
                &&& forall|k: u64| #[trigger] old(self).folders_map().contains_key(k) ==> final(self).folders_map()[k] == (Folder {
                    peeked: old(self).ancestors(item).contains(k),
                    ..old(self).folders_map()[k]
                })
            },
            old(self).path_lookup(path@) is None ==> {
                &&& final(self).folders_map() == old(self).folders_map()
                &&& final(self).peeked_spec() == old(self).peeked_spec()
                &&& old(self).is_loading(path@) ==> task is None && final(self).loading_set() == old(self).loading_set()
                &&& !old(self).is_loading(path@) ==> final(self).loading_set() == old(self).loading_set().insert(path@)
                    && (task matches Some(FsTask::LoadOrphan { path: p, buffer: b }) && p@ == path@ && !b)
            },
            final(self).files_map() == old(self).files_map(),
            final(self).paths_spec() == old(self).paths_spec(),
            final(self).root_spec() == old(self).root_spec(),
            final(self).view_spec() == final(self).tree_view(),
            final(self).selected_spec() == clamp_index(old(self).selected_spec() as int, final(self).view_spec().len() as int),
    {
        match self.find_path(path) {
            Some(item) => {
                proof {
                    let i = lemma_lookup_found(self.paths@, path@);
                    assert(self.valid_item(self.paths@[i].1));
                }
                self.mark_peeked(item);
                None
            },
            None => self.load_orphan(owned(path), false),
        }
    }

    /// How the tree relates to itself after `ensure_preview` for a path, as that function's contract states it.
    pub open spec fn ensure_preview_post(self, after: Filesystem, path: Seq<char>, res: (Option<FileKey>, Option<FsTask>)) -> bool {
        &&& after.folders_map() == self.folders_map()
        &&& after.files_map() == self.files_map()
        &&& after.view_spec() == self.view_spec()
        &&& after.selected_spec() == self.selected_spec()
        &&& after.peeked_spec() == self.peeked_spec()
        &&& after.paths_spec() == self.paths_spec()
        &&& match self.path_lookup(path) {
            Some(Item::File(key)) => if self.files_map()[key.0].buffer is Some {
                res.0 == Some(key) && res.1 is None && after == self
            } else {
                &&& res.0 is None
                &&& self.is_loading(self.files_map()[key.0].path@) ==> res.1 is None && after == self
                &&& !self.is_loading(self.files_map()[key.0].path@) ==>
                    after.loading_set() == self.loading_set().insert(self.files_map()[key.0].path@)
                    && (res.1 matches Some(FsTask::LoadBuffer { key: k, path: p }) && k == key && p@ == self.files_map()[key.0].path@)
            },
            Some(Item::Folder(_)) => res.0 is None && res.1 is None && after == self,
            None => {
                &&& res.0 is None
                &&& self.is_loading(path) ==> res.1 is None && after == self
                &&& !self.is_loading(path) ==> after.loading_set() == self.loading_set().insert(path)
                    && (res.1 matches Some(FsTask::LoadOrphan { path: p, buffer: b }) && p@ == path && b)
            },
        }
    }

    /// Make a file previewable from its path: its key once its buffer is loaded; otherwise the
    /// task that loads the buffer, or the file with its buffer when the path is not in the tree.
    pub fn ensure_preview(&mut self, path: &str) -> (res: (Option<FileKey>, Option<FsTask>))
        requires
            old(self).wf(),
        ensures
            final(self).wf(),
            old(self).ensure_preview_post(*final(self), path@, res),
    {
        match self.find_path(path) {
            Some(Item::File(key)) => {
                proof {
                    let i = lemma_lookup_found(self.paths@, path@);
                    assert(self.valid_item(self.paths@[i].1));
                }
                if files_get(&self.files, key.0).buffer.is_some() {
                    (Some(key), None)
                } else {
                    (None, self.load_buffer(key))
                }
            },
            Some(Item::Folder(_)) => (None, None),
            None => (None, self.load_orphan(owned(path), true)),
        }
    }
}

impl Item {
    /// The parent folder of the item.
    pub fn parent(&self, fs: &Filesystem) -> (p: Option<FolderKey>)
        requires
            fs.valid_item(*self),
        ensures
            p == fs.parent_of(*self),
    {
        fs.item_parent(*self)
    }
}

impl Filesystem {
    /// Store incoming files, reusing the stored file of a path already known as a file and
    /// skipping those whose path is known as a folder, then map their paths to them. Returns
    /// the keys of the kept files, in order.
    fn insert_files(&mut self, files: Vec<File>) -> (keys: Vec<FileKey>)
        requires
            old(self).base_ok(),
            old(self).files_map().len() + files@.len() < slot_limit(),
            forall|i: int| 0 <= i < files@.len() ==> ((#[trigger] files@[i]).parent matches Some(p)
                ==> old(self).folders_map().contains_key(p.0)),
        ensures
            final(self).base_ok(),
            keys@.len() == kept_files(old(self).paths@, files@).len(),
            forall|j: int| #![trigger keys@[j]] 0 <= j < keys@.len() ==> {
                let i = kept_files(old(self).paths@, files@)[j];
                match lookup(old(self).paths@, files@[i].path@) {
                    Some(Item::File(k)) => keys@[j] == k,
                    _ => !old(self).files_map().contains_key(keys@[j].0) && final(self).files_map()[keys@[j].0] == files@[i],
                }
            },
            forall|j: int| 0 <= j < keys@.len() ==> final(self).files_map().contains_key((#[trigger] keys@[j]).0),
            forall|k: u64| #[trigger] old(self).files_map().contains_key(k) ==> final(self).files_map().contains_key(k)
                && final(self).files_map()[k] == old(self).files_map()[k],
            forall|k: u64| #[trigger] final(self).files_map().contains_key(k) ==> old(self).files_map().contains_key(k)
                || exists|j: int| 0 <= j < keys@.len() && keys@[j].0 == k,
            final(self).files_map().len() <= old(self).files_map().len() + files@.len(),
            forall|q: Seq<char>| #[trigger] lookup(final(self).paths@, q) == overlay(
                file_path_entries(final(self).files_map(), keys@), q, lookup(old(self).paths@, q)),
            final(self).folders == old(self).folders,
            final(self).view == old(self).view,
            final(self).selected == old(self).selected,
            final(self).peeked == old(self).peeked,
            final(self).root == old(self).root,
            final(self).loading == old(self).loading,
            final(self).depth == old(self).depth,
            final(self).height == old(self).height,
    {
        let ghost orig = *old(self);
        let ghost incoming = files@;
        let ghost p0 = self.paths@;
        let n = files.len();
        let mut rest = files;
        let mut keys: Vec<FileKey> = Vec::new();
        let mut i: usize = 0;
        proof {
            lemma_kept_bound(p0, incoming);
            assert(incoming.take(0) =~= Seq::<File>::empty());
            assert(incoming.subrange(0, n as int) =~= incoming);
        }
        while i < n
            invariant
                orig == *old(self),
                orig.base_ok(),
                self.base_ok(),
                n == incoming.len(),
                i <= n,
                rest@ == incoming.subrange(i as int, n as int),
                p0 == orig.paths@,
                self.paths == orig.paths,
                self.folders == orig.folders,
                self.view == orig.view,
                self.selected == orig.selected,
                self.peeked == orig.peeked,
                self.root == orig.root,
                self.loading == orig.loading,
                self.depth == orig.depth,
                self.height == orig.height,
                orig.files_map().len() + n < slot_limit(),
                self.files_map().len() <= orig.files_map().len() + i,
                forall|j: int| 0 <= j < n ==> ((#[trigger] incoming[j]).parent matches Some(p)
                    ==> orig.folders_map().contains_key(p.0)),
                keys@.len() == kept_files(p0, incoming.take(i as int)).len(),
                forall|j: int| #![trigger keys@[j]] 0 <= j < keys@.len() ==> {
                    let x = kept_files(p0, incoming.take(i as int))[j];
                    &&& 0 <= x < i
                    &&& match lookup(p0, incoming[x].path@) {
                        Some(Item::File(k)) => keys@[j] == k,
                        _ => !orig.files_map().contains_key(keys@[j].0) && self.files_map()[keys@[j].0] == incoming[x],
                    }
                },
                forall|j: int| 0 <= j < keys@.len() ==> self.files_map().contains_key((#[trigger] keys@[j]).0),
                forall|k: u64| #[trigger] orig.files_map().contains_key(k) ==> self.files_map().contains_key(k)
                    && self.files_map()[k] == orig.files_map()[k],
                forall|k: u64| #[trigger] self.files_map().contains_key(k) ==> orig.files_map().contains_key(k)
                    || exists|j: int| 0 <= j < keys@.len() && keys@[j].0 == k,
            decreases n - i,
        {
            let file = rest.remove(0);
            proof {
                assert(file == incoming[i as int]);
                assert(rest@ =~= incoming.subrange(i + 1, n as int));
                assert(incoming.take(i + 1).drop_last() =~= incoming.take(i as int));
                assert(incoming.take(i + 1).last() == incoming[i as int]);
                lemma_kept_bound(p0, incoming.take(i as int));
            }
            let ghost before = *self;
            let ghost kb = keys@;
            match self.find_path(file.path.as_str()) {
                Some(Item::File(key)) => {
                    proof {
                        let x = lemma_lookup_found(p0, incoming[i as int].path@);
                        assert(orig.paths_valid());
                        assert(orig.valid_item(p0[x].1));
                    }
                    keys.push(key);
                },
                None => {
                    let k = files_insert(&mut self.files, file);
                    keys.push(FileKey(k));
                    proof {
                        let fa = before.files_map();
                        let fb = self.files_map();
                        assert(fb.dom() =~= fa.dom().insert(k));
                        let fm = self.folders_map();
                        assert(tree_ok(fm, fb, self.depth@, self.height@)) by {
                            assert forall|f: u64| #[trigger] fb.contains_key(f) implies match fb[f].parent {
                                None => true,
                                Some(p) => fm.contains_key(p.0),
                            } by {
                                if f != k {
                                    assert(fa.contains_key(f));
                                }
                            }
                            assert forall|kk: u64, ii: int|
                                fm.contains_key(kk) && 0 <= ii < fm[kk].child_files@.len() implies fb.contains_key(
                                    (#[trigger] fm[kk].child_files@[ii]).0) by {
                                assert(fa.contains_key(fm[kk].child_files@[ii].0));
                            }
                        }
                        assert(self.paths_valid()) by {
                            assert forall|j: int| 0 <= j < self.paths@.len() implies self.valid_item((#[trigger] self.paths@[j]).1) by {
                                assert(before.valid_item(self.paths@[j].1));
                            }
                        }
                    }
                },
                Some(Item::Folder(_)) => {},
            }
            proof {
                let kt = kept_files(p0, incoming.take(i + 1));
                let ko = kept_files(p0, incoming.take(i as int));
                assert(forall|j: int| 0 <= j < ko.len() ==> kt[j] == ko[j]);
                assert forall|j: int| 0 <= j < keys@.len() implies self.files_map().contains_key((#[trigger] keys@[j]).0) by {
                    if j < kb.len() {
                        assert(keys@[j] == kb[j]);
                    }
                }
                assert forall|j: int| #![trigger keys@[j]] 0 <= j < keys@.len() implies {
                    let x = kt[j];
                    &&& 0 <= x < i + 1
                    &&& match lookup(p0, incoming[x].path@) {
                        Some(Item::File(k)) => keys@[j] == k,
                        _ => !orig.files_map().contains_key(keys@[j].0) && self.files_map()[keys@[j].0] == incoming[x],
                    }
                } by {
                    if j < kb.len() {
                        assert(keys@[j] == kb[j]);
                        let x = ko[j];
                        if !(lookup(p0, incoming[x].path@) matches Some(Item::File(_))) {
                            assert(before.files_map().contains_key(kb[j].0));
                        }
                    }
                }
                assert forall|k: u64| #[trigger] self.files_map().contains_key(k) implies orig.files_map().contains_key(k)
                    || exists|j: int| 0 <= j < keys@.len() && keys@[j].0 == k by {
                    if before.files_map().contains_key(k) {
                        if !orig.files_map().contains_key(k) {
                            let j = choose|j: int| 0 <= j < kb.len() && kb[j].0 == k;
                            assert(keys@[j] == kb[j]);
                        }
                    } else {
                        assert(keys@[keys@.len() - 1].0 == k);
                    }
                }
            }
            i += 1;
        }
        proof {
            assert(incoming.take(n as int) =~= incoming);
        }
        let ghost mid = *self;
        let mut j: usize = 0;
        proof {
            assert(keys@.take(0) =~= Seq::<FileKey>::empty());
            assert forall|q: Seq<char>| #[trigger] lookup(self.paths@, q) == overlay(
                file_path_entries(self.files_map(), keys@.take(0)), q, lookup(p0, q)) by {
                assert(file_path_entries(self.files_map(), keys@.take(0)) =~= Seq::<(Seq<char>, Item)>::empty());
            }
        }
        while j < keys.len()
            invariant
                j <= keys@.len(),
                self.base_ok(),
                self.files == mid.files,
                self.folders == mid.folders,
                self.view == mid.view,
                self.selected == mid.selected,
                self.peeked == mid.peeked,
                self.root == mid.root,
                self.loading == mid.loading,
                self.depth == mid.depth,
                self.height == mid.height,
                forall|x: int| 0 <= x < keys@.len() ==> self.files_map().contains_key((#[trigger] keys@[x]).0),
                forall|q: Seq<char>| #[trigger] lookup(self.paths@, q) == overlay(
                    file_path_entries(self.files_map(), keys@.take(j as int)), q, lookup(p0, q)),
            decreases keys@.len() - j,
        {
            let key = keys[j];
            let path = files_get(&self.files, key.0).path.clone();
            let ghost before = self.paths@;
            self.insert_path(path, Item::File(key));
            proof {
                let e = file_path_entries(self.files_map(), keys@.take(j + 1));
                assert(e.drop_last() =~= file_path_entries(self.files_map(), keys@.take(j as int)));
                assert(e.last() == (self.files_map()[key.0].path@, Item::File(key)));
            }
            j += 1;
        }
        proof {
            assert(keys@.take(keys@.len() as int) =~= keys@);
        }
        keys
    }
}

impl Filesystem {
    /// Store incoming folders under fresh keys, and map their paths to them. Returns the keys,
    /// in order.
    fn insert_folders(&mut self, folders: Vec<Folder>, Ghost(d): Ghost<nat>) -> (keys: Vec<FolderKey>)
        requires
            old(self).paths_valid(),
            old(self).folders_map().dom().finite(),
            old(self).folders_map().len() + folders@.len() < slot_limit(),
        ensures
            final(self).paths_valid(),
            keys@.len() == folders@.len(),
            forall|i: int| 0 <= i < keys@.len() ==> {
                &&& !old(self).folders_map().contains_key((#[trigger] keys@[i]).0)
                &&& final(self).folders_map().contains_key(keys@[i].0)
                &&& final(self).folders_map()[keys@[i].0] == folders@[i]
                &&& final(self).depth@.contains_key(keys@[i].0)
                &&& final(self).depth@[keys@[i].0] == d
                &&& odd_version(keys@[i].0)
            },
            forall|i: int, j: int| 0 <= i < j < keys@.len() ==> keys@[i] != keys@[j],
            forall|k: u64| #[trigger] old(self).folders_map().contains_key(k) ==> final(self).folders_map().contains_key(k)
                && final(self).folders_map()[k] == old(self).folders_map()[k]
                && final(self).depth@.contains_key(k) == old(self).depth@.contains_key(k)
                && final(self).depth@[k] == old(self).depth@[k],
            forall|k: u64| #[trigger] final(self).folders_map().contains_key(k) ==> old(self).folders_map().contains_key(k)
                || keys@.contains(FolderKey(k)),
            final(self).folders_map().dom().finite(),
            final(self).folders_map().len() == old(self).folders_map().len() + folders@.len(),
            forall|q: Seq<char>| #[trigger] lookup(final(self).paths@, q) == overlay(
                folder_path_entries(final(self).folders_map(), keys@), q, lookup(old(self).paths@, q)),
            final(self).files == old(self).files,
            final(self).view == old(self).view,
            final(self).selected == old(self).selected,
            final(self).peeked == old(self).peeked,
            final(self).root == old(self).root,
            final(self).loading == old(self).loading,
            final(self).height == old(self).height,
    {
        let ghost orig = *old(self);
        let ghost incoming = folders@;
        let n = folders.len();
        let mut rest = folders;
        let mut keys: Vec<FolderKey> = Vec::new();
        let mut i: usize = 0;
        proof {
            assert(incoming.subrange(0, n as int) =~= incoming);
            assert forall|q: Seq<char>| #[trigger] lookup(self.paths@, q) == overlay(
                folder_path_entries(self.folders_map(), keys@), q, lookup(orig.paths@, q)) by {
                assert(folder_path_entries(self.folders_map(), keys@) =~= Seq::<(Seq<char>, Item)>::empty());
            }
        }
        while i < n
            invariant
                orig == *old(self),
                self.paths_valid(),
                n == incoming.len(),
                i <= n,
                rest@ == incoming.subrange(i as int, n as int),
                keys@.len() == i,
                self.folders_map().dom().finite(),
                self.folders_map().len() == orig.folders_map().len() + i,
                orig.folders_map().len() + n < slot_limit(),
                forall|x: int| 0 <= x < keys@.len() ==> {
                    &&& !orig.folders_map().contains_key((#[trigger] keys@[x]).0)
                    &&& self.folders_map().contains_key(keys@[x].0)
                    &&& self.folders_map()[keys@[x].0] == incoming[x]
                    &&& self.depth@.contains_key(keys@[x].0)
                    &&& self.depth@[keys@[x].0] == d
                    &&& odd_version(keys@[x].0)
                },
                forall|x: int, y: int| 0 <= x < y < keys@.len() ==> keys@[x] != keys@[y],
                forall|k: u64| #[trigger] orig.folders_map().contains_key(k) ==> self.folders_map().contains_key(k)
                    && self.folders_map()[k] == orig.folders_map()[k]
                    && self.depth@.contains_key(k) == orig.depth@.contains_key(k)
                    && self.depth@[k] == orig.depth@[k],
                forall|k: u64| #[trigger] self.folders_map().contains_key(k) ==> orig.folders_map().contains_key(k)
                    || keys@.contains(FolderKey(k)),
                forall|q: Seq<char>| #[trigger] lookup(self.paths@, q) == overlay(
                    folder_path_entries(self.folders_map(), keys@), q, lookup(orig.paths@, q)),
                self.files == orig.files,
                self.view == orig.view,
                self.selected == orig.selected,
                self.peeked == orig.peeked,
                self.root == orig.root,
                self.loading == orig.loading,
                self.height == orig.height,
            decreases n - i,
        {
            let folder = rest.remove(0);
            proof {
                assert(folder == incoming[i as int]);
                assert(rest@ =~= incoming.subrange(i + 1, n as int));
            }
            let path = folder.path.clone();
            let ghost before = *self;
            let ghost kb = keys@;
            let k = folders_insert(&mut self.folders, folder);
            proof {
                self.depth@ = self.depth@.insert(k, d);
                assert(self.folders_map().dom() =~= before.folders_map().dom().insert(k));
            }
            keys.push(FolderKey(k));
            proof {
                assert(self.paths_valid()) by {
                    assert forall|j: int| 0 <= j < self.paths@.len() implies self.valid_item((#[trigger] self.paths@[j]).1) by {
                        assert(before.valid_item(self.paths@[j].1));
                    }
                }
                assert forall|x: int| 0 <= x < keys@.len() implies {
                    &&& !orig.folders_map().contains_key((#[trigger] keys@[x]).0)
                    &&& self.folders_map().contains_key(keys@[x].0)
                    &&& self.folders_map()[keys@[x].0] == incoming[x]
                    &&& self.depth@.contains_key(keys@[x].0)
                    &&& self.depth@[keys@[x].0] == d
                    &&& odd_version(keys@[x].0)
                } by {
                    if x < kb.len() {
                        assert(keys@[x] == kb[x]);
                        assert(before.folders_map().contains_key(kb[x].0));
                    } else {
                        assert(keys@[x].0 == k);
                        if orig.folders_map().contains_key(k) {
                            assert(before.folders_map().contains_key(k));
                        }
                    }
                }
                assert forall|x: int, y: int| 0 <= x < y < keys@.len() implies keys@[x] != keys@[y] by {
                    if y == keys@.len() - 1 {
                        assert(keys@[x] == kb[x]);
                        assert(before.folders_map().contains_key(kb[x].0));
                    } else {
                        assert(keys@[x] == kb[x] && keys@[y] == kb[y]);
                    }
                }
                assert forall|kk: u64| #[trigger] orig.folders_map().contains_key(kk) implies self.folders_map().contains_key(kk)
                    && self.folders_map()[kk] == orig.folders_map()[kk]
                    && self.depth@.contains_key(kk) == orig.depth@.contains_key(kk)
                    && self.depth@[kk] == orig.depth@[kk] by {
                    assert(before.folders_map().contains_key(kk));
                    assert(kk != k);
                }
                assert forall|kk: u64| #[trigger] self.folders_map().contains_key(kk) implies orig.folders_map().contains_key(kk)
                    || keys@.contains(FolderKey(kk)) by {
                    if kk == k {
                        assert(keys@[keys@.len() - 1] == FolderKey(k));
                    } else {
                        assert(before.folders_map().contains_key(kk));
                        if !orig.folders_map().contains_key(kk) {
                            let x = choose|x: int| 0 <= x < kb.len() && kb[x] == FolderKey(kk);
                            assert(keys@[x] == kb[x]);
                        }
                    }
                }
                assert(folder_path_entries(before.folders_map(), kb) =~= folder_path_entries(self.folders_map(), kb)) by {
                    assert forall|x: int| 0 <= x < kb.len() implies before.folders_map()[kb[x].0] == self.folders_map()[kb[x].0] by {
                        assert(keys@[x] == kb[x]);
                        assert(before.folders_map().contains_key(kb[x].0));
                    }
                }
                assert(self.valid_item(Item::Folder(FolderKey(k))));
            }
            let ghost mid = *self;
            self.insert_path(path, Item::Folder(FolderKey(k)));
            proof {
                let e = folder_path_entries(self.folders_map(), keys@);
                assert(e.drop_last() =~= folder_path_entries(self.folders_map(), kb));
                assert(e.last() == (self.folders_map()[k].path@, Item::Folder(FolderKey(k))));
                assert(self.folders_map()[k] == incoming[i as int]);
            }
            i += 1;
        }
        keys
    }

    /// Whether a folder-loaded event fits the tree.
    pub open spec fn folder_event_ok(self, key: FolderKey, files: Seq<File>, folders: Seq<Folder>) -> bool {
        &&& self.folders_map().contains_key(key.0)
        &&& !self.folders_map()[key.0].init ==> {
            &&& self.folders_map().len() + folders.len() < slot_limit()
            &&& self.files_map().len() + files.len() < slot_limit()
            &&& forall|i: int| 0 <= i < folders.len() ==> {
                &&& (#[trigger] folders[i]).parent == Some(key)
                &&& !folders[i].peeked
                &&& folders[i].child_folders@.len() == 0
                &&& folders[i].child_files@.len() == 0
            }
            &&& forall|i: int| 0 <= i < files.len() ==> ((#[trigger] files[i]).parent matches Some(p)
                ==> self.folders_map().contains_key(p.0))
        }
    }

    /// The orphan files among a loaded folder's files (those with no parent) get it as their
    /// parent; the peeked marks follow the peeked item's ancestors, the folder's path is no
    /// longer being loaded, and the view is rebuilt.
    #[verifier::rlimit(50)]
    fn take_in_orphans(&mut self, key: FolderKey)
        requires
            old(self).inner_ok(),
            old(self).folders_map().contains_key(key.0),
        ensures
            final(self).wf(),
            old(self).took_in(*final(self), key),
    {
        let ghost s3 = *self;
        let ghost fk = s3.folders_map()[key.0].child_files@;
        proof {
            assert(s3.base_ok() && s3.peek_ok());
        }
        // The orphans among the folder's files get it as their parent.
        let refresh = match self.peeked {
            Some(Item::File(f)) => files_get(&self.files, f.0).parent.is_none(),
            _ => false,
        };
        let n = folders_get(&self.folders, key.0).child_files.len();
        let mut j: usize = 0;
        proof {
            assert(fk.take(0) =~= Seq::<FileKey>::empty());
        }
        while j < n
            invariant
                self.base_ok(),
                s3.base_ok(),
                s3.peek_ok(),
                j <= n,
                s3.folders_map().contains_key(key.0),
                fk == s3.folders_map()[key.0].child_files@,
                n == fk.len(),
                self.folders == s3.folders,
                self.view == s3.view,
                self.selected == s3.selected,
                self.peeked == s3.peeked,
                self.root == s3.root,
                self.paths == s3.paths,
                self.loading == s3.loading,
                self.depth == s3.depth,
                self.height == s3.height,
                self.files_map().dom() == s3.files_map().dom(),
                forall|k: u64| #[trigger] s3.files_map().contains_key(k) ==> self.files_map()[k] == (if fk.take(j as int).contains(FileKey(k)) {
                    adopted(s3.files_map()[k], key)
                } else {
                    s3.files_map()[k]
                }),
            decreases n - j,
        {
            let fkey = folders_get(&self.folders, key.0).child_files[j];
            let ghost before = self.files_map();
            proof {
                assert(s3.folders_map()[key.0].child_files@[j as int] == fkey);
                assert(s3.files_map().contains_key(fkey.0));
                assert(fk.take(j + 1) =~= fk.take(j as int).push(fkey));
            }
            if files_get(&self.files, fkey.0).parent.is_none() {
                self.set_file_parent(fkey, key);
            }
            proof {
                assert(self.files_map().dom() =~= s3.files_map().dom());
                assert forall|k: u64| #[trigger] s3.files_map().contains_key(k) implies self.files_map()[k] == (if fk.take(j + 1).contains(FileKey(k)) {
                    adopted(s3.files_map()[k], key)
                } else {
                    s3.files_map()[k]
                }) by {
                    if k == fkey.0 {
                        assert(fk.take(j + 1)[j as int] == FileKey(k));
                    } else {
                        if fk.take(j + 1).contains(FileKey(k)) {
                            let i = choose|i: int| 0 <= i < fk.take(j + 1).len() && #[trigger] fk.take(j + 1)[i] == FileKey(k);
                            assert(fk.take(j as int)[i] == FileKey(k));
                        }
                    }
                }
            }
            j += 1;
        }
        proof {
            assert(fk.take(n as int) =~= fk);
        }
        let ghost s4 = *self;
        if refresh {
            match self.peeked {
                Some(item) => {
                    proof {
                        assert(s3.valid_item(item));
                        assert forall|k: u64| #[trigger] s4.folders_map().contains_key(k) implies !s4.folders_map()[k].peeked by {
                            assert(s3.folders_map().contains_key(k));
                        }
                    }
                    self.mark_ancestors(item);
                },
                None => {},
            }
        }
        proof {
            assert(self.peek_ok()) by {
                if let Some(it) = self.peeked {
                    assert(s3.valid_item(it));
                }
                assert forall|k: u64| #[trigger] self.folders_map().contains_key(k) implies (
                    self.folders_map()[k].peeked <==> (self.peeked_spec() matches Some(it)
                        && self.ancestors(it).contains(k))) by {
                    assert(s4.folders_map().contains_key(k));
                    assert(s3.folders_map().contains_key(k));
                    if let Some(it) = self.peeked {
                        assert(s3.valid_item(it));
                        assert(s4.valid_item(it));
                        if !refresh {
                            match it {
                                Item::File(g) => {
                                    assert(s3.files_map().contains_key(g.0));
                                    assert(s3.files_map()[g.0].parent is Some);
                                    assert(self.files_map()[g.0] == s3.files_map()[g.0]);
                                },
                                Item::Folder(_) => {},
                            }
                            assert(self.ancestors(it) == s3.ancestors(it));
                        }
                    }
                }
            }
        }
        let path = folders_get(&self.folders, key.0).path.clone();
        self.loading_remove(path.as_str());
        self.rebuild_view();
        proof {
            assert(self.files_map().dom() =~= s3.files_map().dom());
            assert forall|k: u64| #[trigger] s3.folders_map().contains_key(k) implies self.folders_map()[k] == (Folder {
                peeked: self.folders_map()[k].peeked,
                ..s3.folders_map()[k]
            }) by {
                assert(s4.folders_map().contains_key(k));
            }
            assert(self.folders_map().dom() =~= s3.folders_map().dom());
            reveal(Filesystem::took_in);
        }
    }

    /// Initialize the contents of a folder that is being opened for the first time.
    fn init_folder(&mut self, key: FolderKey, files: Vec<File>, folders: Vec<Folder>)
        requires
            old(self).wf(),
            old(self).folder_event_ok(key, files@, folders@),
        ensures
            final(self).wf(),
            old(self).folders_map()[key.0].init ==> *final(self) == *old(self),
            !old(self).folders_map()[key.0].init ==> old(self).folder_loaded(*final(self), key, files@, folders@),
    {
        if folders_get(&self.folders, key.0).init {
            return;
        }
        let ghost s0 = *self;
        let child_files = self.insert_files(files);
        let ghost s1 = *self;
        let ghost d = self.depth@[key.0] + 1;
        let child_folders = self.insert_folders(folders, Ghost(d));
        let ghost s2 = *self;
        let ghost cf = child_folders@;
        let ghost fk = child_files@;
        let f = folders_get_mut(&mut self.folders, key.0);
        f.child_files = child_files;
        f.child_folders = child_folders;
        f.init = true;
        proof {
            if cf.len() > 0 && d > self.height@ {
                self.height@ = d;
            }
        }
        proof {
            let f0 = s0.folders_map();
            let f1 = self.folders_map();
            let files0 = s0.files_map();
            let files1 = self.files_map();
            assert(f1.dom() =~= s2.folders_map().dom());
            assert(f0.contains_key(key.0));
            assert(s2.folders_map()[key.0] == f0[key.0]);
            assert forall|k: u64| #[trigger] files1.contains_key(k) implies (files1[k].parent matches Some(p) ==> f0.contains_key(p.0)) by {
                if files0.contains_key(k) {
                    assert(files1[k] == files0[k]);
                } else {
                    let j = choose|j: int| 0 <= j < fk.len() && fk[j].0 == k;
                    let i = kept_files(s0.paths@, files@)[j];
                    lemma_kept_bound(s0.paths@, files@);
                    if let Some(Item::File(kk)) = lookup(s0.paths@, files@[i].path@) {
                        let x = lemma_lookup_found(s0.paths@, files@[i].path@);
                        assert(s0.paths_valid());
                        assert(s0.valid_item(s0.paths@[x].1));
                    }
                }
            }
            assert forall|i: int| 0 <= i < cf.len() implies {
                let c = #[trigger] cf[i];
                &&& !f0.contains_key(c.0)
                &&& f1.contains_key(c.0)
                &&& f1[c.0].parent == Some(FolderKey(key.0))
                &&& f1[c.0].child_folders@.len() == 0
                &&& f1[c.0].child_files@.len() == 0
            } by {
                assert(!s1.folders_map().contains_key(cf[i].0));
                assert(cf[i].0 != key.0);
            }
            assert forall|k: u64| #[trigger] f0.contains_key(k) && k != key.0 implies f1.contains_key(k) && f1[k] == f0[k] by {
                assert(s1.folders_map().contains_key(k));
            }
            assert forall|k: u64| #[trigger] f0.contains_key(k) implies self.depth@.contains_key(k) && self.depth@[k] == s0.depth@[k] by {
                assert(s1.folders_map().contains_key(k));
            }
            assert forall|k: u64| #[trigger] f1.contains_key(k) implies f0.contains_key(k) || cf.contains(FolderKey(k)) by {
                if !f0.contains_key(k) {
                    assert(!s1.folders_map().contains_key(k));
                }
            }
            assert(attach_pre(f0, files0, s0.depth@, s0.height@, f1, files1, self.depth@, self.height@, key.0, cf, fk));
            lemma_attach(f0, files0, s0.depth@, s0.height@, f1, files1, self.depth@, self.height@, key.0, cf, fk);
            // the path list
            assert(self.paths_valid()) by {
                assert forall|j: int| 0 <= j < self.paths@.len() implies self.valid_item((#[trigger] self.paths@[j]).1) by {
                    assert(s2.valid_item(self.paths@[j].1));
                }
            }
            // ancestors do not change, and new folders are not among them
            assert forall|j: u64| #[trigger] f0.contains_key(j) implies {
                &&& f1.contains_key(j)
                &&& f1[j].parent == f0[j].parent
                &&& (f0[j].parent matches Some(p) ==> f0.contains_key(p.0))
            } by {}
            assert forall|it: Item| #[trigger] s0.valid_item(it) implies self.ancestors(it) == s0.ancestors(it)
                && s0.ancestors(it).subset_of(f0.dom()) by {
                match it {
                    Item::Folder(k) => {
                        lemma_ancestors_frame(f0, f1, k.0, s0.depth@[k.0]);
                        assert forall|a: u64| s0.ancestors(it).contains(a) implies f0.contains_key(a) by {
                            lemma_ancestors_higher(f0, files0, s0.depth@, s0.height@, k.0, a);
                        }
                    },
                    Item::File(f) => {
                        assert(files1[f.0] == files0[f.0]);
                        if let Some(p) = files0[f.0].parent {
                            lemma_ancestors_frame(f0, f1, p.0, s0.depth@[p.0]);
                            assert forall|a: u64| s0.ancestors(it).contains(a) implies f0.contains_key(a) by {
                                if a != p.0 {
                                    lemma_ancestors_higher(f0, files0, s0.depth@, s0.height@, p.0, a);
                                }
                            }
                        }
                    },
                }
            }
            assert(self.peek_ok()) by {
                if let Some(it) = self.peeked {
                    assert(s0.valid_item(it));
                }
                assert forall|k: u64| #[trigger] f1.contains_key(k) implies (
                    f1[k].peeked <==> (self.peeked_spec() matches Some(it) && self.ancestors(it).contains(k))) by {
                    if f0.contains_key(k) {
                        assert(f0[k].peeked == f1[k].peeked);
                    } else {
                        let i = choose|i: int| 0 <= i < cf.len() && cf[i] == FolderKey(k);
                        assert(cf[i].0 == k);
                        assert(f1[k] == folders@[i]);
                        if let Some(it) = self.peeked {
                            assert(s0.valid_item(it));
                        }
                    }
                }
            }
            assert forall|k: u64| #[trigger] f1.contains_key(k) && !f1[k].init implies {
                &&& f1[k].child_folders@.len() == 0
                &&& f1[k].child_files@.len() == 0
            } by {
                if f0.contains_key(k) && k != key.0 {
                    assert(f1[k] == f0[k]);
                }
            }
            // the path lookup
            assert forall|q: Seq<char>| #[trigger] lookup(self.paths@, q) == overlay(
                file_path_entries(files1, fk) + folder_path_entries(f1, cf), q, lookup(s0.paths@, q)) by {
                assert(folder_path_entries(f1, cf) =~= folder_path_entries(s2.folders_map(), cf)) by {
                    assert forall|i: int| 0 <= i < cf.len() implies f1[cf[i].0] == s2.folders_map()[cf[i].0] by {
                        assert(cf[i].0 != key.0);
                    }
                }
                assert(lookup(s1.paths@, q) == overlay(file_path_entries(files1, fk), q, lookup(s0.paths@, q)));
                lemma_overlay_concat(file_path_entries(files1, fk), folder_path_entries(f1, cf), q, lookup(s0.paths@, q));
            }
        }
        let ghost s3 = *self;
        proof {
            assert(s0.attached(s3, key, files@, folders@)) by {
                reveal(Filesystem::attached);
            }
        }
        self.take_in_orphans(key);
        proof {
            assert(s3.base_ok());
            lemma_folder_loaded(s0, s3, *self, key, files@, folders@);
        }
    }

    /// How taking in the orphans of a loaded folder changes the tree: see `take_in_orphans`.
    #[verifier::opaque]
    pub open spec fn took_in(self, fin: Self, key: FolderKey) -> bool {
        &&& fin.peek_ok()
        &&& fin.files_map().dom() == self.files_map().dom()
        &&& forall|k: u64| #[trigger] self.files_map().contains_key(k) ==> fin.files_map()[k] == (
            if self.folders_map()[key.0].child_files@.contains(FileKey(k)) {
                adopted(self.files_map()[k], key)
            } else {
                self.files_map()[k]
            })
        &&& fin.folders_map().dom() == self.folders_map().dom()
        &&& forall|k: u64| #[trigger] self.folders_map().contains_key(k) ==> fin.folders_map()[k] == (Folder {
            peeked: fin.folders_map()[k].peeked,
            ..self.folders_map()[k]
        })
        &&& fin.peeked_spec() == self.peeked_spec()
        &&& fin.paths_spec() == self.paths_spec()
        &&& fin.root_spec() == self.root_spec()
        &&& fin.loading_set() == self.loading_set().remove(self.folders_map()[key.0].path@)
        &&& fin.view_spec() == fin.tree_view()
        &&& fin.selected_spec() == clamp_index(self.selected_spec() as int, fin.view_spec().len() as int)
    }

    /// The tree with a folder's entries attached, before orphans are taken in.
    #[verifier::opaque]
    pub open spec fn attached(self, fin: Self, key: FolderKey, files: Seq<File>, folders: Seq<Folder>) -> bool {
        let cf = fin.folders_map()[key.0].child_folders@;
        let fk = fin.folders_map()[key.0].child_files@;
        let kept = kept_files(self.paths_spec(), files);
        &&& fin.folders_map()[key.0] == (Folder { child_files: fin.folders_map()[key.0].child_files, child_folders: fin.folders_map()[key.0].child_folders, init: true, ..self.folders_map()[key.0] })
        &&& cf.len() == folders.len()
        &&& forall|i: int| 0 <= i < cf.len() ==> !self.folders_map().contains_key((#[trigger] cf[i]).0)
            && fin.folders_map()[cf[i].0] == folders[i]
        &&& forall|i: int, j: int| 0 <= i < j < cf.len() ==> cf[i] != cf[j]
        &&& forall|k: u64| #[trigger] fin.folders_map().contains_key(k) <==> self.folders_map().contains_key(k) || cf.contains(FolderKey(k))
        &&& forall|k: u64| #[trigger] self.folders_map().contains_key(k) && k != key.0 ==> fin.folders_map()[k] == self.folders_map()[k]
        &&& fk.len() == kept.len()
        &&& forall|j: int| #![trigger fk[j]] 0 <= j < fk.len() ==> match lookup(self.paths_spec(), files[kept[j]].path@) {
                Some(Item::File(k)) => fk[j] == k,
                _ => !self.files_map().contains_key(fk[j].0) && fin.files_map()[fk[j].0] == files[kept[j]],
            }
        &&& forall|k: u64| #[trigger] self.files_map().contains_key(k) ==> fin.files_map().contains_key(k)
            && fin.files_map()[k] == self.files_map()[k]
        &&& forall|k: u64| #[trigger] fin.files_map().contains_key(k) ==> self.files_map().contains_key(k)
            || exists|j: int| 0 <= j < fk.len() && fk[j].0 == k
        &&& forall|q: Seq<char>| #[trigger] fin.path_lookup(q) == overlay(
            file_path_entries(fin.files_map(), fk) + folder_path_entries(fin.folders_map(), cf), q, self.path_lookup(q))
        &&& fin.loading_set() == self.loading_set()
        &&& fin.peeked_spec() == self.peeked_spec()
        &&& fin.root_spec() == self.root_spec()
        &&& fin.selected_spec() == self.selected_spec()
    }

    /// What loading the contents of a folder, not loaded before, changes: its entries are
    /// attached, the orphan files among its files (those with no parent) get it as their
    /// parent, its path is no longer being loaded, the peeked marks follow the peeked item's
    /// ancestors in the new tree, and the view is rebuilt.
    pub open spec fn folder_loaded(self, fin: Self, key: FolderKey, files: Seq<File>, folders: Seq<Folder>) -> bool {
        let cf = fin.folders_map()[key.0].child_folders@;
        let fk = fin.folders_map()[key.0].child_files@;
        let kept = kept_files(self.paths_spec(), files);
        &&& fin.folders_map()[key.0] == (Folder { child_files: fin.folders_map()[key.0].child_files, child_folders: fin.folders_map()[key.0].child_folders, init: true, peeked: fin.folders_map()[key.0].peeked, ..self.folders_map()[key.0] })
        &&& cf.len() == folders.len()
        &&& forall|i: int| 0 <= i < cf.len() ==> !self.folders_map().contains_key((#[trigger] cf[i]).0)
            && fin.folders_map()[cf[i].0] == (Folder { peeked: fin.folders_map()[cf[i].0].peeked, ..folders[i] })
        &&& forall|i: int, j: int| 0 <= i < j < cf.len() ==> cf[i] != cf[j]
        &&& forall|k: u64| #[trigger] fin.folders_map().contains_key(k) <==> self.folders_map().contains_key(k) || cf.contains(FolderKey(k))
        &&& forall|k: u64| #[trigger] self.folders_map().contains_key(k) && k != key.0 ==> fin.folders_map()[k] == (Folder {
                peeked: fin.folders_map()[k].peeked,
                ..self.folders_map()[k]
            })
        &&& fk.len() == kept.len()
        &&& forall|j: int| #![trigger fk[j]] 0 <= j < fk.len() ==> match lookup(self.paths_spec(), files[kept[j]].path@) {
                Some(Item::File(k)) => fk[j] == k,
                _ => !self.files_map().contains_key(fk[j].0) && fin.files_map()[fk[j].0] == adopted(files[kept[j]], key),
            }
        &&& forall|k: u64| #[trigger] self.files_map().contains_key(k) ==> fin.files_map().contains_key(k)
            && fin.files_map()[k] == (if fk.contains(FileKey(k)) { adopted(self.files_map()[k], key) } else { self.files_map()[k] })
        &&& forall|k: u64| #[trigger] fin.files_map().contains_key(k) ==> self.files_map().contains_key(k)
            || exists|j: int| 0 <= j < fk.len() && fk[j].0 == k
        &&& forall|q: Seq<char>| #[trigger] fin.path_lookup(q) == overlay(
            file_path_entries(fin.files_map(), fk) + folder_path_entries(fin.folders_map(), cf), q, self.path_lookup(q))
        &&& fin.loading_set() == self.loading_set().remove(self.folders_map()[key.0].path@)
        &&& fin.peeked_spec() == self.peeked_spec()
        &&& fin.peek_ok()
        &&& fin.root_spec() == self.root_spec()
        &&& fin.view_spec() == fin.tree_view()
        &&& fin.selected_spec() == clamp_index(self.selected_spec() as int, fin.view_spec().len() as int)
    }
}

impl Filesystem {
    /// Whether an event fits the tree: the events that answer the filesystem's tasks do.
    pub open spec fn accepts(self, event: FSEvent) -> bool {
        match event {
            FSEvent::FolderLoaded { key, files, folders } => self.folder_event_ok(key, files@, folders@),
            FSEvent::OrphanLoaded(file) => {
                &&& self.files_map().len() + 1 < slot_limit()
                &&& file.parent matches Some(p) ==> self.folders_map().contains_key(p.0)
            },
            FSEvent::BufferLoaded { key, buffer: _ } => self.files_map().contains_key(key.0),
        }
    }

    /// Whether an event fits the tree.
    #[verifier::rlimit(50)]
    pub fn accepts_event(&self, event: &FSEvent) -> (b: bool)
        requires
            self.wf(),
        ensures
            b == self.accepts(*event),
    {
        match event {
            FSEvent::FolderLoaded { key, files, folders } => {
                proof {
                    assert(self.accepts(*event) == self.folder_event_ok(*key, files@, folders@));
                }
                if !self.folder_stored(*key) {
                    return false;
                }
                if folders_get(&self.folders, key.0).init {
                    return true;
                }
                let nf = folders_len(&self.folders);
                let nl = files_len(&self.files);
                if nf as u64 >= 0xffff_fffe || folders.len() as u64 >= 0xffff_fffe - nf as u64 {
                    return false;
                }
                if nl as u64 >= 0xffff_fffe || files.len() as u64 >= 0xffff_fffe - nl as u64 {
                    return false;
                }
                let mut i: usize = 0;
                while i < folders.len()
                    invariant
                        self.accepts(*event) == self.folder_event_ok(*key, files@, folders@),
                        self.folders_map().contains_key(key.0),
                        !self.folders_map()[key.0].init,
                        i <= folders@.len(),
                        forall|j: int| 0 <= j < i ==> {
                            &&& (#[trigger] folders@[j]).parent == Some(*key)
                            &&& !folders@[j].peeked
                            &&& folders@[j].child_folders@.len() == 0
                            &&& folders@[j].child_files@.len() == 0
                        },
                    decreases folders@.len() - i,
                {
                    let f = &folders[i];
                    let parent_ok = match f.parent {
                        Some(p) => p.0 == key.0,
                        None => false,
                    };
                    if !parent_ok || f.peeked || f.child_folders.len() != 0 || f.child_files.len() != 0 {
                        proof {
                            assert(!self.folder_event_ok(*key, files@, folders@)) by {
                                assert(folders@[i as int] == *f);
                            }
                        }
                        return false;
                    }
                    i += 1;
                }
                let mut j: usize = 0;
                while j < files.len()
                    invariant
                        self.wf(),
                        self.accepts(*event) == self.folder_event_ok(*key, files@, folders@),
                        self.folders_map().contains_key(key.0),
                        !self.folders_map()[key.0].init,
                        self.folders_map().len() + folders@.len() < slot_limit(),
                        self.files_map().len() + files@.len() < slot_limit(),
                        forall|x: int| 0 <= x < folders@.len() ==> {
                            &&& (#[trigger] folders@[x]).parent == Some(*key)
                            &&& !folders@[x].peeked
                            &&& folders@[x].child_folders@.len() == 0
                            &&& folders@[x].child_files@.len() == 0
                        },
                        j <= files@.len(),
                        forall|x: int| 0 <= x < j ==> ((#[trigger] files@[x]).parent matches Some(p)
                            ==> self.folders_map().contains_key(p.0)),
                    decreases files@.len() - j,
                {
                    match files[j].parent {
                        Some(p) => {
                            if !self.folder_stored(p) {
                                proof {
                                    assert(files@[j as int].parent == Some(p));
                                    assert(!self.folder_event_ok(*key, files@, folders@));
                                }
                                return false;
                            }
                        },
                        None => {},
                    }
                    j += 1;
                }
                true
            },
            FSEvent::OrphanLoaded(file) => {
                let nl = files_len(&self.files);
                if nl as u64 >= 0xffff_fffd {
                    return false;
                }
                match file.parent {
                    Some(p) => self.folder_stored(p),
                    None => true,
                }
            },
            FSEvent::BufferLoaded { key, buffer: _ } => self.file_stored(*key),
        }
    }

    /// Whether a folder key is stored.
    pub fn folder_stored(&self, key: FolderKey) -> (b: bool)
        requires
            self.wf(),
        ensures
            b == self.folders_map().contains_key(key.0),
    {
        if (key.0 >> 32u64) % 2 != 1 {
            return false;
        }
        folders_contains(&self.folders, key.0)
    }

    /// Whether a file key is stored.
    pub fn file_stored(&self, key: FileKey) -> (b: bool)
        requires
            self.wf(),
        ensures
            b == self.files_map().contains_key(key.0),
    {
        if (key.0 >> 32u64) % 2 != 1 {
            return false;
        }
        files_contains(&self.files, key.0)
    }

    /// Initialize an orphan file that was loaded lazily.
    fn init_orphan(&mut self, file: File)
        requires
            old(self).wf(),
            old(self).accepts(FSEvent::OrphanLoaded(file)),
        ensures
            final(self).wf(),
            old(self).orphan_loaded(*final(self), file),
    {
        let ghost s0 = *self;
        let ghost fl = file;
        let k = files_insert(&mut self.files, file);
        let path = files_get(&self.files, k).path.clone();
        proof {
            let fa = s0.files_map();
            let fb = self.files_map();
            assert(fb.dom() =~= fa.dom().insert(k));
            let fm = self.folders_map();
            assert(tree_ok(fm, fb, self.depth@, self.height@)) by {
                assert forall|f: u64| #[trigger] fb.contains_key(f) implies match fb[f].parent {
                    None => true,
                    Some(p) => fm.contains_key(p.0),
                } by {
                    if f != k {
                        assert(fa.contains_key(f));
                    }
                }
                assert forall|kk: u64, ii: int|
                    fm.contains_key(kk) && 0 <= ii < fm[kk].child_files@.len() implies fb.contains_key(
                        (#[trigger] fm[kk].child_files@[ii]).0) by {
                    assert(fa.contains_key(fm[kk].child_files@[ii].0));
                }
            }
            assert(self.paths_valid()) by {
                assert forall|j: int| 0 <= j < self.paths@.len() implies self.valid_item((#[trigger] self.paths@[j]).1) by {
                    assert(s0.valid_item(self.paths@[j].1));
                }
            }
            assert forall|it: Item| #[trigger] s0.valid_item(it) implies self.ancestors(it) == s0.ancestors(it) by {
                if let Item::File(f) = it {
                    assert(fb[f.0] == fa[f.0]);
                }
            }
            assert(self.peek_ok()) by {
                if let Some(it) = self.peeked {
                    assert(s0.valid_item(it));
                }
            }
            assert(self.valid_item(Item::File(FileKey(k))));
        }
        let ghost s1 = *self;
        self.insert_path(path, Item::File(FileKey(k)));
        let p = files_get(&self.files, k).path.clone();
        self.loading_remove(p.as_str());
        proof {
            assert(self.view@ == self.tree_view());
            assert forall|i: int| 0 <= i < self.view@.len() implies self.valid_item((#[trigger] self.view@[i]).0) by {
                assert(s0.valid_item(self.view@[i].0));
            }
        }
    }

    /// What storing a loaded orphan file changes.
    pub open spec fn orphan_loaded(self, fin: Self, file: File) -> bool {
        &&& exists|k: u64| {
            &&& !self.files_map().contains_key(k)
            &&& #[trigger] fin.files_map() == self.files_map().insert(k, file)
            &&& forall|q: Seq<char>| #[trigger] fin.path_lookup(q) == (if q == file.path@ { Some(Item::File(FileKey(k))) } else { self.path_lookup(q) })
        }
        &&& fin.loading_set() == self.loading_set().remove(file.path@)
        &&& fin.folders_map() == self.folders_map()
        &&& fin.view_spec() == self.view_spec()
        &&& fin.selected_spec() == self.selected_spec()
        &&& fin.peeked_spec() == self.peeked_spec()
        &&& fin.root_spec() == self.root_spec()
    }

    /// Initialize a file buffer that was loaded lazily.
    fn init_buffer(&mut self, key: FileKey, buffer: Buffer)
        requires
            old(self).wf(),
            old(self).files_map().contains_key(key.0),
        ensures
            final(self).wf(),
            final(self).files_map() == old(self).files_map().insert(key.0, File { buffer: Some(buffer), ..old(self).files_map()[key.0] }),
            final(self).loading_set() == old(self).loading_set().remove(old(self).files_map()[key.0].path@),
            final(self).folders_map() == old(self).folders_map(),
            final(self).paths_spec() == old(self).paths_spec(),
            final(self).view_spec() == old(self).view_spec(),
            final(self).selected_spec() == old(self).selected_spec(),
            final(self).peeked_spec() == old(self).peeked_spec(),
            final(self).root_spec() == old(self).root_spec(),
    {
        let ghost s0 = *self;
        let f = files_get_mut(&mut self.files, key.0);
        f.buffer = Some(buffer);
        proof {
            let fa = s0.files_map();
            let fb = self.files_map();
            assert(fb.dom() =~= fa.dom());
            let fm = self.folders_map();
            assert(tree_ok(fm, fb, self.depth@, self.height@)) by {
                assert forall|ff: u64| #[trigger] fb.contains_key(ff) implies match fb[ff].parent {
                    None => true,
                    Some(p) => fm.contains_key(p.0),
                } by {
                    assert(fa.contains_key(ff));
                }
                assert forall|kk: u64, ii: int|
                    fm.contains_key(kk) && 0 <= ii < fm[kk].child_files@.len() implies fb.contains_key(
                        (#[trigger] fm[kk].child_files@[ii]).0) by {
                    assert(fa.contains_key(fm[kk].child_files@[ii].0));
                }
            }
            assert(self.paths_valid()) by {
                assert forall|j: int| 0 <= j < self.paths@.len() implies self.valid_item((#[trigger] self.paths@[j]).1) by {
                    assert(s0.valid_item(self.paths@[j].1));
                }
            }
            assert forall|it: Item| #[trigger] s0.valid_item(it) implies self.ancestors(it) == s0.ancestors(it) by {
                if let Item::File(ff) = it {
                    assert(fb[ff.0].parent == fa[ff.0].parent);
                }
            }
            assert(self.peek_ok()) by {
                if let Some(it) = self.peeked {
                    assert(s0.valid_item(it));
                }
            }
        }
        let p = files_get(&self.files, key.0).path.clone();
        self.loading_remove(p.as_str());
        proof {
            assert forall|i: int| 0 <= i < self.view@.len() implies self.valid_item((#[trigger] self.view@[i]).0) by {
                assert(s0.valid_item(self.view@[i].0));
            }
        }
    }

    /// Handle an event emitted by a background filesystem task.
    pub fn handle_event(&mut self, event: FSEvent)
        requires
            old(self).wf(),
            old(self).accepts(event),
        ensures
            final(self).wf(),
            match event {
                FSEvent::FolderLoaded { key, files, folders } => if old(self).folders_map()[key.0].init {
                    *final(self) == *old(self)
                } else {
                    old(self).folder_loaded(*final(self), key, files@, folders@)
                },
                FSEvent::OrphanLoaded(file) => old(self).orphan_loaded(*final(self), file),
                FSEvent::BufferLoaded { key, buffer } => {
                    &&& final(self).files_map() == old(self).files_map().insert(key.0, File { buffer: Some(buffer), ..old(self).files_map()[key.0] })
                    &&& final(self).loading_set() == old(self).loading_set().remove(old(self).files_map()[key.0].path@)
                    &&& final(self).folders_map() == old(self).folders_map()
                    &&& final(self).paths_spec() == old(self).paths_spec()
                    &&& final(self).view_spec() == old(self).view_spec()
                    &&& final(self).selected_spec() == old(self).selected_spec()
                    &&& final(self).peeked_spec() == old(self).peeked_spec()
                    &&& final(self).root_spec() == old(self).root_spec()
                },
            },
    {
        match event {
            FSEvent::FolderLoaded { key, files, folders } => self.init_folder(key, files, folders),
            FSEvent::OrphanLoaded(file) => self.init_orphan(file),
            FSEvent::BufferLoaded { key, buffer } => self.init_buffer(key, buffer),
        }
    }
}

impl Filesystem {
    /// The parent of a stored item is stored, and the root is stored.
    pub proof fn lemma_parent_stored(self, item: Item)
        requires
            self.wf(),
            self.valid_item(item),
        ensures
            self.parent_of(item) matches Some(p) ==> self.folders_map().contains_key(p.0),
            self.folders_map().contains_key(self.root_spec().0),
    {
    }

    /// The item under the cursor, if the view is not empty.
    pub open spec fn selected_item_spec(self) -> Option<Item> {
        if self.selected_spec() < self.view_spec().len() {
            Some(self.view_spec()[self.selected_spec() as int].0)
        } else {
            None
        }
    }
}


impl FSEvent {
    /// Whether the event brings a file's text: the preview may have to follow it.
    pub fn brings_text(&self) -> (b: bool)
        ensures
            b == (self is BufferLoaded || self is OrphanLoaded),
    {
        match self {
            FSEvent::BufferLoaded { .. } => true,
            FSEvent::OrphanLoaded(_) => true,
            FSEvent::FolderLoaded { .. } => false,
        }
    }
}


impl Filesystem {
    /// A child folder of a stored folder is stored one level deeper, and every stored folder
    /// is less deep than the recursion bound.
    pub proof fn lemma_child_depth(self, k: u64, i: int)
        requires
            self.wf(),
            self.folders_map().contains_key(k),
            0 <= i < self.folders_map()[k].child_folders@.len(),
        ensures
            self.folders_map().contains_key(self.folders_map()[k].child_folders@[i].0),
            self.depth_of(self.folders_map()[k].child_folders@[i].0) == self.depth_of(k) + 1,
            self.depth_of(k) < self.fuel(),
            self.depth_of(self.folders_map()[k].child_folders@[i].0) < self.fuel(),
    {
        let c = self.folders_map()[k].child_folders@[i];
        assert(self.folders_map().contains_key(c.0));
    }

    /// The root is stored.
    pub proof fn lemma_root_stored(self)
        requires
            self.wf(),
        ensures
            self.folders_map().contains_key(self.root_spec().0),
    {
    }

    /// Every stored folder is less deep than the recursion bound.
    pub proof fn lemma_depth_bound(self, k: u64)
        requires
            self.wf(),
            self.folders_map().contains_key(k),
        ensures
            self.depth_of(k) < self.fuel(),
    {
    }
}

#[verifier::spinoff_prover]
#[verifier::rlimit(50)]
proof fn lemma_loaded_shape(s0: Filesystem, s3: Filesystem, fin: Filesystem, key: FolderKey, files: Seq<File>, folders: Seq<Folder>)
    requires
        s0.folders_map().contains_key(key.0),
        s0.attached(s3, key, files, folders),
        s3.took_in(fin, key),
    ensures
        fin.folders_map()[key.0] == (Folder { child_files: fin.folders_map()[key.0].child_files, child_folders: fin.folders_map()[key.0].child_folders, init: true, peeked: fin.folders_map()[key.0].peeked, ..s0.folders_map()[key.0] }),
        fin.folders_map()[key.0].child_folders@ == s3.folders_map()[key.0].child_folders@,
        fin.folders_map()[key.0].child_files@ == s3.folders_map()[key.0].child_files@,
        fin.loading_set() == s0.loading_set().remove(s0.folders_map()[key.0].path@),
        fin.peeked_spec() == s0.peeked_spec(),
        fin.peek_ok(),
        fin.root_spec() == s0.root_spec(),
        fin.view_spec() == fin.tree_view(),
        fin.selected_spec() == clamp_index(s0.selected_spec() as int, fin.view_spec().len() as int),
        s3.folders_map()[key.0].child_folders@.len() == folders.len(),
        s3.folders_map()[key.0].child_files@.len() == kept_files(s0.paths_spec(), files).len(),
        forall|i: int, j: int| 0 <= i < j < s3.folders_map()[key.0].child_folders@.len() ==> s3.folders_map()[key.0].child_folders@[i] != s3.folders_map()[key.0].child_folders@[j],

{
    let cf = s3.folders_map()[key.0].child_folders@;
    let fk = s3.folders_map()[key.0].child_files@;
    let kept = kept_files(s0.paths_spec(), files);
    assert(s3.folders_map().contains_key(key.0)) by {
        reveal(Filesystem::attached);
    }
    let f0 = s0.folders_map()[key.0];
    let f3 = s3.folders_map()[key.0];
    let ff = fin.folders_map()[key.0];
    assert(f3 == (Folder { child_files: f3.child_files, child_folders: f3.child_folders, init: true, ..f0 })
        && cf.len() == folders.len() && fk.len() == kept.len()
        && (forall|i: int, j: int| 0 <= i < j < cf.len() ==> cf[i] != cf[j])
        && s3.loading_set() == s0.loading_set()
        && s3.peeked_spec() == s0.peeked_spec()
        && s3.root_spec() == s0.root_spec()) by {
        reveal(Filesystem::attached);
    }
    assert(ff == (Folder { peeked: ff.peeked, ..f3 })
        && fin.loading_set() == s3.loading_set().remove(f3.path@)
        && fin.peeked_spec() == s3.peeked_spec()
        && fin.peek_ok()
        && fin.root_spec() == s3.root_spec()
        && fin.view_spec() == fin.tree_view()
        && fin.selected_spec() == clamp_index(s3.selected_spec() as int, fin.view_spec().len() as int)) by {
        reveal(Filesystem::took_in);
    }
    assert(s3.selected_spec() == s0.selected_spec()) by {
        reveal(Filesystem::attached);
    }
}

#[verifier::spinoff_prover]
#[verifier::rlimit(50)]
proof fn lemma_loaded_files(s0: Filesystem, s3: Filesystem, fin: Filesystem, key: FolderKey, files: Seq<File>, folders: Seq<Folder>)
    requires
        s0.folders_map().contains_key(key.0),
        s0.attached(s3, key, files, folders),
        s3.base_ok(),
        s3.took_in(fin, key),
    ensures
        forall|k: u64| #[trigger] s0.files_map().contains_key(k) ==> fin.files_map().contains_key(k)
            && fin.files_map()[k] == (if s3.folders_map()[key.0].child_files@.contains(FileKey(k)) { adopted(s0.files_map()[k], key) } else { s0.files_map()[k] }),
        forall|jj: int| #![trigger s3.folders_map()[key.0].child_files@[jj]] 0 <= jj < s3.folders_map()[key.0].child_files@.len() ==> match lookup(s0.paths_spec(), files[kept_files(s0.paths_spec(), files)[jj]].path@) {
            Some(Item::File(k)) => s3.folders_map()[key.0].child_files@[jj] == k,
            _ => !s0.files_map().contains_key(s3.folders_map()[key.0].child_files@[jj].0) && fin.files_map()[s3.folders_map()[key.0].child_files@[jj].0] == adopted(files[kept_files(s0.paths_spec(), files)[jj]], key),
        },
        forall|k: u64| #[trigger] fin.files_map().contains_key(k) ==> s0.files_map().contains_key(k)
            || exists|jj: int| 0 <= jj < s3.folders_map()[key.0].child_files@.len() && s3.folders_map()[key.0].child_files@[jj].0 == k,

{
    let cf = s3.folders_map()[key.0].child_folders@;
    let fk = s3.folders_map()[key.0].child_files@;
    let kept = kept_files(s0.paths_spec(), files);
    assert(s3.folders_map().contains_key(key.0)) by {
        reveal(Filesystem::attached);
    }
    reveal(Filesystem::attached);
    reveal(Filesystem::took_in);
    assert forall|i: int| 0 <= i < fk.len() implies #[trigger] s3.files_map().contains_key(fk[i].0) by {
        assert(s3.folders_map()[key.0].child_files@[i] == fk[i]);
    }
    assert forall|k: u64| #[trigger] s0.files_map().contains_key(k) implies fin.files_map().contains_key(k)
        && fin.files_map()[k] == (if fk.contains(FileKey(k)) { adopted(s0.files_map()[k], key) } else { s0.files_map()[k] }) by {
        assert(s3.files_map().contains_key(k) && s3.files_map()[k] == s0.files_map()[k]);
    }
    assert forall|jj: int| #![trigger fk[jj]] 0 <= jj < fk.len() implies match lookup(s0.paths_spec(), files[kept[jj]].path@) {
        Some(Item::File(k)) => fk[jj] == k,
        _ => !s0.files_map().contains_key(fk[jj].0) && fin.files_map()[fk[jj].0] == adopted(files[kept[jj]], key),
    } by {
        assert(s3.files_map().contains_key(fk[jj].0));
        assert(fk.contains(fk[jj]));
    }
    assert forall|k: u64| #[trigger] fin.files_map().contains_key(k) implies s0.files_map().contains_key(k)
        || exists|jj: int| 0 <= jj < fk.len() && fk[jj].0 == k by {
        assert(s3.files_map().contains_key(k));
    }
}

#[verifier::spinoff_prover]
#[verifier::rlimit(50)]
proof fn lemma_loaded_folders(s0: Filesystem, s3: Filesystem, fin: Filesystem, key: FolderKey, files: Seq<File>, folders: Seq<Folder>)
    requires
        s0.folders_map().contains_key(key.0),
        s0.attached(s3, key, files, folders),
        s3.base_ok(),
        s3.took_in(fin, key),
    ensures
        forall|k: u64| #[trigger] s0.folders_map().contains_key(k) && k != key.0 ==> fin.folders_map()[k] == (Folder {
            peeked: fin.folders_map()[k].peeked,
            ..s0.folders_map()[k]
        }),
        forall|i: int| 0 <= i < s3.folders_map()[key.0].child_folders@.len() ==> !s0.folders_map().contains_key((#[trigger] s3.folders_map()[key.0].child_folders@[i]).0)
            && fin.folders_map()[s3.folders_map()[key.0].child_folders@[i].0] == (Folder { peeked: fin.folders_map()[s3.folders_map()[key.0].child_folders@[i].0].peeked, ..folders[i] }),
        forall|k: u64| #[trigger] fin.folders_map().contains_key(k) <==> s0.folders_map().contains_key(k) || s3.folders_map()[key.0].child_folders@.contains(FolderKey(k)),

{
    let cf = s3.folders_map()[key.0].child_folders@;
    let fk = s3.folders_map()[key.0].child_files@;
    let kept = kept_files(s0.paths_spec(), files);
    assert(s3.folders_map().contains_key(key.0)) by {
        reveal(Filesystem::attached);
    }
    reveal(Filesystem::attached);
    reveal(Filesystem::took_in);
    assert forall|k: u64| #[trigger] s0.folders_map().contains_key(k) && k != key.0 implies fin.folders_map()[k] == (Folder {
        peeked: fin.folders_map()[k].peeked,
        ..s0.folders_map()[k]
    }) by {
        assert(s3.folders_map().contains_key(k));
    }
    assert forall|i: int| 0 <= i < cf.len() implies !s0.folders_map().contains_key((#[trigger] cf[i]).0)
        && fin.folders_map()[cf[i].0] == (Folder { peeked: fin.folders_map()[cf[i].0].peeked, ..folders[i] }) by {
        assert(s3.folders_map().contains_key(cf[i].0));
    }
    assert forall|k: u64| #[trigger] fin.folders_map().contains_key(k) <==> s0.folders_map().contains_key(k) || cf.contains(FolderKey(k)) by {
        assert(s3.folders_map().contains_key(k) == fin.folders_map().contains_key(k));
    }
}

#[verifier::spinoff_prover]
#[verifier::rlimit(50)]
proof fn lemma_loaded_paths(s0: Filesystem, s3: Filesystem, fin: Filesystem, key: FolderKey, files: Seq<File>, folders: Seq<Folder>)
    requires
        s0.folders_map().contains_key(key.0),
        s0.attached(s3, key, files, folders),
        s3.base_ok(),
        s3.took_in(fin, key),
    ensures
        forall|q: Seq<char>| #[trigger] fin.path_lookup(q) == overlay(
            file_path_entries(fin.files_map(), s3.folders_map()[key.0].child_files@) + folder_path_entries(fin.folders_map(), s3.folders_map()[key.0].child_folders@), q, s0.path_lookup(q)),

{
    let cf = s3.folders_map()[key.0].child_folders@;
    let fk = s3.folders_map()[key.0].child_files@;
    let kept = kept_files(s0.paths_spec(), files);
    assert(s3.folders_map().contains_key(key.0)) by {
        reveal(Filesystem::attached);
    }
    assert forall|i: int| 0 <= i < fk.len() implies #[trigger] s3.files_map().contains_key(fk[i].0) by {
        assert(s3.folders_map()[key.0].child_files@[i] == fk[i]);
    }
    assert(file_path_entries(fin.files_map(), fk) =~= file_path_entries(s3.files_map(), fk)) by {
        reveal(Filesystem::took_in);
        assert forall|i: int| 0 <= i < fk.len() implies fin.files_map()[fk[i].0].path == s3.files_map()[fk[i].0].path by {
            assert(s3.files_map().contains_key(fk[i].0));
        }
    }
    assert(folder_path_entries(fin.folders_map(), cf) =~= folder_path_entries(s3.folders_map(), cf)) by {
        reveal(Filesystem::attached);
        reveal(Filesystem::took_in);
        assert forall|i: int| 0 <= i < cf.len() implies fin.folders_map()[cf[i].0].path == s3.folders_map()[cf[i].0].path by {
            assert(s3.folders_map().contains_key(cf[i].0));
        }
    }
    assert forall|q: Seq<char>| #[trigger] fin.path_lookup(q) == overlay(
        file_path_entries(fin.files_map(), fk) + folder_path_entries(fin.folders_map(), cf), q, s0.path_lookup(q)) by {
        reveal(Filesystem::attached);
        reveal(Filesystem::took_in);
        assert(fin.path_lookup(q) == s3.path_lookup(q));
    }
}

/// Attaching a folder's entries, then taking in its orphans, is what loading it changes.
#[verifier::spinoff_prover]
#[verifier::rlimit(50)]
proof fn lemma_folder_loaded(s0: Filesystem, s3: Filesystem, fin: Filesystem, key: FolderKey, files: Seq<File>, folders: Seq<Folder>)
    requires
        s0.folders_map().contains_key(key.0),
        s0.attached(s3, key, files, folders),
        s3.base_ok(),
        s3.took_in(fin, key),
    ensures
        s0.folder_loaded(fin, key, files, folders),
{
    lemma_loaded_shape(s0, s3, fin, key, files, folders);
    lemma_loaded_files(s0, s3, fin, key, files, folders);
    lemma_loaded_folders(s0, s3, fin, key, files, folders);
    lemma_loaded_paths(s0, s3, fin, key, files, folders);
}

/// The nearest folder above a path depends only on the path list.
proof fn lemma_nearest_same(a: Filesystem, b: Filesystem, path: Seq<char>)
    requires
        a.paths_spec() == b.paths_spec(),
    ensures
        a.nearest_folder(path) == b.nearest_folder(path),
    decreases path.len(),
{
    if let Some(q) = parent_path_of(path) {
        if q.len() < path.len() {
            lemma_nearest_same(a, b, q);
        }
    }
}

/// The nearest folder above a path is stored.
proof fn lemma_nearest_stored(fs: Filesystem, path: Seq<char>)
    requires
        fs.base_ok(),
    ensures
        fs.nearest_folder(path) matches Some(k) ==> fs.folders_map().contains_key(k.0),
    decreases path.len(),
{
    if let Some(q) = parent_path_of(path) {
        if q.len() < path.len() {
            match lookup(fs.paths@, q) {
                Some(Item::Folder(k)) => {
                    let i = lemma_lookup_found(fs.paths@, q);
                    assert(fs.valid_item(fs.paths@[i].1));
                },
                Some(Item::File(_)) => {},
                None => {
                    lemma_nearest_stored(fs, q);
                },
            }
        }
    }
}

} // verus!
