//! Walks over the folders of a filesystem as the file tree shows them: counting the entries
//! shown, collecting a window of them, and finding the row of a folder.
use vstd::prelude::*;
use crate::config::Config;
use crate::filesystem::Filesystem;
use crate::folder::Folder;
use crate::keys::{FileKey, FolderKey, Item};

verus! {

/// Whether a folder is hidden by the settings: its name is ignored.
pub open spec fn hidden_by(config: Config, f: Folder) -> bool {
    config.ignored().contains(f.name@)
}

/// The entries shown under a folder: its files, and for each child folder, the folder and
/// what is shown under it when it is open, or the folder alone when it is closed and not
/// hidden.
pub open spec fn count_folder(fm: Map<u64, Folder>, config: Config, f: Folder, fuel: nat) -> int
    decreases fuel, f.child_folders@.len() + 2,
{
    f.child_files@.len() + count_list(fm, config, f.child_folders@, fuel)
}

/// What `count_folder` counts for a list of child folders.
pub open spec fn count_list(fm: Map<u64, Folder>, config: Config, list: Seq<FolderKey>, fuel: nat) -> int
    decreases fuel, list.len() + 1,
{
    if list.len() == 0 {
        0
    } else {
        let c = fm[list.last().0];
        count_list(fm, config, list.drop_last(), fuel) + if c.open {
            (if fuel == 0 { 0 } else { count_folder(fm, config, c, (fuel - 1) as nat) }) + 1
        } else if !hidden_by(config, c) {
            1
        } else {
            0
        }
    }
}

/// What a child folder adds to the count.
pub open spec fn count_item(fm: Map<u64, Folder>, config: Config, c: Folder, fuel: nat) -> int {
    if c.open {
        (if fuel == 0 { 0 } else { count_folder(fm, config, c, (fuel - 1) as nat) }) + 1
    } else if !hidden_by(config, c) {
        1
    } else {
        0
    }
}

proof fn lemma_count_step(fm: Map<u64, Folder>, config: Config, list: Seq<FolderKey>, i: int, fuel: nat)
    requires
        0 <= i < list.len(),
    ensures
        count_list(fm, config, list.take(i + 1), fuel) == count_list(fm, config, list.take(i), fuel) + count_item(fm, config, fm[list[i].0], fuel),
{
    assert(list.take(i + 1).drop_last() =~= list.take(i));
    assert(list.take(i + 1).last() == list[i]);
}

proof fn lemma_count_list_nonneg(fm: Map<u64, Folder>, config: Config, list: Seq<FolderKey>, fuel: nat)
    ensures
        count_list(fm, config, list, fuel) >= 0,
    decreases fuel, list.len(),
{
    if list.len() > 0 {
        lemma_count_list_nonneg(fm, config, list.drop_last(), fuel);
        lemma_count_item_nonneg(fm, config, fm[list.last().0], fuel);
        assert(count_list(fm, config, list, fuel) == count_list(fm, config, list.drop_last(), fuel) + count_item(fm, config, fm[list.last().0], fuel));
    }
}

proof fn lemma_count_item_nonneg(fm: Map<u64, Folder>, config: Config, c: Folder, fuel: nat)
    ensures
        count_item(fm, config, c, fuel) >= 0,
    decreases fuel, 0nat,
{
    if c.open && fuel > 0 {
        lemma_count_list_nonneg(fm, config, c.child_folders@, (fuel - 1) as nat);
        assert(count_folder(fm, config, c, (fuel - 1) as nat) == c.child_files@.len() + count_list(fm, config, c.child_folders@, (fuel - 1) as nat));
    }
}

proof fn lemma_count_prefix(fm: Map<u64, Folder>, config: Config, list: Seq<FolderKey>, i: int, fuel: nat)
    requires
        0 <= i <= list.len(),
    ensures
        count_list(fm, config, list.take(i), fuel) <= count_list(fm, config, list, fuel),
    decreases list.len() - i,
{
    if i < list.len() {
        lemma_count_prefix(fm, config, list, i + 1, fuel);
        lemma_count_step(fm, config, list, i, fuel);
        lemma_count_item_nonneg(fm, config, fm[list[i].0], fuel);
    } else {
        assert(list.take(i) =~= list);
    }
}

/// Whether a folder value is one of the stored folders.
pub open spec fn stored_folder(fs: Filesystem, f: Folder) -> bool {
    exists|k: u64| fs.folders_map().contains_key(k) && #[trigger] fs.folders_map()[k] == f
}

fn count_rec(fs: &Filesystem, folder: &Folder, config: &Config, Ghost(k): Ghost<u64>, Ghost(fuel): Ghost<nat>) -> (n: usize)
    requires
        fs.wf(),
        fs.folders_map().contains_key(k),
        fs.folders_map()[k] == *folder,
        fuel + fs.depth_of(k) >= fs.fuel(),
        count_folder(fs.folders_map(), *config, *folder, fuel) <= usize::MAX,
    ensures
        n == count_folder(fs.folders_map(), *config, *folder, fuel),
    decreases fuel,
{
    let ghost fm = fs.folders_map();
    let ghost list = folder.child_folders@;
    let mut count = folder.child_files.len();
    let mut i: usize = 0;
    proof {
        assert(list.take(0) =~= Seq::<FolderKey>::empty());
    }
    while i < folder.child_folders.len()
        invariant
            fs.wf(),
            fm == fs.folders_map(),
            fm.contains_key(k),
            fm[k] == *folder,
            list == folder.child_folders@,
            fuel + fs.depth_of(k) >= fs.fuel(),
            i <= list.len(),
            count == folder.child_files@.len() + count_list(fm, *config, list.take(i as int), fuel),
            count_folder(fm, *config, *folder, fuel) <= usize::MAX,
        decreases list.len() - i,
    {
        let key = folder.child_folders[i];
        proof {
            fs.lemma_child_depth(k, i as int);
            lemma_count_prefix(fm, *config, list, i + 1, fuel);
            lemma_count_step(fm, *config, list, i as int, fuel);
            lemma_count_list_nonneg(fm, *config, list.take(i as int), fuel);
            lemma_count_item_nonneg(fm, *config, fm[key.0], fuel);
            assert(count_folder(fm, *config, fm[key.0], (fuel - 1) as nat) == fm[key.0].child_files@.len()
                + count_list(fm, *config, fm[key.0].child_folders@, (fuel - 1) as nat));
        }
        let child = fs.folder(key);
        if child.open {
            let n = count_rec(fs, child, config, Ghost(key.0), Ghost((fuel - 1) as nat));
            count = count + n + 1;
        } else if !config.ignored_folder(child.name.as_str()) {
            count = count + 1;
        }
        i += 1;
    }
    proof {
        assert(list.take(list.len() as int) =~= list);
    }
    count
}

/// Recursively count the entries shown under a folder, when every open folder shows its
/// children.
pub fn count_items(fs: &Filesystem, folder: &Folder, config: &Config) -> (n: usize)
    requires
        fs.wf(),
        stored_folder(*fs, *folder),
        count_folder(fs.folders_map(), *config, *folder, fs.fuel()) <= usize::MAX,
    ensures
        n == count_folder(fs.folders_map(), *config, *folder, fs.fuel()),
{
    let ghost k = choose|k: u64| fs.folders_map().contains_key(k) && #[trigger] fs.folders_map()[k] == *folder;
    count_rec(fs, folder, config, Ghost(k), Ghost(fs.fuel()))
}


/// The search for a folder among a list of child folders from the `i`-th on, the rows before
/// it counted from `count`: whether it was found, and the rows counted. A child folder hidden
/// and closed is passed over; any other takes a row, and an open one then takes the rows of
/// its own children, then of its files.
pub open spec fn index_scan(fm: Map<u64, Folder>, config: Config, list: Seq<FolderKey>, i: int, needle: FolderKey, count: int, fuel: nat) -> (bool, int)
    decreases fuel, list.len() - i,
{
    if i < 0 || i >= list.len() {
        (false, count)
    } else if list[i] == needle {
        (true, count)
    } else {
        let f = fm[list[i].0];
        if hidden_by(config, f) && !f.open {
            index_scan(fm, config, list, i + 1, needle, count, fuel)
        } else if f.open {
            let inner = if fuel == 0 { (false, count + 1) } else { index_scan(fm, config, f.child_folders@, 0, needle, count + 1, (fuel - 1) as nat) };
            if inner.0 {
                (true, inner.1)
            } else {
                index_scan(fm, config, list, i + 1, needle, inner.1 + f.child_files@.len(), fuel)
            }
        } else {
            index_scan(fm, config, list, i + 1, needle, count + 1, fuel)
        }
    }
}

proof fn lemma_index_grows(fm: Map<u64, Folder>, config: Config, list: Seq<FolderKey>, i: int, needle: FolderKey, count: int, fuel: nat)
    ensures
        index_scan(fm, config, list, i, needle, count, fuel).1 >= count,
    decreases fuel, list.len() - i,
{
    if 0 <= i < list.len() && list[i] != needle {
        let f = fm[list[i].0];
        if hidden_by(config, f) && !f.open {
            lemma_index_grows(fm, config, list, i + 1, needle, count, fuel);
        } else if f.open {
            if fuel > 0 {
                lemma_index_grows(fm, config, f.child_folders@, 0, needle, count + 1, (fuel - 1) as nat);
            }
            let inner = if fuel == 0 { (false, count + 1) } else { index_scan(fm, config, f.child_folders@, 0, needle, count + 1, (fuel - 1) as nat) };
            if !inner.0 {
                lemma_index_grows(fm, config, list, i + 1, needle, inner.1 + f.child_files@.len(), fuel);
            }
        } else {
            lemma_index_grows(fm, config, list, i + 1, needle, count + 1, fuel);
        }
    }
}

fn index_rec(fs: &Filesystem, folder: &Folder, config: &Config, needle: FolderKey, count: &mut usize, Ghost(k): Ghost<u64>, Ghost(fuel): Ghost<nat>) -> (found: bool)
    requires
        fs.wf(),
        fs.folders_map().contains_key(k),
        fs.folders_map()[k] == *folder,
        fuel + fs.depth_of(k) >= fs.fuel(),
        index_scan(fs.folders_map(), *config, folder.child_folders@, 0, needle, *old(count) as int, fuel).1 <= usize::MAX,
    ensures
        (found, *final(count) as int) == index_scan(fs.folders_map(), *config, folder.child_folders@, 0, needle, *old(count) as int, fuel),
    decreases fuel,
{
    let ghost fm = fs.folders_map();
    let ghost list = folder.child_folders@;
    let ghost count0 = *count as int;
    let ghost whole = index_scan(fm, *config, list, 0, needle, count0, fuel);
    proof {
        assert(count0 == *old(count) as int);
    }
    let mut i: usize = 0;
    while i < folder.child_folders.len()
        invariant
            fs.wf(),
            fm == fs.folders_map(),
            fm.contains_key(k),
            fm[k] == *folder,
            list == folder.child_folders@,
            fuel + fs.depth_of(k) >= fs.fuel(),
            i <= list.len(),
            index_scan(fm, *config, list, i as int, needle, *count as int, fuel) == whole,
            whole == index_scan(fm, *config, list, 0, needle, *old(count) as int, fuel),
            whole.1 <= usize::MAX,
        decreases list.len() - i,
    {
        let key = folder.child_folders[i];
        if key == needle {
            proof {
                assert(index_scan(fm, *config, list, i as int, needle, *count as int, fuel) == (true, *count as int));
            }
            return true;
        }
        proof {
            fs.lemma_child_depth(k, i as int);
        }
        let child = fs.folder(key);
        if config.ignored_folder(child.name.as_str()) && !child.open {
            i += 1;
            continue;
        }
        proof {
            lemma_index_grows(fm, *config, list, i as int, needle, *count as int, fuel);
            if child.open {
                lemma_index_grows(fm, *config, child.child_folders@, 0, needle, *count + 1, (fuel - 1) as nat);
                let inner = index_scan(fm, *config, child.child_folders@, 0, needle, *count + 1, (fuel - 1) as nat);
                if !inner.0 {
                    lemma_index_grows(fm, *config, list, i + 1, needle, inner.1 + child.child_files@.len(), fuel);
                }
            } else {
                lemma_index_grows(fm, *config, list, i + 1, needle, *count + 1, fuel);
            }
        }
        *count = *count + 1;
        if child.open {
            let ghost before = *count as int;
            if index_rec(fs, child, config, needle, count, Ghost(key.0), Ghost((fuel - 1) as nat)) {
                proof {
                    assert(index_scan(fm, *config, list, i as int, needle, before - 1, fuel) == (true, *count as int));
                }
                return true;
            }
            *count = *count + child.child_files.len();
        }
        i += 1;
    }
    false
}

/// The row of a folder among the entries the file tree shows, counting from the root's
/// first child; 0 when the folder is not found.
pub fn folder_index(fs: &Filesystem, config: &Config, key: FolderKey) -> (index: usize)
    requires
        fs.wf(),
        index_scan(fs.folders_map(), *config, fs.folders_map()[fs.root_spec().0].child_folders@, 0, key, 0, fs.fuel()).1 <= usize::MAX,
    ensures
        ({
            let r = index_scan(fs.folders_map(), *config, fs.folders_map()[fs.root_spec().0].child_folders@, 0, key, 0, fs.fuel());
            index == (if r.0 { r.1 } else { 0 })
        }),
{
    let mut index: usize = 0;
    proof {
        fs.lemma_root_stored();
        fs.lemma_depth_bound(fs.root_spec().0);
    }
    if index_rec(fs, fs.root(), config, key, &mut index, Ghost(fs.root_spec().0), Ghost(fs.fuel())) {
        index
    } else {
        0
    }
}


/// `a - b`, or 0 where `b` is larger.
pub open spec fn sat_sub(a: int, b: int) -> int {
    if a >= b { a - b } else { 0 }
}

/// The smaller of two numbers.
pub open spec fn min(a: int, b: int) -> int {
    if a <= b { a } else { b }
}

/// Collect, from the `i`-th child folder of a list on, the shown entries whose rows fall from
/// `skip` to `skip + take`, the rows before counted from `count`: the entries collected, the
/// rows counted, and whether the window was passed (which stops the walk of the folder).
pub open spec fn collect_scan(fm: Map<u64, Folder>, config: Config, list: Seq<FolderKey>, i: int, depth: int, skip: int, take: int, items: Seq<(Item, usize)>, count: int, fuel: nat) -> (Seq<(Item, usize)>, int, bool)
    decreases fuel, list.len() - i,
{
    if i < 0 || i >= list.len() {
        (items, count, false)
    } else if count >= skip + take {
        (items, count, true)
    } else {
        let f = fm[list[i].0];
        if hidden_by(config, f) && !f.open {
            collect_scan(fm, config, list, i + 1, depth, skip, take, items, count, fuel)
        } else {
            let items1 = if count >= skip { items.push((Item::Folder(list[i]), depth as usize)) } else { items };
            if f.open {
                let inner = if fuel == 0 {
                    (items1, count + 1)
                } else {
                    collect_folder(fm, config, f, depth + 1, skip, take, items1, count + 1, (fuel - 1) as nat)
                };
                collect_scan(fm, config, list, i + 1, depth, skip, take, inner.0, inner.1, fuel)
            } else {
                collect_scan(fm, config, list, i + 1, depth, skip, take, items1, count + 1, fuel)
            }
        }
    }
}

/// Collect the shown entries under a folder whose rows fall in the window: its child folders
/// (and what is shown under the open ones), then its files, unless the window was passed.
pub open spec fn collect_folder(fm: Map<u64, Folder>, config: Config, f: Folder, depth: int, skip: int, take: int, items: Seq<(Item, usize)>, count: int, fuel: nat) -> (Seq<(Item, usize)>, int)
    decreases fuel, f.child_folders@.len() + 1,
{
    let scan = collect_scan(fm, config, f.child_folders@, 0, depth, skip, take, items, count, fuel);
    let n = f.child_files@.len();
    if scan.2 {
        (scan.0, scan.1)
    } else if scan.1 + n < skip {
        (scan.0, scan.1 + n)
    } else {
        let start = sat_sub(skip, scan.1);
        let end = min(sat_sub(skip + take, scan.1), n as int);
        (scan.0 + f.child_files@.subrange(start, end).map_values(|k: FileKey| (Item::File(k), depth as usize)), scan.1 + n)
    }
}

proof fn lemma_collect_grows(fm: Map<u64, Folder>, config: Config, list: Seq<FolderKey>, i: int, depth: int, skip: int, take: int, items: Seq<(Item, usize)>, count: int, fuel: nat)
    ensures
        collect_scan(fm, config, list, i, depth, skip, take, items, count, fuel).1 >= count,
    decreases fuel, list.len() - i,
{
    if 0 <= i < list.len() && count < skip + take {
        let f = fm[list[i].0];
        if hidden_by(config, f) && !f.open {
            lemma_collect_grows(fm, config, list, i + 1, depth, skip, take, items, count, fuel);
        } else {
            let items1 = if count >= skip { items.push((Item::Folder(list[i]), depth as usize)) } else { items };
            if f.open {
                if fuel > 0 {
                    lemma_collect_grows(fm, config, f.child_folders@, 0, depth + 1, skip, take, items1, count + 1, (fuel - 1) as nat);
                }
                let inner = if fuel == 0 {
                    (items1, count + 1)
                } else {
                    collect_folder(fm, config, f, depth + 1, skip, take, items1, count + 1, (fuel - 1) as nat)
                };
                lemma_collect_grows(fm, config, list, i + 1, depth, skip, take, inner.0, inner.1, fuel);
            } else {
                lemma_collect_grows(fm, config, list, i + 1, depth, skip, take, items1, count + 1, fuel);
            }
        }
    }
}

fn collect_rec(
    fs: &Filesystem,
    folder: &Folder,
    config: &Config,
    items: &mut Vec<(Item, usize)>,
    count: &mut usize,
    depth: usize,
    skip: usize,
    take: usize,
    Ghost(k): Ghost<u64>,
    Ghost(fuel): Ghost<nat>,
)
    requires
        fs.wf(),
        fs.folders_map().contains_key(k),
        fs.folders_map()[k] == *folder,
        fuel + fs.depth_of(k) >= fs.fuel(),
        skip + take <= usize::MAX,
        depth + fuel <= usize::MAX,
        collect_folder(fs.folders_map(), *config, *folder, depth as int, skip as int, take as int, old(items)@, *old(count) as int, fuel).1 <= usize::MAX,
    ensures
        (final(items)@, *final(count) as int) == collect_folder(fs.folders_map(), *config, *folder, depth as int, skip as int, take as int, old(items)@, *old(count) as int, fuel),
    decreases fuel,
{
    let ghost fm = fs.folders_map();
    let ghost list = folder.child_folders@;
    let ghost whole = collect_scan(fm, *config, list, 0, depth as int, skip as int, take as int, old(items)@, *old(count) as int, fuel);
    proof {
        assert(collect_folder(fm, *config, *folder, depth as int, skip as int, take as int, old(items)@, *old(count) as int, fuel).1 >= whole.1);
    }
    let mut i: usize = 0;
    while i < folder.child_folders.len()
        invariant
            fs.wf(),
            fm == fs.folders_map(),
            fm.contains_key(k),
            fm[k] == *folder,
            list == folder.child_folders@,
            fuel + fs.depth_of(k) >= fs.fuel(),
            skip + take <= usize::MAX,
            depth + fuel <= usize::MAX,
            i <= list.len(),
            collect_scan(fm, *config, list, i as int, depth as int, skip as int, take as int, items@, *count as int, fuel) == whole,
            whole == collect_scan(fm, *config, list, 0, depth as int, skip as int, take as int, old(items)@, *old(count) as int, fuel),
            whole.1 <= usize::MAX,
            collect_folder(fm, *config, *folder, depth as int, skip as int, take as int, old(items)@, *old(count) as int, fuel).1 <= usize::MAX,
        decreases list.len() - i,
    {
        if *count >= skip + take {
            return;
        }
        let key = folder.child_folders[i];
        proof {
            fs.lemma_child_depth(k, i as int);
        }
        let child = fs.folder(key);
        if config.ignored_folder(child.name.as_str()) && !child.open {
            i += 1;
            continue;
        }
        proof {
            let items1 = if *count >= skip { items@.push((Item::Folder(key), depth)) } else { items@ };
            if child.open {
                lemma_collect_grows(fm, *config, child.child_folders@, 0, depth + 1, skip as int, take as int, items1, *count + 1, (fuel - 1) as nat);
                let inner = collect_folder(fm, *config, *child, depth + 1, skip as int, take as int, items1, *count + 1, (fuel - 1) as nat);
                lemma_collect_grows(fm, *config, list, i + 1, depth as int, skip as int, take as int, inner.0, inner.1, fuel);
            } else {
                lemma_collect_grows(fm, *config, list, i + 1, depth as int, skip as int, take as int, items1, *count + 1, fuel);
            }
        }
        if *count >= skip {
            items.push((Item::Folder(key), depth));
        }
        *count = *count + 1;
        if child.open {
            collect_rec(fs, child, config, items, count, depth + 1, skip, take, Ghost(key.0), Ghost((fuel - 1) as nat));
        }
        i += 1;
    }
    let n = folder.child_files.len();
    if *count + n < skip {
        *count = *count + n;
        return;
    }
    let start = skip.saturating_sub(*count);
    let end_all = (skip + take).saturating_sub(*count);
    let end = if end_all <= n { end_all } else { n };
    assert(start <= end);
    *count = *count + n;
    let ghost before = items@;
    let mut j = start;
    proof {
        assert(folder.child_files@.subrange(start as int, start as int).map_values(|f: FileKey| (Item::File(f), depth)) =~= Seq::<(Item, usize)>::empty());
        assert(before + Seq::<(Item, usize)>::empty() =~= before);
    }
    while j < end
        invariant
            start <= j <= end,
            end <= n,
            n == folder.child_files@.len(),
            items@ == before + folder.child_files@.subrange(start as int, j as int).map_values(|f: FileKey| (Item::File(f), depth)),
        decreases end - j,
    {
        items.push((Item::File(folder.child_files[j]), depth));
        proof {
            assert(folder.child_files@.subrange(start as int, j + 1).map_values(|f: FileKey| (Item::File(f), depth))
                =~= folder.child_files@.subrange(start as int, j as int).map_values(|f: FileKey| (Item::File(f), depth)).push((Item::File(folder.child_files@[j as int]), depth)));
        }
        j += 1;
    }
}

/// Collect the shown entries under a folder whose rows fall from `skip` to `skip + take`,
/// counting rows from `count`, each with its depth counted from `depth`.
pub fn collect_items(
    fs: &Filesystem,
    folder: &Folder,
    config: &Config,
    items: &mut Vec<(Item, usize)>,
    count: &mut usize,
    depth: usize,
    skip: usize,
    take: usize,
)
    requires
        fs.wf(),
        stored_folder(*fs, *folder),
        skip + take <= usize::MAX,
        depth + fs.fuel() <= usize::MAX,
        collect_folder(fs.folders_map(), *config, *folder, depth as int, skip as int, take as int, old(items)@, *old(count) as int, fs.fuel()).1 <= usize::MAX,
    ensures
        (final(items)@, *final(count) as int) == collect_folder(fs.folders_map(), *config, *folder, depth as int, skip as int, take as int, old(items)@, *old(count) as int, fs.fuel()),
{
    let ghost k = choose|k: u64| fs.folders_map().contains_key(k) && #[trigger] fs.folders_map()[k] == *folder;
    collect_rec(fs, folder, config, items, count, depth, skip, take, Ghost(k), Ghost(fs.fuel()));
}

/// The rows the file tree shows under a folder at a depth: the rows of its child folders in
/// turn, then one row per file.
pub open spec fn shown_folder(fm: Map<u64, Folder>, config: Config, f: Folder, depth: int, fuel: nat) -> Seq<(Item, usize)>
    decreases fuel, f.child_folders@.len() + 2,
{
    shown_list(fm, config, f.child_folders@, depth, fuel) + f.child_files@.map_values(|k: FileKey| (Item::File(k), depth as usize))
}

/// The rows shown for a list of child folders, one folder after another.
pub open spec fn shown_list(fm: Map<u64, Folder>, config: Config, list: Seq<FolderKey>, depth: int, fuel: nat) -> Seq<(Item, usize)>
    decreases fuel, list.len() + 1,
{
    if list.len() == 0 {
        seq![]
    } else {
        shown_item(fm, config, list[0], depth, fuel) + shown_list(fm, config, list.drop_first(), depth, fuel)
    }
}

/// The rows shown for a child folder: none when it is hidden and closed; else its own row,
/// followed, when it is open, by the rows shown under it one level deeper.
pub open spec fn shown_item(fm: Map<u64, Folder>, config: Config, key: FolderKey, depth: int, fuel: nat) -> Seq<(Item, usize)>
    decreases fuel, 0nat,
{
    let c = fm[key.0];
    if hidden_by(config, c) && !c.open {
        seq![]
    } else if c.open && fuel > 0 {
        seq![(Item::Folder(key), depth as usize)] + shown_folder(fm, config, c, depth + 1, (fuel - 1) as nat)
    } else {
        seq![(Item::Folder(key), depth as usize)]
    }
}

/// The rows of a list that fall in the window from `skip` to `skip + take`, when the first of
/// them is row `count`.
pub open spec fn window<T>(rows: Seq<T>, count: int, skip: int, take: int) -> Seq<T> {
    rows.subrange(clamp(skip - count, rows.len() as int), clamp(skip + take - count, rows.len() as int))
}

/// A position brought within `0..=n`.
pub open spec fn clamp(x: int, n: int) -> int {
    if x < 0 { 0 } else if x > n { n } else { x }
}

/// The window of two lists one after the other is the window of the first, then that of the
/// second starting where the first ends.
proof fn lemma_window_concat<T>(a: Seq<T>, b: Seq<T>, count: int, skip: int, take: int)
    requires
        take >= 0,
    ensures
        window(a + b, count, skip, take) == window(a, count, skip, take) + window(b, count + a.len(), skip, take),
{
    let ab = a + b;
    let lhs = window(ab, count, skip, take);
    let wa = window(a, count, skip, take);
    let wb = window(b, count + a.len(), skip, take);
    let s = clamp(skip - count, ab.len() as int);
    let sa = clamp(skip - count, a.len() as int);
    let sb = clamp(skip - count - a.len(), b.len() as int);
    assert(lhs.len() == wa.len() + wb.len());
    assert forall|i: int| 0 <= i < lhs.len() implies lhs[i] == (wa + wb)[i] by {
        if i < wa.len() {
            assert(lhs[i] == ab[s + i]);
            assert(wa[i] == a[sa + i]);
        } else {
            assert(lhs[i] == ab[s + i]);
            assert(wb[i - wa.len()] == b[sb + i - wa.len()]);
        }
    }
    assert(lhs =~= wa + wb);
}

/// Once the rows counted reach the end of the window, nothing more falls in it.
proof fn lemma_window_past<T>(a: Seq<T>, count: int, skip: int, take: int)
    requires
        take >= 0,
        count >= skip + take,
    ensures
        window(a, count, skip, take) == Seq::<T>::empty(),
{
    assert(window(a, count, skip, take) =~= Seq::<T>::empty());
}

/// The rows of two lists of child folders one after the other.
proof fn lemma_shown_list_concat(fm: Map<u64, Folder>, config: Config, a: Seq<FolderKey>, b: Seq<FolderKey>, depth: int, fuel: nat)
    ensures
        shown_list(fm, config, a + b, depth, fuel) == shown_list(fm, config, a, depth, fuel) + shown_list(fm, config, b, depth, fuel),
    decreases a.len(),
{
    if a.len() == 0 {
        assert(a + b =~= b);
        assert(shown_list(fm, config, a, depth, fuel) =~= Seq::<(Item, usize)>::empty());
        assert(shown_list(fm, config, b, depth, fuel) =~= Seq::<(Item, usize)>::empty() + shown_list(fm, config, b, depth, fuel));
    } else {
        assert((a + b).drop_first() =~= a.drop_first() + b);
        assert((a + b)[0] == a[0]);
        lemma_shown_list_concat(fm, config, a.drop_first(), b, depth, fuel);
        assert(shown_list(fm, config, a + b, depth, fuel) =~= shown_list(fm, config, a, depth, fuel) + shown_list(fm, config, b, depth, fuel));
    }
}

/// `count_folder` counts the rows shown under a folder.
pub proof fn lemma_count_shown(fm: Map<u64, Folder>, config: Config, f: Folder, depth: int, fuel: nat)
    ensures
        count_folder(fm, config, f, fuel) == shown_folder(fm, config, f, depth, fuel).len(),
    decreases fuel, f.child_folders@.len() + 2,
{
    lemma_count_list_shown(fm, config, f.child_folders@, depth, fuel);
}

proof fn lemma_count_list_shown(fm: Map<u64, Folder>, config: Config, list: Seq<FolderKey>, depth: int, fuel: nat)
    ensures
        count_list(fm, config, list, fuel) == shown_list(fm, config, list, depth, fuel).len(),
    decreases fuel, list.len() + 1,
{
    if list.len() > 0 {
        let init = list.drop_last();
        let last = list.last();
        lemma_count_list_shown(fm, config, init, depth, fuel);
        assert(list =~= init + seq![last]);
        lemma_shown_list_concat(fm, config, init, seq![last], depth, fuel);
        assert(seq![last].drop_first() =~= Seq::<FolderKey>::empty());
        assert(seq![last][0] == last);
        assert(shown_list(fm, config, Seq::<FolderKey>::empty(), depth, fuel) =~= Seq::<(Item, usize)>::empty());
        assert(shown_list(fm, config, seq![last], depth, fuel) =~= shown_item(fm, config, last, depth, fuel));
        let c = fm[last.0];
        if c.open && fuel > 0 {
            lemma_count_shown(fm, config, c, depth + 1, (fuel - 1) as nat);
        }
    }
}

/// Collecting from the `i`-th child folder on adds the rows of the window among the rows shown
/// for those folders, and counts up to their end, or at least to the end of the window.
proof fn lemma_collect_scan_window(fm: Map<u64, Folder>, config: Config, list: Seq<FolderKey>, i: int, depth: int, skip: int, take: int, items: Seq<(Item, usize)>, count: int, fuel: nat)
    requires
        0 <= i <= list.len(),
        take >= 0,
    ensures
        ({
            let r = collect_scan(fm, config, list, i, depth, skip, take, items, count, fuel);
            let rows = shown_list(fm, config, list.skip(i), depth, fuel);
            &&& r.0 == items + window(rows, count, skip, take)
            &&& count <= r.1 <= count + rows.len()
            &&& r.1 >= skip + take || r.1 == count + rows.len()
            &&& r.2 ==> r.1 >= skip + take
        }),
    decreases fuel, list.len() - i,
{
    let r = collect_scan(fm, config, list, i, depth, skip, take, items, count, fuel);
    let rows = shown_list(fm, config, list.skip(i), depth, fuel);
    if i >= list.len() {
        assert(list.skip(i) =~= Seq::<FolderKey>::empty());
        assert(window(rows, count, skip, take) =~= Seq::<(Item, usize)>::empty());
        assert(items + window(rows, count, skip, take) =~= items);
    } else if count >= skip + take {
        lemma_window_past(rows, count, skip, take);
        assert(items + window(rows, count, skip, take) =~= items);
    } else {
        let key = list[i];
        let f = fm[key.0];
        let row = (Item::Folder(key), depth as usize);
        assert(list.skip(i)[0] == key);
        assert(list.skip(i).drop_first() =~= list.skip(i + 1));
        let item_rows = shown_item(fm, config, key, depth, fuel);
        let rest = shown_list(fm, config, list.skip(i + 1), depth, fuel);
        assert(rows == item_rows + rest);
        if hidden_by(config, f) && !f.open {
            lemma_collect_scan_window(fm, config, list, i + 1, depth, skip, take, items, count, fuel);
            assert(rows =~= rest);
        } else {
            let items1 = if count >= skip { items.push(row) } else { items };
            assert(items1 == items + window(seq![row], count, skip, take)) by {
                if count >= skip {
                    assert(window(seq![row], count, skip, take) =~= seq![row]);
                    assert(items.push(row) =~= items + seq![row]);
                } else {
                    assert(window(seq![row], count, skip, take) =~= Seq::<(Item, usize)>::empty());
                    assert(items =~= items + Seq::<(Item, usize)>::empty());
                }
            }
            if f.open && fuel > 0 {
                let sf = shown_folder(fm, config, f, depth + 1, (fuel - 1) as nat);
                assert(item_rows == seq![row] + sf);
                let inner = collect_folder(fm, config, f, depth + 1, skip, take, items1, count + 1, (fuel - 1) as nat);
                lemma_collect_folder_window(fm, config, f, depth + 1, skip, take, items1, count + 1, (fuel - 1) as nat);
                lemma_collect_scan_window(fm, config, list, i + 1, depth, skip, take, inner.0, inner.1, fuel);
                if inner.1 != count + 1 + sf.len() {
                    lemma_window_past(rest, inner.1, skip, take);
                    lemma_window_past(rest, count + 1 + sf.len(), skip, take);
                }
                lemma_window_concat(seq![row], sf, count, skip, take);
                lemma_window_concat(seq![row] + sf, rest, count, skip, take);
                assert(r.0 =~= items + window(rows, count, skip, take));
            } else {
                assert(item_rows == seq![row]);
                lemma_collect_scan_window(fm, config, list, i + 1, depth, skip, take, items1, count + 1, fuel);
                lemma_window_concat(seq![row], rest, count, skip, take);
                assert(r.0 =~= items + window(rows, count, skip, take));
            }
        }
    }
}

/// Collecting under a folder adds the rows of the window among the rows shown under it, and
/// counts up to their end, or at least to the end of the window.
proof fn lemma_collect_folder_window(fm: Map<u64, Folder>, config: Config, f: Folder, depth: int, skip: int, take: int, items: Seq<(Item, usize)>, count: int, fuel: nat)
    requires
        take >= 0,
    ensures
        ({
            let r = collect_folder(fm, config, f, depth, skip, take, items, count, fuel);
            let rows = shown_folder(fm, config, f, depth, fuel);
            &&& r.0 == items + window(rows, count, skip, take)
            &&& count <= r.1 <= count + rows.len()
            &&& r.1 >= skip + take || r.1 == count + rows.len()
        }),
    decreases fuel, f.child_folders@.len() + 1,
{
    let list = f.child_folders@;
    let scan = collect_scan(fm, config, list, 0, depth, skip, take, items, count, fuel);
    assert(list.skip(0) =~= list);
    lemma_collect_scan_window(fm, config, list, 0, depth, skip, take, items, count, fuel);
    let sl = shown_list(fm, config, list, depth, fuel);
    let fr = f.child_files@.map_values(|k: FileKey| (Item::File(k), depth as usize));
    let n = f.child_files@.len();
    let r = collect_folder(fm, config, f, depth, skip, take, items, count, fuel);
    lemma_window_concat(sl, fr, count, skip, take);
    if scan.2 || scan.1 >= skip + take {
        lemma_window_past(fr, count + sl.len(), skip, take);
        if !scan.2 {
            if scan.1 + n < skip {
            } else {
                let start = sat_sub(skip, scan.1);
                let end = min(sat_sub(skip + take, scan.1), n as int);
                assert(f.child_files@.subrange(start, end).map_values(|k: FileKey| (Item::File(k), depth as usize)) =~= Seq::<(Item, usize)>::empty());
            }
        }
        assert(r.0 =~= items + window(sl + fr, count, skip, take));
    } else {
        assert(scan.1 == count + sl.len());
        if scan.1 + n < skip {
            assert(window(fr, count + sl.len(), skip, take) =~= Seq::<(Item, usize)>::empty());
            assert(r.0 =~= items + window(sl + fr, count, skip, take));
        } else {
            let start = sat_sub(skip, scan.1);
            let end = min(sat_sub(skip + take, scan.1), n as int);
            assert(f.child_files@.subrange(start, end).map_values(|k: FileKey| (Item::File(k), depth as usize))
                =~= window(fr, count + sl.len(), skip, take));
            assert(r.0 =~= items + window(sl + fr, count, skip, take));
        }
    }
}

/// Collecting the rows under a folder from the first row takes the rows of the window from
/// `skip` to `skip + take` among the rows the tree shows under it, after the rows given; and
/// counting gives the number of those rows, so that collecting with `take` set to the count
/// takes all of them.
pub proof fn lemma_collect_shown(fm: Map<u64, Folder>, config: Config, f: Folder, depth: int, skip: int, take: int, items: Seq<(Item, usize)>, fuel: nat)
    requires
        skip >= 0,
        take >= 0,
    ensures
        ({
            let rows = shown_folder(fm, config, f, depth, fuel);
            &&& collect_folder(fm, config, f, depth, skip, take, items, 0, fuel).0
                == items + rows.subrange(min(skip, rows.len() as int), min(skip + take, rows.len() as int))
            &&& count_folder(fm, config, f, fuel) == rows.len()
        }),
{
    lemma_collect_folder_window(fm, config, f, depth, skip, take, items, 0, fuel);
    lemma_count_shown(fm, config, f, depth, fuel);
    let rows = shown_folder(fm, config, f, depth, fuel);
    assert(window(rows, 0, skip, take) == rows.subrange(min(skip, rows.len() as int), min(skip + take, rows.len() as int)));
}

/// Searching the child folders of a stored folder from the `i`-th on, with fuel enough for
/// its depth, counts the rows shown for them until the folder sought: where it stops is that
/// folder's own row, unless the folder is hidden and closed; when the search fails, it has
/// counted all of the rows.
proof fn lemma_index_scan_shown(fs: Filesystem, config: Config, k: u64, i: int, needle: FolderKey, count: int, dd: int, fuel: nat)
    requires
        fs.wf(),
        fs.folders_map().contains_key(k),
        0 <= i <= fs.folders_map()[k].child_folders@.len(),
        fuel + fs.depth_of(k) >= fs.fuel(),
    ensures
        ({
            let fm = fs.folders_map();
            let list = fm[k].child_folders@;
            let r = index_scan(fm, config, list, i, needle, count, fuel);
            let rows = shown_list(fm, config, list.skip(i), dd, fuel);
            &&& !r.0 ==> r.1 == count + rows.len()
            &&& r.0 ==> count <= r.1 <= count + rows.len() && (
                (r.1 - count < rows.len() && rows[r.1 - count].0 == Item::Folder(needle))
                || (hidden_by(config, fm[needle.0]) && !fm[needle.0].open))
        }),
    decreases fuel, fs.folders_map()[k].child_folders@.len() - i,
{
    let fm = fs.folders_map();
    let list = fm[k].child_folders@;
    let r = index_scan(fm, config, list, i, needle, count, fuel);
    let rows = shown_list(fm, config, list.skip(i), dd, fuel);
    if i >= list.len() {
        assert(list.skip(i) =~= Seq::<FolderKey>::empty());
    } else {
        let key = list[i];
        let f = fm[key.0];
        assert(list.skip(i)[0] == key);
        assert(list.skip(i).drop_first() =~= list.skip(i + 1));
        let item_rows = shown_item(fm, config, key, dd, fuel);
        let rest = shown_list(fm, config, list.skip(i + 1), dd, fuel);
        assert(rows == item_rows + rest);
        fs.lemma_child_depth(k, i);
        if key == needle {
            if !(hidden_by(config, f) && !f.open) {
                assert(item_rows[0] == (Item::Folder(key), dd as usize));
                assert(rows[0] == item_rows[0]);
            }
        } else if hidden_by(config, f) && !f.open {
            lemma_index_scan_shown(fs, config, k, i + 1, needle, count, dd, fuel);
            assert(rows =~= rest);
        } else if f.open {
            let sf = shown_folder(fm, config, f, dd + 1, (fuel - 1) as nat);
            let sl = shown_list(fm, config, f.child_folders@, dd + 1, (fuel - 1) as nat);
            let n = f.child_files@.len();
            assert(item_rows == seq![(Item::Folder(key), dd as usize)] + sf);
            assert(f.child_folders@.skip(0) =~= f.child_folders@);
            lemma_index_scan_shown(fs, config, key.0, 0, needle, count + 1, dd + 1, (fuel - 1) as nat);
            let inner = index_scan(fm, config, f.child_folders@, 0, needle, count + 1, (fuel - 1) as nat);
            assert(sf.len() == sl.len() + n);
            if inner.0 {
                let p = inner.1 - (count + 1);
                if p < sl.len() && sl[p].0 == Item::Folder(needle) {
                    assert(sf[p] == sl[p]);
                    assert(rows[inner.1 - count] == sf[p]);
                }
            } else {
                lemma_index_scan_shown(fs, config, k, i + 1, needle, inner.1 + n, dd, fuel);
                let r2 = index_scan(fm, config, list, i + 1, needle, inner.1 + n, fuel);
                if r2.0 {
                    let p = r2.1 - (inner.1 + n);
                    if p < rest.len() && rest[p].0 == Item::Folder(needle) {
                        assert(rows[r2.1 - count] == rest[p]);
                    }
                }
            }
        } else {
            lemma_index_scan_shown(fs, config, k, i + 1, needle, count + 1, dd, fuel);
            assert(item_rows == seq![(Item::Folder(key), dd as usize)]);
            let r2 = index_scan(fm, config, list, i + 1, needle, count + 1, fuel);
            if r2.0 {
                let p = r2.1 - (count + 1);
                if p < rest.len() && rest[p].0 == Item::Folder(needle) {
                    assert(rows[r2.1 - count] == rest[p]);
                }
            }
        }
    }
}

/// The row `folder_index` gives a folder is where it stands among the rows the tree shows
/// under the root: that folder's own row, unless it is hidden and closed (and so not shown),
/// in which case it is the row it would take.
pub proof fn lemma_folder_index_shown(fs: Filesystem, config: Config, key: FolderKey)
    requires
        fs.wf(),
    ensures
        ({
            let fm = fs.folders_map();
            let root = fm[fs.root_spec().0];
            let r = index_scan(fm, config, root.child_folders@, 0, key, 0, fs.fuel());
            let rows = shown_folder(fm, config, root, 0, fs.fuel());
            r.0 ==> r.1 <= rows.len() && (
                (r.1 < rows.len() && rows[r.1].0 == Item::Folder(key))
                || (hidden_by(config, fm[key.0]) && !fm[key.0].open))
        }),
{
    fs.lemma_root_stored();
    let fm = fs.folders_map();
    let root = fm[fs.root_spec().0];
    assert(root.child_folders@.skip(0) =~= root.child_folders@);
    lemma_index_scan_shown(fs, config, fs.root_spec().0, 0, key, 0, 0, fs.fuel());
    let r = index_scan(fm, config, root.child_folders@, 0, key, 0, fs.fuel());
    let sl = shown_list(fm, config, root.child_folders@, 0, fs.fuel());
    let rows = shown_folder(fm, config, root, 0, fs.fuel());
    if r.0 && r.1 < sl.len() {
        assert(rows[r.1] == sl[r.1]);
    }
}

} // verus!
