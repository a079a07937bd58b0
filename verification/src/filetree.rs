//! The file tree widget: scrolling, selecting, clicking and folding the tree of a filesystem.
use vstd::prelude::*;
use crate::config::Config;
use crate::filesystem::{clamp_index, Filesystem, FsTask};
use crate::geometry::{Position, Rect};
use crate::keys::Item;
use crate::utils::{scroll_to_cursor, scrolled};

verus! {

/// Filetree widget
pub struct Filetree {
    area: Rect,
    scroll: usize,
    /// When the last click happened, in milliseconds
    last_click: u64,
}

/// What the file tree holds, as plain values.
pub struct FiletreeView {
    pub area: Rect,
    pub scroll: usize,
    pub last_click: u64,
}

impl View for Filetree {
    type V = FiletreeView;

    closed spec fn view(&self) -> FiletreeView {
        FiletreeView { area: self.area, scroll: self.scroll, last_click: self.last_click }
    }
}

/// A key as the file tree reads it.
#[derive(Clone, Copy, PartialEq, Eq, Debug, Structural)]
pub enum TreeKey {
    Up,
    Down,
    Left,
    Right,
    Other,
}

/// `a - b`, or 0 where `b` is larger.
pub open spec fn sat_sub(a: int, b: int) -> int {
    if a >= b { a - b } else { 0 }
}

/// The entries of the view shown: from the scroll offset, as many as the area's rows, up to
/// the last; and the row of the selected entry among them.
pub struct Visible {
    pub start: usize,
    pub end: usize,
    pub selected: usize,
}

/// What closing from the file tree does to a filesystem: see `Filetree::close`.
pub open spec fn tree_closed(fs: Filesystem, after: Filesystem) -> bool {
    match fs.selected_item_spec() {
        None => after == fs,
        Some(Item::Folder(key)) => if fs.folders_map()[key.0].open {
            fs.close_recurse_post(after, key)
        } else {
            match fs.folders_map()[key.0].parent {
                Some(p) => exists|mid: Filesystem| #[trigger] fs.select_item_post(mid, Item::Folder(p)) && mid.close_recurse_post(after, p),
                None => exists|mid: Filesystem| #[trigger] fs.select_index_post(mid, 0) && mid.close_recurse_post(after, fs.root_spec()),
            }
        },
        Some(Item::File(key)) => match fs.files_map()[key.0].parent {
            Some(p) => exists|mid: Filesystem| #[trigger] fs.select_item_post(mid, Item::Folder(p)) && mid.close_recurse_post(after, p),
            None => after == fs,
        },
    }
}

impl Filetree {
    /// Scrolled to the top, with a last click at a time.
    pub fn new(now: u64) -> (t: Filetree)
        ensures
            t@ == (FiletreeView { area: Rect { x: 0, y: 0, width: 0, height: 0 }, scroll: 0, last_click: now }),
    {
        Filetree { area: Rect::zero(), scroll: 0, last_click: now }
    }

    pub fn area(&self) -> (a: Rect)
        ensures
            a == self@.area,
    {
        self.area
    }

    pub fn scroll(&self) -> (s: usize)
        ensures
            s == self@.scroll,
    {
        self.scroll
    }

    /// Scroll to keep the selected entry in view with the configured margin, record the area,
    /// and say which entries are shown.
    pub fn visible(&mut self, area: Rect, fs: &Filesystem, config: &Config) -> (v: Visible)
        requires
            fs.wf(),
            old(self)@.scroll + config.scroll_margin <= usize::MAX,
            old(self)@.scroll + area.height <= usize::MAX,
            fs.selected_spec() + config.scroll_margin < usize::MAX,
            scrolled(old(self)@.scroll as int, fs.selected_spec() as int, area.height as int, config.scroll_margin as int)
                <= fs.view_spec().len(),
        ensures
            ({
                let scroll = scrolled(old(self)@.scroll as int, fs.selected_spec() as int, area.height as int, config.scroll_margin as int);
                let end = scroll + area.height;
                &&& final(self)@ == (FiletreeView { area, scroll: scroll as usize, ..old(self)@ })
                &&& v.start == scroll
                &&& v.end == (if end <= fs.view_spec().len() { end } else { fs.view_spec().len() as int })
                &&& v.selected == sat_sub(fs.selected_spec() as int, scroll)
            }),
    {
        scroll_to_cursor(&mut self.scroll, fs.selected_index(), area, config);
        let len = fs.view().len();
        let end = if self.scroll <= usize::MAX - area.height as usize { self.scroll + area.height as usize } else { usize::MAX };
        let end = if end <= len { end } else { len };
        self.area = area;
        Visible { start: self.scroll, end, selected: fs.selected_index().saturating_sub(self.scroll) }
    }

    /// The cursor: on the selected entry's row.
    pub fn cursor(&self, fs: &Filesystem) -> (p: Position)
        requires
            self@.area.y + (sat_sub(fs.selected_spec() as int, self@.scroll as int) as u16) <= u16::MAX,
        ensures
            p == (Position { x: self@.area.x, y: (self@.area.y + (sat_sub(fs.selected_spec() as int, self@.scroll as int) as u16)) as u16 }),
    {
        let row = fs.selected_index().saturating_sub(self.scroll) as u16;
        Position::new(self.area.x, self.area.y + row)
    }

    /// Fold or unfold the selected folder.
    pub fn toggle(&mut self, fs: &mut Filesystem) -> (task: Option<FsTask>)
        requires
            old(fs).wf(),
        ensures
            final(fs).wf(),
            final(self)@ == old(self)@,
            match old(fs).selected_item_spec() {
                Some(Item::Folder(key)) => old(fs).toggle_post(*final(fs), key, task),
                _ => *final(fs) == *old(fs) && task is None,
            },
    {
        match fs.selected_item() {
            Some(Item::Folder(key)) => fs.toggle(key),
            _ => None,
        }
    }

    /// Recursively close the selected folder when it is open; otherwise select the folder
    /// holding the selected entry and close it recursively (the root when the selected folder
    /// has no parent; nothing for a file with no parent).
    pub fn close(&mut self, fs: &mut Filesystem)
        requires
            old(fs).wf(),
        ensures
            final(fs).wf(),
            final(self)@ == old(self)@,
            tree_closed(*old(fs), *final(fs)),
    {
        let item = fs.selected_item();
        match item {
            None => {},
            Some(Item::Folder(key)) => {
                proof {
                    fs.lemma_parent_stored(Item::Folder(key));
                }
                if fs.folder(key).open {
                    fs.close_recurse(key);
                } else {
                    match fs.folder_parent(key) {
                        Some(parent) => {
                            fs.select_item(Item::Folder(parent));
                            fs.close_recurse(parent);
                        },
                        None => {
                            fs.select_index(0);
                            let root = fs.root_key();
                            fs.close_recurse(root);
                        },
                    }
                }
            },
            Some(Item::File(key)) => {
                proof {
                    fs.lemma_parent_stored(Item::File(key));
                }
                match fs.file_parent(key) {
                    Some(parent) => {
                        fs.select_item(Item::Folder(parent));
                        fs.close_recurse(parent);
                    },
                    None => {},
                }
            },
        }
    }

    /// Handle a key: up and down move the cursor, left folds or unfolds the selected folder,
    /// right closes it (or the folder holding the selection) recursively. Returns whether the
    /// key was for the tree, and the task a fold asks for.
    pub fn key(&mut self, key: TreeKey, fs: &mut Filesystem) -> (r: (bool, Option<FsTask>))
        requires
            old(fs).wf(),
        ensures
            final(fs).wf(),
            final(self)@ == old(self)@,
            match key {
                TreeKey::Up => r == (true, None::<FsTask>) && old(fs).up_post(*final(fs)),
                TreeKey::Down => r == (true, None::<FsTask>) && old(fs).down_post(*final(fs)),
                TreeKey::Left => r.0 && match old(fs).selected_item_spec() {
                    Some(Item::Folder(k)) => old(fs).toggle_post(*final(fs), k, r.1),
                    _ => *final(fs) == *old(fs) && r.1 is None,
                },
                TreeKey::Right => r == (true, None::<FsTask>) && tree_closed(*old(fs), *final(fs)),
                TreeKey::Other => r == (false, None::<FsTask>) && *final(fs) == *old(fs),
            },
    {
        match key {
            TreeKey::Up => {
                fs.up();
                (true, None)
            },
            TreeKey::Down => {
                fs.down();
                (true, None)
            },
            TreeKey::Left => (true, self.toggle(fs)),
            TreeKey::Right => {
                self.close(fs);
                (true, None)
            },
            TreeKey::Other => (false, None),
        }
    }

    /// A click on a row at a time (in milliseconds): the entry on that row is selected; a
    /// second click on the selected entry within the double click delay also folds or unfolds
    /// it when it is a folder.
    pub fn click(&mut self, row: u16, now: u64, fs: &mut Filesystem, config: &Config) -> (task: Option<FsTask>)
        requires
            old(fs).wf(),
            old(self)@.scroll + u16::MAX <= usize::MAX,
        ensures
            final(fs).wf(),
            final(self)@ == (FiletreeView { last_click: now, ..old(self)@ }),
            ({
                let index = sat_sub(row as int, old(self)@.area.y as int) + old(self)@.scroll;
                let double = old(fs).selected_spec() == index
                    && sat_sub(now as int, old(self)@.last_click as int) < config.double_click_duration
                    && old(fs).selected_item_spec() is Some;
                match old(fs).selected_item_spec() {
                    Some(Item::Folder(k)) if double => exists|mid: Filesystem| #[trigger] old(fs).toggle_post(mid, k, task)
                        && mid.select_index_post(*final(fs), index as usize),
                    _ => task is None && old(fs).select_index_post(*final(fs), index as usize),
                }
            }),
    {
        let index = row.saturating_sub(self.area.y) as usize + self.scroll;
        let mut task: Option<FsTask> = None;
        if fs.selected_index() == index && now.saturating_sub(self.last_click) < config.double_click_duration {
            if let Some(Item::Folder(key)) = fs.selected_item() {
                task = fs.toggle(key);
            }
        }
        fs.select_index(index);
        self.last_click = now;
        task
    }

    /// Scroll up by a delta, and move the cursor to stay within the visible area with the
    /// configured margin.
    pub fn scroll_up(&mut self, fs: &mut Filesystem, config: &Config, delta: usize)
        requires
            old(fs).wf(),
            sat_sub(old(self)@.scroll as int, delta as int) + old(self)@.area.height <= usize::MAX,
        ensures
            final(fs).wf(),
            ({
                let scroll = sat_sub(old(self)@.scroll as int, delta as int);
                let limit = sat_sub(scroll + old(self)@.area.height, config.scroll_margin as int);
                &&& final(self)@ == (FiletreeView { scroll: scroll as usize, ..old(self)@ })
                &&& old(fs).select_index_post(*final(fs), (if old(fs).selected_spec() <= limit { old(fs).selected_spec() as int } else { limit }) as usize)
            }),
    {
        self.scroll = self.scroll.saturating_sub(delta);
        let limit = (self.scroll + self.area.height as usize).saturating_sub(config.scroll_margin as usize);
        let selected = fs.selected_index();
        fs.select_index(if selected <= limit { selected } else { limit });
    }

    /// Scroll down by a delta, and move the cursor to stay within the visible area with the
    /// configured margin.
    pub fn scroll_down(&mut self, fs: &mut Filesystem, config: &Config, delta: usize)
        requires
            old(fs).wf(),
            (if old(self)@.scroll + delta <= usize::MAX { old(self)@.scroll + delta } else { usize::MAX as int }) + config.scroll_margin <= usize::MAX,
        ensures
            final(fs).wf(),
            ({
                let scroll = if old(self)@.scroll + delta <= usize::MAX { old(self)@.scroll + delta } else { usize::MAX as int };
                let low = scroll + config.scroll_margin;
                &&& final(self)@ == (FiletreeView { scroll: scroll as usize, ..old(self)@ })
                &&& old(fs).select_index_post(*final(fs), (if old(fs).selected_spec() >= low { old(fs).selected_spec() as int } else { low }) as usize)
            }),
    {
        self.scroll = self.scroll.saturating_add(delta);
        let low = self.scroll + config.scroll_margin as usize;
        let selected = fs.selected_index();
        fs.select_index(if selected >= low { selected } else { low });
    }
}


/// The marks drawn before a folder's name: an arrow and a folder, open or closed.
pub fn folder_marks(open: bool) -> (m: (&'static str, &'static str))
    ensures
        m.0@ == (if open { "\u{f47c} "@ } else { "\u{f460} "@ }),
        m.1@ == (if open { "\u{e5fe} "@ } else { "\u{e5ff} "@ }),
{
    if open { ("\u{f47c} ", "\u{e5fe} ") } else { ("\u{f460} ", "\u{e5ff} ") }
}

/// The indentation of an entry at a depth, in spaces: two per level, one level more for a
/// file, whose line has no arrow.
pub fn indent(item: Item, depth: usize) -> (n: usize)
    requires
        depth < usize::MAX / 2,
    ensures
        n == 2 * (if item is File { depth + 1 } else { depth as int }),
{
    match item {
        Item::File(_) => 2 * (depth + 1),
        Item::Folder(_) => 2 * depth,
    }
}

} // verus!
