//! The matchers' state: which matcher runs, the selected entry, the last results counted, and
//! the previewed file. The matching engines themselves run in the background with the caller;
//! they hand their counts in as a `Tick`, and their entries in as views.
use vstd::prelude::*;
use crate::buffer::Buffer;
use crate::file::Devicon;
use crate::filesystem::{Filesystem, FsTask};
use crate::keys::FileKey;

verus! {

/// A matcher tick result, produced when a matcher is ticked and it has yielded new results.
#[derive(Clone, Copy, PartialEq, Eq, Debug, Structural)]
pub struct Tick {
    pub changed: bool,
    pub running: bool,
    pub matched: usize,
    pub total: usize,
}

impl Tick {
    /// Nothing changed, nothing running, nothing matched.
    pub fn empty() -> (t: Tick)
        ensures
            t == (Tick { changed: false, running: false, matched: 0, total: 0 }),
    {
        Tick { changed: false, running: false, matched: 0, total: 0 }
    }
}

/// A matching engine, running in the background: it is opened on a folder, searches with a
/// filter (appending to the last filter or not), reports its progress as ticks, and closes.
pub trait Matcher {
    fn open(&mut self, path: &str);

    fn search(&mut self, filter: &str, append: bool);

    fn close(&mut self);

    fn tick(&mut self) -> Tick;
}

/// Matcher mode.
#[derive(Clone, Copy, PartialEq, Eq, Debug, Structural)]
pub enum MatcherMode {
    /// Find files
    File,
    /// Find in files
    Grep,
}

/// Matcher opening data: the folder to search from.
pub enum MatcherData {
    File(String),
    Grep(String),
}

impl MatcherMode {
    /// The mode that opening data asks for.
    pub fn from_data(data: &MatcherData) -> (m: MatcherMode)
        ensures
            m == (match data {
                MatcherData::File(_) => MatcherMode::File,
                MatcherData::Grep(_) => MatcherMode::Grep,
            }),
    {
        match data {
            MatcherData::File(_) => MatcherMode::File,
            MatcherData::Grep(_) => MatcherMode::Grep,
        }
    }
}

/// One matched file, as the finder shows it.
pub struct FileView {
    /// The path, as text
    pub text: String,
    pub icon: Devicon,
}

/// Matcher slice view data.
pub enum MatcherView {
    File(Vec<FileView>),
}

impl MatcherView {
    pub fn len(&self) -> (n: usize)
        ensures
            n == (match self {
                MatcherView::File(v) => v@.len(),
            }),
    {
        match self {
            MatcherView::File(v) => v.len(),
        }
    }

    pub fn is_empty(&self) -> (b: bool)
        ensures
            b == (match self {
                MatcherView::File(v) => v@.len() == 0,
            }),
    {
        self.len() == 0
    }
}

pub struct Matchers {
    mode: MatcherMode,
    /// Selected entry index
    selected: usize,
    /// Last tick result
    tick: Tick,
    /// Previewed file
    previewed: Option<FileKey>,
    /// Tick debouncing delay, in milliseconds
    debouncing: u64,
}

/// What the matchers hold, as plain values.
pub struct MatchersView {
    pub mode: MatcherMode,
    pub selected: usize,
    pub tick: Tick,
    pub previewed: Option<FileKey>,
    pub debouncing: u64,
}

impl View for Matchers {
    type V = MatchersView;

    closed spec fn view(&self) -> MatchersView {
        MatchersView {
            mode: self.mode,
            selected: self.selected,
            tick: self.tick,
            previewed: self.previewed,
            debouncing: self.debouncing,
        }
    }
}

/// Whether a tick is taken: something changed, and the matcher has stopped or the debouncing
/// delay has passed since the tick was asked for.
pub open spec fn tick_taken(tick: Tick, elapsed: u64, debouncing: u64) -> bool {
    tick.changed && !(tick.running && elapsed < debouncing)
}

/// The entry after the selected one, up to the last one matched.
pub open spec fn next_selected(v: MatchersView) -> usize {
    let next = if v.selected == usize::MAX { usize::MAX as int } else { v.selected + 1 };
    let last = if v.tick.matched == 0 { 0 } else { v.tick.matched - 1 };
    (if next <= last { next } else { last }) as usize
}

impl Matchers {
    /// File mode, first entry selected, nothing counted, nothing previewed, and a debouncing
    /// delay of 10 ms.
    pub fn new() -> (m: Matchers)
        ensures
            m@ == (MatchersView {
                mode: MatcherMode::File,
                selected: 0,
                tick: Tick { changed: false, running: false, matched: 0, total: 0 },
                previewed: None,
                debouncing: 10,
            }),
    {
        Matchers { mode: MatcherMode::File, selected: 0, tick: Tick::empty(), previewed: None, debouncing: 10 }
    }

    /// Open a matcher: its mode is taken and the first entry selected. Only the file matcher
    /// can be opened.
    pub fn open(&mut self, data: &MatcherData)
        requires
            data is File,
        ensures
            final(self)@ == (MatchersView { mode: MatcherMode::File, selected: 0, ..old(self)@ }),
    {
        self.mode = MatcherMode::from_data(data);
        self.selected = 0;
    }

    /// A new search started: the first entry is selected.
    pub fn search(&mut self)
        requires
            old(self)@.mode is File,
        ensures
            final(self)@ == (MatchersView { selected: 0, ..old(self)@ }),
    {
        self.selected = 0;
    }

    /// The matcher closed: the first entry is selected and nothing is previewed.
    pub fn close(&mut self)
        requires
            old(self)@.mode is File,
        ensures
            final(self)@ == (MatchersView { selected: 0, previewed: None, ..old(self)@ }),
    {
        self.selected = 0;
        self.previewed = None;
    }

    /// Select the next entry, up to the last one matched.
    pub fn up(&mut self)
        ensures
            final(self)@ == (MatchersView { selected: next_selected(old(self)@), ..old(self)@ }),
    {
        let next = self.selected.saturating_add(1);
        let last = self.tick.matched.saturating_sub(1);
        self.selected = if next <= last { next } else { last };
    }

    /// Select the previous entry, down to the first one.
    pub fn down(&mut self)
        ensures
            final(self)@ == (MatchersView {
                selected: if old(self)@.selected == 0 { 0 } else { (old(self)@.selected - 1) as usize },
                ..old(self)@
            }),
    {
        self.selected = self.selected.saturating_sub(1);
    }

    pub fn selected(&self) -> (n: usize)
        ensures
            n == self@.selected,
    {
        self.selected
    }

    pub fn total(&self) -> (n: usize)
        ensures
            n == self@.tick.total,
    {
        self.tick.total
    }

    pub fn matched(&self) -> (n: usize)
        ensures
            n == self@.tick.matched,
    {
        self.tick.matched
    }

    pub fn mode(&self) -> (m: MatcherMode)
        ensures
            m == self@.mode,
    {
        self.mode
    }

    pub fn previewed(&self) -> (k: Option<FileKey>)
        ensures
            k == self@.previewed,
    {
        self.previewed
    }

    /// Take a tick of the running matcher, `elapsed` milliseconds after it was asked for:
    /// kept when something changed, unless the matcher still runs and the debouncing delay has
    /// not passed. Returns whether it was kept.
    pub fn tick(&mut self, tick: Tick, elapsed: u64) -> (changed: bool)
        requires
            old(self)@.mode is File,
        ensures
            changed == tick_taken(tick, elapsed, old(self)@.debouncing),
            changed ==> final(self)@ == (MatchersView { tick, ..old(self)@ }),
            !changed ==> final(self)@ == old(self)@,
    {
        if !tick.changed || (tick.running && elapsed < self.debouncing) {
            return false;
        }
        self.tick = tick;
        true
    }

    /// Preview the selected entry, whose path the matcher gave (none past its entries): the
    /// filesystem's preview of it, which may have to be loaded first.
    pub fn ensure_preview(&mut self, path: Option<&str>, fs: &mut Filesystem) -> (task: Option<FsTask>)
        requires
            old(self)@.mode is File,
            old(fs).wf(),
        ensures
            final(fs).wf(),
            match path {
                None => final(self)@ == (MatchersView { previewed: None, ..old(self)@ }) && task is None && *final(fs) == *old(fs),
                Some(p) => exists|r: (Option<FileKey>, Option<FsTask>)| {
                    &&& #[trigger] old(fs).ensure_preview_post(*final(fs), p@, r)
                    &&& task == r.1
                    &&& final(self)@ == (MatchersView { previewed: r.0, ..old(self)@ })
                },
            },
    {
        match path {
            None => {
                self.previewed = None;
                None
            },
            Some(p) => {
                let r = fs.ensure_preview(p);
                self.previewed = r.0;
                r.1
            },
        }
    }

    /// The buffer of the previewed file, once it is loaded.
    pub fn preview<'a>(&self, fs: &'a Filesystem) -> (b: Option<&'a Buffer>)
        requires
            self@.previewed matches Some(k) ==> fs.files_map().contains_key(k.0),
        ensures
            match self@.previewed {
                None => b is None,
                Some(k) => match b {
                    Some(b) => fs.files_map()[k.0].buffer == Some(*b),
                    None => fs.files_map()[k.0].buffer is None,
                },
            },
    {
        match self.previewed {
            Some(key) => fs.preview(key),
            None => None,
        }
    }
}

/// The range of matched entries a slice of the file matcher covers: from the offset, as many
/// as the limit asks, up to the last one matched.
pub fn file_slice_range(offset: u32, limit: u32, matched: u32) -> (r: (u32, u32))
    requires
        offset + limit <= u32::MAX,
    ensures
        r.0 == offset,
        r.1 == (if offset + limit <= matched { (offset + limit) as u32 } else { matched }),
{
    let end = offset + limit;
    (offset, if end <= matched { end } else { matched })
}

/// The grep matcher does not search for fewer than 3 characters.
pub fn grep_searches(filter: &str) -> (b: bool)
    ensures
        b == (filter@.len() >= 3),
{
    filter.unicode_len() >= 3
}

/// The tick of a grep matcher that has found `matched` entries, `length` of them at the last
/// tick: all found entries are matched, and they changed when their number did.
pub open spec fn grep_tick_of(matched: usize, length: usize, running: bool) -> Tick {
    Tick { matched, total: matched, changed: matched != length, running }
}

/// A grep matcher tick: `matched` entries were found so far, `length` at the last tick, which
/// becomes `matched`.
pub fn grep_tick(matched: usize, length: &mut usize, running: bool) -> (t: Tick)
    ensures
        t == grep_tick_of(matched, *old(length), running),
        *final(length) == matched,
{
    let changed = matched != *length;
    *length = matched;
    Tick { matched, total: matched, changed, running }
}

/// A grep tick after another, with no entry found in between, reports no change.
pub proof fn lemma_grep_tick_settles(matched: usize, length: usize, running: bool, again: bool)
    ensures
        grep_tick_of(matched, matched, again).changed == false,
        grep_tick_of(matched, length, running).matched == matched,
{
}

/// The range of grep entries a slice covers: past `offset` of them, at most `limit`.
pub fn grep_slice_range(offset: usize, limit: usize, len: usize) -> (r: (usize, usize))
    ensures
        r.0 == (if offset <= len { offset } else { len }),
        r.1 == (if offset + limit <= len { offset + limit } else { len as int }),
{
    let start = if offset <= len { offset } else { len };
    let end = if limit <= len - start { start + limit } else { len };
    (start, end)
}

} // verus!
