//! Editor settings.
use vstd::prelude::*;
use crate::text::owned;

verus! {

/// Default delay between two clicks of a double click, in milliseconds.
pub fn double_click_duration() -> (ms: u64)
    ensures
        ms == 500,
{
    500
}

/// Default number of lines kept visible around the cursor when scrolling.
pub fn scroll_margin() -> (m: u16)
    ensures
        m == 5,
{
    5
}

/// Default number of rows one wheel step scrolls the file tree.
pub fn scroll_delta() -> (d: usize)
    ensures
        d == 3,
{
    3
}

/// The folder names ignored by default.
pub open spec fn default_ignored() -> Seq<Seq<char>> {
    seq![".git"@, ".venv"@, "__pycache__"@]
}

/// Default folder names that are ignored: `.git`, `.venv` and `__pycache__`.
pub fn ignored_folders() -> (v: Vec<String>)
    ensures
        v@.len() == 3,
        forall|i: int| 0 <= i < 3 ==> (#[trigger] v@[i])@ == default_ignored()[i],
{
    let mut v: Vec<String> = Vec::new();
    v.push(owned(".git"));
    v.push(owned(".venv"));
    v.push(owned("__pycache__"));
    v
}

pub struct Config {
    /// Delay between two clicks of a double click, in milliseconds
    pub double_click_duration: u64,
    pub scroll_margin: u16,
    pub ignored_folders: Vec<String>,
}

impl Config {
    /// The ignored folder names.
    pub closed spec fn ignored(self) -> Seq<Seq<char>> {
        self.ignored_folders@.map_values(|s: String| s@)
    }

    /// Settings from their values.
    pub fn from_parts(double_click_duration: u64, scroll_margin: u16, ignored_folders: Vec<String>) -> (c: Config)
        ensures
            c.double_click_duration == double_click_duration,
            c.scroll_margin == scroll_margin,
            c.ignored() == ignored_folders@.map_values(|s: String| s@),
    {
        Config { double_click_duration, scroll_margin, ignored_folders }
    }

    /// The ignored folder names, as a list.
    pub fn ignored_list(&self) -> (v: &Vec<String>)
        ensures
            v@.map_values(|s: String| s@) == self.ignored(),
    {
        &self.ignored_folders
    }

    /// Whether a folder name is ignored.
    pub fn ignored_folder(&self, name: &str) -> (b: bool)
        ensures
            b == self.ignored().contains(name@),
    {
        let b = crate::text::contains_text(&self.ignored_folders, name);
        proof {
            let m = self.ignored();
            if b {
                let i = choose|i: int| 0 <= i < self.ignored_folders@.len() && #[trigger] self.ignored_folders@[i]@ == name@;
                assert(m[i] == name@);
            }
            if m.contains(name@) {
                let i = choose|i: int| 0 <= i < m.len() && m[i] == name@;
                assert(self.ignored_folders@[i]@ == name@);
            }
        }
        b
    }
}

impl Default for Config {
    /// The default settings.
    fn default() -> (c: Config)
        ensures
            c.double_click_duration == 500,
            c.scroll_margin == 5,
            c.ignored() == default_ignored(),
    {
        let c = Config {
            double_click_duration: double_click_duration(),
            scroll_margin: scroll_margin(),
            ignored_folders: ignored_folders(),
        };
        proof {
            assert(c.ignored() =~= default_ignored());
        }
        c
    }
}


/// A change seen in the configuration folder: whether it modified, created or removed
/// something, and the final component of each path it touched (none for a path without one).
pub struct WatchEvent {
    pub modifying: bool,
    pub names: Vec<Option<String>>,
}

/// Whether a path's final component is `config.toml`.
pub open spec fn is_config_name(name: Option<String>) -> bool {
    name matches Some(n) && n@ == "config.toml"@
}

/// Whether a change touched the configuration file.
pub open spec fn touches_config(e: WatchEvent) -> bool {
    e.modifying && exists|i: int| 0 <= i < e.names@.len() && is_config_name(#[trigger] e.names@[i])
}

/// Whether a batch of changes calls for reading the configuration again: one of them
/// modified, created or removed `config.toml`.
pub fn config_touched(events: &Vec<WatchEvent>) -> (b: bool)
    ensures
        b == exists|i: int| 0 <= i < events@.len() && touches_config(#[trigger] events@[i]),
{
    let target = owned("config.toml");
    let mut i: usize = 0;
    while i < events.len()
        invariant
            i <= events@.len(),
            target@ == "config.toml"@,
            forall|j: int| 0 <= j < i ==> !touches_config(#[trigger] events@[j]),
        decreases events@.len() - i,
    {
        let e = &events[i];
        if e.modifying {
            let mut k: usize = 0;
            while k < e.names.len()
                invariant
                    k <= e.names@.len(),
                    i < events@.len(),
                    *e == events@[i as int],
                    e.modifying,
                    target@ == "config.toml"@,
                    forall|j: int| 0 <= j < k ==> !is_config_name(#[trigger] e.names@[j]),
                decreases e.names@.len() - k,
            {
                if let Some(n) = &e.names[k] {
                    if *n == target {
                        proof {
                            assert(is_config_name(e.names@[k as int]));
                            assert(touches_config(events@[i as int]));
                        }
                        return true;
                    }
                }
                k += 1;
            }
        }
        i += 1;
    }
    false
}

} // verus!
