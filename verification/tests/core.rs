use ted::config::{double_click_duration, ignored_folders, scroll_margin, config_touched, Config, WatchEvent};
use ted::entries::{sort_files, sort_folders, text_before};
use ted::file::{Devicon, File, Rgb};
use ted::filesystem::{FSEvent, Filesystem, FsTask};
use ted::filetree::{Filetree, TreeKey};
use ted::folder::Folder;
use ted::keys::{FolderKey, Item};
use ted::args::Args;
use ted::buffer::Buffer;
use ted::tree_walk::{collect_items, count_items, folder_index};
use ted::highlights::{line_bytes, line_chars, line_range_bytes, line_total, lines_bytes, try_line_chars};

#[test]
fn config_defaults() {
    assert_eq!(double_click_duration(), 500);
    assert_eq!(scroll_margin(), 5);
    assert_eq!(ignored_folders(), vec![".git".to_string(), ".venv".to_string(), "__pycache__".to_string()]);
    let c = Config::default();
    assert_eq!(c.double_click_duration, 500);
    assert_eq!(c.scroll_margin, 5);
    assert!(c.ignored_folder(".git"));
    assert!(c.ignored_folder("__pycache__"));
    assert!(!c.ignored_folder("src"));
    assert!(!c.ignored_folder(".gi"));
}

#[test]
fn config_from_parts() {
    let c = Config::from_parts(200, 2, vec!["target".to_string()]);
    assert_eq!(c.double_click_duration, 200);
    assert!(c.ignored_folder("target"));
    assert!(!c.ignored_folder(".git"));
    assert_eq!(c.ignored_list(), &vec!["target".to_string()]);
}

#[test]
fn config_file_changes_are_noticed() {
    let touched = WatchEvent { modifying: true, names: vec![None, Some("config.toml".to_string())] };
    let other = WatchEvent { modifying: true, names: vec![Some("other.toml".to_string())] };
    let read = WatchEvent { modifying: false, names: vec![Some("config.toml".to_string())] };
    assert!(config_touched(&vec![other, touched]));
    let other = WatchEvent { modifying: true, names: vec![Some("other.toml".to_string())] };
    assert!(!config_touched(&vec![other, read]));
    assert!(!config_touched(&vec![]));
}

#[test]
fn folder_new_and_hidden() {
    let f = Folder::new("./a/src".to_string(), None);
    assert_eq!(f.name, "src");
    assert_eq!(f.path, "./a/src");
    assert!(!f.open && !f.init && !f.peeked);
    assert!(f.child_files.is_empty() && f.child_folders.is_empty());
    assert!(!f.hidden());
    assert!(Folder::new("./.git".to_string(), None).hidden());
    assert!(Folder::new("./x/.venv".to_string(), None).hidden());
    assert!(Folder::new("__pycache__".to_string(), Some(FolderKey(3))).hidden());
}

#[test]
fn file_new_names_and_icons() {
    let f = File::new("./src/main.rs".to_string(), Some(FolderKey(5)));
    assert_eq!(f.name, "main.rs");
    assert_eq!(f.parent, Some(FolderKey(5)));
    assert!(f.buffer.is_none());
    let chars: Vec<char> = f.icon.text.chars().collect();
    assert_eq!(chars.len(), 2);
    assert_eq!(chars[1], ' ');
}

#[test]
fn icon_colors_are_parsed() {
    let d = Devicon::from_icon('x', "#ff8800");
    assert_eq!(d.text, "x ");
    assert_eq!(d.color, Some(Rgb { r: 255, g: 136, b: 0 }));
    assert_eq!(Devicon::from_icon('x', "#f80").color, Some(Rgb { r: 255, g: 136, b: 0 }));
    assert_eq!(Devicon::from_icon('x', "#ff8800ff").color, Some(Rgb { r: 255, g: 136, b: 0 }));
    assert_eq!(Devicon::from_icon('x', "ff8800").color, None);
    assert_eq!(Devicon::from_icon('x', "#zz8800").color, None);
}

#[test]
fn entries_sort_by_name_stably() {
    let files = vec![
        File::new("./b.txt".to_string(), None),
        File::new("./x/a.txt".to_string(), None),
        File::new("./c.txt".to_string(), None),
        File::new("./a.txt".to_string(), None),
    ];
    let sorted = sort_files(files);
    let paths: Vec<&str> = sorted.iter().map(|f| f.path.as_str()).collect();
    assert_eq!(paths, vec!["./x/a.txt", "./a.txt", "./b.txt", "./c.txt"]);
    let folders = vec![Folder::new("./zeta".to_string(), None), Folder::new("./Alpha".to_string(), None), Folder::new("./alpha".to_string(), None)];
    let names: Vec<String> = sort_folders(folders).into_iter().map(|f| f.name).collect();
    assert_eq!(names, vec!["Alpha", "alpha", "zeta"]);
    assert!(text_before("ab", "abc"));
    assert!(!text_before("abc", "ab"));
    assert!(!text_before("ab", "ab"));
    assert!(text_before("B", "a"));
}

fn loaded_tree() -> (Filesystem, FolderKey) {
    let (mut fs, task) = Filesystem::new();
    let root = match task {
        FsTask::LoadFolder { key, path } => {
            assert_eq!(path, ".");
            key
        }
        _ => panic!("the root is loaded first"),
    };
    assert_eq!(root, fs.root_key());
    let event = FSEvent::FolderLoaded {
        key: root,
        files: vec![File::new("./a.txt".to_string(), Some(root)), File::new("./b.txt".to_string(), Some(root))],
        folders: vec![Folder::new("./src".to_string(), Some(root))],
    };
    assert!(fs.accepts_event(&event));
    fs.handle_event(event);
    assert!(fs.open(root).is_none());
    (fs, root)
}

#[test]
fn filesystem_loads_and_views_the_root() {
    let (fs, root) = loaded_tree();
    assert!(fs.root().init);
    assert!(fs.root().open);
    let view = fs.view();
    assert_eq!(view.len(), 3);
    assert_eq!(view[0].1, 0);
    match view[0].0 {
        Item::Folder(k) => assert_eq!(fs.folder(k).name, "src"),
        Item::File(_) => panic!("folders come first"),
    }
    match view[1].0 {
        Item::File(k) => {
            assert_eq!(fs.file(k).name, "a.txt");
            assert_eq!(fs.file_parent(k), Some(root));
        }
        Item::Folder(_) => panic!("files come after folders"),
    }
    assert_eq!(fs.selected_index(), 0);
}

#[test]
fn filesystem_cursor_moves_within_the_view() {
    let (mut fs, _) = loaded_tree();
    fs.up();
    assert_eq!(fs.selected_index(), 0);
    fs.down();
    fs.down();
    fs.down();
    assert_eq!(fs.selected_index(), 2);
    fs.up_n(5);
    assert_eq!(fs.selected_index(), 0);
    fs.select_index(10);
    assert_eq!(fs.selected_index(), 2);
}

#[test]
fn opening_an_unloaded_folder_asks_for_it() {
    let (mut fs, _) = loaded_tree();
    let src = match fs.view()[0].0 {
        Item::Folder(k) => k,
        Item::File(_) => panic!("a folder"),
    };
    match fs.toggle(src) {
        Some(FsTask::LoadFolder { key, path }) => {
            assert_eq!(key, src);
            assert_eq!(path, "./src");
        }
        _ => panic!("the folder is loaded"),
    }
    // Once loaded, its files show under it.
    let event = FSEvent::FolderLoaded { key: src, files: vec![File::new("./src/lib.rs".to_string(), Some(src))], folders: vec![] };
    assert!(fs.accepts_event(&event));
    fs.handle_event(event);
    assert_eq!(fs.view().len(), 4);
    assert_eq!(fs.view()[1].1, 1);
    // Closing it recursively hides them again.
    fs.close_recurse(src);
    assert_eq!(fs.view().len(), 3);
}

#[test]
fn events_for_unknown_folders_are_refused() {
    let (fs, _) = loaded_tree();
    let event = FSEvent::FolderLoaded { key: FolderKey(12345), files: vec![], folders: vec![] };
    assert!(!fs.accepts_event(&event));
    let event = FSEvent::OrphanLoaded(File::new("./x.txt".to_string(), None));
    assert!(event.brings_text());
}

#[test]
fn filetree_keys_and_clicks() {
    let (mut fs, _) = loaded_tree();
    let config = Config::default();
    let mut tree = Filetree::new(0);
    let v = tree.visible(ted::geometry::Rect::new(0, 0, 20, 10), &fs, &config);
    assert_eq!((v.start, v.end, v.selected), (0, 3, 0));
    assert_eq!(tree.key(TreeKey::Down, &mut fs).0, true);
    assert_eq!(fs.selected_index(), 1);
    assert!(matches!(tree.key(TreeKey::Other, &mut fs), (false, None)));
    // A click selects the row; a second quick click on a folder toggles it.
    assert!(tree.click(0, 1000, &mut fs, &config).is_none());
    assert_eq!(fs.selected_index(), 0);
    match tree.click(0, 1100, &mut fs, &config) {
        Some(FsTask::LoadFolder { path, .. }) => assert_eq!(path, "./src"),
        _ => panic!("a double click opens the folder"),
    }
    // A slow second click does not.
    assert!(tree.click(0, 5000, &mut fs, &config).is_none());
    // Right on a file closes its folder recursively; the root is not in the view, so the
    // selection stays, and the view, which always lists the root's entries, keeps them.
    fs.select_index(2);
    tree.key(TreeKey::Right, &mut fs);
    assert_eq!(fs.selected_index(), 2);
    assert!(!fs.root().open);
    assert_eq!(fs.view().len(), 3);
    // Right on a closed folder closes its parent recursively, here the root: the selection stays.
    fs.select_index(0);
    tree.key(TreeKey::Right, &mut fs);
    assert_eq!(fs.selected_index(), 0);
}

#[test]
fn args_hold_a_path() {
    let a = Args { path: Some("src".to_string()) };
    assert_eq!(a.path.as_deref(), Some("src"));
}

#[test]
fn buffer_line_byte_ranges() {
    // Lines: "ab\r\n" (bytes 0..4), "c\u{e9}d\n" (4..9), "" (9..9).
    let buffer = Buffer::new("ab\r\nc\u{e9}d\n");
    assert!(buffer.tree.is_none());
    assert!(buffer.parser.is_none());
    assert_eq!(line_bytes(&buffer.rope, 0), 0..4);
    assert_eq!(line_bytes(&buffer.rope, 1), 4..9);
    assert_eq!(line_bytes(&buffer.rope, 2), 9..9);
    assert_eq!(lines_bytes(&buffer.rope, 0..1), 0..4);
    assert_eq!(lines_bytes(&buffer.rope, 1..2), 4..9);
    assert_eq!(lines_bytes(&buffer.rope, 1..10), 4..9);
    assert_eq!(line_range_bytes(&buffer.rope, 1, 1..2), 5..7);
    assert_eq!(line_range_bytes(&buffer.rope, 1, 0..4), 4..9);
    assert_eq!(line_total(&buffer.rope), 3);
    assert_eq!(line_chars(&buffer.rope, 0), 4);
    assert_eq!(line_chars(&buffer.rope, 1), 4);
    assert_eq!(line_chars(&buffer.rope, 2), 0);
}

#[test]
fn buffer_lone_carriage_return_ends_a_line() {
    let buffer = Buffer::new("a\rb");
    assert_eq!(line_bytes(&buffer.rope, 0), 0..2);
    assert_eq!(line_bytes(&buffer.rope, 1), 2..3);
    assert_eq!(lines_bytes(&buffer.rope, 2..3), 3..3);
}

#[test]
fn tree_walk_counts_collects_and_finds() {
    let (mut fs, root) = loaded_tree();
    let config = Config::default();
    let src = match fs.view()[0].0 {
        Item::Folder(k) => k,
        Item::File(_) => panic!("a folder"),
    };
    // The root shows its folder and its two files.
    assert_eq!(count_items(&fs, fs.folder(root), &config), 3);
    let mut items = Vec::new();
    let mut count = 0;
    collect_items(&fs, fs.folder(root), &config, &mut items, &mut count, 0, 0, 10);
    assert_eq!(count, 3);
    assert_eq!(items.len(), 3);
    assert_eq!(items[0], (Item::Folder(src), 0));
    // Skipping one row and taking one gives the first file.
    let mut items = Vec::new();
    let mut count = 0;
    collect_items(&fs, fs.folder(root), &config, &mut items, &mut count, 0, 1, 1);
    assert_eq!(items.len(), 1);
    match items[0] {
        (Item::File(k), 0) => assert_eq!(fs.file(k).name, "a.txt"),
        _ => panic!("a file at depth 0"),
    }
    assert_eq!(folder_index(&fs, &config, src), 0);
    // Once the folder is open with a file, it counts its own rows.
    fs.toggle(src);
    let event = FSEvent::FolderLoaded { key: src, files: vec![File::new("./src/lib.rs".to_string(), Some(src))], folders: vec![] };
    fs.handle_event(event);
    assert_eq!(count_items(&fs, fs.folder(root), &config), 4);
    assert_eq!(count_items(&fs, fs.folder(src), &config), 1);
    // A folder that is not in the tree is at row 0.
    assert_eq!(folder_index(&fs, &config, FolderKey(12345)), 0);
}

#[test]
fn peeking_an_orphan_loads_its_folder_which_takes_it_in() {
    let (mut fs, _) = loaded_tree();
    let src = match fs.view()[0].0 {
        Item::Folder(k) => k,
        Item::File(_) => panic!("a folder"),
    };
    // A file not in the tree yet is loaded on its own, as an orphan.
    match fs.peek_path("./src/lib.rs") {
        Some(FsTask::LoadOrphan { path, buffer }) => {
            assert_eq!(path, "./src/lib.rs");
            assert!(!buffer);
        }
        _ => panic!("the orphan is loaded"),
    }
    let mut orphan = File::new("./src/lib.rs".to_string(), None);
    orphan.buffer = Some(Buffer::new("fn main() {}"));
    let event = FSEvent::OrphanLoaded(orphan);
    assert!(fs.accepts_event(&event));
    fs.handle_event(event);
    let key = match fs.ensure_preview("./src/lib.rs") {
        (Some(key), None) => key,
        _ => panic!("the orphan is previewable"),
    };
    assert_eq!(fs.file_parent(key), None);
    // Peeking it starts loading the folder above it; peeking it again changes nothing.
    match fs.peek(Item::File(key)) {
        Some(FsTask::LoadFolder { key: k, path }) => {
            assert_eq!(k, src);
            assert_eq!(path, "./src");
        }
        _ => panic!("the parent folder is loaded"),
    }
    assert!(fs.peek(Item::File(key)).is_none());
    // Once loaded, the folder takes the orphan in, and shows it open under the peek.
    let event = FSEvent::FolderLoaded {
        key: src,
        files: vec![File::new("./src/lib.rs".to_string(), Some(src)), File::new("./src/main.rs".to_string(), Some(src))],
        folders: vec![],
    };
    assert!(fs.accepts_event(&event));
    fs.handle_event(event);
    assert_eq!(fs.file_parent(key), Some(src));
    assert_eq!(fs.view().len(), 5);
    assert_eq!(fs.view()[1], (Item::File(key), 1));
    assert!(fs.folder(src).peeked);
    assert!(fs.file(key).buffer.is_some());
}

#[test]
fn loading_a_loaded_folder_again_changes_nothing() {
    let (mut fs, root) = loaded_tree();
    let before: Vec<(Item, usize)> = fs.view().to_vec();
    let event = FSEvent::FolderLoaded {
        key: root,
        files: vec![File::new("./c.txt".to_string(), Some(root))],
        folders: vec![],
    };
    assert!(fs.accepts_event(&event));
    fs.handle_event(event);
    assert_eq!(fs.view().to_vec(), before);
    assert_eq!(fs.root().child_files.len(), 2);
}

#[test]
fn checked_line_chars_stop_past_the_last_line() {
    let buffer = Buffer::new("ab\r\nc\u{e9}d\n");
    assert_eq!(try_line_chars(&buffer.rope, 1), Some(4));
    assert_eq!(try_line_chars(&buffer.rope, 2), Some(0));
    assert_eq!(try_line_chars(&buffer.rope, 3), None);
}

#[test]
fn stored_parse_keeps_the_text() {
    let mut buffer = Buffer::new("fn main() {}");
    buffer.store_parse(tree_sitter::Parser::new(), None);
    assert!(buffer.tree.is_none());
    assert!(buffer.parser.is_some());
    assert_eq!(buffer.rope.to_string(), "fn main() {}");
    // A parser without a grammar gives no tree.
    buffer.parse();
    assert!(buffer.tree.is_none());
    assert!(buffer.parser.is_some());
    assert_eq!(buffer.rope.to_string(), "fn main() {}");
}
