# ted

The core of `ted`, a terminal text editor, as a Verus library: the file tree, the pane and
drawer layouts, the matchers' state and the finder, each with its contract proved.

- `src/` is the verified library. Calls into outside crates (`slotmap`, `ropey`,
  `tree-sitter`, `ratatui`'s layout solver, `nucleo`, `devicons`, `hex_color`) go through
  small trusted wrappers whose doc comments say what they claim of the outside code.
- `app/` is the terminal program around it: argument parsing, the event loop, drawing with
  `ratatui`, reading and watching the configuration, loading folders and files, and the
  matching engines running in the background.
- `tests/` runs the library on concrete values.

The laws of the library are public proof functions, named `lemma_*`. Among them:

- closing a pane undoes its split, and leaves a pane focused while panes remain;
- toggling a drawer twice restores the layout, and the overlay and the floating widget never
  show together;
- sorting entries orders them by name, keeps them all, and keeps same-named ones in order;
- the pieces of a highlighted result follow one another over the whole text, highlighted
  exactly at the matched positions;
- scrolling keeps the cursor, and the selected result, in view;
- the file tree collects exactly a window of the rows it shows, counts them all, and finds a
  folder at its own row;
- typing a character into the finder's filter and then backspace gives the filter back.

The layout solver may settle conflicting constraints either way, so the layouts are stated
over the segments it gave: each has one segment per constraint, spanning the area across the
split and lying within it along the split; whatever it gives, every part of the drawers
lies within their area.
