# dir_browser

Lists the folders and files of a directory, and decides what a
directory-browser window shows and how it answers the user: a sidebar of the
home directory's folders, a tree of the chosen folder with expandable
subfolders, tabs that show only folders or only files, and a
case-insensitive search below "/". The window itself is not part of this
crate: `app/gui.rs` drives any implementation of its `Window` trait.

- `src/` is the verified library: listing order and selection
  (`listing`), text helpers (`text`), the tree and search (`tree`), the
  browser state and its answers to the user's events (`browser`), and the
  command line's decisions (`args`).
- `app/` is the program around it: command-line parsing, reading
  directories, printing, and the glue that feeds the browser's events to
  the library and shows its results.
- `tests/` runs the library on concrete inputs.
