# herdr-preview

A Herdr plugin that hint-picks file paths in the focused pane: `prefix+/`
paints a letter over every file or directory path on screen, and one letter
opens it — in herdr-file-viewer when that plugin is installed, in a `less`
overlay otherwise; a directory opens a browse overlay.

The library (`src/`) is written in Verus and verified:

| module      | what it holds |
|-------------|---------------|
| `tokenize`  | path and URL candidates in pane text, with their byte offsets |
| `classify`  | what a candidate names (file, directory, URL, missing), given what the filesystem says; worktree fallbacks |
| `hint`      | hint keys, entries, the tab-separated list handed to the overlay and read back, routing a pick |
| `overlay`   | the hint overlay's frame and keys |
| `browse`    | the browse overlay: listing order, navigation, input decoding, its frame |
| `open`      | open specs, the file viewer's root and target, herdr command arguments |
| `herdr_ipc` | the focused pane as herdr's JSON replies describe it |
| `json`      | JSON documents as values, read through `serde_json` |
| `cli`       | subcommands, `hint` flags, what a run prints |
| `paths`, `text` | path components and character helpers |

`app/` is the program around it: herdr's command line, the filesystem, the
terminal. `tests/` exercises the library.
