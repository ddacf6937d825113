# hunkr

hunkr shows what changed in a git working tree, file by file and chunk by chunk,
in the terminal. Chunks are marked reviewed as you go; a chunk that changes again is
unreviewed again. A diff can also be piped in and read like in a pager.

The logic is a library written in Verus: every function states what it computes, and
Verus proves that it does. The program around it reads the terminal, runs git, draws
frames and keeps files.

## Layout

| Path            | What it holds                                                   |
|-----------------|-----------------------------------------------------------------|
| `src/model/`    | changed files, parsed diffs, review status, the folder tree     |
| `src/git/`      | the arguments for git, and parsers for what it answers          |
| `src/config/`   | actions, chords, the key map, hide rules, loading and editing    |
| `src/app/`      | the application state, its operations, and laws about them      |
| `src/ui/`       | panels and overlays as plain lines                              |
| `src/highlight/`| syntax detection, token spans, terminal colours, themes         |
| `src/render/`   | inert text, the visible window, styles                          |
| `src/*.rs`      | text and paths, the diff cache, stores, references, the watcher |
| `tests/`        | tests of the library                                            |
| `app/`          | the program                                                     |

`App` (in `src/app/`) never touches the outside world. What it needs from there it
asks for with an `Effect`, which the program carries out before the next event.

Calls into other crates stand behind functions marked `external_body`; the comment
above each says what is taken on trust. They are in `text.rs`, `cache.rs`,
`git/diff.rs`, `config/hide_rules.rs`, `config/edit.rs`, `highlight/syntax.rs`,
`highlight/themes.rs` and `ui/canvas.rs`.
