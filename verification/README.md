# gd

A side-by-side git diff viewer for the terminal, driven by Neovim keys.
The library holds everything the viewer decides, with Verus contracts and
proofs; a thin program around it runs git, reads keys and draws frames.

## Layout

- `src/` -- the verified library.
  - `text.rs`: character and byte helpers, decimal numbers, UTF-8 slicing.
  - `sort.rs`: sorting pairs of integers in tuple order.
  - `diff.rs`: two texts turned into aligned rows, word-level emphasis,
    hunks, and the unified layout.
  - `git.rs`: revision specs, `--name-status` parsing, binary detection,
    which object each side of a file is read from.
  - `tree.rs`: the neo-tree style file tree and its folding.
  - `keys.rs`: nvim notation and the multi-key sequence resolver.
  - `picker.rs`: the telescope style fuzzy picker.
  - `search.rs`: grep hits, ripgrep output and the in-memory scan.
  - `cli.rs`: the command line, including the commit-count shorthand.
  - `ui.rs`, `paint.rs`: what each line of the screen shows -- search
    highlights, cut points, tab expansion and clipping, rows of the diff
    and the tree, the status line, picker entries and the help screen.
  - `app.rs`: the state of the viewer and what every key and action does.
    Work that needs the outside world comes back as an `Effect`; its
    result is handed to `loaded`, `reloaded`, `grep_done` or `resume`.
- `app/` -- the program: argument handling, running `git` and `rg`, the
  clipboard, the event loop, and drawing with ratatui.
- `tests/` -- tests of the library on concrete values.

## Usage

```
gd                    HEAD against the working tree
gd --staged           HEAD against the index
gd 3                  the last 3 commits, as one diff
gd 2..4               the second, third and fourth commits back
gd v1.0..v2.0         two revisions
```

Press `?` inside gd for every binding.
