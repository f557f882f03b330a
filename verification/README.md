# lazycsv

A fast terminal CSV viewer. It opens files of any size at once, indexes them in
the background, and shows them next to a file explorer.

- `src/` is the engine, verified with Verus: record scanning and the sparse
  index, field decoding, search, the explorer, the state machine behind every
  key and click, and the drawing of every frame. Whatever the engine does is
  stated in the contracts of its functions, over mathematical models of files
  (`Seq<u8>`), texts, grids and program states.
- `app/` is the program around it: the terminal, files and directories,
  threads.
- `tests/` runs the engine on concrete files.

What the engine needs from outside it asks for: `App::handle` returns an
`Action` (read these directories, open this file, look for this text), and the
program hands the outcome back. Full passes over a file are driven from outside
too, one window at a time, by `index::Indexer` and `search::Searcher`.
