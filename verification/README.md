# riff

The core of Riff, a desktop git client, as a Verus-verified library, with the
desktop shell around it.

- `src/` — the verified library. `git::cli` parses git's machine output
  (status, log, refs, name-status, ls-files, ls-tree, stash, hunks, batch
  headers) and decides what a file diff shows; `git::view` runs the per-file
  diff views as step machines (what to read next, or the view to show);
  `git::args` builds every git command line; `git::diff` turns a line diff
  into UTF-16 change ranges; `git::blame` parses `git blame --porcelain`;
  `git::uasset` holds the Unreal-asset property view; `paths` the repository-path check and watched-root keys; `store` the
  persisted settings; `watch` the filesystem-event filter, debouncer and watch set;
  `text` the string and byte helpers the rest is built on.
- `app/` — the shell: spawning git, the `cat-file` session, file and
  directory access, UAssetGUI runs, the watcher threads, the JSON shapes the
  frontend exchanges, and the commands it calls.
- `tests/` — tests of the library on concrete values.
