# envsync

Keeps `.env` files in sync across git worktrees: the main worktree's files
are copied into linked worktrees that lack them, merged into those that only
miss keys, and conflicts are reported where a key has different values.

## Layout

- `src/` is the verified library (Verus):
  - `text.rs`: characters and lines — whitespace, trimming, splitting a text
    into lines as `str::lines` does, joining lines, code point order;
  - `envfile.rs`: parsing a `.env` file, its key/value map, the sorted list
    of differences between two files, merging one file into another, and
    putting per-worktree values into a file's text;
  - `laws.rs`: what holds across those operations — a merged file reads
    back with main's keys, the linked-only keys and the linked values
    winning; after a merge nothing of main is missing; the list of
    differences is unique; per-worktree values read back as given;
  - `sync.rs`: showing differences, deciding what a sync does to a target,
    conflict resolution strategies, where `.env` files are looked for, and
    whether anything is out of sync;
  - `worktree.rs`: reading git's answers about the main and the listed
    worktrees;
  - `config.rs`: the `.envsync.toml` configuration, its ignore patterns,
    and each worktree's override values (different worktrees get different
    values);
  - `hook.rs`: the `post-checkout` hook and the `init` configuration text;
  - `paths.rs`: path operations, and the order in which found files are
    taken;
  - `error.rs`: the library's errors.
- `app/` is the command-line program: argument parsing, git processes,
  reading and writing files, printing.
- `tests/` runs the library on concrete inputs.
