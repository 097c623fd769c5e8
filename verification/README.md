# gg

A git client's logic as a verified library, checked with Verus: the history laid out in
lanes, the names each commit carries, the changed files as a tree, diffs tagged line by
line and handed to syntect for colour, how dates read, the generated avatar of each
author, the configuration and the state file's lists, the searches for repositories and
icons, and the commands handed to git.

- `src/` is the library. Contracts state what the functions return over spec functions;
  where a result comes from an outside crate (syntect's colours, image's scaling, SHA-256)
  it is named rather than stated, and the contract says what the library does with it.
  Laws that relate several functions stand as public proof functions beside them.
- `tests/` runs the library on concrete values.
- `app/` is the program around it: reading the files and the environment variables, asking gix for
  what a repository holds, running git, fetching avatars, and asking the desktop portal
  for its appearance. It prints what the window would show; there is no GUI.

Outside crates stand behind small trusted items whose contracts say what their
documentation promises: `sha2` for the avatar fingerprint, `syntect` and `two-face` for
highlighting, `image` for the fetched portrait, and a few of std's text conversions.
