# mygit

A minimal Git: content-addressed objects, an index of staged files,
branches, checkout, three-way merge, log and status.  The library under
`src/` holds the file formats and every decision the commands make, with
contracts proved by Verus; `app/` is the command-line program that reads and
writes the repository's files and calls the library.

- `index`, `index_text`: the staging area as a map from paths to object ids,
  kept sorted by path, and its text format (one `path id` line per entry).
  It is a sorted vector rather than a `HashMap<String, String>`: vstd's
  specification of `HashMap` proves nothing useful for `String` keys, and the
  sorted form gives, with proof, the path order in which files are written.
  Sets of paths are likewise sorted vectors (`merge::union_sorted`).
- `objects`: object ids (hexadecimal SHA-1 of the content).
- `commit`: the commit format (`tree`, `parent`, `parent1`, `message` lines),
  reading it back, and what a commit writes.
- `refs`: HEAD and branch files, branch creation, deletion and checkout
  decisions.
- `merge`: the merge base search, the kind of merge, and the three-way merge
  of trees.
- `stage`: adding and unstaging files.
- `status`: staged and unstaged changes, paths that checkout removes.
- `text`, `order`: the character-level helpers (`trim`, `lines`,
  `split_whitespace`, ordering of strings) the formats rest on.

Unstaging a directory takes the platform's path separator as an argument
(the program passes `std::path::MAIN_SEPARATOR`).  The final component of
the branch path in HEAD is taken with Unix conventions (`/` separates
components).
