# rustup component installation, verified

The library (`src/`) holds the logic of installing toolchain components:

- `path`: paths as a root flag and a list of normal components; parsing (by
  the POSIX rules: `/` separates, a leading `/` makes a path absolute),
  joining, parent and file name.
- `dist::prefix`: installation prefixes, their manifest files, and A/B
  addressing of installation objects (a new installation goes to the partition
  that the reference does not point into).
- `dist::component::obj`: object identifiers (13-letter base-32 numerals of a
  64-bit hash) and, in `obj::lock`, lock files named by xxHash32.
- `dist::component::lock`: lock files named by the FNV-1a hash of an object
  identifier.
- `dist::component::transaction`: transactions. A transaction decides which
  file-system actions to take; its caller carries them out and reports what it
  found where a decision depends on it. Staging actions name only paths within
  the staging directory, as written: `..` is kept as a plain component and not
  resolved, so on a disk a relative path that contains `..` can reach outside
  the staging directory, as it can in rustup itself. Committing moves the
  staged object and reference into place; abandoning removes them.
- `fs_model`: an in-memory file tree and the meaning of each file-system action
  on it, against which the transaction laws are proved and the tests run.
- `install`: the decisions of installing a toolchain.

`app/` carries the actions out on disk, holds the locks on lock files, and hands
out temporary paths.

Platform: paths are modelled by the Unix (POSIX) rules only. On Windows,
`std::path` also separates at `\` and knows drive prefixes such as `C:\`; the
library does not model those, so it describes the Unix behaviour of the
installer.
