# Conjure

A build tool and dependency manager for C and C++, with its decisions verified in
Verus.

Conjure compiles and links C and C++ projects from a `conjure.kdl` manifest, manages
their dependencies (local paths or git remotes), and puts what it builds into a
predictable layout. It drives the compilers and build tools that are there.

## Layout

- `src/` is the library. It decides: what a manifest means under a profile, what a
  fingerprint is made of, which objects are stale, which dependencies are fetched and
  built and in what order, which commands compile and link, and how a manifest is
  edited. Every function states what it returns, and the laws that relate several of
  them stand beside them as proof functions whose names begin with `law_`.
- `app/` is the program. It reads arguments and files, walks directories, runs
  processes, talks to git remotes and draws progress, and asks the library what to do
  next.
- `tests/` runs the library on concrete values.

What the library takes on trust is what it says of other crates and of `std`: KDL
documents (`src/document.rs`), terminal colours (`src/ui.rs`), paths (`src/paths.rs`),
content hashes (`src/fingerprint.rs`), `Debug` formatting (`src/text.rs`) and Unicode
case (`src/proj_parse.rs`). Each of those functions says in its doc comment what is
claimed of it.
