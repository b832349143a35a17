# rgit

The logic of a web front end for git repositories, verified with Verus: what a
path leads to, how files and differences are highlighted and escaped, how
commits, tags and times are shown, how archives are put together, and where
requests lead.

- `src/` is the library. Every function in it states what it returns, and Verus
  proves it. What is taken on trust from other crates is marked where it stands.
- `tests/` runs the library on concrete values.
- `app/` is ordinary Rust around it: repositories on disk, caches, HTTP handlers.

Paths are those of Unix systems: their parts are separated by `/`.
