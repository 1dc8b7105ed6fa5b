# cdc_store

Stores large files in a Git object store in content-defined chunks, and reads
them back. Which files are stored so is decided by a `.jjattributes` file at the
root of the workspace, in the syntax of `.gitattributes`: a path that it assigns
`storage=cdc` is.

A file in chunks is a Git tree. Its first entry, `.cdc`, points at an empty blob
and marks the tree; after it come the chunks, named `00000000`, `00000001` and so
on.

- `src/` is the library, verified with Verus. It decides and does no I/O: it says
  which object or file to read or write next and takes the outcome.
  - `attributes`, `repo_path`: which paths are opted in.
  - `attribute_lines`: which lines of the attributes file count, and what they hold.
  - `workspace`: the current workspace and loading its attributes.
  - `chunker`, `chunk_name`: where files are cut and what the chunks are called.
  - `cdc_write`, `cdc_read`: storing and reading a file, step by step.
  - `tree`, `backend`, `bytes`: Git trees, ids, errors, byte strings.
  - `laws`: what storing and reading amount to together, for any object store.
- `app/` runs the steps against a repository on disk.
- `tests/` runs them against objects in memory.

`kstring` is named in `Cargo.toml` only to keep it at a version that the compiler
in use can build.
