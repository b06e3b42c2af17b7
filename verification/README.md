# CodeForge core

The part of CodeForge that decides: what a commit message template says, how a
file stands between disk and GitHub, which path a request for a file leads to,
and which requests push a project. All of it is verified with Verus.

## Layout

- `src/commit_template.rs`: templates, their issues, and rendering.
- `src/comments.rs`, `src/sync_engine.rs`, `src/path_map.rs`: removing comments,
  evening out white space, and the sync report of a project.
- `src/blob_sha.rs`, `src/blob_content.rs`: git blob SHAs and blob contents.
- `src/fs_path.rs`, `src/fs_sandbox.rs`: paths as the components that the platform
  finds in them, and the sandbox as a state machine over calls on the file system.
- `src/github_api.rs`, `src/upload.rs`: requests to the GitHub API, and pushes as
  state machines over these requests.
- `src/*_laws.rs`: what holds of whole templates, texts, comparisons, operations
  and pushes.
- `src/text.rs`: characters, strings and decimal numbers.
- `app/`: the I/O: the file system, the clock, and HTTP.
- `tests/`: tests of the library on concrete values.

## What is taken on trust

The library calls `sha1`, `base64` and `chrono`, and some functions of the
standard library on characters and strings. Each such function is declared with
a contract and a comment that says what is claimed of it.
