# sidex_workspace

The decisions behind a workspace backend's file operations and folder
groups, verified with Verus. Paths follow Unix rules; `app/` targets Unix.

- `src/paths.rs` — Unix path text: components, final names, joining, whole-component prefixes.
- `src/names.rs` — decimal numbers, cleaned group names, default group names, candidate paths for a free name.
- `src/entries.rs` — directory entries and file metadata, the listing order, binary detection.
- `src/ops.rs` — which removal or directory creation a request calls for.
- `src/plan.rs` — the step-by-step plan that links folders into a directory.
- `src/group.rs` — the plan that creates a folder group under the home directory.
- `src/outside.rs`, `src/text.rs` — calls into `dunce`, `dirs` and `String::push`.
- `app/` — performs the filesystem operations that the plans ask for.
