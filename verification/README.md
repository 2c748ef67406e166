# quay

The core of Quay, a package manager for the JavaScript ecosystem, written in
Verus: the functions in `src/` carry contracts that Verus proves, except
for a few small wrappers around outside crates, whose contracts are trusted.

- `src/` — the verified library: package names and ids, the `package.json`
  model, the registry's metadata model, the breadth-first walk that gathers
  packuments (`fetch`), the backtracking version solver (`solver`,
  `resolver`), the lockfile model (`lock`) and the store's integrity checks
  and content addresses, and the plan for unpacking a tarball (`store`).
  Calls into `semver`, `sha2`, `base64`, and `flate2` with `tar` (reading a
  tarball's members) go through small trusted wrappers whose contracts say
  what those crates do.
- `tests/` — tests of the library, including whole resolutions against an
  in-memory registry.
- `app/` — the `quay` command: argument parsing, file and network I/O, JSON
  (de)serialisation, and writing the unpacked files the library plans.
