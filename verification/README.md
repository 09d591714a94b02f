# swifty_artifacts

Byte-perfect Swifty `repo.json` / `mod.srf` models and checksum rules, verified
with Verus.

Layout:

- `src/` — the verified library.
  - `model` — the `repo.json` and `mod.srf` models and `Md5Digest`.
  - `checksum` — part, file, mod and repo checksums; part coverage checks.
  - `path` — path rules (ASCII only, `mod.srf` separators, sort keys, file name
    and extension as `std::path::Path` reads them).
  - `pbo` — strict PBO header parsing and the Swifty partition of a `.pbo`.
  - `scan` — Swifty metadata of one file from its bytes, in every signature mode.
  - `streaming` — part validator and part scanner for files read chunk by chunk.
  - `builder` — `RepoBuilder`, from `mod.srf` models to `repo.json`.
  - `assemble` — the rules of regenerating a repository folder.
  - `io` — BOM handling, image checksums, port text.
  - `sort`, `text`, `ticks` — byte order and stable sorting, string helpers,
    .NET ticks.
  - `primitives` — the contracts of the outside hashing and hex routines.
- `app/` — the `swifty-assemble` program: command line, file system, JSON.
- `tests/` — tests of the library.
