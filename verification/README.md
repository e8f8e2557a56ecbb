# libproiectio

Projects a computed tree of files onto a directory someone else owns, records
what it wrote in a manifest, and refuses to touch what it did not write.

- `src/` is the library, verified with Verus: the region rules of a block
  entry, the lexical containment gateway and symlink-chain resolution, the
  classification of every path and the rules that decide one path's action
  (desired, orphaned, in a directory's way, a symlink's target), the
  whole-plan check, the manifest bookkeeping and outcome of every action an
  apply carries out, the walk to an action's parent, the decoding of a tar's
  compression against the load's budget, the reading of tar and zip
  containers member by member under the expansion's rules, the checks a
  mapping passes, and the text every refusal prints. Calls into `sha2`,
  `camino`, `flate2`, `zstd`, `tar` and `zip` stand behind small trusted
  wrappers, each documented where it is declared.
- `app/` is the host side: reading and writing the manifest file, the state
  lock, reading archive files, mapping files and named files, and running a
  plan against the destination through no-follow directory handles, with the
  order, the re-checks, every refusal and every recorded outcome taken from
  the library.
- `tests/` exercises the library from outside.
