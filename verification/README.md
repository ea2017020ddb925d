# league_mod_manager

A mod manager for League of Legends: it validates mod packages, keeps a
library and profiles (which mods are on, in which load order), plans patches
and reports conflicting assets, builds patched copies of the game's WAD
archives, and decides what the injected hook redirects the game's file opens
to. The live installation is never modified.

The library in `src/` is written in Verus, and Verus proves the contracts of
its functions. The exceptions are the trusted wrappers around outside calls:
those in `codec` (flate2, zstd, xxhash-rust, sha2) and three over std
(`path_join` in `storage`, `to_lowercase` in `policy`, `push_char` in `text`).
Their contracts state what the outside code's source and documentation show,
and Verus takes them as given.

| module | what it holds |
| --- | --- |
| `manifest` | the package manifest model, validation, package kinds, legacy Fantome names |
| `profile` | profiles, enabling and ordering mods; laws on load order |
| `patch_plan` | the plan of operations and the conflicts between enabled mods |
| `policy` | the risk assessment of a manifest |
| `storage` | library items, data-folder layout, persisted state, import refusal |
| `patcher` | dry-run reports, staging decisions, redirection keys, archive lookup |
| `wad` | the project's own archive format: writer, reader, read-back law |
| `xxhash64` | XXH64, proved against its specification |
| `league_wad` | reading and patching real WAD v3 archives |
| `patched_layout` | what a patched-or-extended archive looks like when read back |
| `hook` | the hook's redirection table and path matching |
| `injector` | process lookup and the injection steps |
| `league` | where installations may be |
| `desktop` | the desktop commands' decisions and first-run sample data |
| `codec` | the trusted calls into flate2, zstd, xxhash-rust and sha2 |
| `text`, `le` | character and little-endian helpers |

`app/` is the command line and the file and archive work around the library:
it reads the clock and draws random ids and hands them in, and it runs the
injection steps that `injector` decides through a platform interface, which
`app/injector.rs` implements with the Win32 API (on other platforms it reports
that injection needs Windows). The hook DLL's entry points are not part of
this build. `tests/` exercises the library on concrete values.
