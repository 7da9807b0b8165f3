# old_app_detector

Finds the applications and executables of a Mac that have no Apple Silicon
(arm64) code and so depend on Rosetta 2, by reading the Mach-O header of each
binary (thin or universal) instead of calling `file` or `lipo`.

Layout:

- `src/` — the library, with its contracts and proofs:
  - `macho.rs` — decoding of Mach-O headers and classification of binaries
    (native, Intel-only, obsolete), with laws on what a header reads back as;
  - `scan.rs` — the data of a scan and its decisions: the sources to visit
    for the chosen options, deduplication by real path, counting of scripts
    and unreadable files, ordering of the report, walk and bundle-layout
    decisions, host description;
  - `report.rs` — the CSV and plain-text exports, in the language of the
    locale, with aligned summary columns;
  - `locale.rs` — report labels in English and French;
  - `text.rs` — character-level string helpers.
- `tests/` — tests of the library.
- `app/` — the Tauri application: commands, disk walk, processes, dialogs,
  and the decoding of Info.plist files into the library's `InfoPlist`.
