# faint_light

A plate-solving server for astrophotography: it answers the
nova.astrometry.net API that NINA and other capture programs speak, and a
small API of its own, from astrometry.net index files on the local disk.

## Layout

- `src/` — the verified library (Verus). Every function in it carries a
  contract, and Verus proves it of every function but the small trusted
  wrappers round outside calls, whose contracts it takes as given:
  `sha1_bytes` (SHA-1 of the `sha1_smol` crate), `native_one` (the host's
  byte order), `clock_now` (the system clock), `share` (`Arc::clone`),
  `byte_len` (`Vec::len`),
  `copy_path` (`PathBuf::clone`), `file_stem` (`Path::file_stem`), and in
  `text` the string conversions `string_of`, `str_from_utf8`,
  `string_from_utf8_lossy` and `quoted`. Each says in its doc comment what
  its contract claims of the outside function.
  - `fits` — FITS headers and HDUs: parsing, card images, headers written
    from cards (and proofs that the reader gives them back), and rewriting
    the header of an existing file.
  - `index` — the layout of astrometry.net index files: kd-tree arrays,
    packed element types, byte order, and the quads table.
  - `solve` — parity requests, the WCS keywords a solution replaces, and the
    member combinations the quad search walks.
  - `sky` — the civil calendar (days to dates and back) and UTC text.
  - `server` — the job store and its artifact cache, the log buffer, form
    fields, the nova request format, download names, the web page and its
    assets, SHA-1 text.
  - `text` — the string helpers the rest is written with.
- `app/` — the program around the library: the HTTP handlers, the solve
  engine and star extraction (floating point), index memory-mapping, the
  sky chart, the development commands, and the optional desktop window.
- `tests/` — tests of the library.

Run the server with `FAINT_LIGHT_INDEX_DIR` pointing at a directory of
index files; `faint_light solve|extract|index-dump` are the development
commands.
