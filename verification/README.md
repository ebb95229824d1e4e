# dir-search

Searching directories for files by name or by contents, with every
function of the library proved against its contract.

- `src/text.rs`: character-level string operations (substring search,
  ASCII lower-casing, `{search}` replacement, UTF-8 byte offsets) with their
  specifications.
- `src/utils.rs`: the search configuration and the per-search-string data.
- `src/search.rs`: name search, contents search, file filters, splitting the
  entries into one chunk per core, and the laws that tie them together (a
  search split into chunks finds what a serial search finds; a narrowed name
  search can reuse earlier results; contents search ignores ASCII case).
- `src/config_file.rs`: the `key=value` configuration file of the
  command-line program and its `-c` argument.
- `app/`: the command-line program and the directory and file reading,
  including the threads of a contents search.
- `tests/`: tests of the library on in-memory entries.
