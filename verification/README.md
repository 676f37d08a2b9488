# zengyaku

Reading the ROM databases embedded in unpacked GoodTools executables,
verified with Verus.

- `src/` is the verified library. `search` finds the offsets of a database's
  tables from a known first entry; `dump_new` and `dump_old` dump new-style
  (three tables) and old-style (entry strings) databases from an executable
  image held in memory; `report` and `xml` render the entries as
  tab-separated text or as a Logiqx XML datafile; `hexparse` reads the
  hexadecimal command-line values; `roundtrip` proves that the offsets the search
  reports lead the dump back to the entry that was searched for, that
  hexadecimal CRC32 and SHA1 text read and printed again comes back
  (lowercased), and that an entry string written in the old-style format
  parses back to its entry.
- `app/` holds the command-line tools: run as `zg-find` the executable
  searches, otherwise it dumps (`zg-dump`); install it under both names (a copy
  or a link named `zg-find`) to have the two commands. It reads the executable into
  memory, parses arguments and prints.
- `tests/` runs the library on small synthetic images.
