# lrust

Small command-line utilities (`cat`, `echo`, `pwd`, `tree`, `watch`) and
database demos (SQLite through `rusqlite` and `sqlx`, RocksDB).

- `src/` is the verified library. For each utility it holds what decides the
  output: option parsing, the rendering of `cat` lines, backslash escapes,
  Unix-style paths, the order and drawing of `tree` listings, the cleaning of
  command output and the screen updates of `watch`. Every function there has
  a contract proved by Verus, and the proof functions state the properties
  the utilities keep (for instance that splitting output into lines and
  joining them again gives the output back, or that the listing order of a
  directory is unique).
- `app/` is the program around it: reading files and directories, running
  commands, the clock, the terminal, and the database demos.
- `tests/` runs the library on concrete inputs.
