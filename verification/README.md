# tc_manager

A save manager and circuit toolkit for the game *Turing Complete*, with its
core proved correct by Verus.

- `src/` is the verified library: the circuit file codec (current and legacy
  formats) with its round-trip proof, pin layout and wiring resolution, the
  simulation source generator and `test.si` parser, `levels.txt` editing,
  backup archive naming and listing, the character library rules, level
  titles, settings, and the byte layout of the compile hook.
- `app/` is the command-line front end: file system, zip archives, settings
  on disk, Steam and process queries.
- `tests/` exercises the library on concrete values.
