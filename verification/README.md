# formatelf

Modify the dynamic linker, run path and other dynamic metadata of ELF executables
and shared libraries. The command line is that of patchelf, and a second command,
`auto-formatelf`, wires up the run paths of whole directory trees.

The library under `src/` is written in Verus: what each function returns or changes
is stated in its contract and proved, down to the texts of its errors. A malformed
file is refused with an error, and no function of it panics.

## Layout

- `ir`, `raw`, `codec`, `parser`, `serialize`: the model of an ELF file, its fixed-size
  records, and reading and writing a whole file.
- `ops`, `rpath`, `symbols`, `buckets`, `ldcache`: the edits.
- `layout`, `constraints`: where sections that grew go, and what must hold of the
  result.
- `cli`, `lex`, `patch`: the command line, and one run of it over a file's bytes.
- `autoformatelf`, `wiring`, `dlopen`, `glob`: resolving the dependencies of many
  files.
- `facts`: what the edits ask of the file system, as plain values.
- `bytes`, `seqs`, `text`, `paths`, `error`: what the others are built from.
- `roundtrip`, `probes`, `laws`: what holds of the library as a whole. Reading and
  writing undo each other; whatever is written can be read; a file that was edited
  says what it was told; edits repeat and undo each other and leave the rest alone; a
  relayout keeps everything apart and loadable; a renamed symbol is found through
  both hash tables; a stripped file still says what it said.

`app/` holds the program around it: arguments, files, threads. It looks up the facts
that the library asks for and writes what the library returns.

## What is trusted

Contracts that are taken on trust stand in `raw` (the records of `object`), `lex`
(the argument lexer `lexopt`), `text` and `paths` (a few functions of the standard
library). Each says in its comment what it claims.
