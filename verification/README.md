# elfcaps

Static audit of Linux binaries: which privacy-sensitive X11, input and
screen-capture APIs they can reach, and which bundled library brings each one in.
The library is written in Verus; its contracts are proved.

```
elfcaps scan <dir-or-binary> [--json] [--root <dir>] [--db <file>]
elfcaps diff <old> <new> [--json] [--db <file>]
elfcaps caps [--db <file>]
```

`scan` exits 0, `diff` exits 1 when there are changes, and usage and I/O errors
exit 2.

## Layout

`src/` is the library. It opens no file: where a path has to be opened or a
directory listed, it says which one and takes the answer.

| Modules | What they do |
|---|---|
| `elf`, `elf_model` | parse ELF32 and ELF64 in both byte orders; what the bytes of a file say |
| `capdb`, `builtin` | the capability database: symbols and strings, and what they mean |
| `analysis` | the evidence in one object: imports, and names next to `dlopen` |
| `loader`, `walk` | ld.so's search for `DT_NEEDED` names inside a root; the files of a tree |
| `scan` | simulations from every executable and unlinked library, and the report |
| `diff`, `output` | two reports compared; text and JSON |
| `options` | the command line |
| `text`, `paths`, `order`, `sort`, `textmap` | strings, paths, orders and maps that the others use |

The modules whose names end in `_laws` hold what is proved of several functions
together: that a written file is read back and that bytes appended to it change
nothing, that simulations end and load each object once and breadth-first, how
`RPATH` and `RUNPATH` are inherited, that only undefined symbols count, that
findings are credited to the object that holds the evidence, that a comparison
reports exactly what came and went, that the built-in database parses, that comment
and blank lines mean nothing in a database, that a report in JSON is one object on
one line and that two reports with the same JSON are the same report.

What is taken on trust is in `src/text.rs`: `String::push` and
`String::from_utf8_lossy` of the standard library.

`app/` is the program around the library: arguments, files, directories, output.
`tests/` runs the library on single values and on whole bundles that an ELF writer
builds byte by byte.
