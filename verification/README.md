# ovba

An Office VBA project parser, verified with [Verus](https://github.com/verus-lang/verus).

A VBA project (for instance a `vbaProject.bin`) is a compound file with a *dir* stream that
describes the project and a stream for each module. The library opens a project, reads the
descriptions of its references and modules, reads the source code of modules, replaces it, and
gives the bytes of the changed project.

* `src/` is the library. Every function in it has a contract that Verus checks, except for the
  small functions that call `cfb`, `codepage`, `encoding_rs` and, once, the standard library; their
  contracts are believed.
* `tests/` runs the library on concrete values.
* `app/` adds what needs a file system.

What is proved, beyond the absence of panics:

* Every parser of the *dir* stream reads exactly what the grammar functions describe, and rejects
  everything else with the described error.
* What is read from a *dir* stream does not depend on the contents that are dropped, such as the
  copies of texts in UTF-16.
* The decompressor and the compressor compute the described functions. Decompressing what was
  compressed gives it back.
* When setting the source code of a module succeeds, the module's stream holds what stood in front
  of the source code, and the new source code; the bytes that it is written with are read back. The
  text is read back where the code page has all its characters, and is UTF-8 or writes each
  character with one byte; in other code pages, where it is ASCII.
* Where the directory of the compound file is in order, it succeeds if the module's stream can be
  read and the source code, compressed, is neither empty nor too large for a chunk.
* Where the compound file is sound, all streams at other places stay as they are, and the bytes that
  the project is saved to hold what the project held. The *dir* stream describes the project as
  before, unless the module whose source code was set is held by the *dir* stream itself.

Some inputs have no answer: a chunk that is cut off, a copy token behind too many bytes of a chunk,
text in an unknown code page, source code with characters that the code page lacks. Functions with the prefix `try_` take any input and return `None`
there; those without it ask for other inputs.

A compound file is sound if every stream has sectors of its own, which `layout::has_apart_layout`
tests on its bytes, and if its directory is in order, which `Project::has_ordered_directory` tests.
In other files, `Project::try_set_module_source` replaces a module's stream, too, as long as it does
not share sectors with the directory or the tables of the file; but what other streams hold is not
known then. A project keeps track of what is known of its file.
