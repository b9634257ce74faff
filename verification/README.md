# fix_cs_indent

An editor hook that restores the indentation of blank lines in C# files. The
library that decides what a file becomes carries Verus contracts and proofs.

- `src/` is the verified library.
  - `lines`: cutting a buffer into lines, whitespace runs.
  - `syntax`: the syntax tree as a table of plain values, and node kinds.
  - `csharp`: parsing with tree-sitter, reading its nodes (named as a
    function of the source) into the table, and finding the anchors.
  - `danger`: the byte ranges where blank lines stay as they are (strings,
    comments, syntax errors), and lookups in them.
  - `fix`: the indentation rules, as spec functions and as code proved to
    follow them.
  - `hook`: what the hook does with a file's bytes and with its JSON input.
  - `laws`: what holds of every repair (only blank lines outside danger
    zones change, lines and line endings are kept, a change changes bytes,
    an error in the structural scope of a line is always reported).
  - `trusted`: the calls into std, tree-sitter and serde_json whose
    contracts are taken on trust, and the parser and tree types that hold
    tree-sitter's values.
- `app/` is the program: it reads the hook input and the file, writes the
  new contents in place (through symbolic links, keeping permissions, leaving
  the file whole when the write fails) and logs to the file named by
  `FIX_CS_INDENT_LOG` when that is set.
- `tests/` runs the library on C# fixtures and on small hand-made trees.
