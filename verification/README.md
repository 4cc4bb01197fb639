# mathrender

Renders ordinary Python source as Markdown with LaTeX: docstring prose stays prose,
top-level math statements become display equations, and `render_figure` directives become
images. Symbols, tensors and function templates come from `Annotated[..., Symbol(...)]` and
`Tensor(...)` annotations, `@render_as(latex=...)` decorators, `.pyi` stubs and
`<name>.mathdocs.toml` sidecar files.

The library in `src/` is written in Verus; every function carries a contract over a
mathematical model of its inputs and outputs, and Verus proves the code against it.

- `text` — character-level text operations and UTF-8 byte lengths.
- `ast` — byte ranges, line/character positions, diagnostics, the source file's line table.
- `scan` — the block scanner: docstrings, math statements, figure directives, per-line
  `# mathdocs:` configuration, and the Python syntax check.
- `metadata` — symbols, tensors and templates from annotations; `::name::` symbol lookups.
- `ir` — lowering of a statement to an expression tree (tokenizer and precedence parser).
- `latex` — LaTeX rendering: names, operators, templates, tensor index contraction.
- `paths` — figure paths, rewritten from the source file's directory to the working
  directory.
- `config` — project configuration and sidecar documents (TOML), and the merge order of the
  metadata sources.
- `markdown` — the rendered document.
- `editor` — what the language server asks: lookup completion, import lenses, positions;
  and the command line's `line:character` ranges.
- `laws` — properties proved across operations.

`app/` holds the command line (`render`, `symbols`, `check`, `lsp`) and the language server;
it reads files and hands their text to the library.
