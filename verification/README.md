# pedantix

The pedantic Nix formatter: it orders function arguments, attributes, `let`
bindings, lists and `inherit` names, merges repeated attribute paths,
flattens attribute sets with a single entry, re-quotes names and enforces
blank lines between bindings, each by a TOML configuration, and leaves the
layout to a base formatter of your choice.

The library in `src/` is verified with Verus. Its passes work on the
`SyntaxTree` read from what the tree-sitter Nix grammar gives the source
(named `nix_parse` in the specifications) and checked to be well formed; each
pass has a spec function that says what it makes of every node of that tree,
and the executable code is proved to compute exactly that.

- `parser`, `syntax`: the tree-sitter parse, read into a checked `SyntaxTree`,
  and the facts about nodes the passes rely on.
- `layout`: items of a container (a node and the comments that travel with
  it), splicing rewritten children back into their parent's text.
- `sort`, `merge`, `flatten`, `names`, `spacing`: the passes.
- `semantic`: the content fingerprint that what the passes make is checked
  against.
- `pipeline`: the decisions of a run, between runs of the base formatter.
- `config`, `schema`, `load`, `tomlv`, `glob`, `strings`, `bytes`, `error`: the
  configuration model, its decoding from TOML, presets, per-path overrides
  and per-file entries.

`app/` is the command: argument handling, reading and writing files,
finding the configuration on disk and running the base formatter as a
subprocess, around the library's `pipeline::begin` and `pipeline::resume`.
