# lsystem

L-system (Lindenmayer system) grammars with verified behaviour: symbol
validation, colour configuration, compiled grammar expansion, segment-count
planning, and the pieces of editor state built on them. The library in `src/`
is checked by Verus; `app/` is a small command-line front end around it.

## Library modules

- `rewriting` — the mathematical model: one parallel rewriting step and its iteration.
- `ruleset` — authored rules as a map, the symbols reachable from the start
  string, unused (dead) rules, and whether a grammar branches.
- `symbol_ids`, `grammar` — compilation of a grammar into a byte arena and its
  depth-first expansion; expansion equals rewriting the authored grammar.
- `growth` — the largest iteration count whose drawn segments stay within a budget.
- `alphabet`, `editor_config`, `config`, `config_defaults`, `color` — the
  alphabet checks, authored grammar and colour fields, colour defaults and the
  colour-picker memory.
- `depth` — topological depth of drawn segments.
- `sphere_table` — the integer structure of the geodesic-octahedron direction table.
- `config_source` — the configuration file as a TOML document (`toml_edit`)
  seen as a map from key paths to items and the formatting of each value,
  and the edits the editor makes to it. Their contracts state which items
  change and that a rewritten value keeps its formatting; that the rest of
  the file's layout (comments, key order) is kept is shown by the tests.
- `config_entry`, `workspace` — the editor's entries (applied document,
  bundled default, draft) and the workspace of uniquely named entries:
  applying, resetting, copying, renaming and importing.
- `names`, `presets`, `export`, `util`, `animation`, `cancellation`,
  `dimension`, `text` — naming, preset selection, export file names and
  small helpers.

## Front end

`app/` reads configuration TOML (serde and toml_edit), checks the
floating-point fields, walks the turtle with glam, writes SVG and edits
configuration files in place:

```
lsystem presets <dir>
lsystem check <config.toml>
lsystem svg <config.toml> [out.svg]
lsystem rename <config.toml> <name>
lsystem background <config.toml> <#rrggbb|default>
lsystem angle <config.toml> <degrees>
lsystem import <dir> <config.toml>
```
