# konnect

Editing KiCAD boards and schematics as text, with the rules proved.

A tool server for KiCAD changes files that people care about: a wrong offset deletes
somebody's layout. The library in `src/` holds everything that decides which bytes
change, and Verus proves what each function does with them. `app/` is the ordinary Rust
around it: tool tables, JSON arguments, file and editor access, and geometry in floating
point.

## The model

A file is its UTF-8 bytes, `bytes(text)`, and positions are byte offsets into them. Three
things are said of a file:

- `scan`: where strings, blocks and tags are (`lex`, `closes_at`, `tag_opens`).
- `sexp`: the tree that a text reads as (`parse_text`).
- `edit`: what a list of splices makes of it (`edited`). `board_file::commit` writes a
  board only if it is still one balanced document.

Numbers stay in the text they are written in. What depends on geometry, such as whether a
point lies on a wire, is handed in as plain facts.

## The modules

- Text and grammar: `text`, `chars`, `number`, `lines`, `scan`, `sexp`, `grammar`,
  `blocks`, `fields`, `ident`.
- Boards: `board_file`, `at_node`, `footprint`, `components`, `pads`, `items`, `net`,
  `routing`, `copper`, `zone_net`, `query`, `layers`, `graphics`, `image`.
- Schematics: `types`, `symbol`, `schematic`, `schematic_builder`, `sch_components`,
  `sch_batch`, `connectivity`.
- Libraries and projects: `library`, `similar`, `cache`, `install`, `verification`.
- What holds of several operations together, as public `law_…` proof functions: beside the
  functions where the proof is short, else in `undo`, `pairs`, `exchange`, `moving`,
  `deletion`, `net_laws`, `netclass_laws`, `layer_laws`, `zone_laws`, `zone_rounds`,
  `property_laws`, `field_laws`, `component_laws`, `builder_laws`, `symbol_laws`,
  `definition_laws`, `rename_laws` and `rule_laws`, on top of `edit`, `placing`,
  `substitution` and `rewriting`.

## What is taken on trust

Calls into `uuid`, `base64` and `serde_json`, and a few functions of `str`. Each stands
behind one small item whose comment says what is claimed of it.
