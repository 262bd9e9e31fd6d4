# sch_bus

Buses in KiCad schematics: bus segments, bus entries, the fan-out of pins onto a
bus, and bus aliases, with the check for aliases that a label names and no sheet
defines.

The library decides and computes on texts and plain values. Every function states
what it returns in `requires` and `ensures`, and Verus proves it. What relates
several functions is stated in public proof functions whose names begin with
`law_`.

- `src/label.rs` takes labels apart: `PREFIX{ALIAS}`, member lists, text markup.
- `src/sheet.rs`, `src/block.rs` find and write the definition of an alias in the
  text of a sheet. `src/block_reading.rs`, `src/definitions.rs`,
  `src/block_laws.rs` and `src/kept_laws.rs` prove what an edit does to a sheet:
  to the alias that it writes, and to the others.
- `src/tree.rs` reads parsed sheets.
- `src/add_alias.rs` checks and carries out a request to define an alias.
- `src/alias.rs` collects the definitions and the references of the sheets.
- `src/report.rs`, `src/report_laws.rs` list the aliases of a design and check
  its references.
- `src/hierarchy.rs`, `src/path.rs` walk the sheets of a design.
- `src/entry.rs`, `src/draw.rs`, `src/symbols.rs` decide what is drawn.
- `src/tool.rs` is the table of the tools that a server offers.
- `src/text.rs` holds what the others need of texts.

`app/` is the server's side: arguments and replies in JSON, files, coordinates.
