# openbim-idm

A lossless reader, writer and schema-aware editor for ISO 29481-3 idmXML
documents, verified with Verus.

The library keeps the complete XML tree: qualified names, namespaces,
attribute and child order, comments, CDATA sections, processing instructions,
entity and character references as written, and unknown vendor content. A declaration catalog drives the creation of
schema-ordered skeletons, cardinality-checked insertion and removal, and
structural validation.

How the read-modify-write cycle is shown to be lossless:

- Parsing is specified event by event over what `quick-xml`'s reader gives
  on the text, and writing over the events handed to `quick-xml`'s writer;
  both are proved against those specifications.
- `roundtrip.rs` proves that the verified builder turns the events that
  writing a document produces back into that document, and that parsing the
  written text therefore gives the document back whenever the reader reads
  that text as the written events. That the reader does so is `quick-xml`'s
  behaviour and is not proved here.
- `Document::from_tree` checks at run time that a tree survives writing and
  parsing unchanged, and refuses it otherwise.

## Layout

- `src/model.rs` — attributes, nodes, elements, errors, and their views.
- `src/text.rs`, `src/path.rs`, `src/tree.rs` — character helpers, indexed
  paths such as `/idm/uc[0]/subUc[1]`, and path resolution in the tree.
- `src/parse.rs`, `src/write.rs` — reading and writing XML through
  `quick-xml`; a verified builder turns the event sequence into the tree.
- `src/document.rs`, `src/walk.rs` — the document and its path-based reading,
  editing and traversal.
- `src/catalog.rs`, `src/schema.rs`, `src/editing.rs`, `src/validate.rs` — the
  declaration catalog, skeleton building, schema-aware editing and
  validation.
- `src/inventory.rs`, `src/interchange.rs` — schema-set inventories and the
  plain-tree form of a document.
- `src/laws.rs`, `src/path_laws.rs`, `src/roundtrip.rs` — properties relating
  the operations: read-back after edits, paths that resolve, removal undoing
  an append, and a written document read back.
- `app/` — the `idmxml` command line, file access, and the JSON forms of the
  tree and the catalog.

The catalog is read from a JSON file (`--catalog`, by default
`catalog/catalog.json`); the schema files themselves are never bundled.
