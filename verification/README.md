# neco

Readers and writers for structured text, verified with Verus.

- `src/json`: a JSON parser from bytes whose result is specified by a grammar
  (`spec.rs`), an encoder, typed field access, conversions to and from Rust
  values, and a structured view of a document. `roundtrip.rs` proves that
  parsing an encoding gives the value back.
- `src/kdl`: the pieces of KDL v2 reading (a scanner that tracks lines and
  columns, comments and line space, numbers, keywords, slashdashes, node
  terminators), the value types with their accessors and builders, the
  normalised and plain text forms of a document, and conversion to and from a
  format-neutral value. `string.rs` reads identifier, quoted, raw and
  multi-line strings; `grammar.rs` states the grammar of a whole document
  (nodes, type annotations, entries, slashdashes, blocks of children, and
  the first error with its line and column), and `parse.rs` reads a document
  as that grammar says. `string_law.rs` proves that a name or string as the
  writer writes it reads back as itself, `doc_law.rs` that the plain text
  of a document read from text reads back as the same nodes, and
  `props_law.rs` what normalisation makes of properties.
- `src/kdl_ast`: namespace paths, cross references, conventions, structured
  entities, layout checks against file paths, and the rewrites between
  notations (dotted names, dot chains, properties, type annotations, kind
  keywords), with `render.rs` applying a convention axis by axis and
  `nest_law.rs`, `property_law.rs`, `type_law.rs` and `kind_law.rs`
  proving that flattening undoes nesting and that collapsing properties,
  type annotations and kind keywords undoes expanding them; `path_law.rs`
  proves that the components of the file path written for a namespace path
  read back as it.
- `src/plist`: a reader for simple property lists in an XML-like form and a
  line form.
- `src/ast.rs`: the structured value shape shared by the structured views,
  and the traits for reading a structured document and its nodes, which
  the JSON and KDL views implement.
- `app/`: what works with `f64` (number values, their text), and the displayed
  forms of errors.
- `tests/`: tests of the library on concrete values.

Numbers are kept as their text throughout the library; `app/` turns them into
`f64` where that is wanted.
