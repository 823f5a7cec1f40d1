# norm_codec

A verified codec for NORM (Normalised Object Relational Model) text: `parse` reads NORM
into a JSON value, `encode` writes a JSON object or array as NORM, and `validate` reports
every error of a document. The library is written in Verus; each public function states
in its contract what it returns, over spec functions of the format.

## Layout

- `src/lexer.rs`: lines to tokens (root line, section headers, CSV records, comments).
- `src/parser.rs`, `src/document.rs`: structural collection, the pk index, `parse`,
  `validate`.
- `src/resolve.rs`: reference resolution (`@N`, `@name`, `@[]`) and the validation walk.
- `src/encoder.rs`: the planner (sections, names, pks) and the renderer. A table without
  a pk column whose first column is a data key named `pk` (the root table, or a table of
  objects) gets a pk column of its own, so that the key reads back as data.
- `src/json.rs`, `src/text.rs`, `src/error.rs`: values (and `json_equiv`, equality with
  object members compared as sets), characters, errors and their messages.
- Laws, as proof functions:
  - `agreement.rs`: `parse` succeeds exactly when `validate` does; its error is among
    those `validate` reports, and the first of them unless it is an invalid section name
    (`parse` lexes strictly and stops there); a byte-order mark, a null byte or trailing
    garbage after `:root` is the only error `validate` reports;
  - `collection.rs`: the collected document has distinct section names, no row without a
    cell and no array row made of one empty cell, and only valid names when collection
    reports no error; what stops strict lexing, collection reports too;
  - `naming.rs`, `numbering.rs`: planned section names are distinct and valid, pks are
    distinct;
  - `readback.rs`: every scalar and column name the encoder writes reads back, and a
    quoted string reads back with its line count;
  - `roundtrip.rs`, `nested.rs`, `arrays.rs`, `tables.rs`: `parse(encode(v))` gives `v`
    back for flat objects; objects whose members are scalars, objects of scalars, or arrays
    of scalars or of objects of scalars; arrays of scalars; and arrays of objects of scalars
    (the objects of an array come back with their members in the order of the table's
    columns, so the laws also state `json_equiv` between what is read and what was
    written); in each case the first key of a table is not `pk`.
- `app/main.rs`: the `norm` command line (`parse`, `encode`, `validate`).
