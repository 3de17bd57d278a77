# json_schema_sniffer

Infers a JSON Schema (draft 2020-12) from example JSON values, and builds a
`jsonschema` validator for it. The library is written in Verus: each public
function's behaviour is stated in its contract over a mathematical model of
JSON values (`json::JsonV`) and proved.

- `src/json.rs`: JSON values, their model, and member lookup and update.
- `src/sniffer.rs`: the sniffer's store of the values seen at each path.
- `src/objects.rs`: which keys of the objects seen at a path are static.
- `src/schema.rs`: the inferred schema as spec functions of the store.
- `src/nodes.rs`, `src/text_ops.rs`: the executable construction of it.
- `src/float_free.rs`: inferred schemas hold no number with a fraction.
- `src/validate.rs`: compiling the schema with `jsonschema` (the trusted
  items of the crate stand here).
- `src/laws.rs`, `src/node_laws.rs`: properties that hold across calls.
- `app/main.rs`: a small program that infers a schema from two values and
  validates a third.
