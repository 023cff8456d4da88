# gaia_ir

The intermediate representation of a graph query engine, with its behaviour stated in
contracts and proved with Verus.

- `src/ir/catalogue`: patterns (vertices, edges, their labels and ranks), the ranking of
  vertices, extend steps, and the collections they rest on.
- `src/catalogue`: pattern metadata, the encoding of patterns and extend steps into
  codes, and the laws that decoding recovers what was encoded.
- `src/ir/plan`: the schema that maps names to ids, the metadata of plans, the
  preprocessing of expressions against the schema, logical plans (appending, removing,
  branches, subplans) and plan messages.
- `src/gremlin`, `src/runtime`: the data-level parts of the Gremlin runtime, among them
  what traversers carry and what a `by(..)` modulator takes of it.
- `src/assoc`, `src/bits`: ordered name lists, and arithmetic facts the codecs use.
- `app/`: reading schemas from JSON, the global store metadata, and the bit widths that
  need floating point.
- `tests/`: tests on concrete values.
