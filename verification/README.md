# lemmalog

A deductive memory for agents, verified with Verus. Facts are asserted as edges
with a confidence and the episodes they come from; rules in a Datalog dialect
(stratified negation, aggregates, comparisons, the clock) derive the rest; every
derived fact can be explained, retracted and queried.

## Layout

`src/` is the library. Every function states what it computes over the
mathematical value of its arguments, and Verus proves it.

- Text and numbers: `text`, `scan`, `escape`, `bignum`, `decimal`, `notation`,
  `confidence`.
- The store: `value`, `intern`, `name_map`, `sorted_set`, `relation`, `store`.
- Programs: `ast`, `lexer`, `syntax`, `parser`, `stratify`, `rules`.
- Evaluation: `env`, `builtins`, `solve`, `evaluate`, `recompute`, `engine`,
  `demand`.
- Reading: `query`, `explain`.
- The memory: `protocol`, `extract`, `policy`, `agent`, `context`, `snapshot`,
  `canonical`.
- The server: `server`, `tools`, `message`.

What holds of several functions together is stated as public proof functions:

- what evaluation means: `model`, `perfect`, `exact`, `laid`, `runs`, `scope`,
  `folds`, `tally`, `order`, `refold`, `ranks`, `unique`;
- what a run makes of changes: `renew`, `follow`, `quiet`, `leftovers`;
- what is kept and what is left alone: `frame`, `upkeep`, `clears`, `feed`,
  `intact`;
- deep queries and explanations: `deep`, `slices`, `deep_folds`, `grounds`;
- programs as text, the default rules, identities and views: `script`, `present`,
  `identity`, `views`;
- the history of edges: `history`;
- saving and loading: `reload`, `restore`.

`app/` is the server around it: standard input and output, the snapshot file,
and the calls of a language model. `tests/` runs the library on concrete values.

## What is trusted

- `text`: `String::push`, and how `{:?}` shows a text.
- `protocol`: `str::to_lowercase` and `char::is_alphanumeric`.
- `message`: reading and writing JSON with `serde_json`.
