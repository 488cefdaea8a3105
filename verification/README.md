# rjson

Path and query lookups in JSON documents, verified with Verus.

An expression such as `friends.#(age<50)#.first` walks a document: a key
takes an object's member, an integer an array's item, `#` turns the walk into
one over every item of an array (or, last, gives their number), `#(...)` keeps
the first item that a query accepts and `#(...)#` every such item. Queries
compare members with `==`, `!=`, `<`, `<=`, `>`, `>=`, and match strings
against prefix (`"D*"`) or suffix (`"*e"`) patterns with `%` and `!%`.

- `src/json.rs`: the document type and its model, member lookup, and the
  ordering of doubles (carried by their bit patterns).
- `src/token.rs`: tokens and errors.
- `src/lexer.rs`: reading an expression into tokens, specified by `lex_tokens`;
  a `Lexer`'s position never passes the end of its text (a type invariant).
- `src/query.rs`: running a query over the items of an array, specified by
  `query_value`; a kept item is read back from its JSON text, as
  `serde_json` reads it (a double is read again from the text it is written
  with, which a `Json` double carries).
- `src/get.rs`: walking a document, specified by `get_outcome`.
- `src/laws.rs`, `src/filters.rs`, `src/paths.rs`: properties proved of every
  document and expression: how filters select items, how a path splits at
  its dots, what tokens the lexer can give.
- `src/numeric.rs`: the number parsing and formatting done by the standard
  library and `serde_json`.
- `app/main.rs`: parses a sample document with `serde_json` and prints a few lookups.
