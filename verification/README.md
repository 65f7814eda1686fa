# atc_router

A rule-based matching engine: routes are expressions over the fields of a request
(`http.path ^= "/api" && net.dst.port == 443`), and a router picks, for a set of field
values, the route of highest priority whose expression holds. The library is written in
Verus: every function carries a contract, and the verifier proves each function against its
contract, except the small wrappers in `src/net.rs`, `src/pattern.rs`, `src/matchers.rs`,
`src/text.rs` and `src/uuid_text.rs` that call `cidr`, `core::net`, `regex`, `regex_syntax`,
`uuid` and std's lowercasing: their contracts are trusted, and name what those crates give.

## Layout

- `src/ast.rs`: expressions, predicates, values, IP addresses and networks.
- `src/parser.rs`: the expression grammar as a function on characters, with the error
  messages it renders.
- `src/display.rs`: expressions written back as text.
- `src/schema.rs`, `src/semantics.rs`: field types, and checking an expression against them.
- `src/context.rs`, `src/interpreter.rs`: the values of a request, and evaluating an expression.
- `src/router.rs`: the router, its matcher table, and prefiltering. With prefiltering on a
  string field, the router keeps, for each matcher, the prefixes one of which the field's
  value must start with for the matcher to hold, and indexes them in the trie of
  `src/prefilter.rs`; matching then skips the matchers whose prefixes the trie does not find
  at the start of the field's first value. Prefixes are kept only for matchers that compare
  the field with `==` and `^=`, where it is proved that a skipped matcher cannot hold; a
  matcher that reads the field with `~`, through a transformation, or under a negation is
  always read. The result of matching is the same with prefiltering on or off.
- `src/cir.rs`, `src/lir.rs`, `src/linear.rs`, `src/line.rs`, `src/repo.rs`: compiled forms
  of expressions.
- `src/matchers.rs`: the visitor that gathers the prefixes a matcher requires.
- `src/prefilter.rs`: a radix trie that indexes keys by prefix; the router's prefilter.
- `src/inner_prefilter_btree.rs`: an ordered table of patterns searched backwards for those
  that start a value, a second prefix index that the library offers besides the trie.
- `src/predicates.rs`: walking the predicates of an expression; the fields and operators it uses.
- `src/strmap.rs`, `src/text.rs`: maps keyed by text, and text helpers.
- `src/net.rs`, `src/pattern.rs`, `src/uuid_text.rs`: the calls into `cidr`, `core::net`,
  `regex` and `uuid`, and reading addresses, networks and UUIDs from text.
- `app/`: the C interface and a corpus tool, around the library.
