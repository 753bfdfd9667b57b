# praxis_policy

Verified pieces of a policy engine's configuration front end.

- `src/lexical.rs`: the one reader for a quoted literal in policy text
  (`read_literal`, `skip_literal`, `read_whole_literal`, `char_offset`,
  `is_quote`), specified over the text's characters and its UTF-8 bytes, with
  the laws of the escape rule proved beside it.
- `src/test_util.rs`: compiling a read test document (a root `plugins:` list
  and one `route:` block) into a route and a last-one-wins plugin registry.
- `src/route_config.rs`: the shape of a route's `authentication:` block.
- `app/`: serde forms of the configuration shapes and of the test document,
  converting to and from the library's types, and the text-level
  `compile_test_policy` / `compile_test_route` that deserialize a document and
  hand it to the library.
