# rift

The routing core of Rift, a reverse proxy whose routing rules are a small
language rather than a config file, written in Verus.

- `src/text.rs`: strings as char sequences; line splitting, whitespace, ASCII
  case, decimal numerals and status codes.
- `src/grammar.rs`: what the rule language means: the lexer, the rule and
  source parsers, and rule matching, as spec functions.
- `src/rules.rs`: the executable lexer, parser (`parse`) and router
  (`Router::route`, `Rule::matches`), each proved against `grammar`.
- `src/forward.rs`: what the proxy does with a routed request: the host it
  routes by, the inline reply, the upstream target, and the error replies.
- `src/pattern.rs`: path regexes, compiled and run by the `regex` crate.
- `src/laws.rs`: properties of the language and the router as a whole.
- `app/`: the `rift` command (`check`, `serve`) and the hyper server and
  client around `forward`.
