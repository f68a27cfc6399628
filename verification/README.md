# chat_rules

The logic of a small chat-game server, verified with Verus. Players chat over a
websocket; each experiment applies "rules" that rewrite their messages (reverse
them, drop the vowels, censor words, sort the words, ...). A swear filter, the
parsing and routing of HTTP requests, and the bookkeeping of connected users
complete the server.

Layout:

- `src/text.rs`: characters of strings, UTF-8 lengths, substring search, lines,
  splitting, trimming and case mapping (the std calls behind trusted wrappers).
- `src/utils/filter.rs`: cutting a message into word and separator runs, joining
  them back, censoring, and reading word lists.
- `src/utils/http.rs`: parsing a request, the header map, routing, answer heads.
- `src/utils/websocket.rs`: the connected users (address checks, ids, removal).
- `src/experiments/transforms.rs`: the text rewrites of the rules.
- `src/experiments/laws.rs`: the laws the rewrites obey (which words remain,
  that sorting sorts, that corruption only moves characters, ...).
- `src/experiments/base/rules.rs`, `src/experiments/restrictions/rules.rs`: the
  rules of the two experiments, on their messages.
- `src/random.rs`: the random draws (`fastrand`).
- `app/`: the server itself: sockets, files, threads, the global state, the rule
  tables (their weights are floats), and the `tungstenite` websockets.
