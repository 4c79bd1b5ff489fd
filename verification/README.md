# sparse

A terminal client for [Matrix](https://matrix.org) whose logic is verified with Verus.

- `src/` is the library. It holds everything the client decides: the filter language, the cache of
  a room's timeline, key bindings and modes, the configuration, the actions, the layout of the
  messages, notifications and the rest. Contracts say what each function returns and changes;
  proof functions named `law_...` state what holds across functions.
- `app/` is the program around it: the connection to the server, the terminal, the Lua scripts of
  the configuration, files and processes.
- `tests/` runs the library on concrete values.

## Where to start reading

| Module | What it is about |
| --- | --- |
| `search` | message filters: tokens, grammar, matching |
| `timeline` | the cached events of a room, with edits, reactions and removals |
| `key`, `keymap` | key sequences and their bindings |
| `config` | what a configuration script can set up |
| `tui_app` | the state of the client, its rooms and their colours |
| `tui_app::tui` | modes, input, actions, drawing and the main loop |
| `log`, `session`, `devices`, `logout`, `verification_common` | what happens around the interface |

Some results come from other crates: regular expressions (`regex`), identifiers (`ruma`), the trie
behind the bindings (`sequence_trie`), links (`linkify`), media types (`mime_guess`), the width of
texts (`unsegen`) and sets of signals (`nix`). Each call stands behind a small function whose
comment says what is taken for granted.
