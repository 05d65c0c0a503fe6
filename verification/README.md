# flashcode

A minimal coding agent for the terminal: it talks to an OpenAI-compatible chat
completions endpoint (DeepSeek by default), streams the reply, and gives the
model tools to read, write, edit, list and search files in the working
directory and to run shell commands, behind a permission prompt.

## Layout

- `src/` is the verified library. Every function carries a `requires` /
  `ensures` contract proved by Verus, and the public `law_*` proof functions
  state properties that span several functions.
  - `text.rs`: strings as `Seq<char>`: trimming, splitting, `lines`, substring
    search and counting, decimal formatting, joining, UTF-8 lengths.
  - `paths.rs`: Unix path components, lexical `.`/`..` normalization, and the
    sandbox check that a resolved path stays inside the base directory.
  - `api.rs`: the chat schema, server-sent-event line framing, and the
    reassembly of streamed content and tool-call fragments.
  - `tools.rs`: tool definitions, argument reading, the permission
    classifier, output truncation, and the reports each tool returns (numbered
    file text, edits, sorted listings, search hits, command output, previews).
  - `config.rs`: settings resolution (defaults, then file, then environment).
  - `ui.rs`: ANSI coloring, given whether color is enabled.
  - `agent.rs`: the agent's turn as a state machine, call planning, the
    permission gate and the REPL's slash commands.
- `app/` is the program around it: argument parsing, the HTTP client, file
  and process access, terminal I/O and the loop that performs what the
  agent's state machine asks for.
- `tests/` runs the library on concrete inputs.

Three calls into outside code are trusted rather than proved, each behind a
small wrapper whose contract names or states its result: `serde_json` parsing
of tool arguments, `String::from_utf8_lossy`, and `str::to_lowercase`
(plus `String::push`, for which the verifier's standard library has no
specification).
