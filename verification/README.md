# Aether

The parts of the Aether editor that can be proved: its data structures, parsers, rules and
protocols, each with a contract that Verus checks.

- `src/` is the library. Every function states what it returns; laws that span functions are
  public proof functions named `law_...`. Calls into other crates stand behind small functions
  marked `external_body`, whose comments say what is taken on trust.
- `tests/` runs the library on concrete values, with the other crates linked.
- `app/` is the program around it: sockets, processes, files, and places on the screen.

| modules | what they hold |
| --- | --- |
| `text`, `paths`, `json`, `encoding` | texts, paths, JSON values and encodings |
| `search`, `search_rows` | finding and replacing, and the rows that show what was found |
| `syntax`, `highlight`, `theme` | colours by syntax trees and by grammars |
| `gutter_diff`, `graph` | changes against a base, and the history of commits |
| `workspace`, `commands`, `ui` | documents, the palette, and the panels of the window |
| `dap`, `framing`, `debug_config` | debug adapters, messages on a stream, and launch configurations |
| `exthost`, `ext_runtime`, `webview`, `virtual_display` | extensions and their views |
| `mcp` | the tools of the editor, and who may call them |
| `markdown`, `icon` | pages and pictures |
| `voice`, `audio` | spoken calls |
| `update`, `feedback_upload`, `macos_launcher`, `claude_sessions`, `perf` | the rest |
