# portsmith

A small cross-platform tool that frees the ports a project needs and checks that
its backing services (database, cache, broker) are running.

- `src/` is the verified library. It holds what the tool decides: which ports a
  project's `.env*` files, `package.json` scripts and framework dependencies name;
  which connection URLs and datastore keys name services; which directories the
  scan enters; how ports are sorted and pinned; which listening processes stand in
  a port's way; what `check` reports; and how tables and warnings are laid out.
  Every function there carries a contract that Verus proves, except three small
  trusted items that call outside code and whose contracts Verus takes on
  trust: `String::push` (`text::push_char`), the JSON parse of
  `serde_json::from_str` (`json::parse_json`, whose result is named, not
  described), and the conversion of serde_json's value into the library's
  `JsonValue` (`json::json_from_serde`, which has no contract).
- `app/` is the command line around it: argument parsing, reading files and
  directories, asking the operating system for listening sockets, stopping
  processes, reading and writing `.portsmith.json`, and printing.
- `tests/` runs the library on concrete inputs.

`portsmith check` exits with status 1 (some services down) when the project
names backing services but the list of listening sockets cannot be read: the
services cannot be shown to be up, so they are not reported as absent.
