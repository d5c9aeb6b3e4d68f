# dsh_desktop

The core of a desktop shell for DSH, written and proved in Verus, with the
shell itself around it.

- `src/` is the core: what the shell computes and decides, each function with
  its contract. The functions named `law_` relate several of them: that a
  download happens only with consent, that ending the shell's own DSH takes
  down only a process that the shell has started, that the repair of a settings
  file only inserts spaces and settles at once, that no token in memory is cut
  between two reads. A restart goes further and clears the port of whatever
  listens on it, a DSH of the user's own included.
- `app/` is the shell: the window, processes, sockets and files. It performs
  what the core decides and hands back what came of it. The window needs
  Windows and `tauri`.
- `tests/` runs the core on concrete values.

What the core takes from outside crates is declared where it is used, with
what is believed of it: `serde_json` reads and writes JSON (`src/json.rs`),
`serde_yaml` tells whether a text parses (`src/yaml.rs`), and `uuid` makes
request ids (`src/monitor.rs`).
