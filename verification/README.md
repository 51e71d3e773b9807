# sproutx

A system-wide text expander: it watches the keyboard and turns short
triggers into longer text. The crate's library (`src/`) is written in Verus
and holds the logic with its contracts and proofs; `app/` is the program
around it (devices, the XKB keymap, uinput, the clock, the control socket,
the CLI).

Library modules:

- `engine`: the trigger matcher (ordering, prefix ambiguity, word-boundary
  matching, the typed-text buffer).
- `template`: `{{today}}`, `{{time}}`, `{{now}}`, day offsets and formats.
- `config`: the configuration model, its normalisation, layout detection
  from `localectl`, `setxkbmap` and `/etc/default/keyboard`.
- `keys`: hotkey-chord suppression, printable text, keystroke planning.
- `daemon`, `ipc`, `cli`, `capture`, `log`: the decisions of the daemon,
  the control protocol and the command-line tool.
- `text`, `order`: character-sequence utilities and the matcher's order.
