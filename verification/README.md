# oh_bugs

A terminal output sniffer: it wraps the user's shell in a pseudo-terminal,
forwards everything, tracks what the screen shows, and when an error keyword
appears in the output, bug emoji float over the text and fly away again,
leaving the text as it was.

- `src/` is the verified library (Verus): the screen buffer that interprets
  the shell's output (`screen`), the bytes that draw on the terminal
  (`terminal`), the bug animation (`animation`), keyword watching
  (`watcher`), settings (`config`), the decisions of the main loop
  (`daemon`), the stop and status commands (`snooper`: the stop command
  as a state machine, the status report, the running time read from the
  kernel's process tables), and the laws proved about them (`screen_laws`,
  `animation_laws`, `display_laws`).
  The screen buffer keeps an escape sequence or character that a read cuts
  off until the next read completes it, so the tracked screen does not
  depend on how the output is cut into reads (`law_output_split`).
- `app/` is the program around it: command line, pid file and signals,
  raw mode, the pseudo-terminal and the shell, the settings file, and the
  loop that reads and writes.
- `tests/` runs the library on concrete inputs.

Commands: `obugs --on`, `obugs --off`, `obugs --status`, `obugs --test`,
`obugs --help`. Settings live in `~/.config/obugs/config.toml`.
