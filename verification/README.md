# codex_ble_bridge

Shows the state of Codex tasks on a small Bluetooth LE display.

- `src/` is the verified library: the task store that hook events and
  app-server replies drive, the snapshot packet written to the display, the
  decisions of the Bluetooth side (which displays to connect to, when to
  write again, what was last written to each display, how paired displays
  are saved or forgotten), the matching of app-server replies, and the merge
  of the bridge's entries into Codex's `hooks.json` (parsed and written with
  `serde_json`).
- `app/` is the program around it: the command line, the files under
  Application Support and `~/.codex`, the app-server process,
  Bluetooth I/O through `btleplug` and the macOS menu bar.
- `tests/` exercises the library on concrete values.
