# LedAlert core

The decision logic of LedAlert, which routes desktop notifications and media
playback to spots of light on a WLED strip, written in Verus with its
contracts proved.

- `src/` is the verified library: launcher and desktop-entry parsing, Dock and
  Sidebar pins, icon themes and PNG icons, the notification observers and
  reconcilers of the desktop backends, lock and media state, the editor's
  undo history, guided strip identification, rule routing and UI preferences.
  Calls into `png` and a few standard-library functions are assumed, not
  proved; each such declaration says what it assumes of the outside code.
- `tests/` runs the library against concrete inputs.
- `app/` is the command line and the I/O around the library: reading files,
  the session-bus worker, serde forms of the configuration and preferences,
  and SVG rendering.
