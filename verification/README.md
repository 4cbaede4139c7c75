# ttwm

A tabbed tiling window manager for X11, whose core is verified with Verus.

- `src/` is the verified library: the layout tree (splits, frames, tabs,
  focus, geometry), workspaces and monitors, frame placement, tab bar
  layout and hit testing, per-frame tab orientation, pointer drags, key binding and colour parsing,
  the startup layouts, window rules (floating, docks, struts, urgency),
  icon selection and scaling, the event log and the text of its entries,
  and the state check.
  `src/laws.rs` states properties that relate several operations.
- `app/` is the program around it: the X11 connection and event loop, the
  IPC socket, the configuration file, font rendering, drawing, and the
  `ttwm ctl` command-line client.
- `tests/` runs the library on concrete cases.
