# hyprexpose

Workspace overview for Hyprland and Sway: a daemon that, on SIGUSR1, shows
every workspace as a card with its windows, lets the user move a selection
over the cards with the keyboard or mouse, and switches to the chosen
workspace or moves the focused window there.

## Layout

- `src/` — the verified library (Verus):
  - `text.rs`: searching, whitespace, integer parsing and formatting over
    characters, each specified as std's `find`, `trim`, `parse`,
    `from_str_radix` and `Display`/`LowerHex` behave;
  - `ipc.rs`: the workspace and window model, the choice of compositor, and
    the requests and replies of both back ends;
  - `ipc/hyprland.rs`: reading Hyprland's JSON replies (field extractors,
    top-level object scanner, stable sort by id, client assignment) and the
    dispatch messages;
  - `ipc/sway.rs`: i3-IPC framing, command texts with quoting, and reading
    workspaces and windows out of the decoded workspace list and tree;
  - `overlay.rs`: key mapping, grid shape, selection movement and the
    requests each key or button makes, buffer choice and damage;
  - `render.rs`: thumbnail lookup, labels, the fallback colour hash and the
    extent of a workspace's windows.
- `app/` — the program around it: Wayland surfaces, window capture, Cairo
  and Pango drawing, the sockets, JSON decoding of sway's replies, and the
  configuration file.
- `tests/` — tests of the library.
