# hyprmonitor

Auto-configures Hyprland monitors when displays are plugged in or out, and
offers a layout editor (`hyprmonitor-gui`) whose settings are saved per
physical panel in `~/.config/hyprmonitor/monitors.json`.

## Layout

- `src/` — the verified library (Verus). Every decision the program makes is
  here, with its contract:
  - `algo/` — the plan: mode choice (`mode`), DPI and scale, EDID parsing and
    the panel identifier (`scale`), built-in panel detection (`primary`),
    layout order (`order`), left-to-right placement (`layout`), and the laws
    every plan obeys (`properties`).
  - `parse` — Hyprland mode strings and other small text formats;
    `lemma_mode_text_round_trip` shows that what the library writes reads back.
  - `config` — saved overrides and how they are laid over a plan.
  - `gui/` — the editor's state, snapping and aligning, validation, the
    inspector's choices, and what saving and reloading gives back (`reload`).
  - `daemon` — hotplug debouncing, reconnect backoff, post-apply checks.
  - `refresh` — which bar / wallpaper clients to reload or restart.
  - `model`, `text`, `names` — data types and their text forms.
- `app/` — the program around it: command line, Hyprland IPC and `hyprctl`,
  `/proc` and `/sys` reading, JSON files, the async daemon loop and the egui
  window. Run as `hyprmonitor-gui` (by name) it opens the editor.
- `tests/` — tests of the library.

Refresh rates are millihertz and scale factors millionths throughout the
library, so every comparison and every saved value is exact.
