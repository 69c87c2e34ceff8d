# faces

The logic behind the receiver's faces, written in Verus: each function states
what it computes in `requires` / `ensures`, and Verus proves it.

- `src/` is the verified library. Each module holds one face's rules: the
  waterfall history and its ring (`history`, `ring`, `texture`), colour ramps
  (`colormap`), Maidenhead locators (`locator`), the recording library
  (`library`, `playback`), map targets and direction finding (`targets`,
  `df`, `triangulation`), decoder protocols (`protocols`), band plans and
  picks on the scope (`bands`, `pick`, `radio`), the header state of radios and
  channels (`status`), stitched lanes (`stitch`), the signal-map survey's per-frame step
  (`survey`), the network-export and
  time-machine sinks (`export`, `time_machine`), video pictures (`video`),
  propagation history (`propagation`), satellites (`satellite`), scanners
  (`scanner`), the patch graph the faces read (`patch`), readouts
  (`readout`), and shared text and ordering helpers (`text`, `order`).
  Public proof functions named `law_*` state what holds across calls.
- `tests/` runs the library on concrete values.
- `app/` is ordinary Rust around the library: the clock, files on disk, and
  the readings kept in floating point (levels, views, plot geometry,
  survey samples, scan ranges).
