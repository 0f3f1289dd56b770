# monitor-profiles

Neutral monitor layout profiles, shared between a compositor session manager
and a login screen. A profile is a TOML file: `match` signatures that identify
a display arrangement, plus the geometry to apply when it matches.

## Layout

- `src/` is the verified library (Verus):
  - `text.rs`, `num.rs`: the string and numeral grammars everything else is
    specified with (`trim`, `split`, `lines`, integer and `f64` literals,
    decimal output).
  - `model.rs`: profiles, monitors, modes. Floating-point quantities are
    held as the `f64` literal that denotes them (`Number`).
  - `matching.rs`: profile selection by EDID-description prefixes and rank.
  - `layout.rs`: which connected output each monitor lands on and where in
    the row it is placed, and the exact scale steps a mode allows.
  - `parse.rs`: turning a decoded TOML profile into a `Profile`, with its
    warnings and errors.
  - `serialize.rs`: the canonical TOML form.
  - `render.rs`: Hyprland `.conf` and Lua artifacts, and the proof that a
    rendering reads back through the legacy reader.
  - `readback.rs`: the proof that the workspace rules of a `.conf`
    rendering read back as the profile's rules.
  - `legacy.rs`: one-shot migration from the old `#@`/`--@` dialects.
  - `files.rs`: which directory entries are profiles, load order, and what a
    load reports.
- `app/` is the command-line tool and everything the library leaves out on
  purpose: file-system access, TOML decoding with serde, and the
  floating-point computations (choosing the scale step nearest a requested
  scale, logical sizes, number formatting), which reach the library as
  `Metrics`.
- `tests/` exercise the library from outside.
