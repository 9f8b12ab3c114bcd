# aizen_ui

The presentation logic of a terminal client, verified with Verus.

- `layout`, `catalog`, `session` — layout configurations, the built-ins, name resolution and
  the picker list, and the live layout state (fixed or following the terminal width).
- `theme` — the compiled-in 256-colour palette.
- `text`, `csi`, `measure`, `wrap`, `sgr`, `sanitize`, `jsonc`, `caps` — character-level text
  handling: trimming and ASCII case, control sequences, display-width clipping, word-wrapping
  rows that carry SGR colour codes, parsing SGR into styled spans, sanitising untrusted text,
  stripping comments from `.jsonc`, and capitalising digests.

`app/` holds what touches the outside world: the configuration directory and layout files,
the terminal size, the process-wide live layout, serde and widget-library conversions, and the
`console` styling helpers.
