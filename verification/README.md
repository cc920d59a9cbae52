# rplmaker-core

Converts plugin preset files into REAPER preset libraries (RPL), so presets
can be browsed from REAPER's native preset list. A template RPL exported from
REAPER teaches the converter the plugin's wrapper bytes; each vendor preset's
parameters are swapped into that wrapper and the length fields adjusted.

The library in `src/` is written in Verus: every function carries a contract
over a mathematical model of the data, and the crate's laws (a written
library reads back as itself, a blob rebuilt around its own state is the
blob, sorting keeps every file and orders them, extracted documents are
distinct, a template converts its own captured state back into its own
blob, a preset converted against an XML template reads back as a blob
holding the merged state, an object's raw member texts parse to its
members, ...) are proved as proof functions beside the code. Every error
message the readers give is stated in the contracts.

- `text`, `floats` — characters, decimal numbers, searching; the table of
  double-precision texts the caller supplies (no floating point in `src/`).
- `rpl` — the RPL text format (base64 through the `base64` crate).
- `blob` — REAPER's VST3 preset wrapper: taking it apart and rebuilding it.
- `valuetree`, `xmlread`, `ubjson`, `json` — the plugin state and preset
  file formats.
- `xmlmerge`, `treemerge` — overlaying a preset's values onto the template
  state (the XML merge walks tags by byte offsets, so a template with a
  character outside ASCII inside a tag, outside a quoted value, is left out
  by its `requires`, and `app/` stops on it before converting); `xmlform`
  — the XML form JUCE writes, on which reading and merging agree.
- `uapreset`, `convert`, `edit`, `extract`, `files` — the conversion pipeline,
  library editing, scanning plugin binaries, and ordering input files.

`app/` holds the command line (`clap`) and the GUI commands (`serde`), which
do the file-system work and hand bytes to the library. `tests/` exercises the
library on synthetic templates and preset files.
