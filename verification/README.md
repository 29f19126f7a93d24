# mcf_engine

Converts songs written in the line-based MCF text format into Ableton Live
sets (`.als`, gzip-compressed XML, or plain `.xml`), and reads Live sets back
into the same project model.

The library in `src/` is verified with Verus:

- `text` – text as sequences of characters: search, trimming, splitting,
  decimal numerals.
- `numeral` – reading integers as `str::parse` does.
- `pitch` – MIDI pitches and note names.
- `project` – the project model (tracks and notes).
- `mcf_in` – reading MCF text.
- `xml`, `ableton_in` – the node list of an XML document (by `roxmltree`)
  and reading a project from a Live set.
- `ableton_out`, `gzip` – editing the template's XML and assembling a Live
  set; gzip compression by `flate2`.

`app/` holds the command-line program: file access, menus, and the
floating-point numbers (tempo, volumes, note times), which the library keeps
as text.
