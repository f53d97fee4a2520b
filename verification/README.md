# amber

The front end of the Amber language: it places source texts one after the
other on a single range of byte offsets, cuts them into lines, finds the
lines a span covers, splits a source into tokens, and writes diagnostics as
`name:line:column: severity: message` lines.

The library under `src/` is written in Verus and proved against its
contracts:

- `location`: offsets and half-open spans.
- `text`: characters, their UTF-8 byte positions, decimal numerals.
- `line_map`, `tiling`: lines that own their newline, how they tile a text,
  and what a lookup finds.
- `source`, `manager`: sources, their placement, and lookups across them.
- `diagnostic`, `report`: diagnostics, labels, and their report lines.
- `token`, `scanner`: tokens and the scanner that produces them.
- `cli`: the command line's arguments.

`app/` is the command around it: argument parsing, reading the file, the
allocator, and a listener that writes reports to a stream.
