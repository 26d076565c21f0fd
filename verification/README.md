# konnect_core

File-level tooling for KiCad boards and schematics, written in Rust and verified with
Verus: comparing a netlist with a board, setting the net of a pad, adding nets, zones and
netclasses, reading ERC and DRC reports, listing unrouted connections, numbering
references, and composing kicad-cli command lines.

Board and schematic files are edited in their text, never written anew, so that everything
that an edit does not speak of keeps its exact form. A project file is read as JSON and
written again, with its keys in their order and all other values as they were.

The contracts say what each function returns for every input, and the functions named
`law_…` prove what holds across functions: that edits are read back, that what is not meant
is not touched, and that syncing, setting a pad's net, assigning a net to a class, updating
a class or numbering references a second time changes nothing more. Where such a law does
not hold of every input, its `requires` says of which it does.

## Layout

- `src/` is the verified library.
  - `text`, `decimal`, `order`: searching and splicing text, numbers, ordered lists.
  - `sexp`, `blocks`, `edits`: the notation of KiCad's files, and what an edit of the text
    does to the tree.
  - `json`: JSON documents, read and written by serde_json.
  - `netlist`, `plan`: a netlist, a board, and the difference between the two.
  - `padnet`, `padnet_twice`, `board_edit`, `netclass`: edits of board and project files.
  - `pads`, `report`, `ratsnest`: the pads of a board, rule reports, unrouted connections.
  - `annotate`, `cli`, `layout`, `requests`, `image`: numbering, command lines, routes and
    arrays, request arguments, images.
- `tests/` runs the library.
- `app/` is the ordinary Rust around it: processes, files, a running KiCad, and positions
  in floating point.

Positions stay texts or JSON numbers in the library; `app/` computes with them.
