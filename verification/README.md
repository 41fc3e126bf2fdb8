# ratslate

An infinite canvas in the terminal: boxes, arrows and text, placed and moved
with the mouse. Boards are [JSON Canvas](https://jsoncanvas.org) files; a
`.md` file opens as an outline whose headings and list items can be dragged.

The library under `src/` is written in Verus: every rule by which a board or
an outline changes, is drawn and is written down is stated as a contract and
proved. Merging two writers' changes is left to yrs; what is proved there is
what goes into a merge, what may be merged at all, and what is made of the
result. `app/` is the program around it: the terminal, files and JSON.

| modules | what they hold |
| --- | --- |
| `model`, `canvas_io` | boards, and boards on disk |
| `app`, `editing`, `keys`, `mouse`, `api`, `session` | the board's editor: requests, typing, the pointer, scripts, tabs |
| `table`, `grid` | boxes whose text is a table |
| `layout`, `graph` | boxes in layers along their connectors |
| `route`, `links`, `wires`, `render`, `paint`, `sheet`, `minimap`, `plain` | what is drawn, and the drawing as plain text |
| `mindmap`, `outline`, `endings`, `mind_app`, `mind_render` | the outline and its editor |
| `collab`, `sidecar`, `sync` | the merge state that two writers share, and what its file may hold |
| `text`, `geometry`, `target`, `pointer` | texts, rectangles, what can be hit, drags |
| `*_laws` | what holds across operations |

What is not proved is what other crates do: each call into one stands behind
a function whose doc comment says what is taken of it.

```sh
ratslate board.canvas --schema
ratslate board.canvas --api '{"type":"place","x":2,"y":2}'
ratslate plan.md --api '{"type":"move","id":6,"parent":2,"index":0}'
```

A JSON array runs as a batch, applied in order and answered in order. Nothing
is written to disk until a `save` request says so.
