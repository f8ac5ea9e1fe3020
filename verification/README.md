# editchain_history

The view-state core of a virtualised edit-history viewer, verified with Verus.

The library decides; a browser page shows. `src/` holds row coordinates, the index of
disclosed rows, the bounded cache of retained rows, live revisions, find sessions, the
batching of page changes into frames, what keys and clicks do, and everything that one
history row shows: its summary, badges, labels, classes and graph marks. Every function
states what it returns, and Verus proves it. The laws that relate several functions are
public proof functions beside them.

`app/` is the page around the library: elements, events, host messages, and the drawing
of the graph in floating point. `tests/` runs the library on concrete values.

| module | what it decides |
| --- | --- |
| `coordinates`, `expansion`, `live`, `tasks`, `edits` | which rows exist and which are shown |
| `cache`, `row_input`, `protocol` | which rows are retained, within fixed bounds |
| `state`, `delta`, `find`, `frame`, `step` | how the view moves from one state to the next |
| `host`, `chain_filter`, `json`, `pump`, `probe` | what is exchanged with the host, and in which order |
| `interaction`, `columns`, `window` | what input does and which rows a window holds |
| `row`, `chrome`, `labels`, `dates`, `summary`, `payload`, `markdown`, `plain_text`, `row_spec` | what a row shows |
| `paint`, `growth`, `motion`, `bisect` | how the graph is drawn and how it grows |
| `text`, `chars` | characters and strings |
