# pixelmap

A shared pixel map served over HTTP and a websocket. The map is a tree of
chunks; each leaf holds a 256 × 256 grid of pixels and the sessions that
watch it.

- `src/` is the verified library (Verus): the chunk tree and its operations
  (`chunk`), pixels and their text form (`pixel`, `text`), the reader of tile
  texts (`scan`), the text a leaf is served as (`tile`), the files that save
  the map (`store`), the decisions of a websocket session (`ws`), the file
  that answers a front-end request (`files`), and laws over them
  (`properties`).
- `app/` is the server around it: actix routes, the websocket actor, the
  shared map behind a mutex, and file I/O.
- `tests/` exercises the library.
