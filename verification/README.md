# meread

Preview GitHub flavored markdown offline: point `meread` at a markdown file, or at a directory to
browse, and it serves the rendered page (and everything below the served root) on a local address,
reloading the page when the file changes.

## Layout

- `src/` is the library, verified with Verus. Every public function states its result over a
  mathematical model in its `ensures`, and the library's laws are public proof functions:
  - `url`: percent-encoding of path segments and decoding of request paths
    (decoding undoes encoding).
  - `path`: unix paths held as text, with the component model of `std::path::Path`.
  - `resolve`: what a request path below the served root is answered with. The resolver asks its
    questions about the disk one at a time; its contract holds on every disk that answers them
    truthfully, and nothing outside the root, once canonicalized, is ever served.
  - `serve`: routing, replies, the browser url and the live-reload debounce step.
  - `listing`, `order`: browsable directory listings, sorted directories first and then ignoring
    case.
  - `site`: page titles, urls and breadcrumbs.
  - `render`: the page template around the html a document renders to, for served and exported
    pages.
  - `target`: what the tool was pointed at, the served root, and when a change calls for a rebuild.
  - `preview`: the editor preview's root, url and buffer text.
- `tests/` runs the library on concrete inputs; the resolver is driven there by a directory tree
  held in memory, symlinks included.
- `app/` is the command-line program around the library: argument handling, the file watcher, the
  http server, the call into `comrak` that turns markdown into html, and the file system calls that
  answer the resolver. The embedded styling assets are not part of this build, so asset urls are
  answered with 404.
