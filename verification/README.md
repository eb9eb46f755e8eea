# rsdirstat

A fast disk usage analyzer: a multi-threaded scanner, a top-N report on the command line,
and an interactive treemap served to the browser over a WebSocket.

The library under `src/` is verified with Verus. It holds the directory tree (insertion,
size propagation, bottom-up recomputation, filtered sums, breadcrumbs and paths) with the
proofs that the sizes kept while scanning are the ones a recomputation finds, the file
filter, the colour rules, the binary frames and the deflate framing of the browser protocol,
the server's answers to browser requests and its layout schedule, the non-geometric logic of
the treemap and of the browser view, the work-queue bookkeeping and stall rule of the
scanners, the parsers of kernel directory records (`getdents64`, `getattrlistbulk`,
`FileIdBothDirectoryInfo`) and of the mount table, the report lines and the volume list, and
the small text and path helpers of the web front.

`app/` is the program around it: argument handling, the system calls of the Linux, macOS
and Windows scanners and volume lists (each built only on its own platform), the axum
server, the serde forms of the messages, and the floating-point treemap layout.

Modules of the library:

- `tree`, `hierarchy`: the directory map, its walks up and its pre-order sums.
- `propagation`: why the recursive sizes kept while recording directories and files are
  right, and agree with a recomputation.
- `filter`, `color`, `text`: which files a view shows and how they are coloured.
- `frame`, `bytes`, `wire`: binary frames, little-endian fields, deflate framing.
- `control`, `layout`: how the server reacts to a request and when it lays out again; the
  layout settings and which rectangles a directory's box is split into.
- `view`: what the browser view works out from the rectangles it draws: the one under the
  pointer, the click target, the hovered path, and the steps from one layout to the next.
- `queue`: work-queue bookkeeping and stall detection.
- `linux`, `macos`, `windows`, `platform`: kernel records, inode identities, directory
  tallies, mount lines, device numbers, volume usage, wide strings.
- `web`, `paths`, `report`, `volumes`: JSON escaping, origin and path-component checks, path
  joining, top-N selection, report lines and path rebuilding, the volume list.
