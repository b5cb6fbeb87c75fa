# viewer_on_tauri

The back end of a desktop image and comic viewer: it opens images, zip/cbz
and rar archives (also archives nested in archives) and PDFs, lists folders,
keeps track of the temporary directories it extracts into, and upscales
images with ONNX models or an external Vulkan upscaler.

## Layout

- `src/` — the library, verified with Verus. It holds every rule the viewer
  follows:
  - `text` — strings as character sequences, ASCII case folding, decimal
    rendering, the lexicographic order;
  - `media` — a model of Windows paths (`/` and `\` separators, drive
    prefixes; components, file name, extension, stem,
    join) and the viewer's name rules: which files are images, archives or
    documents, the safe relative form of an archive entry, sanitized names;
  - `sorting` — stable sorting by a string key, specified by order and
    per-key classes, with uniqueness and permutation proofs;
  - `archive` — where extracted files go, what is done with each archive
    entry, progress reports, the records handed to the front end, and the
    bookkeeping of the session's temporary directories;
  - `directory` — which files of a folder are shown and in which order;
  - `zip_entries` — zip archives held in memory, read through the `zip`
    crate: the entries, their data, and which entries each kind of
    extraction writes where (only entries with an enclosed name, in index
    order, stopping at the first unreadable one where the extraction is
    strict);
  - `settings` — the settings file and the GPU runtime search path;
  - `upscale` — tiling with overlap (the cores partition the image), the
    channel-first layout of network inputs and outputs, the bounded LRU of
    inference sessions, and the names of results.
- `tests/` — tests of the library.
- `app/` — the Tauri application around the library: commands, file system,
  the rar reader (unrar, which reads from disk), writing the planned
  files, HTTP download, ONNX inference and the
  conversion of pixel bytes to and from floats.
