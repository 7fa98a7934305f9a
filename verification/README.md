# ugg

The part of a desktop companion that reads aloud, as a verified library.

- `src/` is the library. What is read aloud is cut into pieces (`reader`,
  `preprocess`, `script`) and spoken by one of two engines: a core that is loaded
  into the process (`voicevox`, `download`), or a sidecar process that speaks with
  cloned voices (`irodori`, `sidecar`, `voice_ref`, `gpu`). The second engine is
  installed (`install`, `pip`, `pins`), looked after (`status`, `versions`) and
  updated as one transaction that is undone as a whole (`plan`, `update`, `gate`,
  `packages`, `busy`). What the sidecar writes is masked before it is logged
  (`redact`). Child processes are watched by `child_process`, the window and its
  menu are in `window`; `text`, `names`, `paths`, `json` and `doubles` serve the
  others.
- `tests/` runs the library.
- `app/` carries out what the library decides: files, processes, HTTP, the C
  interface of the first engine, and the window.

Every function of the library states in its contract what it returns. What holds
of several of them together is stated by public proof functions beside them. What
is taken on trust are the calls into `serde_json` and `encoding_rs`, and a few into
the standard library; each says so where it stands.
