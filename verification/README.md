# hsr_frontend

The logic of the HSR Owner frontend as a Verus-verified library.

- `src/` is the library: the protobuf wire reader, the `.sniff` capture
  format, the packet list filters and inspector, the cheat key bindings, the
  Lua comment toggle, the asset tree, configuration
  normalisation and auto-save, the UID profile assembly, the resource text
  helpers and the log buffers. Verus proves each function against its
  contract. Calls into `std`, `base64`, `serde_json` and `rand_core` go
  through small trusted wrappers whose contracts are stated next
  to them.
- `tests/` runs the library on concrete values.
- `app/` is the unverified process around it: logging, the configuration
  files on disk, HTTP downloads of the game resources, the floating-point
  panel arithmetic, StyLua formatting and encrypted capture files.
