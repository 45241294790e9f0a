# wasm_link

Plugins are WebAssembly components that call each other through the interfaces they import and
export. This project decides how those calls go, and proves with Verus that they go that way.

- `src/` is the verified library. It orders the calls of a dispatch session, hands the driver of
  an asynchronous plugin from one session to the next, resolves exports, checks what may pass
  between plugins, plans how interfaces are linked, and settles what every caller is told.
- `app/` runs plugins on the wasmtime engine around the library: futures, stores and linkers.
- `tests/` runs the library, with the real channels and the real engine where it uses them.
