# feathered

A verified core for a Minecraft-compatible client that ships no game assets:
the user supplies a resource pack, and the library turns its blockstates,
models and textures into data that a renderer can draw.

* `src/` is the library. Its functions carry contracts that Verus proves: pack
  discovery and import rules, blockstate and model resolution, the texture
  atlas, the cache file, the block registry, light propagation, the chunk
  mesher, shader-pack options and the presets of the renderer. Functions named
  `law_...` state what holds of several functions together. A few contracts
  are believed, not proved: those of the calls into `serde_json`, `sha2` and
  `image` (`json.rs`, `hash.rs`, `texture.rs`) and of two functions of the
  standard library (`ascii.rs`, `text.rs`).
* `tests/` runs the library on concrete packs, archives and command lines.
* `app/` is the program around it: files, archives, JSON documents, the window
  and the GPU. Floating-point numbers are computed there; the library carries
  them by their bits and compares them exactly.

The program reads its WGSL shaders (`terrain.wgsl`, `lighting.wgsl`,
`post.wgsl`) from `./shaders`, or from the directory that
`FEATHERED_SHADER_DIR` names. Packs and settings live in the data directory of
the operating system, or where `FEATHERED_DATA_DIR` points.

```
feathered first-run
feathered packs list|import <path>|use <id>|uninstall <id>|open-folder|browse|scan <dir>
feathered shaders list|import <path>|enable <id>|disable|uninstall <id>
feathered compile-pack [--required] [--pack-dir <dir>] [--out <cache>]
feathered validate [--pack-dir <dir>] [--cache <file>]
feathered render [--pack-dir <dir>] [--cache <file>] [--screenshot <file>] [--quality low|medium|high|ultra]
```
