# elden_mod_loader_gui

The logic of a mod manager for Elden Ring's mod loader, written in Verus and
proved against its contracts.

Layout:

- `src/` is the verified library.
  - `paths.rs`, `text.rs`, `collections.rs`: path parts, decimal text and
    the small collections the rest is built on, with their models.
  - `files.rs`: file names, the `.disabled` state of a file and toggling it.
  - `ini_store.rs`: the INI document model and the calls into `rust-ini`.
  - `utils/ini/`: the app's config file (`parser.rs`, `writer.rs`), the mod
    loader's config and its load order (`mod_loader.rs`), and the game
    directory checks (`common.rs`).
  - `utils/installer.rs`: planning an install and a removal of mod files.
  - `utils/display.rs`: how mods and paths are listed.
  - `utils/sortable.rs`: putting the listed mods in load order.
- `tests/` runs the library on concrete values.
- `app/` is the command line around the library: it reads and writes files
  and the file system, and logs with `tracing`.
