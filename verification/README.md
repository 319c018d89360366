# hoppr

A command-line tool that keeps a list of Minecraft mods or plugins from
Modrinth in a CSV manifest, resolves their required dependencies, filters
them by side (client or server) and downloads them.

The decisions are a Verus library under `src/`:

- `manifest` reads and writes the manifest text: setting lines
  (`# minecraft: ...`), comment lines, and the CSV table of entries, with
  pinned versions written `=version` and Modrinth URLs read as slugs.
- `utils` pairs Modrinth projects with their entries, filters them by side
  and chooses the version to install.
- `commands` holds the state of `add` (queue, handled ids, added entries),
  and what `remove`, `list`, `download` and `export-json` compute.
- `modrinth` builds the API requests; `text` is character-level text
  handling; `bindings` holds the calls into std, `csv`, `regex` and
  `serde_json` whose contracts are taken as given.

`app/` is the program around it: clap, file I/O, HTTP with ureq, JSON with
serde, and progress bars with indicatif.

The commands are `init`, `add`, `remove`, `list`, `download` and
`export-json`. There is no `update` command: updating the versions in a
manifest (`hoppr update`, `hoppr update -c`) is not implemented, so no part
of the library decides it.

In the manifest, a `#` on a row starts an annotation where it follows white
space after the row's text and stands outside quotes; a line that begins
with `#` is a setting or a comment, and any other line is a row of the
table.
