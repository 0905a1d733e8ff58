# obsidian-cli

A command-line tool for Obsidian vaults that works on the vault's files
directly, without the desktop app: notes, links, tags, properties, tasks,
daily notes, search, templates, bookmarks and batch operations.

The crate is split in two:

- `src/` is the library, written in Verus. The tool's decisions on note text
  and vault data are there with contracts: parsing notes (frontmatter, wikilinks, tags, tasks,
  headings, word counts), the vault index (names, tags, backlinks,
  unresolved links, orphans, dead ends), note resolution, search and fuzzy
  ranking, the text rewrites of every command (tags lists, properties,
  tasks, appends, merges, splits, templates, link renames, batch renames
  and replacements) and the rendering of listings.
  - `src/kernel/`: text and path model, notes, index, search, output,
    configuration.
  - `src/plugins/`: the commands' text and planning logic.
  The calls into `regex`, `serde_yaml`, `fuzzy-matcher`, `colored`,
  `chrono` and `std::path` go through small trusted wrappers whose contracts
  name their results.
- `app/` is the binary: argument parsing with `clap`, finding the vault,
  reading and writing files, walking directories, prompts and the dry-run
  and confirmation gates around writes, JSON configuration files. It hands plain values to the library and prints what
  comes back.

`tests/` runs the library on concrete values.
