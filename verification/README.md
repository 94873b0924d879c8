# obsidian_vault

The core of an Obsidian vault, verified with Verus: what a note is made of, how its parts are
changed, how links find their notes, and what an index of a whole vault knows.

- `src/` is the verified library. It touches no disk: functions take what was read and say what is
  to be written, looked at next or forgotten. Contracts are stated over sequences of characters,
  maps and views of the types. Laws that span several functions are proof functions whose names
  start with `law_`.
- `tests/` runs the library on concrete notes and vaults.
- `app/` is the vault on disk: files, the full-text index, embeddings and the watcher.

| Module | About |
| --- | --- |
| `text`, `table` | texts as characters, lines and bytes; a map from strings |
| `yaml`, `json`, `pattern` | values of `serde_yaml` and `serde_json`, regular expressions |
| `frontmatter`, `parser`, `patch` | the parts of a note, and changes to them |
| `path`, `fs`, `exclude` | paths of a vault, listings, notes that are kept out |
| `wikilink`, `index`, `index_laws` | where links lead, the note index and its laws |
| `search_utils`, `tantivy_index`, `embeddings` | previews, rankings, documents, embeddings |
| `periodic` | daily, weekly, monthly, quarterly and yearly notes |
| `watcher`, `vault` | file system events, and the vault as a whole |

What is believed without proof stands behind small functions marked
`#[verifier::external_body]`, each of which names the function of another crate or of the standard
library that it calls, and in two assumed specifications, of `String::push` and `String::push_str`,
in `text`.
