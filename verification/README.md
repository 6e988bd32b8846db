# Rayo

File search for Windows: an index of the files of an NTFS volume, kept up to
date from the volume's change journal, and searched by name, by content and by
syntax.

`src/` is the library, verified with
[Verus](https://github.com/verus-lang/verus): each function against its
contract.

| Module | What it holds |
| --- | --- |
| `text`, `bytes`, `numbers`, `path`, `order` | characters, bytes, decimal numbers, Windows paths, a stable sort |
| `entry`, `arena`, `trigram`, `index` | entries, the search arena, the trigram index, the index of a volume |
| `relevance`, `search`, `agreement` | the order of results, the search for names, and when two searches agree |
| `ntfs`, `usn`, `drives` | drive names, UTF-16, journal records, lists of drives |
| `persist` | index files: what is stored of an index, and their format |
| `content`, `syntax` | the searches in files, one entry, line or node at a time |
| `service` | requests, answers, counters and drives of the service |
| `settings`, `apps`, `updates`, `window` | the desktop client |
| `setup` | the installation |

What holds of several functions together is stated in public proof functions
next to them, such as `search::results_hold_the_query`,
`agreement::trigrams_change_nothing`, `index::journal_keeps_sync` and
`persist::saved_index_is_loaded`.

Calls into other crates (`memchr`, `rayon`, `globset`, `bincode`, `zstd`,
`grep-regex`, `tree-sitter`) stand behind small wrappers whose contracts say
what is relied on. `tests/` runs the library with them. `app/` holds the
programs: reading volumes and files, the named pipe, the registry and the
terminal.
