# Brass

Brass is a small version control system: blobs, trees and commits named by
SHA-256, an index, branches, tags and *leaves* (branches that belong to a user),
line diffs and three-way merges, packs, access rules, and fetching over SSH.

- `src/` is the library: what is stored, decided and computed. It is verified
  with Verus, but for the few contracts on functions of other crates and of the
  standard library that are taken on trust. Files are not touched here. Functions
  take what was read and give what is to be written.
- `app/` is the command line program around it: files, network, arguments.
- `tests/` runs the library on concrete values.

## Layout of the library

| Modules | What they hold |
| --- | --- |
| `text`, `decimal`, `utf8`, `paths` | lines, words, numbers, encodings, paths |
| `hash`, `zlib`, `globs` | what comes from other crates |
| `mode`, `object`, `tree`, `commit`, `codec`, `show` | objects, and objects as bytes |
| `objects`, `pack`, `index` | loose objects, packs, and the index file |
| `diff`, `merge` | line differences by longest common subsequence, three-way merges |
| `store`, `history`, `lca`, `files`, `log`, `blame` | walks over commits and trees |
| `config`, `ignore`, `refs`, `remote` | settings, access rules, ignored files, refs, servers |
| `repository`, `checkout`, `status`, `upkeep`, `leaf`, `merging` | the commands |
| `laws` | what the commands promise together |

Contracts that are taken on trust stand on the items that make the calls, each
with a comment that names the function: in `hash`, `zlib` and `globs` for the
crates `sha2`, `flate2` and `globset`, in `utf8` for `String::from_utf8` and
`String::from_utf8_lossy`, and in `text` for `String::push` and
`char::is_whitespace`.

A walk over the history does not read files. It names the object it needs next,
takes the object in, and goes on; its contract says that the outcome depends on
the objects alone.

Paths are text with slashes. Two paths are the same if their components are.
