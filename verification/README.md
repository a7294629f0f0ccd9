# fvcs

A version control system for Figura avatars, with a server that hosts
repositories for many users. The logic is a library verified with Verus; the
program around it (command line, server, files and network) lives in `app/`.

## Library (`src/`)

| Module | What it holds |
| --- | --- |
| `clock` | the system clock and calendar text (RFC 3339 times, UTC dates) |
| `text`, `fields`, `number` | string helpers with specifications: trimming, splitting, decimal text and parsing |
| `strmap` | `StrMap`, a map from strings kept in key order, viewed as a `Map` |
| `glob`, `ignore` | wildcard matching and `.fvcsignore` patterns |
| `object` | content hashes (SHA-256), zlib compression, object paths |
| `repo`, `refs` | repository layout, HEAD and references, revision resolution |
| `index`, `status`, `commit` | staging area, status classification, commit checks |
| `history` | the walk through history that finds reachable commits and ancestors |
| `config`, `global_config` | remotes, linked libraries, identity and tokens |
| `registry`, `workflow`, `readme`, `avatar` | library versions, push/pull/sync decisions, `avatar.json` and the READMEs generated from it |
| `diff` | text detection, changed paths, unified diffs |
| `gc` | garbage collection decisions and repository sizes |
| `access`, `remote` | the server's rules (names, credentials, rate limits, proof of life, access rights) and how the client reads its answers |

Outside crates are reached through a few trusted wrappers: `sha2`, `flate2`,
`similar`, `chrono`, `serde_json`, `getrandom`, and `std::str::from_utf8`,
`String::push`, `SystemTime`.

Maps and sets keyed by text are `StrMap`, a sorted list of pairs with its own
proofs, in place of std's `BTreeMap`, `BTreeSet`, `HashMap` and `HashSet` with
`String` keys. vstd describes a `HashMap` only for key types it knows to hash
consistently, and these are the primitive types, not `String`; its `BTreeMap`
description rests on `obeys_cmp` for the key type, which vstd does not give for
`String`. Either would have to be assumed, and the library assumes nothing.
For the same reason the proof-of-life guard keeps the challenges it has seen in
a `Vec` of pairs. Queues (the history walk, the rate limiter's buckets) are
std's `VecDeque`, which vstd describes.

## Program (`app/`)

`app/main.rs` runs the command line, or the server when started as
`fvcs-server`. It reads and writes the files, talks HTTP, keeps the server's
SQLite database, and asks the library what to do at each step.
