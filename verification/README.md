# diwa-sync

Mesh sync for [diwa](https://github.com/Dorky-Robot/diwa) per-repo SQLite
indexes, with its rules verified by Verus. Each machine on a small SSH mesh runs
the same one-shot job, pulls SQLite-consistent snapshots from its peers, and
merges them into its own index additively.

## What a run does

For each peer, for each repo that either side has:

1. The peer takes a consistent snapshot of its `index.db`, which is copied to a
   local staging directory and then removed from the peer.
2. The snapshot is attached to the local index. Schemas have to match, and the
   local index must have its `UNIQUE` index over
   `(commit_sha, title, source_type)`; otherwise the repo is skipped with an error
   that says what is wrong.
3. The rows that the local index lacks are inserted in one transaction, and the
   search table is rebuilt if there were any.

A repo that only the peer has is pulled whole, one that only this machine has is
pushed as a seed. A lock directory keeps a second run out. `--dry-run` shows what
would happen, with merges tried on copies; `--peer` limits a run to some peers.

## Layout

| Place | What it holds |
|-------|---------------|
| `src/text.rs` | trimming, lines, order and replacement of text |
| `src/command.rs` | programs to run and what came of them |
| `src/config.rs` | where things are kept, and the configuration |
| `src/state.rs` | the bookkeeping of earlier runs |
| `src/peer.rs` | what is asked of a peer, and what its answers mean |
| `src/merge.rs` | schema checks and the course of a merge |
| `src/sync.rs` | the plan, the work on a repo, and the whole run |
| `src/corpus.rs` | what merging makes of a mesh of databases |
| `app/` | the program: it performs what the library asks for |
| `tests/` | the library on concrete values, and merges on real databases |

The library does no input or output. Where work outside and decisions alternate
(a snapshot, a seed, a merge, the work on a repo, a run), the library holds a
state machine: it says what is to be done next, the program does it and hands
back what came of it. The contracts give each machine's next request and next
state for every reply.

## What is proved

Besides the contract of each function, the library states laws about their
interplay as public proof functions named `lemma_*`. Among them:

- a merge makes the local index the union of both, loses no row, changes nothing
  the second time, and writes all or nothing when a step fails;
- it copies no row ids and writes to no table but `insights` and its search table;
- once every machine has visited every other, in any order, all of them hold the
  union of every corpus, where a visit is what the plan and the work on its repos
  make of two machines;
- a run visits each selected peer once and works once on each repo of either side,
  whichever peers and repos fail, and only behind the lock; a local listing that
  fails ends it;
- a run saves the bookkeeping that it loaded with a record for each repo whose merge
  succeeded, and no other;
- a dry run changes no index, no bookkeeping and no peer's data, and a repo that
  both sides have is never pushed;
- the bookkeeping is found again as it was recorded, and its file is the old one or
  the new one wherever a saving stops;
- only paths of snapshots are ever copied or removed at a peer, and quoted text is
  read back by the shell and by SQL as it was.

What is believed without proof is marked `Trusted:` at its place: a few functions
of the standard library, the home directory and the clock. SQLite, `ssh` and
`rsync` are outside: `corpus.rs` models what the statements of a merge do, and the
tests try it on real databases.

## Running

`ssh`, `rsync` and `sqlite3` on every machine, and passwordless SSH between each
pair of peers:

```sh
diwa-sync init                       # writes ~/.diwa-sync/config.toml
$EDITOR ~/.diwa-sync/config.toml     # peers = ["host-a", "host-b"]
diwa-sync --dry-run
diwa-sync
```

Logs are kept under `~/.diwa-sync/log/`, the lock is `~/.diwa-sync/lock.d/`.

## License

MIT OR Apache-2.0.
