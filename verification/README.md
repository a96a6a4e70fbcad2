# beamup

Keeps a local directory and a directory on a remote machine (a "beam") in sync.

The logic is a Verus library under `src/`. All of it is verified but for fourteen small functions that
call outside crates, whose contracts are taken for granted, as is that of `String::push`. `app/` holds
the program around it: arguments, files, processes and the event loops. `tests/` runs the library.

| Module | What it holds |
| --- | --- |
| `text`, `paths`, `states` | text, numerals, paths, maps keyed by paths |
| `codec`, `messages` | frames on the wire, and the messages of the protocol |
| `hash`, `compress` | hashes of contents, compressed blocks and chunks |
| `ignore_rules`, `manifest` | what takes part in a sync, listings of trees, the plan of a sync |
| `watch` | what the watchers of both sides report |
| `agent`, `agent_cli` | the remote side: its session and its command line |
| `engine`, `initial` | the local side: its session, the initial sync and its progress |
| `transfer`, `chunked` | batches, chunked transfers, the commands they run remotely |
| `beam`, `deploy`, `session`, `progress` | the remote machine, the agent's deployment, saved sessions, the progress bar |

Both sides are state machines. A side is handed what happened (a message, an event, what was found on
disk) and says what to do next; `app/` does it and hands back what came of it. What each step does is
stated in the contracts, and what follows for whole sessions in the public proof functions, whose
names begin with `lemma_`.

The library calls `bytes`, `lz4_flex`, `xxhash-rust`, `ignore` and `flate2`. Each call stands in a
small function marked `#[verifier::external_body]`, whose comment says what is taken for granted.
