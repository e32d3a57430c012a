# herdr-tg, verified

The logic of the hub's Telegram bridge that decides things, proved with Verus:

* `src/mirror.rs` — what an agent's pane has newly said (`new_since`), whether it is worth a
  message, and the per-pane `Mirror` that relays only settled screens and never the same text twice
  in a row. Its laws are stated over `observe_spec`.
* `src/prose.rs` — telling a sentence from tool output.
* `src/media.rs` — the mailbox trees: names the hub will open, extensions from a fixed table,
  minted file names, and the verdicts on what the disk reports about a directory or an opened file.
* `src/sweep.rs` — which files a sweep takes away: aged out, then oldest first past the cap.
* `src/stamp.rs` — numbers as text and the UTC stamp, with the proof that the stamp is the
  Gregorian date.
* `src/lock.rs` — what the operator is told when the hub may not start, and the holder's pid read
  back.
* `src/text.rs`, `src/table.rs` — lines, trimming and joining over characters; a map from pane
  names.

`app/` holds what touches the disk and the process: the `flock`, the directories, the walk of a
tree, the capped writer, and `main`.
