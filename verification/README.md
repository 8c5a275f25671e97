# tributary-fs

The decision core of a Linux file-system watcher, verified with Verus.

A watcher talks to the kernel all the time: it opens, reads, waits, places
watches and walks directories. This library does none of that. It decides: what
the kernel said goes in as plain values, and what must be done next comes out
the same way. Each protocol is a state machine that says what it waits for
(`ask`) and takes what came of it (`step`). The contract of a step is exact: the
state after it is a spec function of the state before it and the answer.

## Layout

- `src/inotify/` decodes records (`decode`), attributes them to watches
  (`table`), and runs the reader: placing a watch (`arm`), carrying out a batch
  (`batch`), reading the queue down before a batch is answered (`cut`), renewing
  an instance before its descriptors run out (`instance`, `renewal`), and the
  loop around all that (`reader`, `port`).
- `src/fanotify/` decodes events (`wire`), keeps the map of a root's directories
  (`map`), admits events against it (`admission`), walks trees to fill it
  (`walk`, `tree`, `revealed`), and decides when to walk them (`upkeep`).
- `src/spawn/` starts a source on a root (`source`), opening it without
  following a symlink (`opening`).
- `src/lane.rs` decides what of all that is put on the consumer's queue, and what
  stands there for a batch that there is no room for.
- `src/attribution.rs`, `src/path.rs`, `src/mountinfo.rs`, `src/scope.rs`,
  `src/bytemap.rs`, `src/error.rs` and `src/watch.rs` are shared.
- `tests/` runs the machines against a kernel and a tree that the tests play.
- `app/` is the ordinary Rust around the library: it does what is asked, on real
  descriptors and threads.

## What is proved

Every function has a contract over a mathematical model. What relates several
functions stands as a public proof function whose name starts with `law_`, next
to the functions it is about or in a file of laws beside them.

A few facts of the outside are taken on trust, each in a function marked
`external_body`: the byte order of the machine, the bit that marks a valid mount
id, and the bits of a file's type.
