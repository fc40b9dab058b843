# stupid_fish

Helpers that a fish shell build uses to talk to other processes: the directory history
of `cd`, the process channel that tells watchers which command runs in the foreground,
the names of the shell's abstract Unix sockets, and the history servers.

- `src/` is the library, verified with Verus:
  - `builtins/cd/history.rs`: the bounded directory history (`History`), with its two
    indexes (path → last visit, instant → path), eviction of the oldest entry, listing
    newest first, and the laws those operations keep.
  - `hack.rs`: socket names, the command name of a command line, the boss handshake
    bytes, and the timeouts of the waits.
  - `hack/proc_man.rs`: the process channel server as a state machine
    (`ChannelServer::handle`), and what a datagram to the status server asks for.
  - `hack/proc_man/request.rs`: the request codes.
  - `history/server.rs`: the socket ids of the history servers and which of them the
    shell starts.
- `app/` runs the sockets, threads, the async runtime and the C entry points around the
  library.
- `tests/` exercises the library on concrete values.
