# io_reactor

The verified core of a small epoll reactor for TCP sockets.

- `src/reactor.rs` — the table of tasks parked on descriptor readiness
  (read token `2 * fd`, write token `2 * fd + 1`), how a batch of readiness
  events drains it, and the laws of that table.
- `src/history.rs` — the reactor's laws over any history of calls.
- `src/tcp.rs` — the step a socket future takes after a nonblocking attempt.
- `src/fd_flags.rs` — the status flags that make a descriptor nonblocking.
- `src/io_ctx.rs` — the notification modes of the I/O services.
- `src/waker_map.rs` — the trusted boundary to `rustc_hash`'s `FxHashMap`
  and `std::task::Waker`.
- `app/` — the poller, the system calls, the sockets and the futures
  traits, built on the library.
