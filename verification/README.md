# scp_core

The transfer core of a dual-pane SFTP/FTP/S3 file manager, written in Verus:
each public function carries a `requires`/`ensures` contract that Verus
proves, and the properties that span several functions are stated as public
proof functions (`law_*`).

## Layout

| Path | What it is |
|------|------------|
| `src/text.rs` | Character-level text helpers shared by the parsers. |
| `src/types.rs` | Connection settings, remote entries, the library's error type. |
| `src/transport.rs` | The `Transport` trait: a remote filesystem modelled as a map from paths to nodes, with a record of the calls made on it. |
| `src/ops.rs` | Multi-file operations over a `Transport`: exclusion masks, recursive search and delete, transfer and sync planning (mirror deletions included), carrying out a plan. |
| `src/ftp.rs`, `src/ssh.rs`, `src/s3.rs` | Protocol rules: LIST parsing (through suppaftp) and FTP login, host-key policy and the known_hosts format, the mapping of paths onto S3 object keys. |
| `src/sites.rs`, `src/prefs.rs`, `src/profiles.rs`, `src/workspace.rs` | Saved sites (JSON exchange, WinSCP.ini import), preferences, workspace restore. |
| `src/panes.rs`, `src/desktop.rs`, `src/worker.rs`, `src/pool.rs` | The decisions behind the desktop front-end: conflicts, history, throttling, the transfer worker's state machine, the worker pool. |
| `src/cli.rs` | Argument and command parsing of the command-line client. |
| `src/ffi.rs` | The rules behind the C interface: connect arguments, the last-error record, event callbacks, the JSON handed back. |
| `app/` | Ordinary Rust around the library: the command-line client, the backends that talk to servers, the local filesystem side of transfers, the worker threads. |
| `tests/` | Tests on concrete values, run against the compiled library. |

## Trusted parts

The calls into suppaftp and into parts of std that Verus has no
specification for go through small wrappers marked
`#[verifier::external_body]`; each one's doc comment says what its contract
claims of the outside function. Everything else in `src/` is verified.
