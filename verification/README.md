# mailprune

Email triage for the terminal. Mail is stacked by who sent it, so a decision
made once — this sender is junk — applies to everything they ever sent: trash
it, archive it, mark it read, unsubscribe.

The library is written in Verus: what it does is stated in the contracts of its
functions and proved.

## Layout

- `src/stacks.rs` — messages, and how they become stacks
- `src/sort.rs` — stable sorting by any order
- `src/imap_client.rs` — what is asked of an IMAP server: the sweep of a window
  of the mailbox, the fan-out to everything one sender sent, UID sets, headers
- `src/unsubscribe.rs` — reading List-Unsubscribe, and what each way out takes
- `src/action_log.rs`, `src/debuglog.rs` — the log of decisions, the debug log
- `src/config.rs`, `src/cli.rs` — accounts, passwords, the command line
- `src/session.rs` — the course of a session and its summary
- `src/ui/account.rs`, `src/ui/app.rs` — the state of the application, and what
  every key and every finished job does to it
- `src/ui/jobs.rs` — work for the background, step by step
- `src/ui/view.rs`, `src/ui/widgets.rs` — what the screen says
- `src/ui/laws.rs` — what the application promises in every state
- `src/text.rs`, `src/clock.rs` — texts and points in time
- `app/` — the program: terminal, sockets, keychain and files
- `tests/` — the library on concrete mail

Public proof functions with a sentence for a name state what holds of the
library as a whole, such as `stacks_hold_every_message` or
`the_number_confirmed_is_the_number_that_moves`.
