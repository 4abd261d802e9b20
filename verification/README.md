# snowstorm

Channels for work that is done in frames, verified with Verus.

- `channel`: many senders, many receivers; every receiver reads every message.
- `mpsc`: many senders and one receiver, which takes the messages out.
- `select`: waits for whichever of several events comes first.

Messages are grouped in frames. A frame has come to its end when no sender stands
in it or before it any more. Senders and receivers go on to the next frame when they
choose to, so the messages of a frame can be gathered ahead of time.

## Layout

The blocks of a channel belong to a `Hub`. Senders and receivers are positions in
it, and each operation takes the hub by `&mut`. In the same way selects and their
handles share a `Switchboard`.

- `src/model.rs`: the mathematical picture of a hub, what every operation does to
  it, and what every operation keeps.
- `src/hub.rs`: the hub itself, and the pointers into it. What everybody has passed
  is freed, so that a hub keeps no more than about twice what is of use.
- `src/stream.rs`: what a receiver can read from a hub.
- `src/buffer.rs`: where a sender gathers its messages.
- `src/channel.rs`, `src/mpsc.rs`: the two channels.
- `src/history.rs`: what holds of any run of a channel, step by step.
- `src/select.rs`: selects, handles and wake-ups.
- `src/cells.rs`: the cells of `atom` and the signals of `pulse`.
- `app/`: the same types for use across threads, with the hub behind a lock.

Functions whose names start with `law_` state what holds of the library as a whole.

## What is trusted

What `atom` and `pulse` do is stated in `src/cells.rs`, and in `src/select.rs` for
the stack of triggered handles. `Vec::capacity` has a contract in `src/buffer.rs`.
Everything else under `src/` is proved.
