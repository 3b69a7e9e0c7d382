# mosh-rs

The server side of [mosh](https://mosh.org/), the mobile shell, with its logic
verified in [Verus](https://github.com/verus-lang/verus).

- `src/` is the library: keys and packets (`crypto`, `radix64`, `octets`,
  `network`), messages on the wire (`wire`, `messages`, `user_message`,
  `host_message`), fragments (`fragment`, `reassembly`), state synchronization
  (`transport`, `synchronization`, `runs`), the decisions of the server loop
  (`server`), and what the server is asked to do (`options`, `ports`, `text`, `launch`). It
  does no I/O. Functions whose names end in `_at` take readings of the clock as
  arguments; their namesakes read the clock. `tick_at` and `close_round_at` take
  the time of the tick, and read the clock again for each packet that they send.
- `app/` is the program around it: sockets, the terminal, processes, and the
  estimate of the round trip, which is kept in floating point.
- `tests/` runs the library, with the ciphers, zlib and the protocol buffer
  primitives that it calls.

What is trusted is marked `external_body` or `assume_specification`, with a
comment that says what is claimed: OCB3 of AES-128, base64, zlib, the
primitives of the protocol buffer wire format, random bytes and the clock.
