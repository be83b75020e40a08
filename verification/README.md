# rdp_client

A headless RDP client's protocol core, in Verus: executable Rust whose behaviour is stated
in contracts and proved.

- `src/` is the library. It reads and writes every PDU of a session, runs the connection
  sequence, decodes the graphics pipeline's codecs, composes the desktop, and decides what
  becomes of input, audio and video on their way in. It touches no socket, thread or clock.
- `tests/` runs it on concrete bytes.
- `app/` is what surrounds it: the socket, the queues between threads, and the traits of
  the crates it lives with.

A parser's contract names the bytes it accepts, what it makes of them, and the fault it
reports for every other input. An encoder's contract names the bytes it writes. A decoder
or a state machine has a model, in `spec fn`s, of what one input does to its state, and the
executable code is proved equal to it. What holds across calls (that a cut PDU arrives
whole, that a frame shows only at its end, that no audio is lost between packets) stands
as a public `proof fn` with its statement in words above it.

Three crates are called from inside the library, each behind a declaration that says what
is relied on: `openh264` decodes H.264, `yuv` converts its pictures to RGB, and `sspi` runs
the CredSSP exchange. `anyhow` errors can be turned into the library's own.

The graphics pipeline's PDUs come in segments that may be compressed in bulk. Taking them
out of those segments is left to the caller: `Graphics::receive` starts from the buffer of
PDUs inside.
