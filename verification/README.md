# dnp3

A DNP3 / IEEE 1815 protocol library whose encoders, decoders and session logic are
verified with Verus, and a thin asynchronous runtime around it.

## Layout

- `src/primitives.rs`: protocol errors, addresses, 48-bit timestamps, the byte reader,
  and the link-layer CRC with its block framing.
- `src/link.rs`: link control fields and frames, their encoding and decoding.
- `src/transport.rs`: transport headers and segments, fragmentation and reassembly.
- `src/app.rs`: application control, function codes, object headers, point objects and
  fragments.
- `src/framing.rs`: the user data frames that carry a fragment's segments.
- `src/master.rs`: master session state and its decisions (which poll to send, which frames
  carry a request, what a received frame completes).
- `src/outstation.rs`: the outstation database and session, answering one frame at a time.
- `src/exchange.rs`: what a master's integrity poll gets back from an outstation.
- `src/stream.rs`: delimiting frames on a byte stream.
- `app/`: error types with `Display`, the wall clock, the asynchronous master and outstation
  loops, and the Tokio TCP and serial transports.
- `tests/`: executable tests of the library.

Point lists whose indices run upward without passing 65535 are sent with a range header;
all others carry a two-byte index before each point, which allows at most 255 points per
object. A fragment round-trips except where it holds a timestamp beyond 48 bits or a class 0
scan (whose header reads back as an integrity poll), sets a sequence number above 15, or
carries internal indications on a function that does not send them.

Each decoder is specified as a function on byte sequences and each encoder as the bytes it
appends; round-trip properties (CRC blocks, link frames, transport segments and
fragmentation, object headers, application fragments) and the end-to-end integrity poll are
stated as proof functions next to the code they speak of.
