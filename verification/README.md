# slcan

Serial-line CAN (SLCAN): CAN frames as text lines, verified with Verus.

- `src/canframe.rs`: the CAN frame and its mathematical model.
- `src/slcan.rs`: hexadecimal digits, reading and writing frame lines, the
  frame codec over a `bytes::BytesMut` stream, and the proofs that a written
  line reads back as its frame and a canonical line is written back unchanged.
- `src/line.rs`: a codec that cuts a stream into UTF-8 text lines.
- `src/buffer.rs`: the trusted view of `bytes::BytesMut`.
- `src/protocols/transport/isotp.rs`: ISO-TP data types and payload packing.
- `app/`: the program that talks to a serial adapter through tokio, with the
  tokio codec traits implemented over the library's codecs.
