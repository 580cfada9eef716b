# QRT

Real-time media transport over bare UDP, for a known peer: pacing, congestion
control, retransmission, XOR parity, arrival reports and jitter buffers on one
datagram format and one socket. The library is verified with Verus.

- `src/` is the library. It does no I/O and reads no clock. Each state machine
  has a model that its contracts are stated over; `delivery.rs` holds what is
  promised from end to end: a frame that was handed in comes out whole at the
  peer, whatever is lost, repeated or reordered on the way, as long as each
  fragment arrives once or is rebuilt; one counter numbers all that leaves; a
  long send queue lowers the rate of the encoders.
- `app/` is the host around it: the Tokio loop, the queues between encoders and
  the session, error types, and the smoothing that is done in floating point.
- `tests/` runs the library on concrete datagrams.

Times are unsigned nanoseconds that saturate. What the library takes from
outside crates (`bytes` for shared byte strings and big-endian fields, `ahash`
for hash tables) stands behind the trusted declarations in `octets.rs` and
`table.rs`; nothing else is taken on trust.

## Datagrams

A 20-byte big-endian header, then the body:

| bytes | field |
| ----- | ----- |
| 0 | version (2 bits), type (3 bits), flags (3 bits) |
| 1 | stream |
| 2-3 | media sequence number, per stream |
| 4-5 | transport sequence number, per session, given at departure |
| 6-9 | frame |
| 10-11, 12-13 | fragment index, fragment count |
| 14-17 | timestamp, 90 kHz |
| 18-19 | remaining lifetime in milliseconds |

Sequence numbers compare on a circle. A datagram whose lifetime is over is
dropped, not sent late.
