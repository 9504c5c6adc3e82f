# psas_telemetry

Reading and writing the binary messages of the PSAS rocket telemetry
framework, verified with Verus.

A log is a sequence of messages; each message is a 12-byte header (a four
character code, a 48-bit big-endian timestamp and a 16-bit big-endian body
size) followed by its body.

- `src/wire.rs`: big-endian integers, read and written through `byteorder`.
- `src/messages.rs`: the header, its encoding, and the `SEQN` body.
- `src/raw.rs`: unpacking the raw field values of a body, given its layout.
- `src/log.rs`: splitting a log into messages, and the laws that a written
  log reads back.
- `src/stats.rs`: statistics over a log.
- `src/trunc.rs`: cutting a log down to a range of sequence numbers.
- `src/extract.rs`: the messages of one type.
- `app/`: file reading and writing and the command-line utilities.
