# r_dns

A small DNS client library: it builds query packets and decodes the answers of a DNS
server, in the wire format of RFC 1035, with its behaviour stated in Verus contracts and
proved.

- `src/dns/types.rs`: the packet reader, the encoding/decoding traits, record types and
  classes, record data, and the mathematical outcome of decoding (`Parsed`).
- `src/dns/header.rs`, `name.rs`, `question.rs`, `record.rs`, `packet.rs`: each part of a
  message, with the bytes that encode it (`*_wire`), what decoding it gives (`parse_*`),
  and the proof that a fitting value decodes from its own encoding.
- `src/dns/name.rs` also follows compression pointers, and proves that a walk that goes on
  longer than the buffer has positions never ends (`DNSPacket::try_from_bytes` reports it).
- `src/query.rs`: the bytes of a query under a random id.
- `app/main.rs`: sends a query over UDP and prints the decoded answer.
