use vstd::prelude::*;

use crate::dns::types::{
    be_u16, lemma_be_u16_value, lemma_u16_bytes_value, read_span, reports, u16_bytes, write_u16, BytePacketReader, DNSDecodable, DNSEncodable,
    DNSResult, Parsed,
};

verus! {

pub const RECURSION_DESIRED: u16 = 256;

/// The twelve-byte header that starts every DNS message.
#[derive(Debug, Clone, Copy, PartialEq, Eq, Structural)]
pub struct DNSHeader {
    pub id: u16,
    pub flags: u16,
    pub num_questions: u16,
    pub num_answers: u16,
    pub num_authorities: u16,
    pub num_additionals: u16,
}

impl View for DNSHeader {
    type V = DNSHeader;

    open spec fn view(&self) -> DNSHeader {
        *self
    }
}

/// The twelve bytes of `h`: its six fields in order, each big-endian.
pub open spec fn header_wire(h: DNSHeader) -> Seq<u8> {
    u16_bytes(h.id) + u16_bytes(h.flags) + u16_bytes(h.num_questions) + u16_bytes(h.num_answers)
        + u16_bytes(h.num_authorities) + u16_bytes(h.num_additionals)
}

/// The header whose twelve bytes are `b`.
pub open spec fn header_of_bytes(b: Seq<u8>) -> DNSHeader {
    DNSHeader {
        id: be_u16(b.subrange(0, 2)),
        flags: be_u16(b.subrange(2, 4)),
        num_questions: be_u16(b.subrange(4, 6)),
        num_answers: be_u16(b.subrange(6, 8)),
        num_authorities: be_u16(b.subrange(8, 10)),
        num_additionals: be_u16(b.subrange(10, 12)),
    }
}

/// Decoding a header from `buf` at `pos`: twelve bytes are read, and they must all be there.
pub open spec fn parse_header(buf: Seq<u8>, pos: int) -> Parsed<DNSHeader> {
    match read_span(buf, pos, 12) {
        Parsed::Done(b, p) => Parsed::Done(header_of_bytes(b), p),
        Parsed::Failed(e, p) => Parsed::Failed(e, p),
        Parsed::Hangs => Parsed::Hangs,
    }
}

impl DNSEncodable for DNSHeader {
    open spec fn wire(&self) -> Seq<u8> {
        header_wire(*self)
    }

    fn write_bytes(&self, writer: &mut Vec<u8>) -> (r: DNSResult<()>) {
        write_u16(writer, self.id);
        write_u16(writer, self.flags);
        write_u16(writer, self.num_questions);
        write_u16(writer, self.num_answers);
        write_u16(writer, self.num_authorities);
        write_u16(writer, self.num_additionals);
        Ok(())
    }
}

impl DNSDecodable for DNSHeader {
    open spec fn decoding_halts(buf: Seq<u8>, pos: int) -> bool {
        true
    }

    fn from_bytes(reader: &mut BytePacketReader) -> (r: DNSResult<Self>)
        ensures
            reports(
                parse_header(old(reader).buffer@, old(reader).position as int),
                r,
                final(reader).position as int,
            ),
    {
        let ghost buf = reader.buffer@;
        let ghost start = reader.position as int;
        let id: u16 = reader.read_u16()?;
        let flags: u16 = reader.read_u16()?;
        let num_questions: u16 = reader.read_u16()?;
        let num_answers: u16 = reader.read_u16()?;
        let num_authorities: u16 = reader.read_u16()?;
        let num_additionals: u16 = reader.read_u16()?;
        proof {
            let b = buf.subrange(start, start + 12);
            assert(b.subrange(0, 2) == buf.subrange(start, start + 2));
            assert(b.subrange(2, 4) == buf.subrange(start + 2, start + 4));
            assert(b.subrange(4, 6) == buf.subrange(start + 4, start + 6));
            assert(b.subrange(6, 8) == buf.subrange(start + 6, start + 8));
            assert(b.subrange(8, 10) == buf.subrange(start + 8, start + 10));
            assert(b.subrange(10, 12) == buf.subrange(start + 10, start + 12));
        }
        Ok(
            DNSHeader {
                id,
                flags,
                num_questions,
                num_answers,
                num_authorities,
                num_additionals,
            },
        )
    }
}

impl DNSHeader {
    fn new(id: u16) -> (h: Self)
        ensures
            h == (DNSHeader {
                id,
                flags: 0,
                num_questions: 0,
                num_answers: 0,
                num_authorities: 0,
                num_additionals: 0,
            }),
    {
        DNSHeader {
            id,
            flags: 0,
            num_questions: 0,
            num_answers: 0,
            num_authorities: 0,
            num_additionals: 0,
        }
    }

    /// The header of a query with the given `id` that asks one question and wants recursion.
    pub fn new_query(id: u16) -> (h: Self)
        ensures
            h == (DNSHeader {
                id,
                flags: RECURSION_DESIRED,
                num_questions: 1,
                num_answers: 0,
                num_authorities: 0,
                num_additionals: 0,
            }),
    {
        let mut header = Self::new(id);
        header.flags = RECURSION_DESIRED;
        header.num_questions = 1;
        header
    }
}

/// Decoding the bytes of a header gives that header back, and the reader stops right after them.
pub proof fn lemma_header_roundtrip(h: DNSHeader, buf: Seq<u8>, pos: int)
    requires
        0 <= pos,
        pos + 12 <= buf.len(),
        buf.subrange(pos, pos + 12) == header_wire(h),
    ensures
        parse_header(buf, pos) == Parsed::Done(h, pos + 12),
{
    let b = buf.subrange(pos, pos + 12);
    assert(b.subrange(0, 2) == u16_bytes(h.id));
    assert(b.subrange(2, 4) == u16_bytes(h.flags));
    assert(b.subrange(4, 6) == u16_bytes(h.num_questions));
    assert(b.subrange(6, 8) == u16_bytes(h.num_answers));
    assert(b.subrange(8, 10) == u16_bytes(h.num_authorities));
    assert(b.subrange(10, 12) == u16_bytes(h.num_additionals));
}

/// The big-endian number in the two bytes of `buf` at `i`.
pub open spec fn pair_at(buf: Seq<u8>, i: int) -> int {
    buf[i] as int * 0x100 + buf[i + 1] as int
}

/// Decoding a header takes its fields from the twelve bytes at `pos` in RFC 1035 order (section
/// 4.1.1), each big-endian: ID, flags, QDCOUNT, ANCOUNT, NSCOUNT, ARCOUNT; the reader ends
/// after them.
pub proof fn lemma_header_layout(buf: Seq<u8>, pos: int)
    requires
        0 <= pos,
        pos + 12 <= buf.len(),
    ensures
        parse_header(buf, pos) matches Parsed::Done(h, p) && {
            &&& p == pos + 12
            &&& h.id as int == buf[pos] as int * 0x100 + buf[pos + 1] as int
            &&& h.flags as int == buf[pos + 2] as int * 0x100 + buf[pos + 3] as int
            &&& h.num_questions as int == buf[pos + 4] as int * 0x100 + buf[pos + 5] as int
            &&& h.num_answers as int == buf[pos + 6] as int * 0x100 + buf[pos + 7] as int
            &&& h.num_authorities as int == buf[pos + 8] as int * 0x100 + buf[pos + 9] as int
            &&& h.num_additionals as int == buf[pos + 10] as int * 0x100 + buf[pos + 11] as int
        },
{
    let b = buf.subrange(pos, pos + 12);
    lemma_be_u16_value(b.subrange(0, 2));
    lemma_be_u16_value(b.subrange(2, 4));
    lemma_be_u16_value(b.subrange(4, 6));
    lemma_be_u16_value(b.subrange(6, 8));
    lemma_be_u16_value(b.subrange(8, 10));
    lemma_be_u16_value(b.subrange(10, 12));
    assert(be_u16(b.subrange(0, 2)) as int == pair_at(buf, pos));
    assert(be_u16(b.subrange(2, 4)) as int == pair_at(buf, pos + 2));
    assert(be_u16(b.subrange(4, 6)) as int == pair_at(buf, pos + 4));
    assert(be_u16(b.subrange(6, 8)) as int == pair_at(buf, pos + 6));
    assert(be_u16(b.subrange(8, 10)) as int == pair_at(buf, pos + 8));
    assert(be_u16(b.subrange(10, 12)) as int == pair_at(buf, pos + 10));
}

/// The bytes of a header are its fields in RFC 1035 order (section 4.1.1), each big-endian:
/// ID, flags, QDCOUNT, ANCOUNT, NSCOUNT, ARCOUNT.
pub proof fn lemma_header_wire_layout(h: DNSHeader)
    ensures
        header_wire(h).len() == 12,
        pair_at(header_wire(h), 0) == h.id as int,
        pair_at(header_wire(h), 2) == h.flags as int,
        pair_at(header_wire(h), 4) == h.num_questions as int,
        pair_at(header_wire(h), 6) == h.num_answers as int,
        pair_at(header_wire(h), 8) == h.num_authorities as int,
        pair_at(header_wire(h), 10) == h.num_additionals as int,
{
    lemma_u16_bytes_value(h.id);
    lemma_u16_bytes_value(h.flags);
    lemma_u16_bytes_value(h.num_questions);
    lemma_u16_bytes_value(h.num_answers);
    lemma_u16_bytes_value(h.num_authorities);
    lemma_u16_bytes_value(h.num_additionals);
    let w = header_wire(h);
    assert(w[0] == u16_bytes(h.id)[0] && w[1] == u16_bytes(h.id)[1]);
    assert(w[2] == u16_bytes(h.flags)[0] && w[3] == u16_bytes(h.flags)[1]);
    assert(w[4] == u16_bytes(h.num_questions)[0] && w[5] == u16_bytes(h.num_questions)[1]);
    assert(w[6] == u16_bytes(h.num_answers)[0] && w[7] == u16_bytes(h.num_answers)[1]);
    assert(w[8] == u16_bytes(h.num_authorities)[0] && w[9] == u16_bytes(h.num_authorities)[1]);
    assert(w[10] == u16_bytes(h.num_additionals)[0] && w[11] == u16_bytes(
        h.num_additionals,
    )[1]);
}

} // verus!
