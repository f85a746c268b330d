use vstd::prelude::*;

use crate::dns::header::DNSHeader;
use crate::dns::name::{name_fits, DnsName};
use crate::dns::packet::{
    lemma_packet_roundtrip, packet_wire, parse_packet, DNSPacket, PacketView,
};
use crate::dns::question::{DNSQuestion, QuestionView};
use crate::dns::types::{type_is_canonical, DNSEncodable, Parsed, RecordClass, RecordType};

verus! {

/// A fresh query id from `rand::random::<u16>()` (rand's thread-local generator). Nothing is
/// claimed of the value: any `u16` may come back.
#[verifier::external_body]
fn random_id() -> u16 {
    rand::random::<u16>()
}

/// The query with the given id that asks for records of type `record_type` and class `IN`
/// of `name`.
pub open spec fn query_view(id: u16, name: Seq<char>, record_type: RecordType) -> PacketView {
    PacketView {
        header: DNSHeader {
            id,
            flags: crate::dns::header::RECURSION_DESIRED,
            num_questions: 1,
            num_answers: 0,
            num_authorities: 0,
            num_additionals: 0,
        },
        questions: seq![QuestionView { name, type_: record_type, class: RecordClass::IN }],
        answers: Seq::empty(),
        authorities: Seq::empty(),
        additionals: Seq::empty(),
    }
}

/// A query for a fitting name and a canonical type reads back as the same query from a buffer
/// that holds its bytes at `pos`.
pub proof fn lemma_query_roundtrip(
    id: u16,
    name: Seq<char>,
    record_type: RecordType,
    buf: Seq<u8>,
    pos: int,
)
    requires
        name_fits(name),
        type_is_canonical(record_type),
        0 <= pos,
        pos + packet_wire(query_view(id, name, record_type)).len() <= buf.len(),
        buf.subrange(pos, pos + packet_wire(query_view(id, name, record_type)).len())
            == packet_wire(query_view(id, name, record_type)),
    ensures
        parse_packet(buf, pos) == Parsed::Done(
            query_view(id, name, record_type),
            pos + packet_wire(query_view(id, name, record_type)).len(),
        ),
{
    lemma_packet_roundtrip(query_view(id, name, record_type), buf, pos);
}

/// The bytes of the query with id `id` for records of type `record_type` of `domain_name`.
pub fn build_query_with_id(id: u16, domain_name: DnsName, record_type: RecordType) -> (bytes: Vec<
    u8,
>)
    ensures
        bytes@ == packet_wire(query_view(id, domain_name@, record_type)),
{
    let mut query = DNSPacket::new(DNSHeader::new_query(id));
    let ghost name = domain_name@;
    query.questions.push(DNSQuestion { name: domain_name, type_: record_type, class: RecordClass::IN });
    let mut query_buf: Vec<u8> = Vec::new();
    let _ = query.write_bytes(&mut query_buf);
    proof {
        let q = QuestionView { name, type_: record_type, class: RecordClass::IN };
        assert(query.questions@.len() == 1);
        assert(query.questions@[0]@ == q);
        assert(query@.questions =~= seq![q]);
        assert(query@ =~= query_view(id, name, record_type));
    }
    query_buf
}

/// The bytes of a query for records of type `record_type` of `domain_name`, under a random id.
pub fn build_query(domain_name: DnsName, record_type: RecordType) -> (bytes: Vec<u8>)
    ensures
        exists|id: u16| bytes@ == packet_wire(query_view(id, domain_name@, record_type)),
{
    let id: u16 = random_id();
    build_query_with_id(id, domain_name, record_type)
}

} // verus!
