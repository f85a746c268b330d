use vstd::prelude::*;

use crate::dns::name::{decode_name, lemma_name_roundtrip, lemma_parse_name_end, name_fits, name_wire, parse_name, DnsName};
use crate::dns::types::{
    class_is_canonical, lemma_be_u16_value, lemma_class_code_roundtrip, lemma_class_roundtrip,
    lemma_type_code_roundtrip, lemma_u16_bytes_value, lemma_piece, lemma_type_roundtrip,
    lemma_u16_roundtrip, read_span, record_class_code, type_is_canonical, record_class_of, record_type_code, record_type_of, reports,
    u16_bytes, write_u16, BytePacketReader, DNSDecodable, DNSEncodable, DNSResult, Parsed,
    RecordClass, RecordType,
};

verus! {

/// A question of a DNS message: a name, and the type and class of the records asked for.
#[derive(Debug)]
pub struct DNSQuestion {
    pub name: DnsName,
    pub type_: RecordType,
    pub class: RecordClass,
}

/// The mathematical value of a `DNSQuestion`.
pub struct QuestionView {
    pub name: Seq<char>,
    pub type_: RecordType,
    pub class: RecordClass,
}

impl View for DNSQuestion {
    type V = QuestionView;

    open spec fn view(&self) -> QuestionView {
        QuestionView { name: self.name@, type_: self.type_, class: self.class }
    }
}

/// The bytes of a question: its name, then the codes of its type and class, big-endian.
pub open spec fn question_wire(q: QuestionView) -> Seq<u8> {
    name_wire(q.name) + u16_bytes(record_type_code(q.type_)) + u16_bytes(
        record_class_code(q.class),
    )
}

/// Decoding a question from `buf` at `pos`: a name, then a type code and a class code.
pub open spec fn parse_question(buf: Seq<u8>, pos: int) -> Parsed<QuestionView> {
    parse_name(buf, pos).and_then(
        |name: Seq<char>, p: int|
            read_span(buf, p, 2).map_u16().and_then(
                |t: u16, p: int|
                    read_span(buf, p, 2).map_u16().and_then(
                        |c: u16, p: int|
                            Parsed::Done(
                                QuestionView {
                                    name,
                                    type_: record_type_of(t),
                                    class: record_class_of(c),
                                },
                                p,
                            ),
                    ),
            ),
    )
}

/// A question that decodes from its own encoding: its name fits, and its type and class are
/// canonical.
pub open spec fn question_fits(q: QuestionView) -> bool {
    name_fits(q.name) && type_is_canonical(q.type_) && class_is_canonical(q.class)
}

/// A fitting question decodes from its own encoding, with the reader right after it.
pub proof fn lemma_question_roundtrip(q: QuestionView, buf: Seq<u8>, pos: int)
    requires
        question_fits(q),
        0 <= pos,
        pos + question_wire(q).len() <= buf.len(),
        buf.subrange(pos, pos + question_wire(q).len()) == question_wire(q),
    ensures
        parse_question(buf, pos) == Parsed::Done(q, pos + question_wire(q).len()),
{
    let w = question_wire(q);
    let nw = name_wire(q.name);
    let n = nw.len() as int;
    let tc = record_type_code(q.type_);
    let cc = record_class_code(q.class);
    assert(w.subrange(0, n) =~= nw);
    assert(w.subrange(n, n + 2) =~= u16_bytes(tc));
    assert(w.subrange(n + 2, n + 4) =~= u16_bytes(cc));
    lemma_piece(buf, pos, w, 0, n);
    lemma_piece(buf, pos, w, n, n + 2);
    lemma_piece(buf, pos, w, n + 2, n + 4);
    lemma_name_roundtrip(q.name, buf, pos);
    lemma_u16_roundtrip(tc);
    lemma_u16_roundtrip(cc);
    lemma_type_roundtrip(q.type_);
    lemma_class_roundtrip(q.class);
}

/// Decoding a question takes, right after its name, the type code and then the class code,
/// each big-endian (RFC 1035, section 4.1.2), and leaves the reader after them.
pub proof fn lemma_question_layout(buf: Seq<u8>, pos: int)
    requires
        parse_question(buf, pos) is Done,
    ensures
        parse_name(buf, pos) matches Parsed::Done(name, p) && (parse_question(buf, pos) matches Parsed::Done(
            q,
            end,
        ) && {
            &&& 0 <= p
            &&& end == p + 4
            &&& q.name == name
            &&& record_type_code(q.type_) as int == buf[p] as int * 0x100 + buf[p + 1] as int
            &&& record_class_code(q.class) as int == buf[p + 2] as int * 0x100 + buf[p + 3] as int
        }),
{
    lemma_parse_name_end(buf, pos);
    if let Parsed::Done(name, p) = parse_name(buf, pos) {
        assert(read_span(buf, p, 2) is Done);
        assert(read_span(buf, p + 2, 2) is Done);
        lemma_be_u16_value(buf.subrange(p, p + 2));
        lemma_be_u16_value(buf.subrange(p + 2, p + 4));
        lemma_type_code_roundtrip(crate::dns::types::be_u16(buf.subrange(p, p + 2)));
        lemma_class_code_roundtrip(crate::dns::types::be_u16(buf.subrange(p + 2, p + 4)));
    }
}

/// The bytes of a question are its name's bytes, then its type code and its class code, each
/// big-endian.
pub proof fn lemma_question_wire_layout(q: QuestionView)
    ensures
        ({
            let w = question_wire(q);
            let n = name_wire(q.name).len() as int;
            &&& w.len() == n + 4
            &&& w.subrange(0, n) == name_wire(q.name)
            &&& w[n] as int * 0x100 + w[n + 1] as int == record_type_code(q.type_) as int
            &&& w[n + 2] as int * 0x100 + w[n + 3] as int == record_class_code(q.class) as int
        }),
{
    lemma_u16_bytes_value(record_type_code(q.type_));
    lemma_u16_bytes_value(record_class_code(q.class));
    assert(question_wire(q).subrange(0, name_wire(q.name).len() as int) =~= name_wire(q.name));
}

impl DNSEncodable for DNSQuestion {
    open spec fn wire(&self) -> Seq<u8> {
        question_wire(self@)
    }

    fn write_bytes(&self, writer: &mut Vec<u8>) -> (r: DNSResult<()>) {
        self.name.write_bytes(writer)?;
        let type_int: u16 = self.type_.into();
        write_u16(writer, type_int);
        let class_int: u16 = self.class.into();
        write_u16(writer, class_int);
        Ok(())
    }
}

impl DNSDecodable for DNSQuestion {
    open spec fn decoding_halts(buf: Seq<u8>, pos: int) -> bool {
        parse_question(buf, pos).halts()
    }

    fn from_bytes(reader: &mut BytePacketReader) -> (r: DNSResult<Self>)
        ensures
            reports(
                parse_question(old(reader).buffer@, old(reader).position as int),
                r,
                final(reader).position as int,
            ),
    {
        match decode_question(reader) {
            Some(r) => r,
            None => vstd::pervasive::unreached(),
        }
    }
}

/// Decodes a question; `None` when its name never ends.
pub(crate) fn decode_question(reader: &mut BytePacketReader) -> (r: Option<DNSResult<DNSQuestion>>)
    ensures
        final(reader).buffer == old(reader).buffer,
        r is None <==> !parse_question(old(reader).buffer@, old(reader).position as int).halts(),
        r matches Some(x) ==> reports(
            parse_question(old(reader).buffer@, old(reader).position as int),
            x,
            final(reader).position as int,
        ),
{
    let name = match decode_name(reader) {
        None => return None,
        Some(Err(e)) => return Some(Err(e)),
        Some(Ok(name)) => name,
    };
    let type_code: u16 = match reader.read_u16() {
        Ok(v) => v,
        Err(e) => return Some(Err(e)),
    };
    let class_code: u16 = match reader.read_u16() {
        Ok(v) => v,
        Err(e) => return Some(Err(e)),
    };
    let type_ = RecordType::from(type_code);
    let class = RecordClass::from(class_code);
    Some(Ok(DNSQuestion { name, type_, class }))
}

} // verus!
