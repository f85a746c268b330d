use vstd::prelude::*;

use crate::dns::name::{decode_name, lemma_name_roundtrip, lemma_parse_name_end, name_fits, name_wire, parse_name, DnsName};
use crate::dns::types::{
    class_is_canonical, data_bytes, data_length, lemma_class_roundtrip, lemma_piece,
    lemma_be_u16_value, lemma_be_u32_value, lemma_class_code_roundtrip, lemma_type_code_roundtrip,
    lemma_u16_bytes_value, lemma_u32_bytes_value, lemma_type_roundtrip, lemma_u16_roundtrip, lemma_u32_roundtrip, read_span, type_is_canonical, record_class_code, record_class_of, record_type_code,
    record_type_of, reports, u16_bytes, u32_bytes, write_u16, write_u32, BytePacketReader, DNSDecodable,
    DNSEncodable, DNSResult, Data, DataView, DecodeError, Parsed, RecordClass, RecordType,
};

verus! {

/// A resource record: a name, its type and class, how long it may be cached, and its data.
#[derive(Debug)]
pub struct DNSRecord {
    pub name: DnsName,
    pub type_: RecordType,
    pub class: RecordClass,
    pub ttl: u32,
    // omit adding a `data_length` property, as it can be derived
    // from `self.data` and should not be set manually
    pub data: Data,
}

/// The mathematical value of a `DNSRecord`.
pub struct RecordView {
    pub name: Seq<char>,
    pub type_: RecordType,
    pub class: RecordClass,
    pub ttl: u32,
    pub data: DataView,
}

impl View for DNSRecord {
    type V = RecordView;

    open spec fn view(&self) -> RecordView {
        RecordView {
            name: self.name@,
            type_: self.type_,
            class: self.class,
            ttl: self.ttl,
            data: self.data@,
        }
    }
}

/// The bytes of a record: name, type code, class code, TTL, data length, then the data.
pub open spec fn record_wire(r: RecordView) -> Seq<u8> {
    name_wire(r.name) + u16_bytes(record_type_code(r.type_)) + u16_bytes(
        record_class_code(r.class),
    ) + u32_bytes(r.ttl) + u16_bytes(data_length(r.data)) + data_bytes(r.data)
}

/// The data of a record of type code `t` whose data bytes are `bytes`, read up to `pos`: an
/// `A` record holds an IPv4 address, which must be exactly four bytes; any other record keeps
/// its bytes as they are.
pub open spec fn record_data(t: u16, bytes: Seq<u8>, pos: int) -> Parsed<DataView> {
    if record_type_of(t) == RecordType::A {
        if bytes.len() == 4 {
            Parsed::Done(DataView::IPv4(bytes), pos)
        } else {
            Parsed::Failed(DecodeError::BadIpv4Length, pos)
        }
    } else {
        Parsed::Done(DataView::Unknown(bytes), pos)
    }
}

/// Decoding a record from `buf` at `pos`: name, type, class, TTL, data length, and that many
/// bytes of data.
pub open spec fn parse_record(buf: Seq<u8>, pos: int) -> Parsed<RecordView> {
    parse_name(buf, pos).and_then(
        |name: Seq<char>, p: int|
            read_span(buf, p, 2).map_u16().and_then(
                |t: u16, p: int|
                    read_span(buf, p, 2).map_u16().and_then(
                        |c: u16, p: int|
                            read_span(buf, p, 4).map_u32().and_then(
                                |ttl: u32, p: int|
                                    read_span(buf, p, 2).map_u16().and_then(
                                        |len: u16, p: int|
                                            read_span(buf, p, len as nat).and_then(
                                                |bytes: Seq<u8>, p: int|
                                                    record_data(t, bytes, p).and_then(
                                                        |data: DataView, p: int|
                                                            Parsed::Done(
                                                                RecordView {
                                                                    name,
                                                                    type_: record_type_of(t),
                                                                    class: record_class_of(c),
                                                                    ttl,
                                                                    data,
                                                                },
                                                                p,
                                                            ),
                                                    ),
                                            ),
                                    ),
                            ),
                    ),
            ),
    )
}

/// A record that decodes from its own encoding: its name fits, its type and class are
/// canonical, it holds an address (of four bytes) exactly when it is an `A` record, and raw
/// data is shorter than 65536 bytes.
pub open spec fn record_fits(r: RecordView) -> bool {
    &&& name_fits(r.name)
    &&& type_is_canonical(r.type_)
    &&& class_is_canonical(r.class)
    &&& match r.data {
        DataView::IPv4(b) => r.type_ == RecordType::A && b.len() == 4,
        DataView::Unknown(b) => r.type_ != RecordType::A && b.len() < 65536,
    }
}

/// A fitting record decodes from its own encoding, with the reader right after it.
#[verifier::spinoff_prover]
#[verifier::rlimit(40)]
pub proof fn lemma_record_roundtrip(r: RecordView, buf: Seq<u8>, pos: int)
    requires
        record_fits(r),
        0 <= pos,
        pos + record_wire(r).len() <= buf.len(),
        buf.subrange(pos, pos + record_wire(r).len()) == record_wire(r),
    ensures
        parse_record(buf, pos) == Parsed::Done(r, pos + record_wire(r).len()),
{
    let w = record_wire(r);
    let nw = name_wire(r.name);
    let n = nw.len() as int;
    let tc = record_type_code(r.type_);
    let cc = record_class_code(r.class);
    let dl = data_length(r.data);
    let db = data_bytes(r.data);
    assert(dl == db.len());
    assert(w.subrange(0, n) =~= nw);
    assert(w.subrange(n, n + 2) =~= u16_bytes(tc));
    assert(w.subrange(n + 2, n + 4) =~= u16_bytes(cc));
    assert(w.subrange(n + 4, n + 8) =~= u32_bytes(r.ttl));
    assert(w.subrange(n + 8, n + 10) =~= u16_bytes(dl));
    assert(w.subrange(n + 10, n + 10 + dl) =~= db);
    let p1 = pos + n;
    assert(parse_name(buf, pos) == Parsed::Done(r.name, p1)) by {
        lemma_piece(buf, pos, w, 0, n);
        lemma_name_roundtrip(r.name, buf, pos);
    }
    assert(read_span(buf, p1, 2).map_u16() == Parsed::Done(tc, p1 + 2)) by {
        lemma_piece(buf, pos, w, n, n + 2);
        lemma_u16_roundtrip(tc);
    }
    assert(read_span(buf, p1 + 2, 2).map_u16() == Parsed::Done(cc, p1 + 4)) by {
        lemma_piece(buf, pos, w, n + 2, n + 4);
        lemma_u16_roundtrip(cc);
    }
    assert(read_span(buf, p1 + 4, 4).map_u32() == Parsed::Done(r.ttl, p1 + 8)) by {
        lemma_piece(buf, pos, w, n + 4, n + 8);
        lemma_u32_roundtrip(r.ttl);
    }
    assert(read_span(buf, p1 + 8, 2).map_u16() == Parsed::Done(dl, p1 + 10)) by {
        lemma_piece(buf, pos, w, n + 8, n + 10);
        lemma_u16_roundtrip(dl);
    }
    assert(read_span(buf, p1 + 10, dl as nat) == Parsed::Done(db, p1 + 10 + dl)) by {
        lemma_piece(buf, pos, w, n + 10, n + 10 + dl);
        if dl == 0 {
            assert(db =~= Seq::<u8>::empty());
        }
    }
    assert(record_type_of(tc) == r.type_) by {
        lemma_type_roundtrip(r.type_);
    }
    assert(record_class_of(cc) == r.class) by {
        lemma_class_roundtrip(r.class);
    }
    assert(record_data(tc, db, p1 + 10 + dl) == Parsed::Done(r.data, p1 + 10 + dl));
}

/// Decoding a record takes, right after its name, the type code, the class code, the TTL and the
/// data length, each big-endian (RFC 1035, section 4.1.3), then as many bytes of data as the
/// length says; an `A` record's data is its address, any other record's data its raw bytes.
#[verifier::spinoff_prover]
#[verifier::rlimit(40)]
pub proof fn lemma_record_layout(buf: Seq<u8>, pos: int)
    requires
        parse_record(buf, pos) is Done,
    ensures
        parse_name(buf, pos) matches Parsed::Done(name, p) && parse_record(buf, pos) matches Parsed::Done(
            r,
            end,
        ) && {
            &&& 0 <= p
            &&& p + 10 <= end <= buf.len()
            &&& r.name == name
            &&& record_type_code(r.type_) as int == buf[p] as int * 0x100 + buf[p + 1] as int
            &&& record_class_code(r.class) as int == buf[p + 2] as int * 0x100 + buf[p + 3] as int
            &&& r.ttl as int == buf[p + 4] as int * 0x100_0000 + buf[p + 5] as int * 0x1_0000
                + buf[p + 6] as int * 0x100 + buf[p + 7] as int
            &&& end - (p + 10) == buf[p + 8] as int * 0x100 + buf[p + 9] as int
            &&& data_bytes(r.data) == buf.subrange(p + 10, end)
            &&& (r.data is IPv4 <==> r.type_ == RecordType::A)
        },
{
    lemma_parse_name_end(buf, pos);
    let name_p = parse_name(buf, pos);
    if let Parsed::Done(name, p) = name_p {
        let t = read_span(buf, p, 2);
        let c = read_span(buf, p + 2, 2);
        let ttl = read_span(buf, p + 4, 4);
        let dl = read_span(buf, p + 8, 2);
        assert(t is Done);
        assert(c is Done);
        assert(ttl is Done);
        assert(dl is Done);
        assert(p + 10 <= buf.len());
        lemma_be_u16_value(buf.subrange(p, p + 2));
        lemma_be_u16_value(buf.subrange(p + 2, p + 4));
        lemma_be_u32_value(buf.subrange(p + 4, p + 8));
        lemma_be_u16_value(buf.subrange(p + 8, p + 10));
        let tc = be_u16_of(buf, p);
        let len = be_u16_of(buf, p + 8);
        lemma_type_code_roundtrip(tc);
        lemma_class_code_roundtrip(be_u16_of(buf, p + 2));
        if len == 0 {
            assert(buf.subrange(p + 10, p + 10) =~= Seq::<u8>::empty());
        }
    } else {
        assert(false);
    }
}

/// The big-endian number in the two bytes of `buf` at `i`.
spec fn be_u16_of(buf: Seq<u8>, i: int) -> u16 {
    crate::dns::types::be_u16(buf.subrange(i, i + 2))
}

/// The bytes of a record are its name's bytes, then its type code, class code, TTL and data
/// length, each big-endian, then its data.
pub proof fn lemma_record_wire_layout(r: RecordView)
    ensures
        ({
            let w = record_wire(r);
            let n = name_wire(r.name).len() as int;
            &&& w.subrange(0, n) == name_wire(r.name)
            &&& w[n] as int * 0x100 + w[n + 1] as int == record_type_code(r.type_) as int
            &&& w[n + 2] as int * 0x100 + w[n + 3] as int == record_class_code(r.class) as int
            &&& w[n + 4] as int * 0x100_0000 + w[n + 5] as int * 0x1_0000 + w[n + 6] as int * 0x100
                + w[n + 7] as int == r.ttl as int
            &&& w[n + 8] as int * 0x100 + w[n + 9] as int == data_length(r.data) as int
            &&& w.subrange(n + 10, w.len() as int) == data_bytes(r.data)
        }),
{
    let w = record_wire(r);
    let n = name_wire(r.name).len() as int;
    lemma_u16_bytes_value(record_type_code(r.type_));
    lemma_u16_bytes_value(record_class_code(r.class));
    lemma_u32_bytes_value(r.ttl);
    lemma_u16_bytes_value(data_length(r.data));
    assert(w.subrange(0, n) =~= name_wire(r.name));
    assert(w.subrange(n + 10, w.len() as int) =~= data_bytes(r.data));
}

impl DNSEncodable for DNSRecord {
    open spec fn wire(&self) -> Seq<u8> {
        record_wire(self@)
    }

    fn write_bytes(&self, writer: &mut Vec<u8>) -> (r: DNSResult<()>) {
        self.name.write_bytes(writer)?;
        let type_int: u16 = self.type_.into();
        write_u16(writer, type_int);
        let class_int: u16 = self.class.into();
        write_u16(writer, class_int);
        write_u32(writer, self.ttl);
        let data_len: u16 = self.data.len();
        write_u16(writer, data_len);
        self.data.write_bytes(writer)?;
        Ok(())
    }
}

/// Reads `len` bytes one after the other.
fn read_data(reader: &mut BytePacketReader, len: u16) -> (r: DNSResult<Vec<u8>>)
    ensures
        final(reader).buffer == old(reader).buffer,
        reports(
            read_span(old(reader).buffer@, old(reader).position as int, len as nat),
            r,
            final(reader).position as int,
        ),
{
    let ghost buf = reader.buffer@;
    let ghost start = reader.position as int;
    let mut data_bytes: Vec<u8> = Vec::new();
    let mut i: u16 = 0;
    while i < len
        invariant
            reader.buffer == old(reader).buffer,
            buf == reader.buffer@,
            buf.len() == 512,
            start == old(reader).position,
            i <= len,
            reader.position == start + i,
            i > 0 ==> start + i <= 512,
            data_bytes@.len() == i,
            forall|j: int| 0 <= j < i ==> data_bytes@[j] == buf[start + j],
        decreases len - i,
    {
        let b: u8 = reader.read()?;
        data_bytes.push(b);
        i += 1;
    }
    proof {
        if len > 0 {
            assert(data_bytes@ =~= buf.subrange(start, start + len));
        } else {
            assert(data_bytes@ =~= Seq::<u8>::empty());
        }
    }
    Ok(data_bytes)
}

impl DNSDecodable for DNSRecord {
    open spec fn decoding_halts(buf: Seq<u8>, pos: int) -> bool {
        parse_record(buf, pos).halts()
    }

    fn from_bytes(reader: &mut BytePacketReader) -> (r: DNSResult<Self>)
        ensures
            reports(
                parse_record(old(reader).buffer@, old(reader).position as int),
                r,
                final(reader).position as int,
            ),
    {
        match decode_record(reader) {
            Some(r) => r,
            None => vstd::pervasive::unreached(),
        }
    }
}

/// Decodes a record; `None` when its name never ends.
pub(crate) fn decode_record(reader: &mut BytePacketReader) -> (r: Option<DNSResult<DNSRecord>>)
    ensures
        final(reader).buffer == old(reader).buffer,
        r is None <==> !parse_record(old(reader).buffer@, old(reader).position as int).halts(),
        r matches Some(x) ==> reports(
            parse_record(old(reader).buffer@, old(reader).position as int),
            x,
            final(reader).position as int,
        ),
{
    let name = match decode_name(reader) {
        None => return None,
        Some(Err(e)) => return Some(Err(e)),
        Some(Ok(name)) => name,
    };
    let type_code: u16 = match reader.read_u16() {
        Ok(v) => v,
        Err(e) => return Some(Err(e)),
    };
    let class_code: u16 = match reader.read_u16() {
        Ok(v) => v,
        Err(e) => return Some(Err(e)),
    };
    let ttl: u32 = match reader.read_u32() {
        Ok(v) => v,
        Err(e) => return Some(Err(e)),
    };
    let data_len: u16 = match reader.read_u16() {
        Ok(v) => v,
        Err(e) => return Some(Err(e)),
    };
    let data_bytes: Vec<u8> = match read_data(reader, data_len) {
        Ok(v) => v,
        Err(e) => return Some(Err(e)),
    };
    let type_ = RecordType::from(type_code);
    let class = RecordClass::from(class_code);
    let data = match type_ {
        RecordType::A => {
            if data_bytes.len() == 4 {
                let octets: [u8; 4] = [data_bytes[0], data_bytes[1], data_bytes[2], data_bytes[3]];
                assert(octets@ =~= data_bytes@);
                Data::IPv4(octets)
            } else {
                return Some(Err("Ipv4 address must be exactly 4 bytes".to_string()));
            }
        },
        _ => Data::Unknown(data_bytes),
    };
    Some(Ok(DNSRecord { name, type_, class, ttl, data }))
}

} // verus!
