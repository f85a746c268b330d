use vstd::prelude::*;

verus! {

/// The result of an encoding or decoding step: a value, or a message that says what went wrong.
pub type DNSResult<T> = Result<T, String>;

/// What went wrong while decoding, as the message of a `DNSResult` tells it.
pub enum DecodeError {
    /// A byte was read at or past the end of the packet buffer.
    EndOfBuffer,
    /// A byte was looked up at the given position, which lies at or past the end of the buffer.
    EndOfBufferAt(int),
    /// The data of an `A` record is not exactly four bytes long.
    BadIpv4Length,
}

/// The character of the decimal digit `d` (which is below ten).
pub open spec fn digit_char(d: nat) -> char {
    (d + 48) as char
}

/// `n` written in base ten, most significant digit first.
pub open spec fn decimal(n: nat) -> Seq<char>
    decreases n,
{
    if n < 10 {
        seq![digit_char(n)]
    } else {
        decimal(n / 10).push(digit_char(n % 10))
    }
}

/// The message that the library returns for `e`.
pub open spec fn error_text(e: DecodeError) -> Seq<char> {
    match e {
        DecodeError::EndOfBuffer => "End of buffer reached."@,
        DecodeError::EndOfBufferAt(p) => "End of buffer at position "@ + decimal(p as nat),
        DecodeError::BadIpv4Length => "Ipv4 address must be exactly 4 bytes"@,
    }
}

/// The mathematical outcome of decoding something from a buffer, starting at some position:
/// a value and the position where the reader is left, an error and the position where the
/// reader is left, or a decoding that never finishes.
pub enum Parsed<T> {
    Done(T, int),
    Failed(DecodeError, int),
    Hangs,
}

impl<T> Parsed<T> {
    /// Whether decoding finishes, with a value or with an error.
    pub open spec fn halts(self) -> bool {
        !(self is Hangs)
    }

    /// Goes on with `next` from the value and position that were decoded; an error or a
    /// decoding that never ends stays what it is.
    pub open spec fn and_then<U>(self, next: spec_fn(T, int) -> Parsed<U>) -> Parsed<U> {
        match self {
            Parsed::Done(v, p) => next(v, p),
            Parsed::Failed(e, p) => Parsed::Failed(e, p),
            Parsed::Hangs => Parsed::Hangs,
        }
    }
}

/// `r`, returned with the reader left at `end`, is what `o` says: the same value (by its view)
/// or the message of the same error, and the same final position.
pub open spec fn reports<T: View>(o: Parsed<T::V>, r: DNSResult<T>, end: int) -> bool {
    match o {
        Parsed::Done(v, p) => r is Ok && r->Ok_0@ == v && end == p,
        Parsed::Failed(e, p) => r is Err && r->Err_0@ == error_text(e) && end == p,
        Parsed::Hangs => false,
    }
}

/// Reading `n` bytes one after the other from `buf`, starting at `pos`: a read at or past the
/// end of the buffer fails and leaves the position where it is.
pub open spec fn read_span(buf: Seq<u8>, pos: int, n: nat) -> Parsed<Seq<u8>> {
    if n == 0 {
        Parsed::Done(Seq::empty(), pos)
    } else if pos + n <= buf.len() {
        Parsed::Done(buf.subrange(pos, pos + n), pos + n)
    } else {
        Parsed::Failed(DecodeError::EndOfBuffer, if pos < buf.len() { buf.len() as int } else { pos })
    }
}

/// The big-endian 16-bit number in the first two bytes of `b`.
pub open spec fn be_u16(b: Seq<u8>) -> u16 {
    (b[0] * 256 + b[1]) as u16
}

/// The big-endian 32-bit number in the first four bytes of `b`.
pub open spec fn be_u32(b: Seq<u8>) -> u32 {
    (((b[0] * 256 + b[1]) * 256 + b[2]) * 256 + b[3]) as u32
}

/// The two bytes of `v`, most significant first (network byte order).
pub open spec fn u16_bytes(v: u16) -> Seq<u8> {
    seq![(v / 256) as u8, (v % 256) as u8]
}

/// The four bytes of `v`, most significant first (network byte order).
pub open spec fn u32_bytes(v: u32) -> Seq<u8> {
    seq![(v / 0x100_0000) as u8, (v / 0x1_0000 % 256) as u8, (v / 256 % 256) as u8, (v % 256) as u8]
}

/// Reading back the two bytes of a number gives the number.
pub proof fn lemma_u16_roundtrip(v: u16)
    ensures
        be_u16(u16_bytes(v)) == v,
{
}

/// Reading back the four bytes of a number gives the number.
pub proof fn lemma_u32_roundtrip(v: u32)
    ensures
        be_u32(u32_bytes(v)) == v,
{
}

/// Big-endian: the first of two bytes is the high one. For any two bytes `hi`, `lo`, the
/// number read is `hi * 2^8 + lo`.
pub proof fn lemma_be_u16_value(b: Seq<u8>)
    requires
        b.len() >= 2,
    ensures
        be_u16(b) as int == b[0] as int * 0x100 + b[1] as int,
{
}

/// Big-endian: for any four bytes `b0 b1 b2 b3`, the number read is
/// `b0 * 2^24 + b1 * 2^16 + b2 * 2^8 + b3`.
pub proof fn lemma_be_u32_value(b: Seq<u8>)
    requires
        b.len() >= 4,
    ensures
        be_u32(b) as int == b[0] as int * 0x100_0000 + b[1] as int * 0x1_0000 + b[2] as int * 0x100
            + b[3] as int,
{
}

/// The two bytes written for `v` are its big-endian digits in base 256: the high byte first.
pub proof fn lemma_u16_bytes_value(v: u16)
    ensures
        u16_bytes(v).len() == 2,
        u16_bytes(v)[0] as int * 0x100 + u16_bytes(v)[1] as int == v as int,
{
}

/// The four bytes written for `v` are its big-endian digits in base 256: the most significant
/// byte first.
pub proof fn lemma_u32_bytes_value(v: u32)
    ensures
        u32_bytes(v).len() == 4,
        u32_bytes(v)[0] as int * 0x100_0000 + u32_bytes(v)[1] as int * 0x1_0000
            + u32_bytes(v)[2] as int * 0x100 + u32_bytes(v)[3] as int == v as int,
{
}

/// A piece of bytes that stand at `pos` in `buf` stands at the matching place in `buf`.
pub proof fn lemma_piece(buf: Seq<u8>, pos: int, w: Seq<u8>, a: int, b: int)
    requires
        0 <= pos,
        pos + w.len() <= buf.len(),
        buf.subrange(pos, pos + w.len()) == w,
        0 <= a <= b <= w.len(),
    ensures
        buf.subrange(pos + a, pos + b) == w.subrange(a, b),
{
    assert forall|i: int| 0 <= i < b - a implies buf.subrange(pos + a, pos + b)[i] == w.subrange(
        a,
        b,
    )[i] by {
        assert(buf[pos + a + i] == buf.subrange(pos, pos + w.len())[a + i]);
    }
    assert(buf.subrange(pos + a, pos + b) =~= w.subrange(a, b));
}

/// A packet buffer and the position of the next byte to read.
pub struct BytePacketReader {
    /// DNS over UDP (RFC 1035) limits messages to 512 bytes.
    pub buffer: [u8; 512],
    pub position: usize,
}

/// Renders `n` with std's `ToString::to_string` (the `Display` of `usize`). The contract claims
/// that the result is the base-ten digits of `n`, most significant first, with no sign,
/// padding or separator.
#[verifier::external_body]
fn decimal_string(n: usize) -> (s: String)
    ensures
        s@ == decimal(n as nat),
{
    n.to_string()
}

/// The message for a lookup at or past the end of the buffer.
fn end_of_buffer_at(pos: usize) -> (s: String)
    ensures
        s@ == error_text(DecodeError::EndOfBufferAt(pos as int)),
{
    let mut s = "End of buffer at position ".to_string();
    let digits = decimal_string(pos);
    s.append(digits.as_str());
    s
}

impl BytePacketReader {
    /// Reads one byte, and moves the `self.position` forward.
    pub fn read(&mut self) -> (r: DNSResult<u8>)
        ensures
            final(self).buffer == old(self).buffer,
            reports(
                read_span(old(self).buffer@, old(self).position as int, 1).map_first_byte(),
                r,
                final(self).position as int,
            ),
    {
        if self.position >= self.buffer.len() {
            return Err("End of buffer reached.".to_string());
        }
        let res: u8 = self.buffer[self.position];
        self.position += 1;
        Ok(res)
    }

    /// Returns the byte at position `pos`, if present.
    pub fn get(&self, pos: usize) -> (r: DNSResult<u8>)
        ensures
            pos < 512 ==> r == Ok::<u8, String>(self.buffer@[pos as int]),
            pos >= 512 ==> r is Err && r->Err_0@ == error_text(DecodeError::EndOfBufferAt(pos as int)),
    {
        if pos >= self.buffer.len() {
            return Err(end_of_buffer_at(pos));
        }
        Ok(self.buffer[pos])
    }

    /// Reads a big-endian 16-bit number.
    pub(crate) fn read_u16(&mut self) -> (r: DNSResult<u16>)
        ensures
            final(self).buffer == old(self).buffer,
            reports(
                read_span(old(self).buffer@, old(self).position as int, 2).map_u16(),
                r,
                final(self).position as int,
            ),
    {
        let hi: u8 = self.read()?;
        let lo: u8 = self.read()?;
        Ok((hi as u16) * 256 + (lo as u16))
    }

    /// Reads a big-endian 32-bit number.
    pub(crate) fn read_u32(&mut self) -> (r: DNSResult<u32>)
        ensures
            final(self).buffer == old(self).buffer,
            reports(
                read_span(old(self).buffer@, old(self).position as int, 4).map_u32(),
                r,
                final(self).position as int,
            ),
    {
        let b0: u8 = self.read()?;
        let b1: u8 = self.read()?;
        let b2: u8 = self.read()?;
        let b3: u8 = self.read()?;
        Ok((((b0 as u32) * 256 + (b1 as u32)) * 256 + (b2 as u32)) * 256 + (b3 as u32))
    }
}

impl Parsed<Seq<u8>> {
    /// The first byte of what was read.
    pub open spec fn map_first_byte(self) -> Parsed<u8> {
        match self {
            Parsed::Done(b, p) => Parsed::Done(b[0], p),
            Parsed::Failed(e, p) => Parsed::Failed(e, p),
            Parsed::Hangs => Parsed::Hangs,
        }
    }

    /// The big-endian 16-bit number that was read.
    pub open spec fn map_u16(self) -> Parsed<u16> {
        match self {
            Parsed::Done(b, p) => Parsed::Done(be_u16(b), p),
            Parsed::Failed(e, p) => Parsed::Failed(e, p),
            Parsed::Hangs => Parsed::Hangs,
        }
    }

    /// The big-endian 32-bit number that was read.
    pub open spec fn map_u32(self) -> Parsed<u32> {
        match self {
            Parsed::Done(b, p) => Parsed::Done(be_u32(b), p),
            Parsed::Failed(e, p) => Parsed::Failed(e, p),
            Parsed::Hangs => Parsed::Hangs,
        }
    }
}

/// Appends `bytes` to `writer`.
pub(crate) fn write_slice(writer: &mut Vec<u8>, bytes: &[u8])
    ensures
        final(writer)@ == old(writer)@ + bytes@,
{
    let n: usize = bytes.len();
    let mut i: usize = 0;
    while i < n
        invariant
            n == bytes@.len(),
            i <= n,
            writer@ == old(writer)@ + bytes@.subrange(0, i as int),
        decreases n - i,
    {
        writer.push(bytes[i]);
        i += 1;
        assert(bytes@.subrange(0, i as int) == bytes@.subrange(0, i - 1).push(bytes@[i - 1]));
    }
    assert(bytes@.subrange(0, n as int) == bytes@);
}

/// Appends the two bytes of `v`, most significant first.
pub(crate) fn write_u16(writer: &mut Vec<u8>, v: u16)
    ensures
        final(writer)@ == old(writer)@ + u16_bytes(v),
{
    writer.push((v / 256) as u8);
    writer.push((v % 256) as u8);
}

/// Appends the four bytes of `v`, most significant first.
pub(crate) fn write_u32(writer: &mut Vec<u8>, v: u32)
    ensures
        final(writer)@ == old(writer)@ + u32_bytes(v),
{
    writer.push((v / 0x100_0000) as u8);
    writer.push((v / 0x1_0000 % 256) as u8);
    writer.push((v / 256 % 256) as u8);
    writer.push((v % 256) as u8);
}

/// A trait for types that can be serialized into the DNS wire format.
///
/// # Requirements
/// Implementations of this trait are responsible for ensuring that all
/// multi-byte numerical fields are written in Big-Endian (Network Byte Order)
/// as per RFC 1035.
pub trait DNSEncodable {
    /// The bytes that encode `self`.
    spec fn wire(&self) -> Seq<u8>;

    /// Encodes `Self` into bytes and writes them into the `writer`.
    fn write_bytes(&self, writer: &mut Vec<u8>) -> (r: DNSResult<()>)
        ensures
            r is Ok,
            final(writer)@ == old(writer)@ + self.wire(),
    ;
}

/// A trait for types that can be de-serialized from the DNS wire format.
pub trait DNSDecodable: Sized {
    /// Whether decoding from `buf` at `pos` comes to an end (with a value or an error).
    spec fn decoding_halts(buf: Seq<u8>, pos: int) -> bool;

    fn from_bytes(reader: &mut BytePacketReader) -> (r: DNSResult<Self>)
        requires
            Self::decoding_halts(old(reader).buffer@, old(reader).position as int),
        ensures
            final(reader).buffer == old(reader).buffer,
    ;
}

/// Represents the CLASS of the DNS resource data. See RFC 1035,
/// section 3.2.4 for details.
#[derive(Debug, Clone, Copy, Eq, PartialEq, Structural)]
pub enum RecordClass {
    IN,  // Internet (1)
    CS,  // CSNET (2)
    CH,  // CHAOS (3)
    HS,  // Hesiod (4)
    UNKNOWN(u16),
}

/// The class that the 16-bit code `value` stands for.
pub open spec fn record_class_of(value: u16) -> RecordClass {
    match value {
        1 => RecordClass::IN,
        2 => RecordClass::CS,
        3 => RecordClass::CH,
        4 => RecordClass::HS,
        _ => RecordClass::UNKNOWN(value),
    }
}

/// The 16-bit code of the class `c`.
pub open spec fn record_class_code(c: RecordClass) -> u16 {
    match c {
        RecordClass::IN => 1,
        RecordClass::CS => 2,
        RecordClass::CH => 3,
        RecordClass::HS => 4,
        RecordClass::UNKNOWN(val) => val,
    }
}

impl From<u16> for RecordClass {
    fn from(value: u16) -> (r: Self) {
        match value {
            1 => RecordClass::IN,
            2 => RecordClass::CS,
            3 => RecordClass::CH,
            4 => RecordClass::HS,
            _ => RecordClass::UNKNOWN(value),
        }
    }
}

impl vstd::std_specs::convert::FromSpecImpl<u16> for RecordClass {
    open spec fn obeys_from_spec() -> bool {
        true
    }

    open spec fn from_spec(v: u16) -> Self {
        record_class_of(v)
    }
}

impl From<RecordClass> for u16 {
    fn from(variant: RecordClass) -> (r: Self) {
        match variant {
            RecordClass::IN => 1,
            RecordClass::CS => 2,
            RecordClass::CH => 3,
            RecordClass::HS => 4,
            RecordClass::UNKNOWN(val) => val,
        }
    }
}

impl vstd::std_specs::convert::FromSpecImpl<RecordClass> for u16 {
    open spec fn obeys_from_spec() -> bool {
        true
    }

    open spec fn from_spec(v: RecordClass) -> Self {
        record_class_code(v)
    }
}

/// Represents the TYPE of the DNS resource data. See RFC 1035,
/// section 3.2.4 for details.
#[derive(Debug, Clone, Copy, Eq, PartialEq, Structural)]
pub enum RecordType {
    A,  // IPv4 Address (1)
    NS,  // Name Server (2)
    CNAME,  // Canonical Name, alias (5)
    SOA,  // Start of Authority (6)
    WKS,  // Well Known Service (11)
    PTR,  // Domain Name Pointer (12)
    HINFO,  // Host Information (13)
    MINFO,  // Mailbox/Mail List Information (14)
    MX,  // Mail Exchange (15)
    TXT,  // Text Strings (16)
    AAAA,  // IPv6 Address (28)
    SRV,  // Service Locator (33)
    UNKNOWN(u16),  // Catch-all for anything unexpected
}

/// The type that the 16-bit code `value` stands for.
pub open spec fn record_type_of(value: u16) -> RecordType {
    match value {
        1 => RecordType::A,
        2 => RecordType::NS,
        5 => RecordType::CNAME,
        6 => RecordType::SOA,
        11 => RecordType::WKS,
        12 => RecordType::PTR,
        13 => RecordType::HINFO,
        14 => RecordType::MINFO,
        15 => RecordType::MX,
        16 => RecordType::TXT,
        28 => RecordType::AAAA,
        33 => RecordType::SRV,
        _ => RecordType::UNKNOWN(value),
    }
}

/// The 16-bit code of the type `t`.
pub open spec fn record_type_code(t: RecordType) -> u16 {
    match t {
        RecordType::A => 1,
        RecordType::NS => 2,
        RecordType::CNAME => 5,
        RecordType::SOA => 6,
        RecordType::WKS => 11,
        RecordType::PTR => 12,
        RecordType::HINFO => 13,
        RecordType::MINFO => 14,
        RecordType::MX => 15,
        RecordType::TXT => 16,
        RecordType::AAAA => 28,
        RecordType::SRV => 33,
        RecordType::UNKNOWN(value) => value,
    }
}

impl From<u16> for RecordType {
    fn from(value: u16) -> (r: Self) {
        match value {
            1 => RecordType::A,
            2 => RecordType::NS,
            5 => RecordType::CNAME,
            6 => RecordType::SOA,
            11 => RecordType::WKS,
            12 => RecordType::PTR,
            13 => RecordType::HINFO,
            14 => RecordType::MINFO,
            15 => RecordType::MX,
            16 => RecordType::TXT,
            28 => RecordType::AAAA,
            33 => RecordType::SRV,
            _ => RecordType::UNKNOWN(value),
        }
    }
}

impl vstd::std_specs::convert::FromSpecImpl<u16> for RecordType {
    open spec fn obeys_from_spec() -> bool {
        true
    }

    open spec fn from_spec(v: u16) -> Self {
        record_type_of(v)
    }
}

impl From<RecordType> for u16 {
    fn from(variant: RecordType) -> (r: Self) {
        match variant {
            RecordType::A => 1,
            RecordType::NS => 2,
            RecordType::CNAME => 5,
            RecordType::SOA => 6,
            RecordType::WKS => 11,
            RecordType::PTR => 12,
            RecordType::HINFO => 13,
            RecordType::MINFO => 14,
            RecordType::MX => 15,
            RecordType::TXT => 16,
            RecordType::AAAA => 28,
            RecordType::SRV => 33,
            RecordType::UNKNOWN(value) => value,
        }
    }
}

impl vstd::std_specs::convert::FromSpecImpl<RecordType> for u16 {
    open spec fn obeys_from_spec() -> bool {
        true
    }

    open spec fn from_spec(v: RecordType) -> Self {
        record_type_code(v)
    }
}

/// Converting a code to a class and back gives the code again.
pub proof fn lemma_class_code_roundtrip(value: u16)
    ensures
        record_class_code(record_class_of(value)) == value,
{
}

/// A class is canonical unless it is `UNKNOWN` of a code that has a name of its own.
pub open spec fn class_is_canonical(c: RecordClass) -> bool {
    c matches RecordClass::UNKNOWN(v) ==> record_class_of(v) == RecordClass::UNKNOWN(v)
}

/// A type is canonical unless it is `UNKNOWN` of a code that has a name of its own.
pub open spec fn type_is_canonical(t: RecordType) -> bool {
    t matches RecordType::UNKNOWN(v) ==> record_type_of(v) == RecordType::UNKNOWN(v)
}

/// A canonical class survives the way to its code and back.
pub proof fn lemma_class_roundtrip(c: RecordClass)
    requires
        class_is_canonical(c),
    ensures
        record_class_of(record_class_code(c)) == c,
{
}

/// Converting a code to a type and back gives the code again.
pub proof fn lemma_type_code_roundtrip(value: u16)
    ensures
        record_type_code(record_type_of(value)) == value,
{
}

/// A canonical type survives the way to its code and back.
pub proof fn lemma_type_roundtrip(t: RecordType)
    requires
        type_is_canonical(t),
    ensures
        record_type_of(record_type_code(t)) == t,
{
}

/// The codes of the classes (RFC 1035, section 3.2.4): `IN` is 1, `CS` 2, `CH` 3, `HS` 4; each
/// of these codes reads as its class, and every other code reads as `UNKNOWN` of itself.
pub proof fn lemma_class_codes(v: u16)
    ensures
        record_class_code(RecordClass::IN) == 1,
        record_class_code(RecordClass::CS) == 2,
        record_class_code(RecordClass::CH) == 3,
        record_class_code(RecordClass::HS) == 4,
        record_class_code(RecordClass::UNKNOWN(v)) == v,
        record_class_of(1) == RecordClass::IN,
        record_class_of(2) == RecordClass::CS,
        record_class_of(3) == RecordClass::CH,
        record_class_of(4) == RecordClass::HS,
        !(1 <= v <= 4) ==> record_class_of(v) == RecordClass::UNKNOWN(v),
{
}

/// The codes of the types (RFC 1035, section 3.2.2, with AAAA from RFC 3596 and SRV from
/// RFC 2782): each named type has its code, each of these codes reads as its type, and every
/// other code reads as `UNKNOWN` of itself.
pub proof fn lemma_type_codes(v: u16)
    ensures
        record_type_code(RecordType::A) == 1,
        record_type_code(RecordType::NS) == 2,
        record_type_code(RecordType::CNAME) == 5,
        record_type_code(RecordType::SOA) == 6,
        record_type_code(RecordType::WKS) == 11,
        record_type_code(RecordType::PTR) == 12,
        record_type_code(RecordType::HINFO) == 13,
        record_type_code(RecordType::MINFO) == 14,
        record_type_code(RecordType::MX) == 15,
        record_type_code(RecordType::TXT) == 16,
        record_type_code(RecordType::AAAA) == 28,
        record_type_code(RecordType::SRV) == 33,
        record_type_code(RecordType::UNKNOWN(v)) == v,
        record_type_of(1) == RecordType::A,
        record_type_of(2) == RecordType::NS,
        record_type_of(5) == RecordType::CNAME,
        record_type_of(6) == RecordType::SOA,
        record_type_of(11) == RecordType::WKS,
        record_type_of(12) == RecordType::PTR,
        record_type_of(13) == RecordType::HINFO,
        record_type_of(14) == RecordType::MINFO,
        record_type_of(15) == RecordType::MX,
        record_type_of(16) == RecordType::TXT,
        record_type_of(28) == RecordType::AAAA,
        record_type_of(33) == RecordType::SRV,
        !(v == 1 || v == 2 || v == 5 || v == 6 || (11 <= v <= 16) || v == 28 || v == 33)
            ==> record_type_of(v) == RecordType::UNKNOWN(v),
{
}

/// The resource data of a record: an IPv4 address for `A` records, the raw bytes otherwise.
#[derive(Debug)]
pub enum Data {
    /// The four octets of an IPv4 address, in network order.
    IPv4([u8; 4]),
    /// The bytes of any other kind of data, as they are.
    Unknown(Vec<u8>),
}

/// The mathematical value of a `Data`: which kind it is, and its bytes.
pub enum DataView {
    IPv4(Seq<u8>),
    Unknown(Seq<u8>),
}

impl View for Data {
    type V = DataView;

    open spec fn view(&self) -> DataView {
        match self {
            Data::IPv4(a) => DataView::IPv4(a@),
            Data::Unknown(v) => DataView::Unknown(v@),
        }
    }
}

/// The bytes that carry the data on the wire.
pub open spec fn data_bytes(d: DataView) -> Seq<u8> {
    match d {
        DataView::IPv4(b) => b,
        DataView::Unknown(b) => b,
    }
}

/// The 16-bit data length that is written in front of the data: four for an address, and for
/// raw bytes their count, cut to 16 bits.
pub open spec fn data_length(d: DataView) -> u16 {
    match d {
        DataView::IPv4(_) => 4,
        DataView::Unknown(b) => (b.len() % 65536) as u16,
    }
}

impl DNSEncodable for Data {
    open spec fn wire(&self) -> Seq<u8> {
        data_bytes(self@)
    }

    fn write_bytes(&self, writer: &mut Vec<u8>) -> (r: DNSResult<()>) {
        match self {
            Data::IPv4(addr) => write_slice(writer, addr.as_slice()),
            Data::Unknown(data) => write_slice(writer, data.as_slice()),
        }
        Ok(())
    }
}

impl Data {
    pub fn len(&self) -> (r: u16)
        ensures
            r == data_length(self@),
    {
        match self {
            Data::IPv4(_) => 4,
            Data::Unknown(data) => (data.len() % 65536) as u16,
        }
    }
}

} // verus!
