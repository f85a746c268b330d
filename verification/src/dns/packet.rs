use vstd::prelude::*;

use crate::dns::header::{header_wire, lemma_header_roundtrip, parse_header, DNSHeader};
use crate::dns::question::{
    decode_question, lemma_question_roundtrip, parse_question, question_fits, question_wire,
    DNSQuestion, QuestionView,
};
use crate::dns::record::{
    decode_record, lemma_record_roundtrip, parse_record, record_fits, record_wire, DNSRecord,
    RecordView,
};
use crate::dns::types::{
    error_text, lemma_piece, reports, BytePacketReader, DNSDecodable, DNSEncodable, DNSResult, Parsed,
};

verus! {

/// A whole DNS message: the header, then the questions, answers, authority records and
/// additional records.
#[derive(Debug)]
pub struct DNSPacket {
    pub header: DNSHeader,
    pub questions: Vec<DNSQuestion>,
    pub answers: Vec<DNSRecord>,
    pub authorities: Vec<DNSRecord>,
    pub additionals: Vec<DNSRecord>,
}

/// The mathematical value of a `DNSPacket`.
pub struct PacketView {
    pub header: DNSHeader,
    pub questions: Seq<QuestionView>,
    pub answers: Seq<RecordView>,
    pub authorities: Seq<RecordView>,
    pub additionals: Seq<RecordView>,
}

/// The views of the questions.
pub open spec fn questions_view(qs: Seq<DNSQuestion>) -> Seq<QuestionView> {
    qs.map_values(|q: DNSQuestion| q@)
}

/// The views of the records.
pub open spec fn records_view(rs: Seq<DNSRecord>) -> Seq<RecordView> {
    rs.map_values(|r: DNSRecord| r@)
}

impl View for DNSPacket {
    type V = PacketView;

    open spec fn view(&self) -> PacketView {
        PacketView {
            header: self.header,
            questions: questions_view(self.questions@),
            answers: records_view(self.answers@),
            authorities: records_view(self.authorities@),
            additionals: records_view(self.additionals@),
        }
    }
}

/// The questions' bytes, one after the other.
pub open spec fn questions_wire(qs: Seq<QuestionView>) -> Seq<u8>
    decreases qs.len(),
{
    if qs.len() == 0 {
        Seq::empty()
    } else {
        questions_wire(qs.drop_last()) + question_wire(qs.last())
    }
}

/// The records' bytes, one after the other.
pub open spec fn records_wire(rs: Seq<RecordView>) -> Seq<u8>
    decreases rs.len(),
{
    if rs.len() == 0 {
        Seq::empty()
    } else {
        records_wire(rs.drop_last()) + record_wire(rs.last())
    }
}

/// The bytes of a packet: its header, then its questions, answers, authorities and additionals.
/// The counts in the header are written as they are.
pub open spec fn packet_wire(p: PacketView) -> Seq<u8> {
    header_wire(p.header) + questions_wire(p.questions) + records_wire(p.answers) + records_wire(
        p.authorities,
    ) + records_wire(p.additionals)
}

/// Decoding `n` items one after the other with `item`.
pub open spec fn parse_seq<T>(
    item: spec_fn(Seq<u8>, int) -> Parsed<T>,
    buf: Seq<u8>,
    pos: int,
    n: nat,
) -> Parsed<Seq<T>>
    decreases n,
{
    if n == 0 {
        Parsed::Done(Seq::empty(), pos)
    } else {
        parse_seq(item, buf, pos, (n - 1) as nat).and_then(
            |items: Seq<T>, p: int|
                item(buf, p).and_then(|x: T, q: int| Parsed::Done(items.push(x), q)),
        )
    }
}

/// Decoding one question.
pub open spec fn question_item() -> spec_fn(Seq<u8>, int) -> Parsed<QuestionView> {
    |b: Seq<u8>, p: int| parse_question(b, p)
}

/// Decoding one record.
pub open spec fn record_item() -> spec_fn(Seq<u8>, int) -> Parsed<RecordView> {
    |b: Seq<u8>, p: int| parse_record(b, p)
}

/// Decoding a packet from `buf` at `pos`: the header, then as many questions, answers,
/// authority records and additional records as the header counts.
pub open spec fn parse_packet(buf: Seq<u8>, pos: int) -> Parsed<PacketView> {
    parse_header(buf, pos).and_then(|header: DNSHeader, p: int| parse_after_header(buf, header, p))
}

/// After the header: the questions, then the rest.
pub open spec fn parse_after_header(buf: Seq<u8>, header: DNSHeader, pos: int) -> Parsed<
    PacketView,
> {
    parse_seq(question_item(), buf, pos, header.num_questions as nat).and_then(
        |questions: Seq<QuestionView>, p: int| parse_after_questions(buf, header, questions, p),
    )
}

/// After the questions: the answers, then the rest.
pub open spec fn parse_after_questions(
    buf: Seq<u8>,
    header: DNSHeader,
    questions: Seq<QuestionView>,
    pos: int,
) -> Parsed<PacketView> {
    parse_seq(record_item(), buf, pos, header.num_answers as nat).and_then(
        |answers: Seq<RecordView>, p: int|
            parse_after_answers(buf, header, questions, answers, p),
    )
}

/// After the answers: the authority records, then the additional records.
pub open spec fn parse_after_answers(
    buf: Seq<u8>,
    header: DNSHeader,
    questions: Seq<QuestionView>,
    answers: Seq<RecordView>,
    pos: int,
) -> Parsed<PacketView> {
    parse_seq(record_item(), buf, pos, header.num_authorities as nat).and_then(
        |authorities: Seq<RecordView>, p: int|
            parse_seq(record_item(), buf, p, header.num_additionals as nat).and_then(
                |additionals: Seq<RecordView>, p: int|
                    Parsed::Done(
                        PacketView { header, questions, answers, authorities, additionals },
                        p,
                    ),
            ),
    )
}

/// Decoding `n` entries gives `n` entries.
pub proof fn lemma_parse_seq_len<T>(
    item: spec_fn(Seq<u8>, int) -> Parsed<T>,
    buf: Seq<u8>,
    pos: int,
    n: nat,
)
    ensures
        parse_seq(item, buf, pos, n) matches Parsed::Done(items, _) ==> items.len() == n,
    decreases n,
{
    if n > 0 {
        lemma_parse_seq_len(item, buf, pos, (n - 1) as nat);
    }
}

/// Entries come out in the order they stand on the wire: after decoding `n` entries, the first
/// `i` of them are what decoding `i` entries gives, and entry `i` is the one that starts where
/// those `i` end.
pub proof fn lemma_parse_seq_in_order<T>(
    item: spec_fn(Seq<u8>, int) -> Parsed<T>,
    buf: Seq<u8>,
    pos: int,
    n: nat,
    i: nat,
)
    requires
        i < n,
        parse_seq(item, buf, pos, n) is Done,
    ensures
        parse_seq(item, buf, pos, n) matches Parsed::Done(items, _) && (parse_seq(
            item,
            buf,
            pos,
            i,
        ) matches Parsed::Done(before, p) && (before == items.take(i as int) && (item(
            buf,
            p,
        ) matches Parsed::Done(x, _) && x == items[i as int]))),
    decreases n,
{
    let prev = parse_seq(item, buf, pos, (n - 1) as nat);
    if let Parsed::Done(before, p) = prev {
        if let Parsed::Done(x, q) = item(buf, p) {
            let items = before.push(x);
            assert(parse_seq(item, buf, pos, n) == Parsed::Done(items, q));
            lemma_parse_seq_len(item, buf, pos, (n - 1) as nat);
            if i == n - 1 {
                assert(items.take(i as int) =~= before);
            } else {
                lemma_parse_seq_in_order(item, buf, pos, (n - 1) as nat, i);
                assert(items.take(i as int) =~= before.take(i as int));
            }
        }
    }
}

/// The bytes of questions put one after another are the bytes of each, in the same order:
/// one question is its own bytes, and two runs of questions give their bytes one after the
/// other.
pub proof fn lemma_questions_wire_concat(a: Seq<QuestionView>, b: Seq<QuestionView>)
    ensures
        questions_wire(Seq::empty()) == Seq::<u8>::empty(),
        a.len() == 1 ==> questions_wire(a) == question_wire(a[0]),
        questions_wire(a + b) == questions_wire(a) + questions_wire(b),
    decreases b.len(),
{
    if a.len() == 1 {
        assert(a.drop_last() =~= Seq::<QuestionView>::empty());
        assert(questions_wire(a.drop_last()) + question_wire(a[0]) =~= question_wire(a[0]));
    }
    if b.len() == 0 {
        assert(a + b =~= a);
        assert(questions_wire(a) + questions_wire(b) =~= questions_wire(a));
    } else {
        lemma_questions_wire_concat(a, b.drop_last());
        assert((a + b).drop_last() =~= a + b.drop_last());
        assert((a + b).last() == b.last());
        assert(questions_wire(a) + (questions_wire(b.drop_last()) + question_wire(b.last()))
            =~= (questions_wire(a) + questions_wire(b.drop_last())) + question_wire(b.last()));
    }
}

/// The bytes of records put one after another are the bytes of each, in the same order: one
/// record is its own bytes, and two runs of records give their bytes one after the other.
pub proof fn lemma_records_wire_concat(a: Seq<RecordView>, b: Seq<RecordView>)
    ensures
        records_wire(Seq::empty()) == Seq::<u8>::empty(),
        a.len() == 1 ==> records_wire(a) == record_wire(a[0]),
        records_wire(a + b) == records_wire(a) + records_wire(b),
    decreases b.len(),
{
    if a.len() == 1 {
        assert(a.drop_last() =~= Seq::<RecordView>::empty());
        assert(records_wire(a.drop_last()) + record_wire(a[0]) =~= record_wire(a[0]));
    }
    if b.len() == 0 {
        assert(a + b =~= a);
        assert(records_wire(a) + records_wire(b) =~= records_wire(a));
    } else {
        lemma_records_wire_concat(a, b.drop_last());
        assert((a + b).drop_last() =~= a + b.drop_last());
        assert((a + b).last() == b.last());
        assert(records_wire(a) + (records_wire(b.drop_last()) + record_wire(b.last()))
            =~= (records_wire(a) + records_wire(b.drop_last())) + record_wire(b.last()));
    }
}

/// Once an item fails or never ends, decoding more items ends the same way.
proof fn lemma_parse_seq_stuck<T>(
    item: spec_fn(Seq<u8>, int) -> Parsed<T>,
    buf: Seq<u8>,
    pos: int,
    i: nat,
    n: nat,
)
    requires
        i <= n,
        !(parse_seq(item, buf, pos, i) is Done),
    ensures
        parse_seq(item, buf, pos, n) == parse_seq(item, buf, pos, i),
    decreases n,
{
    if i < n {
        lemma_parse_seq_stuck(item, buf, pos, i, (n - 1) as nat);
    }
}

/// `r`, with the reader left at `end`, is what decoding the items says.
pub open spec fn reports_items<T: View>(o: Parsed<Seq<T::V>>, r: DNSResult<Vec<T>>, end: int) -> bool {
    match o {
        Parsed::Done(v, p) => r is Ok && r->Ok_0@.map_values(|x: T| x@) == v && end == p,
        Parsed::Failed(e, p) => r is Err && r->Err_0@ == error_text(e) && end == p,
        Parsed::Hangs => false,
    }
}

/// Decodes `n` questions; `None` when the name of one never ends.
fn decode_questions(reader: &mut BytePacketReader, n: u16) -> (r: Option<DNSResult<Vec<DNSQuestion>>>)
    ensures
        final(reader).buffer == old(reader).buffer,
        r is None <==> !parse_seq(
            question_item(),
            old(reader).buffer@,
            old(reader).position as int,
            n as nat,
        ).halts(),
        r matches Some(x) ==> reports_items(
            parse_seq(question_item(), old(reader).buffer@, old(reader).position as int, n as nat),
            x,
            final(reader).position as int,
        ),
{
    let ghost buf = reader.buffer@;
    let ghost start = reader.position as int;
    let mut items: Vec<DNSQuestion> = Vec::new();
    let mut i: u16 = 0;
    assert(questions_view(items@) =~= Seq::<QuestionView>::empty());
    while i < n
        invariant
            reader.buffer == old(reader).buffer,
            buf == reader.buffer@,
            start == old(reader).position,
            i <= n,
            parse_seq(question_item(), buf, start, i as nat) == Parsed::Done(
                questions_view(items@),
                reader.position as int,
            ),
        decreases n - i,
    {
        let ghost acc = questions_view(items@);
        match decode_question(reader) {
            None => {
                proof {
                    lemma_parse_seq_stuck(question_item(), buf, start, (i + 1) as nat, n as nat);
                }
                return None;
            },
            Some(Err(e)) => {
                proof {
                    lemma_parse_seq_stuck(question_item(), buf, start, (i + 1) as nat, n as nat);
                }
                return Some(Err(e));
            },
            Some(Ok(q)) => {
                items.push(q);
                proof {
                    assert(questions_view(items@) =~= acc.push(q@));
                }
            },
        }
        i += 1;
    }
    Some(Ok(items))
}

/// Decodes `n` records; `None` when the name of one never ends.
fn decode_records(reader: &mut BytePacketReader, n: u16) -> (r: Option<DNSResult<Vec<DNSRecord>>>)
    ensures
        final(reader).buffer == old(reader).buffer,
        r is None <==> !parse_seq(
            record_item(),
            old(reader).buffer@,
            old(reader).position as int,
            n as nat,
        ).halts(),
        r matches Some(x) ==> reports_items(
            parse_seq(record_item(), old(reader).buffer@, old(reader).position as int, n as nat),
            x,
            final(reader).position as int,
        ),
{
    let ghost buf = reader.buffer@;
    let ghost start = reader.position as int;
    let mut items: Vec<DNSRecord> = Vec::new();
    let mut i: u16 = 0;
    assert(records_view(items@) =~= Seq::<RecordView>::empty());
    while i < n
        invariant
            reader.buffer == old(reader).buffer,
            buf == reader.buffer@,
            start == old(reader).position,
            i <= n,
            parse_seq(record_item(), buf, start, i as nat) == Parsed::Done(
                records_view(items@),
                reader.position as int,
            ),
        decreases n - i,
    {
        let ghost acc = records_view(items@);
        match decode_record(reader) {
            None => {
                proof {
                    lemma_parse_seq_stuck(record_item(), buf, start, (i + 1) as nat, n as nat);
                }
                return None;
            },
            Some(Err(e)) => {
                proof {
                    lemma_parse_seq_stuck(record_item(), buf, start, (i + 1) as nat, n as nat);
                }
                return Some(Err(e));
            },
            Some(Ok(r)) => {
                items.push(r);
                proof {
                    assert(records_view(items@) =~= acc.push(r@));
                }
            },
        }
        i += 1;
    }
    Some(Ok(items))
}

/// Questions that decode from their own encoding, one after the other.
#[verifier::spinoff_prover]
#[verifier::rlimit(40)]
proof fn lemma_questions_roundtrip(qs: Seq<QuestionView>, buf: Seq<u8>, pos: int)
    requires
        forall|i: int| 0 <= i < qs.len() ==> question_fits(#[trigger] qs[i]),
        0 <= pos,
        pos + questions_wire(qs).len() <= buf.len(),
        buf.subrange(pos, pos + questions_wire(qs).len()) == questions_wire(qs),
    ensures
        parse_seq(question_item(), buf, pos, qs.len()) == Parsed::Done(
            qs,
            pos + questions_wire(qs).len(),
        ),
    decreases qs.len(),
{
    if qs.len() == 0 {
        assert(qs =~= Seq::empty());
    } else {
        let init = qs.drop_last();
        let w = questions_wire(qs);
        let iw = questions_wire(init);
        let lw = question_wire(qs.last());
        assert(w == iw + lw);
        assert(w.subrange(0, iw.len() as int) =~= iw);
        assert(w.subrange(iw.len() as int, w.len() as int) =~= lw);
        lemma_piece(buf, pos, w, 0, iw.len() as int);
        lemma_piece(buf, pos, w, iw.len() as int, w.len() as int);
        assert forall|i: int| 0 <= i < init.len() implies question_fits(#[trigger] init[i]) by {
            assert(init[i] == qs[i]);
        }
        lemma_questions_roundtrip(init, buf, pos);
        assert(question_fits(qs[qs.len() - 1]));
        lemma_question_roundtrip(qs.last(), buf, pos + iw.len());
        assert(question_item()(buf, pos + iw.len()) == parse_question(buf, pos + iw.len()));
        assert(init.push(qs.last()) =~= qs);
        assert(init.len() == (qs.len() - 1) as nat);
    }
}

/// Records that decode from their own encoding, one after the other.
#[verifier::spinoff_prover]
#[verifier::rlimit(40)]
proof fn lemma_records_roundtrip(rs: Seq<RecordView>, buf: Seq<u8>, pos: int)
    requires
        forall|i: int| 0 <= i < rs.len() ==> record_fits(#[trigger] rs[i]),
        0 <= pos,
        pos + records_wire(rs).len() <= buf.len(),
        buf.subrange(pos, pos + records_wire(rs).len()) == records_wire(rs),
    ensures
        parse_seq(record_item(), buf, pos, rs.len()) == Parsed::Done(
            rs,
            pos + records_wire(rs).len(),
        ),
    decreases rs.len(),
{
    if rs.len() == 0 {
        assert(rs =~= Seq::empty());
    } else {
        let init = rs.drop_last();
        let w = records_wire(rs);
        let iw = records_wire(init);
        let lw = record_wire(rs.last());
        assert(w == iw + lw);
        assert(w.subrange(0, iw.len() as int) =~= iw);
        assert(w.subrange(iw.len() as int, w.len() as int) =~= lw);
        lemma_piece(buf, pos, w, 0, iw.len() as int);
        lemma_piece(buf, pos, w, iw.len() as int, w.len() as int);
        assert forall|i: int| 0 <= i < init.len() implies record_fits(#[trigger] init[i]) by {
            assert(init[i] == rs[i]);
        }
        lemma_records_roundtrip(init, buf, pos);
        assert(record_fits(rs[rs.len() - 1]));
        lemma_record_roundtrip(rs.last(), buf, pos + iw.len());
        assert(record_item()(buf, pos + iw.len()) == parse_record(buf, pos + iw.len()));
        assert(init.push(rs.last()) =~= rs);
        assert(init.len() == (rs.len() - 1) as nat);
    }
}

/// A packet that decodes from its own encoding: the counts in its header are the numbers of
/// its questions and records, and each of these fits.
pub open spec fn packet_fits(p: PacketView) -> bool {
    &&& p.header.num_questions == p.questions.len()
    &&& p.header.num_answers == p.answers.len()
    &&& p.header.num_authorities == p.authorities.len()
    &&& p.header.num_additionals == p.additionals.len()
    &&& forall|i: int| 0 <= i < p.questions.len() ==> question_fits(#[trigger] p.questions[i])
    &&& forall|i: int| 0 <= i < p.answers.len() ==> record_fits(#[trigger] p.answers[i])
    &&& forall|i: int| 0 <= i < p.authorities.len() ==> record_fits(#[trigger] p.authorities[i])
    &&& forall|i: int| 0 <= i < p.additionals.len() ==> record_fits(#[trigger] p.additionals[i])
}

/// The five parts of the bytes at `pos` each stand at their place.
proof fn lemma_five_pieces(
    buf: Seq<u8>,
    pos: int,
    x1: Seq<u8>,
    x2: Seq<u8>,
    x3: Seq<u8>,
    x4: Seq<u8>,
    x5: Seq<u8>,
)
    requires
        0 <= pos,
        pos + (x1 + x2 + x3 + x4 + x5).len() <= buf.len(),
        buf.subrange(pos, pos + (x1 + x2 + x3 + x4 + x5).len()) == x1 + x2 + x3 + x4 + x5,
    ensures
        buf.subrange(pos, pos + x1.len()) == x1,
        buf.subrange(pos + x1.len(), pos + x1.len() + x2.len()) == x2,
        buf.subrange(pos + x1.len() + x2.len(), pos + x1.len() + x2.len() + x3.len()) == x3,
        buf.subrange(
            pos + x1.len() + x2.len() + x3.len(),
            pos + x1.len() + x2.len() + x3.len() + x4.len(),
        ) == x4,
        buf.subrange(
            pos + x1.len() + x2.len() + x3.len() + x4.len(),
            pos + x1.len() + x2.len() + x3.len() + x4.len() + x5.len(),
        ) == x5,
{
    let w = x1 + x2 + x3 + x4 + x5;
    let a = x1.len() as int;
    let b = a + x2.len();
    let c = b + x3.len();
    let d = c + x4.len();
    let e = d + x5.len();
    assert(w.subrange(0, a) =~= x1);
    assert(w.subrange(a, b) =~= x2);
    assert(w.subrange(b, c) =~= x3);
    assert(w.subrange(c, d) =~= x4);
    assert(w.subrange(d, e) =~= x5);
    lemma_piece(buf, pos, w, 0, a);
    lemma_piece(buf, pos, w, a, b);
    lemma_piece(buf, pos, w, b, c);
    lemma_piece(buf, pos, w, c, d);
    lemma_piece(buf, pos, w, d, e);
}

/// Sections that each decode to their values make the packet of those values.
proof fn lemma_sections(buf: Seq<u8>, p: PacketView, a: int, b: int, c: int, d: int, e: int)
    requires
        parse_seq(question_item(), buf, a, p.header.num_questions as nat) == Parsed::Done(
            p.questions,
            b,
        ),
        parse_seq(record_item(), buf, b, p.header.num_answers as nat) == Parsed::Done(p.answers, c),
        parse_seq(record_item(), buf, c, p.header.num_authorities as nat) == Parsed::Done(
            p.authorities,
            d,
        ),
        parse_seq(record_item(), buf, d, p.header.num_additionals as nat) == Parsed::Done(
            p.additionals,
            e,
        ),
    ensures
        parse_after_header(buf, p.header, a) == Parsed::Done(p, e),
{
    assert(parse_after_answers(buf, p.header, p.questions, p.answers, c) == Parsed::Done(p, e));
    assert(parse_after_questions(buf, p.header, p.questions, b) == Parsed::Done(p, e));
}

/// The header and the questions of a fitting packet decode from its bytes.
#[verifier::spinoff_prover]
#[verifier::rlimit(40)]
proof fn lemma_packet_front(p: PacketView, buf: Seq<u8>, pos: int)
    requires
        packet_fits(p),
        0 <= pos,
        pos + packet_wire(p).len() <= buf.len(),
        buf.subrange(pos, pos + packet_wire(p).len()) == packet_wire(p),
    ensures
        parse_header(buf, pos) == Parsed::Done(p.header, pos + 12),
        parse_seq(question_item(), buf, pos + 12, p.questions.len()) == Parsed::Done(
            p.questions,
            pos + 12 + questions_wire(p.questions).len(),
        ),
{
    let hw = header_wire(p.header);
    let qw = questions_wire(p.questions);
    let anw = records_wire(p.answers);
    let auw = records_wire(p.authorities);
    let adw = records_wire(p.additionals);
    lemma_five_pieces(buf, pos, hw, qw, anw, auw, adw);
    lemma_header_roundtrip(p.header, buf, pos);
    lemma_questions_roundtrip(p.questions, buf, pos + 12);
}

/// The records of a fitting packet decode from its bytes.
#[verifier::spinoff_prover]
#[verifier::rlimit(40)]
proof fn lemma_packet_back(p: PacketView, buf: Seq<u8>, pos: int)
    requires
        packet_fits(p),
        0 <= pos,
        pos + packet_wire(p).len() <= buf.len(),
        buf.subrange(pos, pos + packet_wire(p).len()) == packet_wire(p),
    ensures
        ({
            let b = pos + 12 + questions_wire(p.questions).len();
            let c = b + records_wire(p.answers).len();
            let d = c + records_wire(p.authorities).len();
            let e = d + records_wire(p.additionals).len();
            &&& parse_seq(record_item(), buf, b, p.answers.len()) == Parsed::Done(p.answers, c)
            &&& parse_seq(record_item(), buf, c, p.authorities.len()) == Parsed::Done(
                p.authorities,
                d,
            )
            &&& parse_seq(record_item(), buf, d, p.additionals.len()) == Parsed::Done(
                p.additionals,
                e,
            )
            &&& e == pos + packet_wire(p).len()
        }),
{
    let hw = header_wire(p.header);
    let qw = questions_wire(p.questions);
    let anw = records_wire(p.answers);
    let auw = records_wire(p.authorities);
    let adw = records_wire(p.additionals);
    lemma_five_pieces(buf, pos, hw, qw, anw, auw, adw);
    let b = pos + 12 + qw.len();
    lemma_records_roundtrip(p.answers, buf, b);
    lemma_records_roundtrip(p.authorities, buf, b + anw.len());
    lemma_records_roundtrip(p.additionals, buf, b + anw.len() + auw.len());
}

/// What a packet writes, a reader reads back: a fitting packet whose bytes stand in the buffer
/// at `pos` decodes to the same packet, with the reader right after its bytes.
#[verifier::spinoff_prover]
#[verifier::rlimit(40)]
pub proof fn lemma_packet_roundtrip(p: PacketView, buf: Seq<u8>, pos: int)
    requires
        packet_fits(p),
        0 <= pos,
        pos + packet_wire(p).len() <= buf.len(),
        buf.subrange(pos, pos + packet_wire(p).len()) == packet_wire(p),
    ensures
        parse_packet(buf, pos) == Parsed::Done(p, pos + packet_wire(p).len()),
{
    lemma_packet_front(p, buf, pos);
    lemma_packet_back(p, buf, pos);
    let a = pos + 12;
    let b = a + questions_wire(p.questions).len();
    let c = b + records_wire(p.answers).len();
    let d = c + records_wire(p.authorities).len();
    let e = d + records_wire(p.additionals).len();
    lemma_sections(buf, p, a, b, c, d, e);
}

/// Writes each question, in order.
fn write_questions(writer: &mut Vec<u8>, questions: &Vec<DNSQuestion>)
    ensures
        final(writer)@ == old(writer)@ + questions_wire(questions_view(questions@)),
{
    let n: usize = questions.len();
    let mut i: usize = 0;
    assert(questions_view(questions@).take(0) =~= Seq::<QuestionView>::empty());
    while i < n
        invariant
            n == questions@.len(),
            i <= n,
            writer@ == old(writer)@ + questions_wire(questions_view(questions@).take(i as int)),
        decreases n - i,
    {
        let _ = questions[i].write_bytes(writer);
        proof {
            let all = questions_view(questions@);
            assert(all.take(i + 1).drop_last() =~= all.take(i as int));
            assert(all.take(i + 1).last() == questions@[i as int]@);
        }
        i += 1;
    }
    assert(questions_view(questions@).take(n as int) =~= questions_view(questions@));
}

/// Writes each record, in order.
fn write_records(writer: &mut Vec<u8>, records: &Vec<DNSRecord>)
    ensures
        final(writer)@ == old(writer)@ + records_wire(records_view(records@)),
{
    let n: usize = records.len();
    let mut i: usize = 0;
    assert(records_view(records@).take(0) =~= Seq::<RecordView>::empty());
    while i < n
        invariant
            n == records@.len(),
            i <= n,
            writer@ == old(writer)@ + records_wire(records_view(records@).take(i as int)),
        decreases n - i,
    {
        let _ = records[i].write_bytes(writer);
        proof {
            let all = records_view(records@);
            assert(all.take(i + 1).drop_last() =~= all.take(i as int));
            assert(all.take(i + 1).last() == records@[i as int]@);
        }
        i += 1;
    }
    assert(records_view(records@).take(n as int) =~= records_view(records@));
}

impl DNSPacket {
    /// A helper to create a clean packet with empty lists
    pub fn new(header: DNSHeader) -> (p: Self)
        ensures
            p@ == (PacketView {
                header,
                questions: Seq::empty(),
                answers: Seq::empty(),
                authorities: Seq::empty(),
                additionals: Seq::empty(),
            }),
            p.questions@.len() == 0,
            p.answers@.len() == 0,
            p.authorities@.len() == 0,
            p.additionals@.len() == 0,
    {
        let p = DNSPacket {
            header,
            questions: Vec::new(),
            answers: Vec::new(),
            authorities: Vec::new(),
            additionals: Vec::new(),
        };
        assert(p@.questions =~= Seq::<QuestionView>::empty());
        assert(p@.answers =~= Seq::<RecordView>::empty());
        assert(p@.authorities =~= Seq::<RecordView>::empty());
        assert(p@.additionals =~= Seq::<RecordView>::empty());
        p
    }

    /// Decodes a packet like `from_bytes`, but where `from_bytes` would never return (the
    /// compression pointers of a name lead in a circle), returns `None` and leaves the reader
    /// where it was.
    pub fn try_from_bytes(reader: &mut BytePacketReader) -> (r: Option<DNSResult<DNSPacket>>)
        ensures
            final(reader).buffer == old(reader).buffer,
            r is None <==> !parse_packet(old(reader).buffer@, old(reader).position as int).halts(),
            r is None ==> final(reader).position == old(reader).position,
            r matches Some(x) ==> reports(
                parse_packet(old(reader).buffer@, old(reader).position as int),
                x,
                final(reader).position as int,
            ),
    {
        let start: usize = reader.position;
        let r = decode_packet(reader);
        if r.is_none() {
            reader.position = start;
        }
        r
    }
}

/// Decodes a packet; `None` when the name of one of its entries never ends.
fn decode_packet(reader: &mut BytePacketReader) -> (r: Option<DNSResult<DNSPacket>>)
    ensures
        final(reader).buffer == old(reader).buffer,
        r is None <==> !parse_packet(old(reader).buffer@, old(reader).position as int).halts(),
        r matches Some(x) ==> reports(
            parse_packet(old(reader).buffer@, old(reader).position as int),
            x,
            final(reader).position as int,
        ),
{
    let header = match DNSHeader::from_bytes(reader) {
        Ok(h) => h,
        Err(e) => return Some(Err(e)),
    };
    let questions = match decode_questions(reader, header.num_questions) {
        None => return None,
        Some(Err(e)) => return Some(Err(e)),
        Some(Ok(v)) => v,
    };
    let answers = match decode_records(reader, header.num_answers) {
        None => return None,
        Some(Err(e)) => return Some(Err(e)),
        Some(Ok(v)) => v,
    };
    let authorities = match decode_records(reader, header.num_authorities) {
        None => return None,
        Some(Err(e)) => return Some(Err(e)),
        Some(Ok(v)) => v,
    };
    let additionals = match decode_records(reader, header.num_additionals) {
        None => return None,
        Some(Err(e)) => return Some(Err(e)),
        Some(Ok(v)) => v,
    };
    Some(Ok(DNSPacket { header, questions, answers, authorities, additionals }))
}

impl DNSEncodable for DNSPacket {
    open spec fn wire(&self) -> Seq<u8> {
        packet_wire(self@)
    }

    fn write_bytes(&self, writer: &mut Vec<u8>) -> (r: DNSResult<()>) {
        self.header.write_bytes(writer)?;
        write_questions(writer, &self.questions);
        write_records(writer, &self.answers);
        write_records(writer, &self.authorities);
        write_records(writer, &self.additionals);
        Ok(())
    }
}

impl DNSDecodable for DNSPacket {
    open spec fn decoding_halts(buf: Seq<u8>, pos: int) -> bool {
        parse_packet(buf, pos).halts()
    }

    fn from_bytes(reader: &mut BytePacketReader) -> (r: DNSResult<Self>)
        ensures
            reports(
                parse_packet(old(reader).buffer@, old(reader).position as int),
                r,
                final(reader).position as int,
            ),
    {
        match decode_packet(reader) {
            Some(r) => r,
            None => vstd::pervasive::unreached(),
        }
    }
}

} // verus!
