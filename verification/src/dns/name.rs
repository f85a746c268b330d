use vstd::prelude::*;
use vstd::utf8::{encode_utf8, is_ascii_chars, is_ascii_chars_encode_utf8};

use vstd::set_lib::{lemma_int_range, lemma_len_subset, set_int_range};

use crate::dns::types::{
    reports, write_slice, BytePacketReader, DNSDecodable, DNSEncodable, DNSResult, DecodeError,
    Parsed,
};

verus! {

/// The byte of `.`, which separates the labels of a name.
pub const DOT: u8 = 46;

/// std's `String::push`: the contract claims that it appends the one character `ch` to the
/// string's characters.
pub assume_specification[ String::push ](string: &mut String, ch: char)
    ensures
        final(string)@ == old(string)@.push(ch),
;

/// Holds the parsed DNS name, like "example.com".
#[derive(Debug)]
pub struct DnsName(pub String);

/// Another name for `DnsName`.
pub type DNSName = DnsName;

impl View for DnsName {
    type V = Seq<char>;

    open spec fn view(&self) -> Seq<char> {
        self.0@
    }
}

/// The pieces of `b` between its dots, in order: what `split(".")` gives. There is always at
/// least one piece, and a piece may be empty.
pub open spec fn split_dots(b: Seq<u8>) -> Seq<Seq<u8>>
    decreases b.len(),
{
    if b.len() == 0 {
        seq![Seq::empty()]
    } else {
        let rest = split_dots(b.drop_last());
        if b.last() == DOT {
            rest.push(Seq::empty())
        } else {
            rest.update(rest.len() - 1, rest.last().push(b.last()))
        }
    }
}

/// Each label behind a length byte, one after the other. The length byte is the label's byte
/// count cut to eight bits.
pub open spec fn labels_wire(labels: Seq<Seq<u8>>) -> Seq<u8>
    decreases labels.len(),
{
    if labels.len() == 0 {
        Seq::empty()
    } else {
        labels_wire(labels.drop_last()) + seq![(labels.last().len() % 256) as u8] + labels.last()
    }
}

/// The bytes that encode a name with the characters `name`: the labels of its UTF-8 bytes,
/// each behind its length byte, then a zero byte. Example: `[7]example[3]com[0]`.
pub open spec fn name_wire(name: Seq<char>) -> Seq<u8> {
    labels_wire(split_dots(encode_utf8(name))) + seq![0u8]
}

/// Splitting gives at least one piece.
proof fn lemma_split_dots_nonempty(b: Seq<u8>)
    ensures
        split_dots(b).len() >= 1,
    decreases b.len(),
{
    if b.len() > 0 {
        lemma_split_dots_nonempty(b.drop_last());
    }
}

/// Appends the label `bytes[start..end]` behind its length byte.
fn write_label(writer: &mut Vec<u8>, bytes: &[u8], start: usize, end: usize)
    requires
        start <= end <= bytes@.len(),
    ensures
        final(writer)@ == old(writer)@ + seq![((end - start) % 256) as u8] + bytes@.subrange(
            start as int,
            end as int,
        ),
{
    writer.push(((end - start) % 256) as u8);
    let ghost mid = writer@;
    let mut i: usize = start;
    while i < end
        invariant
            start <= i <= end <= bytes@.len(),
            writer@ == mid + bytes@.subrange(start as int, i as int),
        decreases end - i,
    {
        writer.push(bytes[i]);
        i += 1;
        assert(bytes@.subrange(start as int, i as int) == bytes@.subrange(
            start as int,
            i - 1,
        ).push(bytes@[i - 1]));
    }
}

impl DNSEncodable for DnsName {
    open spec fn wire(&self) -> Seq<u8> {
        name_wire(self@)
    }

    fn write_bytes(&self, writer: &mut Vec<u8>) -> (r: DNSResult<()>) {
        // In DNS, the name alternates between a length byte (the length of the
        // following label) and the label's bytes (without dots). A "0"-length byte
        // represents the end. Example: [7]example[3]com[0]
        let bytes: &[u8] = self.0.as_str().as_bytes();
        let ghost b = bytes@;
        let n: usize = bytes.len();
        let mut start: usize = 0;
        let mut i: usize = 0;
        proof {
            assert(b.subrange(0, 0) == Seq::<u8>::empty());
        }
        while i < n
            invariant
                n == b.len(),
                b == bytes@,
                start <= i <= n,
                split_dots(b.subrange(0, i as int)).len() >= 1,
                split_dots(b.subrange(0, i as int)).last() == b.subrange(start as int, i as int),
                writer@ == old(writer)@ + labels_wire(
                    split_dots(b.subrange(0, i as int)).drop_last(),
                ),
            decreases n - i,
        {
            let ghost prev = split_dots(b.subrange(0, i as int));
            let ghost c = b.subrange(0, i + 1);
            assert(c.drop_last() == b.subrange(0, i as int));
            if bytes[i] == DOT {
                write_label(writer, bytes, start, i);
                start = i + 1;
                proof {
                    assert(split_dots(c) == prev.push(Seq::empty()));
                    assert(split_dots(c).drop_last() == prev);
                    assert(prev == prev.drop_last().push(prev.last()));
                    assert(labels_wire(prev) == labels_wire(prev.drop_last()) + seq![
                        (prev.last().len() % 256) as u8,
                    ] + prev.last());
                }
            } else {
                proof {
                    let next = prev.update(prev.len() - 1, prev.last().push(b[i as int]));
                    assert(split_dots(c) == next);
                    assert(next.drop_last() == prev.drop_last());
                    assert(b.subrange(start as int, i + 1) == b.subrange(start as int, i as int).push(
                        b[i as int],
                    ));
                }
            }
            i += 1;
        }
        write_label(writer, bytes, start, n);
        writer.push(0);
        proof {
            let all = split_dots(b.subrange(0, n as int));
            assert(b.subrange(0, n as int) == b);
            assert(all == all.drop_last().push(all.last()));
        }
        Ok(())
    }
}

/// Number 192 (binary 11000000). A length byte whose top two bits are set is the first half of
/// a compression pointer (RFC 1035, section 4.1.4) to where the rest of the name stands.
pub const COMPRESSION_PREFIX: u8 = 0xC0;

/// How many steps of the name walk `DnsName::from_bytes` takes at most before it is known
/// that the walk never ends: one more than the number of positions in the buffer.
pub const WALK_LIMIT: usize = 513;

/// The characters of a label as read from the wire: each byte becomes the character with that
/// code.
pub open spec fn label_chars(b: Seq<u8>) -> Seq<char> {
    b.map_values(|x: u8| x as char)
}

/// `prefix` and `rest` joined with a dot between them, where both are non-empty.
pub open spec fn attach(prefix: Seq<char>, rest: Seq<char>) -> Seq<char> {
    if prefix.len() == 0 {
        rest
    } else if rest.len() == 0 {
        prefix
    } else {
        prefix + seq!['.'] + rest
    }
}

/// The offset that the compression pointer at `pos` points to: the low six bits of its first
/// byte, then its second byte.
pub open spec fn pointer_target(buf: Seq<u8>, pos: int) -> int {
    (buf[pos] - 0xC0) * 256 + buf[pos + 1]
}

/// The outcome of walking a name's labels and pointers.
pub enum NameWalk {
    /// The characters read, the position after the terminating zero byte, and the position
    /// after the first compression pointer, if one was followed.
    Ends(Seq<char>, int, Option<int>),
    /// A byte was looked up at this position, which lies at or past the end of the buffer.
    FailsAt(int),
    /// The walk did not end within the steps it was given.
    Unfinished,
}

/// The name at `pos`, walked for at most `fuel` steps (one step per label or pointer): labels
/// are joined with dots, pointers are followed, a zero length byte ends the name.
pub open spec fn name_walk(buf: Seq<u8>, pos: int, fuel: nat) -> NameWalk
    decreases fuel,
{
    if fuel == 0 {
        NameWalk::Unfinished
    } else if !(0 <= pos < buf.len()) {
        NameWalk::FailsAt(pos)
    } else if buf[pos] >= COMPRESSION_PREFIX {
        if pos + 1 >= buf.len() {
            NameWalk::FailsAt(pos + 1)
        } else {
            match name_walk(buf, pointer_target(buf, pos), (fuel - 1) as nat) {
                NameWalk::Ends(chars, end, _) => NameWalk::Ends(chars, end, Some(pos + 2)),
                other => other,
            }
        }
    } else if buf[pos] == 0 {
        NameWalk::Ends(Seq::empty(), pos + 1, None)
    } else if pos + buf[pos] >= buf.len() {
        NameWalk::FailsAt(buf.len() as int)
    } else {
        let label = label_chars(buf.subrange(pos + 1, pos + 1 + buf[pos]));
        match name_walk(buf, pos + 1 + buf[pos], (fuel - 1) as nat) {
            NameWalk::Ends(rest, end, jump) => NameWalk::Ends(attach(label, rest), end, jump),
            other => other,
        }
    }
}

/// Whether walking the name at `pos` comes to an end. Compression pointers that lead in a
/// circle make it go on for ever.
pub open spec fn name_halts(buf: Seq<u8>, pos: int) -> bool {
    exists|fuel: nat| !(name_walk(buf, pos, fuel) is Unfinished)
}

/// Decoding a name from `buf` at `pos`. The reader ends after the zero byte, or after the
/// first compression pointer if the name has one; on an error it stays where it was.
pub open spec fn parse_name(buf: Seq<u8>, pos: int) -> Parsed<Seq<char>> {
    if name_halts(buf, pos) {
        let fuel = choose|fuel: nat| !(name_walk(buf, pos, fuel) is Unfinished);
        match name_walk(buf, pos, fuel) {
            NameWalk::Ends(chars, end, jump) => Parsed::Done(
                chars,
                match jump {
                    Some(j) => j,
                    None => end,
                },
            ),
            NameWalk::FailsAt(p) => Parsed::Failed(DecodeError::EndOfBufferAt(p), pos),
            NameWalk::Unfinished => Parsed::Hangs,
        }
    } else {
        Parsed::Hangs
    }
}

/// A walk that ended with some fuel ends the same way with more.
pub proof fn lemma_walk_monotone(buf: Seq<u8>, pos: int, fuel: nat, more: nat)
    requires
        !(name_walk(buf, pos, fuel) is Unfinished),
        fuel <= more,
    ensures
        name_walk(buf, pos, more) == name_walk(buf, pos, fuel),
    decreases fuel,
{
    if 0 <= pos < buf.len() && fuel > 0 {
        if buf[pos] >= COMPRESSION_PREFIX {
            if pos + 1 < buf.len() {
                lemma_walk_monotone(
                    buf,
                    pointer_target(buf, pos),
                    (fuel - 1) as nat,
                    (more - 1) as nat,
                );
            }
        } else if buf[pos] != 0 && pos + buf[pos] < buf.len() {
            lemma_walk_monotone(buf, pos + 1 + buf[pos], (fuel - 1) as nat, (more - 1) as nat);
        }
    }
}

/// Whether the walk goes on from `pos` to another step (a pointer, or a label that fits).
pub open spec fn walk_continues(buf: Seq<u8>, pos: int) -> bool {
    &&& 0 <= pos < buf.len()
    &&& if buf[pos] >= COMPRESSION_PREFIX {
        pos + 1 < buf.len()
    } else {
        buf[pos] != 0 && pos + buf[pos] < buf.len()
    }
}

/// Where the walk goes on from `pos`.
pub open spec fn walk_next(buf: Seq<u8>, pos: int) -> int {
    if buf[pos] >= COMPRESSION_PREFIX {
        pointer_target(buf, pos)
    } else {
        pos + 1 + buf[pos]
    }
}

/// The position of the walk from `pos` after `steps` steps.
pub open spec fn walk_position(buf: Seq<u8>, pos: int, steps: nat) -> int
    decreases steps,
{
    if steps == 0 {
        pos
    } else {
        walk_position(buf, walk_next(buf, pos), (steps - 1) as nat)
    }
}

proof fn lemma_unfinished_iff_continues(buf: Seq<u8>, pos: int, fuel: nat)
    ensures
        name_walk(buf, pos, fuel) is Unfinished <==> forall|i: nat|
            i < fuel ==> walk_continues(buf, #[trigger] walk_position(buf, pos, i)),
    decreases fuel,
{
    if fuel > 0 {
        assert(walk_position(buf, pos, 0) == pos);
        if walk_continues(buf, pos) {
            let next = walk_next(buf, pos);
            lemma_unfinished_iff_continues(buf, next, (fuel - 1) as nat);
            assert forall|i: nat| 0 < i < fuel implies walk_position(buf, pos, i) == walk_position(
                buf,
                next,
                (i - 1) as nat,
            ) by {}
            if name_walk(buf, pos, fuel) is Unfinished {
                assert forall|i: nat| i < fuel implies walk_continues(
                    buf,
                    #[trigger] walk_position(buf, pos, i),
                ) by {
                    if i > 0 {
                        assert(walk_continues(buf, walk_position(buf, next, (i - 1) as nat)));
                    }
                }
            } else {
                let j = choose|j: nat|
                    j < (fuel - 1) as nat && !walk_continues(
                        buf,
                        #[trigger] walk_position(buf, next, j),
                    );
                assert(walk_position(buf, pos, j + 1) == walk_position(buf, next, j));
            }
        }
    }
}

proof fn lemma_walk_position_add(buf: Seq<u8>, pos: int, a: nat, b: nat)
    ensures
        walk_position(buf, pos, a + b) == walk_position(buf, walk_position(buf, pos, a), b),
    decreases a,
{
    if a > 0 {
        lemma_walk_position_add(buf, walk_next(buf, pos), (a - 1) as nat, b);
    }
}

/// If the walk's positions repeat, every later position is an earlier one again.
proof fn lemma_walk_cycle(buf: Seq<u8>, pos: int, i: nat, j: nat, k: nat)
    requires
        i < j <= k,
        walk_position(buf, pos, i) == walk_position(buf, pos, j),
    ensures
        walk_position(buf, pos, k) == walk_position(buf, pos, (k - (j - i)) as nat),
{
    lemma_walk_position_add(buf, pos, j, (k - j) as nat);
    lemma_walk_position_add(buf, pos, i, (k - j) as nat);
}

/// A name walk that ends at all ends within one step more than the buffer has positions (a
/// longer walk has been at some position twice, and so goes round for ever).
pub proof fn lemma_walk_limit(buf: Seq<u8>, pos: int)
    requires
        name_halts(buf, pos),
    ensures
        !(name_walk(buf, pos, (buf.len() + 1) as nat) is Unfinished),
{
    let n = buf.len();
    if name_walk(buf, pos, (n + 1) as nat) is Unfinished {
        lemma_unfinished_iff_continues(buf, pos, (n + 1) as nat);
        // The first n + 1 positions all lie in [0, n), so two of them are equal.
        let s = Seq::new((n + 1) as nat, |i: int| walk_position(buf, pos, i as nat));
        assert forall|x: int| s.to_set().contains(x) implies set_int_range(0, n as int).contains(
            x,
        ) by {
            let i = choose|i: int| 0 <= i < s.len() && s[i] == x;
            assert(walk_continues(buf, walk_position(buf, pos, i as nat)));
        }
        lemma_int_range(0, n as int);
        lemma_len_subset(s.to_set(), set_int_range(0, n as int));
        if s.no_duplicates() {
            s.unique_seq_to_set();
            assert(false);
        }
        let (i0, j0) = choose|i0: int, j0: int|
            0 <= i0 < s.len() && 0 <= j0 < s.len() && i0 != j0 && s[i0] == s[j0];
        let (i, j) = if i0 < j0 {
            (i0 as nat, j0 as nat)
        } else {
            (j0 as nat, i0 as nat)
        };
        assert(walk_position(buf, pos, i) == walk_position(buf, pos, j));
        // Every position continues, so no amount of fuel ends the walk.
        assert forall|k: nat| walk_continues(buf, #[trigger] walk_position(buf, pos, k)) by {
            lemma_continues_forever(buf, pos, i, j, k);
        }
        let fuel = choose|fuel: nat| !(name_walk(buf, pos, fuel) is Unfinished);
        lemma_unfinished_iff_continues(buf, pos, fuel);
    }
}

proof fn lemma_continues_forever(buf: Seq<u8>, pos: int, i: nat, j: nat, k: nat)
    requires
        i < j <= buf.len(),
        walk_position(buf, pos, i) == walk_position(buf, pos, j),
        forall|m: nat| m <= buf.len() ==> walk_continues(buf, #[trigger] walk_position(buf, pos, m)),
    ensures
        walk_continues(buf, walk_position(buf, pos, k)),
    decreases k,
{
    if k > j {
        lemma_walk_cycle(buf, pos, i, j, k);
        lemma_continues_forever(buf, pos, i, j, (k - (j - i)) as nat);
    }
}

/// The outcome of the walk so far, with the name read until now in front and with the
/// position after the first pointer already followed, if any.
pub open spec fn resume(prefix: Seq<char>, jumped: bool, jump_pos: int, w: NameWalk) -> NameWalk {
    match w {
        NameWalk::Ends(rest, end, jump) => NameWalk::Ends(
            attach(prefix, rest),
            end,
            if jumped {
                Some(jump_pos)
            } else {
                jump
            },
        ),
        other => other,
    }
}

proof fn lemma_attach_assoc(a: Seq<char>, l: Seq<char>, r: Seq<char>)
    requires
        l.len() > 0,
    ensures
        attach(a, attach(l, r)) == attach(attach(a, l), r),
{
    if a.len() > 0 && r.len() > 0 {
        assert(a + seq!['.'] + (l + seq!['.'] + r) == (a + seq!['.'] + l) + seq!['.'] + r);
    }
}

proof fn lemma_label_grows(buf: Seq<u8>, from: int, to: int)
    requires
        0 <= from <= to < buf.len(),
    ensures
        label_chars(buf.subrange(from, to + 1)) == label_chars(buf.subrange(from, to)).push(
            buf[to] as char,
        ),
{
    assert(buf.subrange(from, to + 1) =~= buf.subrange(from, to).push(buf[to]));
    assert(label_chars(buf.subrange(from, to + 1)) =~= label_chars(buf.subrange(from, to)).push(
        buf[to] as char,
    ));
}

/// `parse_name` is the walk with any fuel that lets it end.
proof fn lemma_parse_name_walk(buf: Seq<u8>, pos: int, fuel: nat)
    requires
        !(name_walk(buf, pos, fuel) is Unfinished),
    ensures
        name_halts(buf, pos),
        parse_name(buf, pos) == match name_walk(buf, pos, fuel) {
            NameWalk::Ends(chars, end, jump) => Parsed::Done(
                chars,
                match jump {
                    Some(j) => j,
                    None => end,
                },
            ),
            NameWalk::FailsAt(p) => Parsed::Failed(DecodeError::EndOfBufferAt(p), pos),
            NameWalk::Unfinished => Parsed::Hangs,
        },
{
    let f = choose|f: nat| !(name_walk(buf, pos, f) is Unfinished);
    if f <= fuel {
        lemma_walk_monotone(buf, pos, f, fuel);
    } else {
        lemma_walk_monotone(buf, pos, fuel, f);
    }
}

proof fn lemma_walk_end_in_buffer(buf: Seq<u8>, pos: int, fuel: nat)
    ensures
        name_walk(buf, pos, fuel) matches NameWalk::Ends(_, end, jump) ==> {
            &&& 0 < end <= buf.len()
            &&& jump matches Some(j) ==> 0 < j <= buf.len()
        },
    decreases fuel,
{
    if fuel > 0 && 0 <= pos < buf.len() {
        if buf[pos] >= COMPRESSION_PREFIX {
            if pos + 1 < buf.len() {
                lemma_walk_end_in_buffer(buf, pointer_target(buf, pos), (fuel - 1) as nat);
            }
        } else if buf[pos] != 0 && pos + buf[pos] < buf.len() {
            lemma_walk_end_in_buffer(buf, pos + 1 + buf[pos], (fuel - 1) as nat);
        }
    }
}

/// A decoded name leaves the reader inside the buffer, or right at its end.
pub proof fn lemma_parse_name_end(buf: Seq<u8>, pos: int)
    ensures
        parse_name(buf, pos) matches Parsed::Done(_, p) ==> 0 < p <= buf.len(),
{
    if name_halts(buf, pos) {
        let f = choose|f: nat| !(name_walk(buf, pos, f) is Unfinished);
        lemma_walk_end_in_buffer(buf, pos, f);
    }
}

/// The walk from `pos` meets only labels (that fit in the buffer) at its first `k` steps: no
/// pointer and no end of the name.
pub open spec fn labels_before(buf: Seq<u8>, pos: int, k: nat) -> bool {
    forall|i: nat|
        i < k ==> walk_continues(buf, #[trigger] walk_position(buf, pos, i)) && buf[walk_position(
            buf,
            pos,
            i,
        )] < COMPRESSION_PREFIX
}

proof fn lemma_labels_before_next(buf: Seq<u8>, pos: int, k: nat)
    requires
        k > 0,
        labels_before(buf, pos, k),
    ensures
        walk_continues(buf, pos),
        buf[pos] < COMPRESSION_PREFIX,
        labels_before(buf, walk_next(buf, pos), (k - 1) as nat),
        walk_position(buf, pos, k) == walk_position(buf, walk_next(buf, pos), (k - 1) as nat),
{
    assert(walk_position(buf, pos, 0) == pos);
    assert forall|i: nat| i < (k - 1) as nat implies walk_continues(
        buf,
        #[trigger] walk_position(buf, walk_next(buf, pos), i),
    ) && buf[walk_position(buf, walk_next(buf, pos), i)] < COMPRESSION_PREFIX by {
        assert(walk_position(buf, pos, i + 1) == walk_position(buf, walk_next(buf, pos), i));
    }
}

proof fn lemma_walk_first_pointer(buf: Seq<u8>, pos: int, fuel: nat, k: nat)
    requires
        labels_before(buf, pos, k),
        0 <= walk_position(buf, pos, k) < buf.len(),
        buf[walk_position(buf, pos, k)] >= COMPRESSION_PREFIX,
    ensures
        name_walk(buf, pos, fuel) matches NameWalk::Ends(_, _, jump) ==> jump == Some(
            walk_position(buf, pos, k) + 2,
        ),
    decreases k,
{
    if k > 0 {
        lemma_labels_before_next(buf, pos, k);
        if fuel > 0 {
            lemma_walk_first_pointer(buf, walk_next(buf, pos), (fuel - 1) as nat, (k - 1) as nat);
        }
    }
}

proof fn lemma_walk_plain_end(buf: Seq<u8>, pos: int, fuel: nat, k: nat)
    requires
        labels_before(buf, pos, k),
        0 <= walk_position(buf, pos, k) < buf.len(),
        buf[walk_position(buf, pos, k)] == 0,
        fuel > k,
    ensures
        name_walk(buf, pos, fuel) matches NameWalk::Ends(_, end, jump) && end == walk_position(
            buf,
            pos,
            k,
        ) + 1 && jump is None,
    decreases k,
{
    if k > 0 {
        lemma_labels_before_next(buf, pos, k);
        lemma_walk_plain_end(buf, walk_next(buf, pos), (fuel - 1) as nat, (k - 1) as nat);
    }
}

/// When the first compression pointer that a name's walk meets stands at `q` (the steps before
/// it being labels), decoding leaves the reader two bytes after `q`, wherever that pointer and
/// any later ones lead.
pub proof fn lemma_resume_after_first_pointer(buf: Seq<u8>, pos: int, k: nat)
    requires
        labels_before(buf, pos, k),
        0 <= walk_position(buf, pos, k) < buf.len(),
        buf[walk_position(buf, pos, k)] >= COMPRESSION_PREFIX,
        parse_name(buf, pos) is Done,
    ensures
        parse_name(buf, pos) matches Parsed::Done(_, p) && p == walk_position(buf, pos, k) + 2,
{
    let f = choose|f: nat| !(name_walk(buf, pos, f) is Unfinished);
    lemma_parse_name_walk(buf, pos, f);
    lemma_walk_first_pointer(buf, pos, f, k);
}

/// When a name's walk meets only labels and then a zero byte at `q` (no pointer at all),
/// decoding ends and leaves the reader right after that zero byte.
pub proof fn lemma_resume_after_plain_name(buf: Seq<u8>, pos: int, k: nat)
    requires
        labels_before(buf, pos, k),
        0 <= walk_position(buf, pos, k) < buf.len(),
        buf[walk_position(buf, pos, k)] == 0,
    ensures
        parse_name(buf, pos) matches Parsed::Done(_, p) && p == walk_position(buf, pos, k) + 1,
{
    lemma_walk_plain_end(buf, pos, k + 1, k);
    lemma_parse_name_walk(buf, pos, k + 1);
}

/// A compression pointer at `pos` reads the same characters as the name at the place it points
/// to, and leaves the reader right after its own two bytes.
pub proof fn lemma_pointer_reads_target(buf: Seq<u8>, pos: int)
    requires
        0 <= pos,
        pos + 1 < buf.len(),
        buf[pos] >= COMPRESSION_PREFIX,
        parse_name(buf, pos) is Done,
    ensures
        parse_name(buf, pos) matches Parsed::Done(chars, p) && (p == pos + 2 && (parse_name(
            buf,
            (buf[pos] - 0xC0) * 256 + buf[pos + 1],
        ) matches Parsed::Done(target_chars, _) && target_chars == chars)),
{
    let f = choose|f: nat| !(name_walk(buf, pos, f) is Unfinished);
    lemma_parse_name_walk(buf, pos, f);
    let target = pointer_target(buf, pos);
    lemma_parse_name_walk(buf, target, (f - 1) as nat);
}

/// A label of `len` bytes at `pos` (below 192, the rest of the name after it): decoding reads
/// the label's bytes as characters, then a dot and the rest of the name if there is more, and
/// leaves the reader where decoding the rest leaves it.
pub proof fn lemma_label_then_rest(buf: Seq<u8>, pos: int)
    requires
        0 <= pos,
        pos < buf.len(),
        0 < buf[pos] < COMPRESSION_PREFIX,
        pos + buf[pos] < buf.len(),
        parse_name(buf, pos) is Done,
    ensures
        parse_name(buf, pos + 1 + buf[pos]) matches Parsed::Done(rest, q) && parse_name(
            buf,
            pos,
        ) == Parsed::Done(
            if rest.len() == 0 {
                label_chars(buf.subrange(pos + 1, pos + 1 + buf[pos]))
            } else {
                label_chars(buf.subrange(pos + 1, pos + 1 + buf[pos])) + seq!['.'] + rest
            },
            q,
        ),
{
    let f = choose|f: nat| !(name_walk(buf, pos, f) is Unfinished);
    lemma_parse_name_walk(buf, pos, f);
    lemma_parse_name_walk(buf, pos + 1 + buf[pos], (f - 1) as nat);
    assert(label_chars(buf.subrange(pos + 1, pos + 1 + buf[pos])).len() > 0);
}

/// Decodes the name at the reader's position, following compression pointers, for at most
/// `WALK_LIMIT` steps. `None` means that the walk never ends: its pointers lead in a circle.
pub(crate) fn decode_name(reader: &mut BytePacketReader) -> (r: Option<DNSResult<DnsName>>)
    ensures
        final(reader).buffer == old(reader).buffer,
        r is None <==> !parse_name(old(reader).buffer@, old(reader).position as int).halts(),
        r is None ==> final(reader).position == old(reader).position,
        r matches Some(x) ==> reports(
            parse_name(old(reader).buffer@, old(reader).position as int),
            x,
            final(reader).position as int,
        ),
{
    let ghost buf = reader.buffer@;
    let ghost start = reader.position as int;
    let ghost whole = name_walk(buf, start, WALK_LIMIT as nat);
    let mut name = String::new();
    let mut add_dot = false;
    let mut pos: usize = reader.position;
    // Indicates if a jump to a pointer happened
    let mut jumped = false;
    let mut jump_pos: usize = 0;
    let mut steps: usize = 0;
    proof {
        assert(attach(Seq::empty(), Seq::empty()) == Seq::<char>::empty());
        assert forall|w: NameWalk| resume(Seq::empty(), false, 0, w) == w by {
            if let NameWalk::Ends(rest, end, jump) = w {
                assert(attach(Seq::empty(), rest) == rest);
            }
        }
    }
    loop
        invariant
            buf == reader.buffer@,
            buf.len() == 512,
            start == reader.position,
            whole == name_walk(buf, start, WALK_LIMIT as nat),
            steps <= WALK_LIMIT,
            add_dot == (name@.len() > 0),
            jumped ==> jump_pos <= 513,
            reader.buffer == old(reader).buffer,
            reader.position == old(reader).position,
            resume(name@, jumped, jump_pos as int, name_walk(buf, pos as int, (WALK_LIMIT - steps) as nat))
                == whole,
        decreases WALK_LIMIT - steps,
    {
        if steps == WALK_LIMIT {
            proof {
                if name_halts(buf, start) {
                    lemma_walk_limit(buf, start);
                }
            }
            return None;
        }
        let ghost fuel = (WALK_LIMIT - steps) as nat;
        let ghost here = pos as int;
        steps += 1;
        // Read-in the length byte
        let len: u8 = match reader.get(pos) {
            Ok(b) => b,
            Err(e) => {
                proof {
                    assert(name_walk(buf, here, fuel) == NameWalk::FailsAt(here));
                    lemma_parse_name_walk(buf, start, WALK_LIMIT as nat);
                }
                return Some(Err(e));
            },
        };
        if len >= COMPRESSION_PREFIX {
            // A pointer takes two octets, "11xxxxxx yyyyyyyy": the offset is the
            // x bits followed by the y bits.
            let b2: u8 = match reader.get(pos + 1) {
                Ok(b) => b,
                Err(e) => {
                    proof {
                        lemma_parse_name_walk(buf, start, WALK_LIMIT as nat);
                    }
                    return Some(Err(e));
                },
            };
            let offset: usize = ((len - COMPRESSION_PREFIX) as usize) * 256 + (b2 as usize);
            if !jumped {
                // Remember where to go on after the name: past the two bytes of the
                // first pointer.
                jump_pos = pos + 2;
                jumped = true;
            }
            pos = offset;
        } else if len == 0 {
            // A 0-byte indicates the end of the name. Move past the length byte.
            pos += 1;
            if jumped {
                reader.position = jump_pos;
            } else {
                reader.position = pos;
            }
            proof {
                assert(attach(name@, Seq::empty()) == name@);
                lemma_parse_name_walk(buf, start, WALK_LIMIT as nat);
            }
            return Some(Ok(DnsName(name)));
        } else {
            // Move position forward, past the length byte
            pos += 1;
            let ghost before = name@;
            if add_dot {
                name.push('.');
            }
            let ghost with_dot = name@;
            let mut k: u8 = 0;
            while k < len
                invariant
                    buf == reader.buffer@,
                    buf.len() == 512,
                    start == reader.position,
                    whole == name_walk(buf, start, WALK_LIMIT as nat),
                    0 <= here < 512,
                    len == buf[here],
                    0 < len < COMPRESSION_PREFIX,
                    fuel > 0,
                    reader.buffer == old(reader).buffer,
                    reader.position == old(reader).position,
                    k <= len,
                    pos == here + 1 + k,
                    pos <= 512,
                    name@ == with_dot + label_chars(buf.subrange(here + 1, pos as int)),
                    resume(before, jumped, jump_pos as int, name_walk(buf, here, fuel)) == whole,
                decreases len - k,
            {
                let ghost at = pos as int;
                let c: u8 = match reader.get(pos) {
                    Ok(b) => b,
                    Err(e) => {
                        proof {
                            assert(here + len >= 512);
                            assert(name_walk(buf, here, fuel) == NameWalk::FailsAt(512));
                            lemma_parse_name_walk(buf, start, WALK_LIMIT as nat);
                        }
                        return Some(Err(e));
                    },
                };
                name.push(c as char);
                pos += 1;
                k += 1;
                proof {
                    lemma_label_grows(buf, here + 1, at);
                }
            }
            add_dot = true;
            proof {
                let label = label_chars(buf.subrange(here + 1, pos as int));
                assert(label.len() > 0);
                if before.len() > 0 {
                    assert(name@ == before + seq!['.'] + label);
                } else {
                    assert(name@ == label);
                }
                assert(name@ == attach(before, label));
                let inner = name_walk(buf, pos as int, (fuel - 1) as nat);
                if let NameWalk::Ends(rest, end, jump) = inner {
                    lemma_attach_assoc(before, label, rest);
                }
            }
        }
    }
}

/// The labels joined with dots between them.
pub open spec fn join_dots(labels: Seq<Seq<u8>>) -> Seq<u8>
    decreases labels.len(),
{
    if labels.len() == 0 {
        Seq::empty()
    } else if labels.len() == 1 {
        labels[0]
    } else {
        labels[0] + seq![DOT] + join_dots(labels.drop_first())
    }
}

/// Every label is non-empty and shorter than 192 bytes, so that its length byte is read back as
/// a length (not as the end of the name, nor as a compression pointer).
pub open spec fn labels_fit(labels: Seq<Seq<u8>>) -> bool {
    forall|i: int| 0 <= i < labels.len() ==> 0 < #[trigger] labels[i].len() < 192
}

proof fn lemma_labels_wire_first(labels: Seq<Seq<u8>>)
    requires
        labels.len() >= 1,
    ensures
        labels_wire(labels) == seq![(labels[0].len() % 256) as u8] + labels[0] + labels_wire(
            labels.drop_first(),
        ),
    decreases labels.len(),
{
    if labels.len() == 1 {
        assert(labels.drop_last() =~= Seq::<Seq<u8>>::empty());
        assert(labels.drop_first() =~= Seq::<Seq<u8>>::empty());
    } else {
        let init = labels.drop_last();
        lemma_labels_wire_first(init);
        assert(init.drop_first() =~= labels.drop_first().drop_last());
        assert(labels.drop_first().last() == labels.last());
        assert(labels_wire(labels.drop_first()) == labels_wire(labels.drop_first().drop_last())
            + seq![(labels.last().len() % 256) as u8] + labels.last());
    }
}

proof fn lemma_join_dots_push(labels: Seq<Seq<u8>>, x: Seq<u8>)
    requires
        labels.len() >= 1,
    ensures
        join_dots(labels.push(x)) == join_dots(labels) + seq![DOT] + x,
    decreases labels.len(),
{
    if labels.len() == 1 {
        assert(labels.push(x).drop_first() =~= seq![x]);
        assert(join_dots(seq![x]) == x);
    } else {
        let tail = labels.drop_first();
        assert(labels.push(x).drop_first() =~= tail.push(x));
        lemma_join_dots_push(tail, x);
        assert(labels[0] + seq![DOT] + (join_dots(tail) + seq![DOT] + x) =~= (labels[0] + seq![DOT]
            + join_dots(tail)) + seq![DOT] + x);
    }
}

proof fn lemma_join_dots_grow_last(labels: Seq<Seq<u8>>, c: u8)
    requires
        labels.len() >= 1,
    ensures
        join_dots(labels.update(labels.len() - 1, labels.last().push(c))) == join_dots(labels).push(
            c,
        ),
    decreases labels.len(),
{
    let grown = labels.update(labels.len() - 1, labels.last().push(c));
    if labels.len() == 1 {
    } else {
        let tail = labels.drop_first();
        assert(grown.drop_first() =~= tail.update(tail.len() - 1, tail.last().push(c)));
        lemma_join_dots_grow_last(tail, c);
    }
}

/// Joining the pieces between the dots with dots gives the bytes back.
proof fn lemma_join_split(b: Seq<u8>)
    ensures
        join_dots(split_dots(b)) == b,
    decreases b.len(),
{
    if b.len() > 0 {
        let init = b.drop_last();
        lemma_join_split(init);
        lemma_split_dots_nonempty(init);
        if b.last() == DOT {
            lemma_join_dots_push(split_dots(init), Seq::empty());
        } else {
            lemma_join_dots_grow_last(split_dots(init), b.last());
        }
        assert(init.push(b.last()) =~= b);
    }
}

proof fn lemma_join_nonempty(labels: Seq<Seq<u8>>)
    requires
        labels.len() >= 1,
        labels_fit(labels),
    ensures
        join_dots(labels).len() > 0,
{
    assert(labels[0].len() > 0);
}

proof fn lemma_label_chars_concat(a: Seq<u8>, b: Seq<u8>)
    ensures
        label_chars(a + seq![DOT] + b) == label_chars(a) + seq!['.'] + label_chars(b),
{
    assert(label_chars(a + seq![DOT] + b) =~= label_chars(a) + seq!['.'] + label_chars(b));
}

/// Walking the encoding of fitting labels, followed by a zero byte, reads the labels joined
/// with dots and stops after the zero byte.
proof fn lemma_walk_labels(buf: Seq<u8>, pos: int, labels: Seq<Seq<u8>>)
    requires
        labels_fit(labels),
        0 <= pos,
        pos + labels_wire(labels).len() + 1 <= buf.len(),
        buf.subrange(pos, pos + labels_wire(labels).len() + 1) == labels_wire(labels) + seq![0u8],
    ensures
        name_walk(buf, pos, (labels.len() + 1) as nat) == NameWalk::Ends(
            label_chars(join_dots(labels)),
            pos + labels_wire(labels).len() + 1,
            None,
        ),
    decreases labels.len(),
{
    let w = labels_wire(labels);
    assert(buf[pos] == buf.subrange(pos, pos + w.len() + 1)[0]);
    if labels.len() == 0 {
        assert(label_chars(Seq::<u8>::empty()) =~= Seq::<char>::empty());
    } else {
        lemma_labels_wire_first(labels);
        let first = labels[0];
        let tail = labels.drop_first();
        let len = first.len();
        assert(0 < len < 192);
        assert((len % 256) as u8 == len);
        assert(buf[pos] == len);
        let next = pos + 1 + len;
        let tw = labels_wire(tail);
        assert(w == seq![len as u8] + first + tw);
        assert(buf.subrange(pos + 1, next) =~= first) by {
            assert forall|i: int| 0 <= i < len implies buf.subrange(pos + 1, next)[i] == first[i] by {
                assert(buf[pos + 1 + i] == buf.subrange(pos, pos + w.len() + 1)[1 + i]);
            }
        }
        assert(buf.subrange(next, next + tw.len() + 1) =~= tw + seq![0u8]) by {
            assert forall|i: int| 0 <= i < tw.len() + 1 implies buf.subrange(next, next + tw.len() + 1)[i]
                == (tw + seq![0u8])[i] by {
                assert(buf[next + i] == buf.subrange(pos, pos + w.len() + 1)[1 + len + i]);
            }
        }
        assert forall|i: int| 0 <= i < tail.len() implies 0 < #[trigger] tail[i].len() < 192 by {
            assert(tail[i] == labels[i + 1]);
        }
        lemma_walk_labels(buf, next, tail);
        if tail.len() == 0 {
            assert(label_chars(join_dots(tail)) =~= Seq::<char>::empty());
        } else {
            lemma_join_nonempty(tail);
            lemma_label_chars_concat(first, join_dots(tail));
        }
    }
}

/// The bytes of ASCII characters, read back as characters, are the characters again.
proof fn lemma_ascii_bytes_chars(name: Seq<char>)
    requires
        is_ascii_chars(name),
    ensures
        label_chars(encode_utf8(name)) == name,
{
    is_ascii_chars_encode_utf8(name);
    assert forall|i: int| 0 <= i < name.len() implies (encode_utf8(name)[i] as char) == name[i] by {
        assert('\0' <= name[i] <= '\u{7f}');
        assert(name[i] as u8 == encode_utf8(name)[i]);
    }
    assert(label_chars(encode_utf8(name)) =~= name);
}

/// A name that decodes from its own encoding: its characters are ASCII, and its labels are
/// non-empty and shorter than 192 bytes.
#[verifier::opaque]
pub open spec fn name_fits(name: Seq<char>) -> bool {
    is_ascii_chars(name) && labels_fit(split_dots(encode_utf8(name)))
}

/// A fitting name decodes from its own encoding: the same characters, with the reader right
/// after the encoding.
pub proof fn lemma_name_roundtrip(name: Seq<char>, buf: Seq<u8>, pos: int)
    requires
        name_fits(name),
        0 <= pos,
        pos + name_wire(name).len() <= buf.len(),
        buf.subrange(pos, pos + name_wire(name).len()) == name_wire(name),
    ensures
        parse_name(buf, pos) == Parsed::Done(name, pos + name_wire(name).len()),
{
    reveal(name_fits);
    let labels = split_dots(encode_utf8(name));
    lemma_walk_labels(buf, pos, labels);
    lemma_parse_name_walk(buf, pos, (labels.len() + 1) as nat);
    lemma_join_split(encode_utf8(name));
    lemma_ascii_bytes_chars(name);
}

impl DNSDecodable for DnsName {
    open spec fn decoding_halts(buf: Seq<u8>, pos: int) -> bool {
        parse_name(buf, pos).halts()
    }

    fn from_bytes(reader: &mut BytePacketReader) -> (r: DNSResult<Self>)
        ensures
            reports(
                parse_name(old(reader).buffer@, old(reader).position as int),
                r,
                final(reader).position as int,
            ),
    {
        match decode_name(reader) {
            Some(r) => r,
            None => vstd::pervasive::unreached(),
        }
    }
}

} // verus!
