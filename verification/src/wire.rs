//! The mathematical model of the packet buffer's wire format: big-endian
//! integer encodings, the effect of sequential stores on a fixed-size buffer,
//! and the DNS name codec (length-prefixed labels with compression pointers).

use vstd::prelude::*;

verus! {

/// Most compression pointers a single name may chase; a defensive bound
/// against pointer cycles in malformed messages.
pub const MAX_JUMPS: u32 = 5;

/// Largest number of bytes a single label may hold when a name is encoded,
/// the DNS limit for a length-prefixed label.
pub const MAX_LABEL_LEN: usize = 63;

/// Every failure an operation on the packet buffer can surface.
#[derive(Clone, Copy, Debug, PartialEq, Eq, Structural)]
pub enum PacketError {
    /// A read or write aimed at an offset or extent outside the buffer.
    OutOfBounds,
    /// Decoding a name chased more compression pointers than `MAX_JUMPS`.
    JumpLimitExceeded,
    /// Encoding a name met a label longer than `MAX_LABEL_LEN` bytes.
    LabelTooLong,
}

/// The big-endian value of two bytes.
pub open spec fn be16(hi: u8, lo: u8) -> u16 {
    (hi * 256 + lo) as u16
}

/// The big-endian value of four bytes.
pub open spec fn be32(b0: u8, b1: u8, b2: u8, b3: u8) -> u32 {
    (b0 * 0x1000000 + b1 * 0x10000 + b2 * 0x100 + b3) as u32
}

/// The two big-endian bytes of a 16-bit value.
pub open spec fn be16_bytes(val: u16) -> Seq<u8> {
    seq![(val / 256) as u8, (val % 256) as u8]
}

/// The four big-endian bytes of a 32-bit value.
pub open spec fn be32_bytes(val: u32) -> Seq<u8> {
    seq![
        (val / 0x1000000) as u8,
        ((val / 0x10000) % 256) as u8,
        ((val / 0x100) % 256) as u8,
        (val % 256) as u8,
    ]
}

/// Whether a length byte is instead the first byte of a compression
/// pointer: its top two bits are both set.
pub open spec fn is_pointer_byte(b: u8) -> bool {
    b & 0xC0 == 0xC0
}

/// The 14-bit target of a compression pointer: the low six bits of the
/// first byte followed by all eight bits of the second.
pub open spec fn jump_target(first: u8, second: u8) -> int {
    (first - 0xC0) * 256 + second
}

/// A byte with an upper-case ASCII letter folded to lower case; any other
/// byte is kept as it is.
pub open spec fn lower(b: u8) -> u8 {
    if 0x41 <= b && b <= 0x5A {
        (b + 0x20) as u8
    } else {
        b
    }
}

/// The characters a label's raw bytes decode to: each byte lower-cased and
/// taken as one character.
pub open spec fn label_chars(bytes: Seq<u8>) -> Seq<char> {
    bytes.map(|i: int, b: u8| lower(b) as char)
}

/// A decoded label joined in front of the rest of a name: with a dot
/// between the two when both sides are present.
pub open spec fn join_label(label: Seq<char>, rest: Seq<char>) -> Seq<char> {
    if rest.len() == 0 {
        label
    } else {
        label + seq!['.'] + rest
    }
}

/// How much of the buffer is left in front of a position; the measure that
/// shrinks as a name decode walks forward.
pub open spec fn space_before_end(pos: int) -> int {
    if pos < 512 {
        512 - pos
    } else {
        0
    }
}

/// The name decoded from `buf` starting at `pos`, with `jumps` compression
/// pointers already chased: on success, the name's characters and the
/// position just past the name's first segment — past its first pointer if
/// it has one, else past its terminating zero byte. Fails with
/// `JumpLimitExceeded` once more than `MAX_JUMPS` pointers were chased, and
/// with `OutOfBounds` when a length byte, a pointer byte or a label would
/// lie outside the buffer.
pub open spec fn decode_name(buf: Seq<u8>, pos: int, jumps: int) -> Result<
    (Seq<char>, int),
    PacketError,
>
    decreases MAX_JUMPS + 1 - jumps, space_before_end(pos),
{
    if jumps > MAX_JUMPS {
        Err(PacketError::JumpLimitExceeded)
    } else if !(0 <= pos < 512) {
        Err(PacketError::OutOfBounds)
    } else {
        let len = buf[pos];
        if is_pointer_byte(len) {
            if pos + 1 < 512 {
                match decode_name(buf, jump_target(len, buf[pos + 1]), jumps + 1) {
                    Ok((name, _)) => Ok((name, pos + 2)),
                    Err(e) => Err(e),
                }
            } else {
                Err(PacketError::OutOfBounds)
            }
        } else if len == 0 {
            Ok((Seq::empty(), pos + 1))
        } else if pos + 1 + len <= 512 {
            match decode_name(buf, pos + 1 + len, jumps) {
                Ok((rest, end)) => Ok(
                    (join_label(label_chars(buf.subrange(pos + 1, pos + 1 + len)), rest), end),
                ),
                Err(e) => Err(e),
            }
        } else {
            Err(PacketError::OutOfBounds)
        }
    }
}

/// Two stretches of a decoded name joined: with a dot between them when
/// both are present.
pub open spec fn join_parts(front: Seq<char>, back: Seq<char>) -> Seq<char> {
    if front.len() == 0 {
        back
    } else if back.len() == 0 {
        front
    } else {
        front + seq!['.'] + back
    }
}

/// Taking one more decoded label into the front of a name moves the join
/// one label along.
pub proof fn lemma_join_parts_label(front: Seq<char>, label: Seq<char>, rest: Seq<char>)
    requires
        label.len() > 0,
    ensures
        join_parts(front, join_label(label, rest)) == join_parts(join_parts(front, label), rest),
{
    if front.len() != 0 && rest.len() != 0 {
        assert(front + seq!['.'] + (label + seq!['.'] + rest) =~= (front + seq!['.'] + label)
            + seq!['.'] + rest);
    }
}

/// The position of the first dot in a name's bytes, or the length when the
/// name holds none: the boundary of the name's first label.
pub open spec fn first_dot(name: Seq<u8>) -> nat
    decreases name.len(),
{
    if name.len() == 0 {
        0
    } else if name[0] == 0x2E {
        0
    } else {
        1 + first_dot(name.drop_first())
    }
}

/// `first_dot` points at a dot inside the name, or past a name with none,
/// and no dot comes before it.
pub proof fn lemma_first_dot(name: Seq<u8>)
    ensures
        first_dot(name) <= name.len(),
        first_dot(name) < name.len() ==> name[first_dot(name) as int] == 0x2E,
        forall|k: int| 0 <= k < first_dot(name) ==> name[k] != 0x2E,
    decreases name.len(),
{
    if name.len() != 0 && name[0] != 0x2E {
        lemma_first_dot(name.drop_first());
        assert forall|k: int| 0 <= k < first_dot(name) implies name[k] != 0x2E by {
            if k >= 1 {
                assert(name.drop_first()[k - 1] != 0x2E);
            }
        }
    }
}

/// The wire form of a name: each dot-separated label as a length byte and
/// the label's raw bytes, closed by a zero byte — complete when every label
/// fits in `MAX_LABEL_LEN` bytes. Otherwise only the wire form of the
/// labels that come before the first label too long to encode, with
/// nothing of that label itself.
pub enum NameEncoding {
    /// Every label fit; the payload is the whole encoded name.
    Complete(Seq<u8>),
    /// Some label was too long; the payload is the wire form of the labels
    /// before it.
    Truncated(Seq<u8>),
}

/// The wire bytes an encoding attempt emits, whether or not it completed.
pub open spec fn emitted(e: NameEncoding) -> Seq<u8> {
    match e {
        NameEncoding::Complete(bytes) => bytes,
        NameEncoding::Truncated(bytes) => bytes,
    }
}

/// The wire form of the name held in `name`, split at its dots.
pub open spec fn encode_name(name: Seq<u8>) -> NameEncoding
    decreases name.len(),
    via encode_name_decreases
{
    let cut = first_dot(name);
    if cut > MAX_LABEL_LEN {
        NameEncoding::Truncated(Seq::empty())
    } else if cut == name.len() {
        NameEncoding::Complete(seq![cut as u8] + name + seq![0u8])
    } else {
        let head = seq![cut as u8] + name.take(cut as int);
        match encode_name(name.skip(cut as int + 1)) {
            NameEncoding::Complete(rest) => NameEncoding::Complete(head + rest),
            NameEncoding::Truncated(rest) => NameEncoding::Truncated(head + rest),
        }
    }
}

#[via_fn]
proof fn encode_name_decreases(name: Seq<u8>) {
    lemma_first_dot(name);
}

/// An encoding attempt with `done` already emitted in front of it.
pub open spec fn led_by(done: Seq<u8>, e: NameEncoding) -> NameEncoding {
    match e {
        NameEncoding::Complete(rest) => NameEncoding::Complete(done + rest),
        NameEncoding::Truncated(rest) => NameEncoding::Truncated(done + rest),
    }
}

/// Emitted bytes put in front of an encoding attempt stack up one after
/// the other.
pub proof fn lemma_led_by_led_by(a: Seq<u8>, b: Seq<u8>, e: NameEncoding)
    ensures
        led_by(a, led_by(b, e)) == led_by(a + b, e),
{
    match e {
        NameEncoding::Complete(rest) => {
            assert(a + (b + rest) =~= (a + b) + rest);
        },
        NameEncoding::Truncated(rest) => {
            assert(a + (b + rest) =~= (a + b) + rest);
        },
    }
}

/// What an encoding attempt led by `done` emits: `done`, then what the
/// attempt emits on its own.
pub proof fn lemma_emitted_led_by(done: Seq<u8>, e: NameEncoding)
    ensures
        emitted(led_by(done, e)) == done + emitted(e),
{
}

/// A dotless stretch of a name running from `from` up to a dot, or up to
/// the end, places the first dot of the name's suffix at `from`.
pub proof fn lemma_first_dot_at(name: Seq<u8>, from: int, until: int)
    requires
        0 <= from <= until <= name.len(),
        forall|k: int| from <= k < until ==> name[k] != 0x2E,
        until < name.len() ==> name[until] == 0x2E,
    ensures
        first_dot(name.skip(from)) == until - from,
    decreases until - from,
{
    if from == until {
        if from < name.len() {
            assert(name.skip(from)[0] == name[from]);
        }
    } else {
        assert(name.skip(from)[0] == name[from]);
        assert(name.skip(from).drop_first() =~= name.skip(from + 1));
        lemma_first_dot_at(name, from + 1, until);
    }
}

/// Whether none of a name's dot-separated labels is empty: no dot at
/// either end of the name, and no two dots side by side.
pub open spec fn labels_nonempty(name: Seq<u8>) -> bool {
    &&& name.len() > 0 ==> name[0] != 0x2E && name[name.len() - 1] != 0x2E
    &&& forall|i: int| 0 < i < name.len() ==> !(name[i - 1] == 0x2E && #[trigger] name[i] == 0x2E)
}

/// The buffer after storing `bytes` one at a time starting at `pos`:
/// each store lands if its position is inside the buffer, and storing
/// stops at the first position past the end.
pub open spec fn stored(buf: Seq<u8>, pos: int, bytes: Seq<u8>) -> Seq<u8>
    decreases bytes.len(),
{
    if bytes.len() == 0 {
        buf
    } else if 0 <= pos < buf.len() {
        stored(buf.update(pos, bytes[0]), pos + 1, bytes.drop_first())
    } else {
        buf
    }
}

/// The cursor after attempting `count` sequential writes from `pos` into a
/// 512-byte buffer: it advances once per write that lands and stops at the
/// first failure.
pub open spec fn advanced(pos: int, count: int) -> int {
    if pos + count <= 512 {
        pos + count
    } else if pos < 512 {
        512
    } else {
        pos
    }
}

/// What each position of the buffer holds after a run of sequential stores:
/// positions covered by the stores that landed take the new bytes, every
/// other position keeps its old byte.
pub proof fn lemma_stored_index(buf: Seq<u8>, pos: int, bytes: Seq<u8>, i: int)
    requires
        0 <= pos,
        0 <= i < buf.len(),
    ensures
        stored(buf, pos, bytes)[i] == if pos <= i < pos + bytes.len() {
            bytes[i - pos]
        } else {
            buf[i]
        },
    decreases bytes.len(),
{
    if bytes.len() != 0 && 0 <= pos < buf.len() {
        lemma_stored_index(buf.update(pos, bytes[0]), pos + 1, bytes.drop_first(), i);
    } else if bytes.len() != 0 && pos >= buf.len() {
        assert(pos > i);
    }
}

/// A run of sequential stores keeps the buffer's length.
pub proof fn lemma_stored_len(buf: Seq<u8>, pos: int, bytes: Seq<u8>)
    ensures
        stored(buf, pos, bytes).len() == buf.len(),
    decreases bytes.len(),
{
    if bytes.len() != 0 && 0 <= pos < buf.len() {
        lemma_stored_len(buf.update(pos, bytes[0]), pos + 1, bytes.drop_first());
    }
}

/// Storing a concatenation is storing its halves one after the other.
pub proof fn lemma_stored_append(buf: Seq<u8>, pos: int, a: Seq<u8>, b: Seq<u8>)
    requires
        0 <= pos,
    ensures
        stored(buf, pos, a + b) == stored(stored(buf, pos, a), pos + a.len(), b),
    decreases a.len(),
{
    if a.len() == 0 {
        assert(a + b =~= b);
    } else if 0 <= pos < buf.len() {
        assert((a + b).drop_first() =~= a.drop_first() + b);
        lemma_stored_append(buf.update(pos, a[0]), pos + 1, a.drop_first(), b);
    } else {
        lemma_stored_out(buf, pos, a + b);
        lemma_stored_out(buf, pos, a);
        lemma_stored_out(buf, pos + a.len(), b);
    }
}

/// A buffer agreeing with `bytes` where the stores from `pos` landed and
/// with `buf` everywhere else is exactly the buffer those stores produce.
pub proof fn lemma_stored_matches(buf: Seq<u8>, pos: int, bytes: Seq<u8>, cur: Seq<u8>)
    requires
        buf.len() == 512,
        cur.len() == 512,
        0 <= pos,
        forall|i: int| 0 <= i < 512 && pos <= i < pos + bytes.len() ==> cur[i] == bytes[i - pos],
        forall|i: int| 0 <= i < 512 && !(pos <= i < pos + bytes.len()) ==> cur[i] == buf[i],
    ensures
        cur == stored(buf, pos, bytes),
{
    lemma_stored_len(buf, pos, bytes);
    assert forall|i: int| 0 <= i < 512 implies stored(buf, pos, bytes)[i] == cur[i] by {
        lemma_stored_index(buf, pos, bytes, i);
    }
    assert(cur =~= stored(buf, pos, bytes));
}

/// Stores aimed wholly past the end of the buffer change nothing.
pub proof fn lemma_stored_out(buf: Seq<u8>, pos: int, bytes: Seq<u8>)
    requires
        pos >= buf.len(),
    ensures
        stored(buf, pos, bytes) == buf,
{
}

/// One more byte stored after a run that stays inside the buffer lands as
/// a single update past the run.
pub proof fn lemma_stored_snoc(buf: Seq<u8>, pos: int, bytes: Seq<u8>, b: u8)
    requires
        0 <= pos,
        pos + bytes.len() < buf.len(),
    ensures
        stored(buf, pos, bytes + seq![b]) == stored(buf, pos, bytes).update(pos + bytes.len(), b),
{
    lemma_stored_append(buf, pos, bytes, seq![b]);
    lemma_stored_len(buf, pos, bytes);
    let cur = stored(buf, pos, bytes);
    assert(seq![b].drop_first() =~= Seq::<u8>::empty());
    assert(stored(cur.update(pos + bytes.len(), b), pos + bytes.len() + 1, seq![b].drop_first())
        == cur.update(pos + bytes.len(), b));
}

/// Once a run of stores has already reached the end of the buffer, the
/// bytes behind it change nothing more.
pub proof fn lemma_stored_stops(buf: Seq<u8>, pos: int, a: Seq<u8>, b: Seq<u8>)
    requires
        0 <= pos,
        pos + a.len() >= buf.len(),
    ensures
        stored(buf, pos, a + b) == stored(buf, pos, a),
{
    lemma_stored_append(buf, pos, a, b);
    lemma_stored_len(buf, pos, a);
    lemma_stored_out(stored(buf, pos, a), pos + a.len(), b);
}

} // verus!
