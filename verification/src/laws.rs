//! Proved laws relating the packet buffer's operations to one another.

use vstd::prelude::*;

use crate::wire::{
    be16, be16_bytes, be32, be32_bytes, decode_name, emitted, encode_name, first_dot,
    is_pointer_byte, jump_target, label_chars, labels_nonempty, led_by, lemma_first_dot,
    lemma_stored_index, lemma_stored_len, lower, space_before_end, stored, PacketError, MAX_JUMPS,
};

verus! {

/// Storing a byte at a valid offset and then reading that offset back
/// yields the byte just stored.
pub proof fn lemma_set_then_get(buf: Seq<u8>, off: int, val: u8)
    requires
        buf.len() == 512,
        0 <= off < 512,
    ensures
        buf.update(off, val)[off] == val,
{
}

/// Writing a 16-bit value at a position and then reading two big-endian
/// bytes back from that same position yields the value, whatever it was.
pub proof fn lemma_u16_round_trip(buf: Seq<u8>, pos: int, val: u16)
    requires
        buf.len() == 512,
        0 <= pos,
        pos + 2 <= 512,
    ensures
        ({
            let w = stored(buf, pos, be16_bytes(val));
            be16(w[pos], w[pos + 1]) == val
        }),
{
    lemma_stored_index(buf, pos, be16_bytes(val), pos);
    lemma_stored_index(buf, pos, be16_bytes(val), pos + 1);
    assert(((val / 256) as u8) * 256 + ((val % 256) as u8) == val) by (bit_vector);
}

/// Writing a 32-bit value at a position and then reading four big-endian
/// bytes back from that same position yields the value, whatever it was.
pub proof fn lemma_u32_round_trip(buf: Seq<u8>, pos: int, val: u32)
    requires
        buf.len() == 512,
        0 <= pos,
        pos + 4 <= 512,
    ensures
        ({
            let w = stored(buf, pos, be32_bytes(val));
            be32(w[pos], w[pos + 1], w[pos + 2], w[pos + 3]) == val
        }),
{
    lemma_stored_index(buf, pos, be32_bytes(val), pos);
    lemma_stored_index(buf, pos, be32_bytes(val), pos + 1);
    lemma_stored_index(buf, pos, be32_bytes(val), pos + 2);
    lemma_stored_index(buf, pos, be32_bytes(val), pos + 3);
    assert(((val / 0x1000000) as u8) * 0x1000000 + (((val / 0x10000) % 256) as u8) * 0x10000 + ((
    (val / 0x100) % 256) as u8) * 0x100 + ((val % 256) as u8) == val) by (bit_vector);
}

/// A decode that succeeds with part of the pointer budget already spent
/// succeeds identically with less of it spent.
pub proof fn lemma_decode_budget(buf: Seq<u8>, pos: int, fewer: int, spent: int)
    requires
        fewer <= spent,
        decode_name(buf, pos, spent) is Ok,
    ensures
        decode_name(buf, pos, fewer) == decode_name(buf, pos, spent),
    decreases MAX_JUMPS + 1 - spent, space_before_end(pos),
{
    let len = buf[pos];
    if is_pointer_byte(len) {
        lemma_decode_budget(buf, jump_target(len, buf[pos + 1]), fewer + 1, spent + 1);
    } else if len != 0 {
        lemma_decode_budget(buf, pos + 1 + len, fewer, spent);
    }
}

/// A name reached through a compression pointer reads as the very name at
/// the pointer's target, while taking just the pointer's own two bytes.
pub proof fn lemma_pointer_reads_target(buf: Seq<u8>, pos: int)
    requires
        0 <= pos,
        pos + 1 < 512,
        is_pointer_byte(buf[pos]),
        decode_name(buf, pos, 0) is Ok,
    ensures
        decode_name(buf, jump_target(buf[pos], buf[pos + 1]), 0) is Ok,
        decode_name(buf, pos, 0) == Ok::<(Seq<char>, int), PacketError>(
            (decode_name(buf, jump_target(buf[pos], buf[pos + 1]), 0)->Ok_0.0, pos + 2),
        ),
{
    lemma_decode_budget(buf, jump_target(buf[pos], buf[pos + 1]), 0, 1);
}

/// The wire bytes of a fully encoded name sitting in a buffer decode, for
/// any part of the pointer budget already spent, to the name's lower-cased
/// characters, ending just past the terminating zero byte; sound whenever
/// no label of the name is empty.
proof fn lemma_encoding_decodes(buf: Seq<u8>, pos: int, name: Seq<u8>, jumps: int)
    requires
        buf.len() == 512,
        0 <= pos,
        0 <= jumps <= MAX_JUMPS,
        name.len() > 0,
        labels_nonempty(name),
        encode_name(name) is Complete,
        pos + emitted(encode_name(name)).len() <= 512,
        buf.subrange(pos, pos + emitted(encode_name(name)).len() as int) == emitted(
            encode_name(name),
        ),
    ensures
        decode_name(buf, pos, jumps) == Ok::<(Seq<char>, int), PacketError>(
            (label_chars(name), pos + emitted(encode_name(name)).len()),
        ),
    decreases name.len(),
{
    lemma_first_dot(name);
    let cut = first_dot(name) as int;
    let e = emitted(encode_name(name));
    let cut_byte = cut as u8;
    assert(1 <= cut <= 64);
    assert(cut_byte & 0xC0 != 0xC0 && cut_byte != 0) by (bit_vector)
        requires
            1 <= cut_byte <= 64,
    ;
    assert(buf[pos] == e[0]);
    if cut == name.len() {
        assert(e == seq![cut_byte] + name + seq![0u8]);
        assert(buf[pos] == cut_byte);
        assert forall|i: int| 0 <= i < cut implies buf[pos + 1 + i] == name[i] by {
            assert(buf[pos + 1 + i] == e[1 + i]);
        }
        assert(buf.subrange(pos + 1, pos + 1 + cut) =~= name);
        assert(buf[pos + 1 + cut] == e[1 + cut]);
        assert(buf[pos + 1 + cut] == 0);
        assert(0u8 & 0xC0u8 != 0xC0u8) by (bit_vector);
        assert(decode_name(buf, pos + 1 + cut, jumps) == Ok::<(Seq<char>, int), PacketError>(
            (Seq::empty(), pos + cut + 2),
        ));
    } else {
        let head = seq![cut_byte] + name.take(cut);
        let tail_name = name.skip(cut + 1);
        let tail_enc = encode_name(tail_name);
        assert(encode_name(name) == led_by(head, tail_enc));
        let e2 = emitted(tail_enc);
        assert(e =~= head + e2);

        // The label in the buffer is the name's first label.
        assert(buf[pos] == cut_byte);
        assert forall|i: int| 0 <= i < cut implies buf[pos + 1 + i] == name[i] by {
            assert(buf[pos + 1 + i] == e[1 + i]);
        }
        assert(buf.subrange(pos + 1, pos + 1 + cut) =~= name.take(cut));

        // The rest of the name keeps every label non-empty.
        assert(name[cut] == 0x2E);
        assert(tail_name.len() > 0);
        assert(tail_name[0] == name[cut + 1]);
        assert(tail_name[0] != 0x2E);
        assert forall|i: int| 0 < i < tail_name.len() implies !(tail_name[i - 1] == 0x2E
            && #[trigger] tail_name[i] == 0x2E) by {
            assert(tail_name[i - 1] == name[cut + 1 + i - 1]);
            assert(tail_name[i] == name[cut + 1 + i]);
        }
        assert(tail_name[tail_name.len() - 1] == name[name.len() - 1]);

        // The rest of the encoding sits right behind the label.
        assert forall|i: int| 0 <= i < e2.len() implies buf[pos + 1 + cut + i] == e2[i] by {
            assert(buf[pos + 1 + cut + i] == e[1 + cut + i]);
        }
        assert(buf.subrange(pos + 1 + cut, pos + 1 + cut + e2.len()) =~= e2);

        lemma_encoding_decodes(buf, pos + 1 + cut, tail_name, jumps);

        // The decoded pieces rejoin into the whole lower-cased name.
        assert(label_chars(tail_name).len() > 0);
        assert(lower(0x2E) as char == '.');
        assert(label_chars(name) =~= label_chars(name.take(cut)) + seq!['.'] + label_chars(
            tail_name,
        ));
    }
}

/// A name freshly encoded into a buffer, none of whose labels is empty,
/// decodes from the same position back to its own lower-cased characters,
/// with the cursor ending just past its terminating zero byte.
pub proof fn lemma_encode_then_decode(buf: Seq<u8>, pos: int, name: Seq<u8>)
    requires
        buf.len() == 512,
        0 <= pos,
        name.len() > 0,
        labels_nonempty(name),
        encode_name(name) is Complete,
        pos + emitted(encode_name(name)).len() <= 512,
    ensures
        decode_name(stored(buf, pos, emitted(encode_name(name))), pos, 0) == Ok::<
            (Seq<char>, int),
            PacketError,
        >((label_chars(name), pos + emitted(encode_name(name)).len())),
{
    let e = emitted(encode_name(name));
    let w = stored(buf, pos, e);
    lemma_stored_len(buf, pos, e);
    assert forall|i: int| 0 <= i < e.len() implies w[pos + i] == e[i] by {
        lemma_stored_index(buf, pos, e, pos + i);
    }
    assert(w.subrange(pos, pos + e.len()) =~= e);
    lemma_encoding_decodes(w, pos, name, 0);
}

/// A compression pointer that targets itself runs the pointer budget out:
/// decoding at it fails with the jump-limit error instead of diverging.
pub proof fn lemma_self_pointer_exceeds_limit(buf: Seq<u8>, pos: int)
    requires
        0 <= pos,
        pos + 1 < 512,
        is_pointer_byte(buf[pos]),
        jump_target(buf[pos], buf[pos + 1]) == pos,
    ensures
        decode_name(buf, pos, 0) == Err::<(Seq<char>, int), PacketError>(
            PacketError::JumpLimitExceeded,
        ),
{
    assert(decode_name(buf, pos, 6) == Err::<(Seq<char>, int), PacketError>(
        PacketError::JumpLimitExceeded,
    ));
    assert(decode_name(buf, pos, 5) == Err::<(Seq<char>, int), PacketError>(
        PacketError::JumpLimitExceeded,
    ));
    assert(decode_name(buf, pos, 4) == Err::<(Seq<char>, int), PacketError>(
        PacketError::JumpLimitExceeded,
    ));
    assert(decode_name(buf, pos, 3) == Err::<(Seq<char>, int), PacketError>(
        PacketError::JumpLimitExceeded,
    ));
    assert(decode_name(buf, pos, 2) == Err::<(Seq<char>, int), PacketError>(
        PacketError::JumpLimitExceeded,
    ));
    assert(decode_name(buf, pos, 1) == Err::<(Seq<char>, int), PacketError>(
        PacketError::JumpLimitExceeded,
    ));
}

} // verus!
