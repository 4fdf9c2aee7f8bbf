//! The packet buffer itself: a fixed 512-byte buffer with a movable cursor,
//! sequential and absolute byte access, big-endian integer codecs, and the
//! DNS name codec.

use vstd::prelude::*;

use crate::wire::{
    advanced, be16, be16_bytes, be32, be32_bytes, decode_name, emitted, encode_name,
    is_pointer_byte, join_label, join_parts, jump_target, label_chars, led_by, lemma_emitted_led_by,
    lemma_first_dot_at, lemma_join_parts_label, lemma_led_by_led_by, lemma_stored_matches,
    lemma_stored_snoc, lemma_stored_stops, lower, space_before_end, stored, NameEncoding,
    PacketError, MAX_JUMPS, MAX_LABEL_LEN,
};

use vstd::string::StringSliceAdditionalSpecFns;

verus! {

/// A fixed-capacity wire-format buffer holding one DNS message, together
/// with the cursor at which sequential reads and writes happen next.
pub struct PacketBuffer {
    /// The message bytes; the capacity is always exactly 512.
    pub buf: [u8; 512],
    /// The next position a sequential read or write touches.
    pub pos: usize,
}

/// A byte with an upper-case ASCII letter folded to lower case; any other
/// byte is kept as it is.
fn lower_byte(b: u8) -> (r: u8)
    ensures
        r == lower(b),
{
    if 0x41 <= b && b <= 0x5A {
        b + 0x20
    } else {
        b
    }
}

/// Relies on String::push: appends the given character to the end of the
/// string.
#[verifier::external_body]
fn push_char(out: &mut String, c: char)
    ensures
        final(out)@ == old(out)@ + seq![c],
{
    out.push(c);
}

impl PacketBuffer {
    /// A fresh, zero-filled buffer with the cursor at the start.
    pub fn new() -> (r: PacketBuffer)
        ensures
            r.pos == 0,
            forall|i: int| 0 <= i < 512 ==> r.buf@[i] == 0u8,
    {
        PacketBuffer { buf: [0u8; 512], pos: 0 }
    }

    /// The current cursor position.
    pub fn pos(&self) -> (r: usize)
        ensures
            r == self.pos,
    {
        self.pos
    }

    /// Moves the cursor forward by `steps` without touching the bytes.
    /// No bound is enforced here: validation is deferred to the next
    /// read or write.
    pub fn step(&mut self, steps: usize) -> (r: Result<(), PacketError>)
        requires
            old(self).pos + steps <= usize::MAX,
        ensures
            r is Ok,
            final(self).pos == old(self).pos + steps,
            final(self).buf@ == old(self).buf@,
    {
        self.pos = self.pos + steps;
        Ok(())
    }

    /// Places the cursor at an absolute position without touching the bytes.
    /// No bound is enforced here: validation is deferred to the next
    /// read or write.
    pub fn seek(&mut self, pos: usize) -> (r: Result<(), PacketError>)
        ensures
            r is Ok,
            final(self).pos == pos,
            final(self).buf@ == old(self).buf@,
    {
        self.pos = pos;
        Ok(())
    }

    /// Reads the byte under the cursor and advances the cursor past it;
    /// fails, changing nothing, when the cursor is past the last byte.
    pub fn read(&mut self) -> (r: Result<u8, PacketError>)
        ensures
            final(self).buf@ == old(self).buf@,
            old(self).pos < 512 ==> r == Ok::<u8, PacketError>(old(self).buf@[old(self).pos as int])
                && final(self).pos == old(self).pos + 1,
            old(self).pos >= 512 ==> r == Err::<u8, PacketError>(PacketError::OutOfBounds)
                && final(self).pos == old(self).pos,
    {
        if self.pos >= 512 {
            return Err(PacketError::OutOfBounds);
        }
        let res = self.buf[self.pos];
        self.pos = self.pos + 1;
        Ok(res)
    }

    /// Returns the byte at an absolute offset, leaving the cursor alone;
    /// fails when the offset is outside the buffer.
    pub fn get(&mut self, pos: usize) -> (r: Result<u8, PacketError>)
        ensures
            *final(self) == *old(self),
            pos < 512 ==> r == Ok::<u8, PacketError>(old(self).buf@[pos as int]),
            pos >= 512 ==> r == Err::<u8, PacketError>(PacketError::OutOfBounds),
    {
        if pos >= 512 {
            return Err(PacketError::OutOfBounds);
        }
        Ok(self.buf[pos])
    }

    /// Stores a byte at an absolute offset, leaving the cursor alone;
    /// fails, changing nothing, when the offset is outside the buffer.
    pub fn set(&mut self, pos: usize, val: u8) -> (r: Result<(), PacketError>)
        ensures
            final(self).pos == old(self).pos,
            pos < 512 ==> r == Ok::<(), PacketError>(())
                && final(self).buf@ == old(self).buf@.update(pos as int, val),
            pos >= 512 ==> r == Err::<(), PacketError>(PacketError::OutOfBounds)
                && final(self).buf@ == old(self).buf@,
    {
        if pos >= 512 {
            return Err(PacketError::OutOfBounds);
        }
        self.buf[pos] = val;
        Ok(())
    }

    /// Returns a read-only view of `len` bytes starting at the absolute
    /// offset `start`, leaving the cursor alone; fails when the requested
    /// extent reaches past the end of the buffer.
    pub fn get_range(&mut self, start: usize, len: usize) -> (r: Result<&[u8], PacketError>)
        ensures
            *final(self) == *old(self),
            start + len <= 512 ==> r is Ok
                && r->Ok_0@ == old(self).buf@.subrange(start as int, start + len),
            start + len > 512 ==> r == Err::<&[u8], PacketError>(PacketError::OutOfBounds),
    {
        if start > 512 || len > 512 - start {
            return Err(PacketError::OutOfBounds);
        }
        let s: &[u8] = self.buf.as_slice();
        Ok(&s[start..start + len])
    }

    /// Reads two bytes at the cursor as a big-endian value, advancing the
    /// cursor past each byte it could read; fails when the cursor would
    /// leave the buffer.
    pub fn read_u16(&mut self) -> (r: Result<u16, PacketError>)
        ensures
            final(self).buf@ == old(self).buf@,
            final(self).pos == advanced(old(self).pos as int, 2),
            r == if old(self).pos + 2 <= 512 {
                Ok::<u16, PacketError>(
                    be16(old(self).buf@[old(self).pos as int], old(self).buf@[old(self).pos + 1]),
                )
            } else {
                Err::<u16, PacketError>(PacketError::OutOfBounds)
            },
    {
        let hi = match self.read() {
            Ok(b) => b,
            Err(e) => {
                return Err(e);
            },
        };
        let lo = match self.read() {
            Ok(b) => b,
            Err(e) => {
                return Err(e);
            },
        };
        Ok((hi as u16) * 256 + (lo as u16))
    }

    /// Reads four bytes at the cursor as a big-endian value, advancing the
    /// cursor past each byte it could read; fails when the cursor would
    /// leave the buffer.
    pub fn read_u32(&mut self) -> (r: Result<u32, PacketError>)
        ensures
            final(self).buf@ == old(self).buf@,
            final(self).pos == advanced(old(self).pos as int, 4),
            r == if old(self).pos + 4 <= 512 {
                Ok::<u32, PacketError>(
                    be32(
                        old(self).buf@[old(self).pos as int],
                        old(self).buf@[old(self).pos + 1],
                        old(self).buf@[old(self).pos + 2],
                        old(self).buf@[old(self).pos + 3],
                    ),
                )
            } else {
                Err::<u32, PacketError>(PacketError::OutOfBounds)
            },
    {
        let b0 = match self.read() {
            Ok(b) => b,
            Err(e) => {
                return Err(e);
            },
        };
        let b1 = match self.read() {
            Ok(b) => b,
            Err(e) => {
                return Err(e);
            },
        };
        let b2 = match self.read() {
            Ok(b) => b,
            Err(e) => {
                return Err(e);
            },
        };
        let b3 = match self.read() {
            Ok(b) => b,
            Err(e) => {
                return Err(e);
            },
        };
        Ok((b0 as u32) * 0x1000000 + (b1 as u32) * 0x10000 + (b2 as u32) * 0x100 + (b3 as u32))
    }

    /// Decodes the name under the cursor — length-prefixed labels closed by
    /// a zero byte, with compression pointers chased through the buffer —
    /// and appends its lower-cased, dot-separated characters to `outstr`.
    /// The cursor ends just past the name's first segment: past its first
    /// pointer if it has one, else past its terminating zero byte. On
    /// failure the buffer is untouched and the error tells whether a bound
    /// or the pointer budget was broken.
    #[verifier::loop_isolation(false)]
    pub fn read_qname(&mut self, outstr: &mut String) -> (r: Result<(), PacketError>)
        ensures
            final(self).buf@ == old(self).buf@,
            match decode_name(old(self).buf@, old(self).pos as int, 0) {
                Ok((name, end)) => r == Ok::<(), PacketError>(()) && final(outstr)@ == old(outstr)@
                    + name && final(self).pos == end,
                Err(e) => r == Err::<(), PacketError>(e),
            },
    {
        let ghost buf0 = self.buf@;
        let ghost pos0 = self.pos as int;
        let ghost out0 = outstr@;
        let ghost mut acc: Seq<char> = Seq::empty();

        let mut pos = self.pos;
        let mut jumped = false;
        let mut first = true;
        let mut num_jumps: u32 = 0;

        loop
            invariant
                self.buf@ == buf0,
                outstr@ == out0 + acc,
                first <==> acc.len() == 0,
                num_jumps <= MAX_JUMPS + 1,
                !jumped ==> self.pos == pos0,
                match decode_name(buf0, pos as int, num_jumps as int) {
                    Ok((rest, end)) => decode_name(buf0, pos0, 0) == Ok::<
                        (Seq<char>, int),
                        PacketError,
                    >(
                        (join_parts(acc, rest), if jumped {
                            self.pos as int
                        } else {
                            end
                        }),
                    ),
                    Err(e) => decode_name(buf0, pos0, 0) == Err::<(Seq<char>, int), PacketError>(
                        e,
                    ),
                },
            decreases MAX_JUMPS + 1 - num_jumps, space_before_end(pos as int),
        {
            let ghost entry_pos = pos as int;
            let ghost entry_jumps = num_jumps as int;

            if num_jumps > MAX_JUMPS {
                return Err(PacketError::JumpLimitExceeded);
            }

            let length = match self.get(pos) {
                Ok(b) => b,
                Err(e) => {
                    return Err(e);
                },
            };

            if length & 0xC0 == 0xC0 {
                if !jumped {
                    match self.seek(pos + 2) {
                        Ok(u) => u,
                        Err(e) => {
                            return Err(e);
                        },
                    };
                }
                let second = match self.get(pos + 1) {
                    Ok(b) => b,
                    Err(e) => {
                        return Err(e);
                    },
                };
                proof {
                    assert(length >= 0xC0) by (bit_vector)
                        requires
                            length & 0xC0 == 0xC0u8,
                    ;
                }
                let target = ((length - 0xC0) as usize) * 256 + (second as usize);
                proof {
                    assert(target == jump_target(length, second));
                    assert(is_pointer_byte(buf0[entry_pos]));
                }
                jumped = true;
                num_jumps = num_jumps + 1;
                pos = target;
                continue ;
            }

            pos = pos + 1;

            if length == 0 {
                if !jumped {
                    match self.seek(pos) {
                        Ok(u) => u,
                        Err(e) => {
                            return Err(e);
                        },
                    };
                }
                return Ok(());
            }

            if (length as usize) > 512 - pos {
                return Err(PacketError::OutOfBounds);
            }

            if first {
                first = false;
            } else {
                push_char(outstr, '.');
            }
            let ghost pre = if acc.len() == 0 {
                acc
            } else {
                acc + seq!['.']
            };
            let ghost lbl = buf0.subrange(pos as int, pos + length);
            let ghost pos_here = self.pos;
            proof {
                assert(label_chars(lbl.take(0)) =~= Seq::<char>::empty());
                assert(outstr@ =~= out0 + pre + label_chars(lbl.take(0)));
            }

            let mut k: usize = 0;
            while k < length as usize
                invariant
                    k <= length as usize,
                    self.buf@ == buf0,
                    self.pos == pos_here,
                    outstr@ == out0 + pre + label_chars(lbl.take(k as int)),
                decreases length as usize - k,
            {
                let b = match self.get(pos + k) {
                    Ok(b) => b,
                    Err(e) => {
                        return Err(e);
                    },
                };
                push_char(outstr, lower_byte(b) as char);
                proof {
                    assert(lbl[k as int] == buf0[pos + k]);
                    assert(label_chars(lbl.take(k as int + 1)) =~= label_chars(
                        lbl.take(k as int),
                    ) + seq![lower(lbl[k as int]) as char]);
                    assert(outstr@ =~= out0 + pre + label_chars(lbl.take(k as int + 1)));
                }
                k = k + 1;
            }

            proof {
                assert(lbl.take(length as int) =~= lbl);
                let lc = label_chars(lbl);
                assert(lc.len() == length as int);
                assert(pre + lc =~= join_parts(acc, lc));
                assert(outstr@ =~= out0 + join_parts(acc, lc));
                match decode_name(buf0, entry_pos + 1 + length, entry_jumps) {
                    Ok((rest, end)) => {
                        lemma_join_parts_label(acc, lc, rest);
                        assert(decode_name(buf0, entry_pos, entry_jumps) == Ok::<
                            (Seq<char>, int),
                            PacketError,
                        >((join_label(lc, rest), end)));
                    },
                    Err(e) => {
                        assert(decode_name(buf0, entry_pos, entry_jumps) == Err::<
                            (Seq<char>, int),
                            PacketError,
                        >(e));
                    },
                }
                acc = join_parts(acc, lc);
            }
            pos = pos + length as usize;
        }
    }

    /// Encodes a dot-separated name at the cursor: for each label its byte
    /// length then its raw bytes, closed by a single zero byte; no
    /// compression pointer is ever emitted. A label longer than
    /// `MAX_LABEL_LEN` bytes fails the call before any byte of that label
    /// is written; a byte the buffer has no room for fails the call where
    /// it stood.
    #[verifier::loop_isolation(false)]
    #[verifier::rlimit(100)]
    pub fn write_qname(&mut self, qname: &str) -> (r: Result<(), PacketError>)
        ensures
            final(self).buf@ == stored(
                old(self).buf@,
                old(self).pos as int,
                emitted(encode_name(qname.spec_bytes())),
            ),
            final(self).pos == advanced(
                old(self).pos as int,
                emitted(encode_name(qname.spec_bytes())).len() as int,
            ),
            r == ({
                let e = encode_name(qname.spec_bytes());
                let count = emitted(e).len() as int;
                if advanced(old(self).pos as int, count) == old(self).pos + count {
                    match e {
                        NameEncoding::Complete(b) => Ok::<(), PacketError>(()),
                        NameEncoding::Truncated(b) => Err::<(), PacketError>(
                            PacketError::LabelTooLong,
                        ),
                    }
                } else {
                    Err::<(), PacketError>(PacketError::OutOfBounds)
                }
            }),
    {
        let ghost buf0 = self.buf@;
        let ghost p0 = self.pos as int;
        let bytes: &[u8] = qname.as_bytes();
        let ghost q = qname.spec_bytes();
        let n = bytes.len();
        let ghost mut done: Seq<u8> = Seq::empty();
        proof {
            assert(q.skip(0) =~= q);
            match encode_name(q) {
                NameEncoding::Complete(rest) => {
                    assert(Seq::<u8>::empty() + rest =~= rest);
                },
                NameEncoding::Truncated(rest) => {
                    assert(Seq::<u8>::empty() + rest =~= rest);
                },
            }
        }

        let mut start: usize = 0;
        loop
            invariant
                start <= n,
                self.buf@ == stored(buf0, p0, done),
                self.pos as int == p0 + done.len(),
                advanced(p0, done.len() as int) == p0 + done.len(),
                encode_name(q) == led_by(done, encode_name(q.skip(start as int))),
            decreases n - start,
        {
            let mut end: usize = start;
            while end < n && bytes[end] != 0x2E
                invariant
                    start <= end <= n,
                    forall|j: int| start <= j < end ==> q[j] != 0x2E,
                decreases n - end,
            {
                end = end + 1;
            }
            let ghost s = q.skip(start as int);
            proof {
                lemma_first_dot_at(q, start as int, end as int);
                assert(s.take(end - start) =~= q.subrange(start as int, end as int));
            }

            let len = end - start;
            if len > MAX_LABEL_LEN {
                proof {
                    lemma_emitted_led_by(done, encode_name(s));
                    assert(done + Seq::<u8>::empty() =~= done);
                }
                return Err(PacketError::LabelTooLong);
            }

            // The wire bytes this label adds, and what the rest of the name
            // adds after it.
            let ghost label_wire = seq![len as u8] + q.subrange(start as int, end as int);
            let ghost rest_wire: Seq<u8> = if end == n {
                seq![0u8]
            } else {
                emitted(encode_name(q.skip(end as int + 1)))
            };
            proof {
                if end == n {
                    assert(s.take(end - start) =~= s);
                    assert((label_wire + rest_wire) =~= seq![len as u8] + s + seq![0u8]);
                    assert(encode_name(s) == NameEncoding::Complete(label_wire + rest_wire));
                } else {
                    assert(s.skip(len as int + 1) =~= q.skip(end as int + 1));
                    lemma_led_by_led_by(done, label_wire, encode_name(q.skip(end as int + 1)));
                    lemma_emitted_led_by(label_wire, encode_name(q.skip(end as int + 1)));
                }
                lemma_emitted_led_by(done, encode_name(s));
                assert(emitted(encode_name(q)) =~= done + (label_wire + rest_wire));
            }

            match self.write(len as u8) {
                Ok(u) => u,
                Err(e) => {
                    proof {
                        lemma_stored_stops(buf0, p0, done, label_wire + rest_wire);
                        assert(done + (label_wire + rest_wire) =~= done + label_wire + rest_wire);
                    }
                    return Err(e);
                },
            };
            proof {
                lemma_stored_snoc(buf0, p0, done, len as u8);
                assert(done + seq![len as u8] + q.subrange(start as int, start as int) =~= done
                    + seq![len as u8]);
            }

            let mut i = start;
            while i < end
                invariant
                    start <= i <= end,
                    self.buf@ == stored(
                        buf0,
                        p0,
                        done + seq![len as u8] + q.subrange(start as int, i as int),
                    ),
                    self.pos as int == p0 + done.len() + 1 + (i - start),
                    p0 + done.len() + 1 + (i - start) <= 512,
                decreases end - i,
            {
                let ghost w = done + seq![len as u8] + q.subrange(start as int, i as int);
                match self.write(bytes[i]) {
                    Ok(u) => u,
                    Err(e) => {
                        proof {
                            assert(done + (label_wire + rest_wire) =~= w + (q.subrange(
                                i as int,
                                end as int,
                            ) + rest_wire));
                            lemma_stored_stops(
                                buf0,
                                p0,
                                w,
                                q.subrange(i as int, end as int) + rest_wire,
                            );
                        }
                        return Err(e);
                    },
                };
                proof {
                    lemma_stored_snoc(buf0, p0, w, q[i as int]);
                    assert(w + seq![q[i as int]] =~= done + seq![len as u8] + q.subrange(
                        start as int,
                        i as int + 1,
                    ));
                }
                i = i + 1;
            }

            proof {
                assert(done + seq![len as u8] + q.subrange(start as int, end as int) =~= done
                    + label_wire);
                done = done + label_wire;
            }

            if end == n {
                match self.write(0u8) {
                    Ok(u) => u,
                    Err(e) => {
                        proof {
                            lemma_stored_stops(buf0, p0, done, seq![0u8]);
                            assert(emitted(encode_name(q)) =~= done + seq![0u8]);
                        }
                        return Err(e);
                    },
                };
                proof {
                    lemma_stored_snoc(buf0, p0, done, 0u8);
                    assert(emitted(encode_name(q)) =~= done + seq![0u8]);
                }
                return Ok(());
            }
            start = end + 1;
        }
    }

    /// Writes a byte at the cursor and advances the cursor past it;
    /// fails, changing nothing, when the cursor is past the last byte.
    pub fn write(&mut self, val: u8) -> (r: Result<(), PacketError>)
        ensures
            old(self).pos < 512 ==> r == Ok::<(), PacketError>(())
                && final(self).buf@ == old(self).buf@.update(old(self).pos as int, val)
                && final(self).pos == old(self).pos + 1,
            old(self).pos >= 512 ==> r == Err::<(), PacketError>(PacketError::OutOfBounds)
                && *final(self) == *old(self),
    {
        if self.pos >= 512 {
            return Err(PacketError::OutOfBounds);
        }
        self.buf[self.pos] = val;
        self.pos = self.pos + 1;
        Ok(())
    }

    /// Writes a byte at the cursor, exactly as `write` does.
    pub fn write_u8(&mut self, val: u8) -> (r: Result<(), PacketError>)
        ensures
            old(self).pos < 512 ==> r == Ok::<(), PacketError>(())
                && final(self).buf@ == old(self).buf@.update(old(self).pos as int, val)
                && final(self).pos == old(self).pos + 1,
            old(self).pos >= 512 ==> r == Err::<(), PacketError>(PacketError::OutOfBounds)
                && *final(self) == *old(self),
    {
        self.write(val)
    }

    /// Writes a 16-bit value at the cursor as two big-endian bytes, one at a
    /// time; each byte lands and advances the cursor only while the cursor is
    /// inside the buffer, and the first byte that does not fit fails the call.
    pub fn write_u16(&mut self, val: u16) -> (r: Result<(), PacketError>)
        ensures
            final(self).buf@ == stored(old(self).buf@, old(self).pos as int, be16_bytes(val)),
            final(self).pos == advanced(old(self).pos as int, 2),
            r == if old(self).pos + 2 <= 512 {
                Ok::<(), PacketError>(())
            } else {
                Err::<(), PacketError>(PacketError::OutOfBounds)
            },
    {
        let ghost buf0 = self.buf@;
        let ghost p = self.pos as int;
        let hi = (val / 256) as u8;
        let lo = (val % 256) as u8;
        proof {
            assert(be16_bytes(val) =~= seq![hi, lo]);
        }
        match self.write(hi) {
            Ok(u) => u,
            Err(e) => {
                proof {
                    lemma_stored_matches(buf0, p, be16_bytes(val), self.buf@);
                }
                return Err(e);
            },
        };
        match self.write(lo) {
            Ok(u) => u,
            Err(e) => {
                proof {
                    lemma_stored_matches(buf0, p, be16_bytes(val), self.buf@);
                }
                return Err(e);
            },
        };
        proof {
            lemma_stored_matches(buf0, p, be16_bytes(val), self.buf@);
        }
        Ok(())
    }

    /// Writes a 32-bit value at the cursor as four big-endian bytes, one at a
    /// time; each byte lands and advances the cursor only while the cursor is
    /// inside the buffer, and the first byte that does not fit fails the call.
    pub fn write_u32(&mut self, val: u32) -> (r: Result<(), PacketError>)
        ensures
            final(self).buf@ == stored(old(self).buf@, old(self).pos as int, be32_bytes(val)),
            final(self).pos == advanced(old(self).pos as int, 4),
            r == if old(self).pos + 4 <= 512 {
                Ok::<(), PacketError>(())
            } else {
                Err::<(), PacketError>(PacketError::OutOfBounds)
            },
    {
        let ghost buf0 = self.buf@;
        let ghost p = self.pos as int;
        let b0 = (val / 0x1000000) as u8;
        let b1 = ((val / 0x10000) % 256) as u8;
        let b2 = ((val / 0x100) % 256) as u8;
        let b3 = (val % 256) as u8;
        proof {
            assert(be32_bytes(val) =~= seq![b0, b1, b2, b3]);
        }
        match self.write(b0) {
            Ok(u) => u,
            Err(e) => {
                proof {
                    lemma_stored_matches(buf0, p, be32_bytes(val), self.buf@);
                }
                return Err(e);
            },
        };
        match self.write(b1) {
            Ok(u) => u,
            Err(e) => {
                proof {
                    lemma_stored_matches(buf0, p, be32_bytes(val), self.buf@);
                }
                return Err(e);
            },
        };
        match self.write(b2) {
            Ok(u) => u,
            Err(e) => {
                proof {
                    lemma_stored_matches(buf0, p, be32_bytes(val), self.buf@);
                }
                return Err(e);
            },
        };
        match self.write(b3) {
            Ok(u) => u,
            Err(e) => {
                proof {
                    lemma_stored_matches(buf0, p, be32_bytes(val), self.buf@);
                }
                return Err(e);
            },
        };
        proof {
            lemma_stored_matches(buf0, p, be32_bytes(val), self.buf@);
        }
        Ok(())
    }

    /// Stores a 16-bit value as two big-endian bytes at an absolute offset,
    /// leaving the cursor alone; each byte lands only while its own offset is
    /// inside the buffer, and the first offset outside it fails the call.
    pub fn set_u16(&mut self, pos: usize, val: u16) -> (r: Result<(), PacketError>)
        ensures
            final(self).pos == old(self).pos,
            final(self).buf@ == stored(old(self).buf@, pos as int, be16_bytes(val)),
            r == if pos + 2 <= 512 {
                Ok::<(), PacketError>(())
            } else {
                Err::<(), PacketError>(PacketError::OutOfBounds)
            },
    {
        let ghost buf0 = self.buf@;
        let hi = (val / 256) as u8;
        let lo = (val % 256) as u8;
        proof {
            assert(be16_bytes(val) =~= seq![hi, lo]);
        }
        match self.set(pos, hi) {
            Ok(u) => u,
            Err(e) => {
                proof {
                    lemma_stored_matches(buf0, pos as int, be16_bytes(val), self.buf@);
                }
                return Err(e);
            },
        };
        match self.set(pos + 1, lo) {
            Ok(u) => u,
            Err(e) => {
                proof {
                    lemma_stored_matches(buf0, pos as int, be16_bytes(val), self.buf@);
                }
                return Err(e);
            },
        };
        proof {
            lemma_stored_matches(buf0, pos as int, be16_bytes(val), self.buf@);
        }
        Ok(())
    }
}

} // verus!
