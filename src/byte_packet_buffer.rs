use vstd::prelude::*;

use vstd::string::*;

use crate::error::DnsError;
use crate::name::{
    continue_walk, fold_label, has_long_label, join_labels, labels_wire, bytes_text, name_wire,
    split_labels, text_of_bytes, walk_name, MAX_JUMPS, MAX_LABEL_LEN,
};

verus! {

/// Number of bytes a packet buffer holds.
pub const BUF_SIZE: usize = 512;

/// Big-endian bytes of a 16-bit value.
pub open spec fn be16(v: u16) -> Seq<u8> {
    seq![(v / 256) as u8, (v % 256) as u8]
}

/// Big-endian bytes of a 32-bit value.
pub open spec fn be32(v: u32) -> Seq<u8> {
    seq![
        (v / 0x100_0000) as u8,
        ((v / 0x1_0000) % 256) as u8,
        ((v / 256) % 256) as u8,
        (v % 256) as u8,
    ]
}

/// The 16-bit value of two big-endian bytes.
pub open spec fn u16_at(s: Seq<u8>, at: int) -> u16 {
    (s[at] as int * 256 + s[at + 1] as int) as u16
}

/// The 32-bit value of four big-endian bytes.
pub open spec fn u32_at(s: Seq<u8>, at: int) -> u32 {
    (s[at] as int * 0x100_0000 + s[at + 1] as int * 0x1_0000 + s[at + 2] as int * 256
        + s[at + 3] as int) as u32
}

/// `s` with `bytes` written over it from `at` on.
pub open spec fn overwrite(s: Seq<u8>, at: int, bytes: Seq<u8>) -> Seq<u8> {
    s.subrange(0, at) + bytes + s.subrange(at + bytes.len(), s.len() as int)
}

proof fn lemma_pack16(hi: u8, lo: u8)
    ensures
        ((hi as u16) << 8) | (lo as u16) == hi as u16 * 256 + lo as u16,
{
    assert(((hi as u16) << 8) | (lo as u16) == hi as u16 * 256 + lo as u16) by (bit_vector);
}

proof fn lemma_pack32(b0: u8, b1: u8, b2: u8, b3: u8)
    ensures
        ((b0 as u32) << 24) | ((b1 as u32) << 16) | ((b2 as u32) << 8) | (b3 as u32) == b0 as u32
            * 0x100_0000 + b1 as u32 * 0x1_0000 + b2 as u32 * 256 + b3 as u32,
{
    assert(((b0 as u32) << 24) | ((b1 as u32) << 16) | ((b2 as u32) << 8) | (b3 as u32) == b0 as u32
        * 0x100_0000 + b1 as u32 * 0x1_0000 + b2 as u32 * 256 + b3 as u32) by (bit_vector);
}

pub(crate) proof fn lemma_split16(v: u16)
    ensures
        (v >> 8) as u8 == (v / 256) as u8,
        (v & 0xFF) as u8 == (v % 256) as u8,
{
    assert((v >> 8) == v / 256) by (bit_vector);
    assert((v & 0xFF) == v % 256) by (bit_vector);
}

pub(crate) proof fn lemma_split32(v: u32)
    ensures
        ((v >> 24) & 0xFF) as u8 == (v / 0x100_0000) as u8,
        ((v >> 16) & 0xFF) as u8 == ((v / 0x1_0000) % 256) as u8,
        ((v >> 8) & 0xFF) as u8 == ((v / 256) % 256) as u8,
        (v & 0xFF) as u8 == (v % 256) as u8,
{
    assert(((v >> 24) & 0xFF) == v / 0x100_0000) by (bit_vector);
    assert(((v >> 16) & 0xFF) == (v / 0x1_0000) % 256) by (bit_vector);
    assert(((v >> 8) & 0xFF) == (v / 256) % 256) by (bit_vector);
    assert((v & 0xFF) == v % 256) by (bit_vector);
}

/// The result of writing `piece`, the bytes of one item or the error that
/// its content gives, at the position of `before`, as `after` and `r` show
/// it: the error of the item, or the bytes written where they fit, or
/// `EndOfBuffer` where they do not.
pub open spec fn wrote(
    before: BytePacketBuffer,
    after: BytePacketBuffer,
    r: Result<(), DnsError>,
    piece: Result<Seq<u8>, DnsError>,
) -> bool {
    match piece {
        Err(e) => r == Err::<(), DnsError>(e),
        Ok(w) => if before.pos + w.len() <= BUF_SIZE {
            r is Ok && after.pos == before.pos + w.len() && after.buf@ == overwrite(
                before.buf@,
                before.pos as int,
                w,
            )
        } else {
            r == Err::<(), DnsError>(DnsError::EndOfBuffer)
        },
    }
}

/// `w` followed by the bytes of `piece`, or the error of `piece`.
pub open spec fn followed_by(w: Seq<u8>, piece: Result<Seq<u8>, DnsError>) -> Result<Seq<u8>, DnsError> {
    match piece {
        Ok(b) => Ok(w + b),
        Err(e) => Err(e),
    }
}

/// Two writes side by side are one write of both.
pub proof fn lemma_overwrite_twice(s: Seq<u8>, pos: int, a: Seq<u8>, b: Seq<u8>)
    requires
        0 <= pos,
        pos + a.len() + b.len() <= s.len(),
    ensures
        overwrite(overwrite(s, pos, a), pos + a.len(), b) == overwrite(s, pos, a + b),
{
    assert(overwrite(overwrite(s, pos, a), pos + a.len(), b) =~= overwrite(s, pos, a + b));
}

/// Writing `w`, then `piece` after it, writes `w` followed by `piece`.
pub proof fn lemma_wrote_then(
    b0: BytePacketBuffer,
    b1: BytePacketBuffer,
    b2: BytePacketBuffer,
    r1: Result<(), DnsError>,
    r2: Result<(), DnsError>,
    w: Seq<u8>,
    piece: Result<Seq<u8>, DnsError>,
)
    requires
        wrote(b0, b1, r1, Ok(w)),
        r1 is Ok,
        wrote(b1, b2, r2, piece),
    ensures
        wrote(b0, b2, r2, followed_by(w, piece)),
{
    if let Ok(b) = piece {
        if b1.pos + b.len() <= BUF_SIZE {
            lemma_overwrite_twice(b0.buf@, b0.pos as int, w, b);
        }
    }
}

/// When `w` does not fit, neither does anything that starts with it.
pub proof fn lemma_wrote_fails(
    b0: BytePacketBuffer,
    b1: BytePacketBuffer,
    r1: Result<(), DnsError>,
    w: Seq<u8>,
    b: Seq<u8>,
)
    requires
        wrote(b0, b1, r1, Ok(w)),
        r1 is Err,
    ensures
        wrote(b0, b1, r1, Ok(w + b)),
{
}

/// A fixed-capacity packet buffer and a position in it.
pub struct BytePacketBuffer {
    pub buf: [u8; 512],
    pub pos: usize,
}

impl BytePacketBuffer {
    /// A zeroed buffer, positioned at its start.
    pub fn new() -> (r: BytePacketBuffer)
        ensures
            r.pos == 0,
            r.buf@ == Seq::new(BUF_SIZE as nat, |i: int| 0u8),
    {
        let r = BytePacketBuffer { buf: [0u8; 512], pos: 0 };
        assert(r.buf@ =~= Seq::new(BUF_SIZE as nat, |i: int| 0u8));
        r
    }

    /// Current position within the buffer.
    pub fn pos(&self) -> (r: usize)
        ensures
            r == self.pos,
    {
        self.pos
    }

    /// Moves the position forward by `steps` without reading. The position
    /// may pass the end; every later read checks its own bounds.
    pub fn step(&mut self, steps: usize) -> (r: Result<(), DnsError>)
        ensures
            final(self).buf == old(self).buf,
            old(self).pos + steps <= usize::MAX ==> r is Ok && final(self).pos == old(self).pos
                + steps,
            old(self).pos + steps > usize::MAX ==> r == Err::<(), DnsError>(DnsError::OutOfBounds)
                && final(self).pos == old(self).pos,
    {
        match self.pos.checked_add(steps) {
            Some(p) => {
                self.pos = p;
                Ok(())
            },
            None => Err(DnsError::OutOfBounds),
        }
    }

    /// Sets the position.
    pub fn seek(&mut self, pos: usize)
        ensures
            final(self).buf == old(self).buf,
            final(self).pos == pos,
    {
        self.pos = pos;
    }

    /// Reads the byte at the position and moves one step forward.
    pub fn read(&mut self) -> (r: Result<u8, DnsError>)
        ensures
            final(self).buf == old(self).buf,
            old(self).pos < BUF_SIZE ==> r == Ok::<u8, DnsError>(old(self).buf@[old(self).pos as int])
                && final(self).pos == old(self).pos + 1,
            old(self).pos >= BUF_SIZE ==> r == Err::<u8, DnsError>(DnsError::EndOfBuffer)
                && final(self).pos == old(self).pos,
    {
        if self.pos >= BUF_SIZE {
            return Err(DnsError::EndOfBuffer);
        }
        let res = self.buf[self.pos];
        self.pos = self.pos + 1;
        Ok(res)
    }

    /// The byte at `pos`, leaving the position as it is.
    pub fn get(&self, pos: usize) -> (r: Result<u8, DnsError>)
        ensures
            pos < BUF_SIZE ==> r == Ok::<u8, DnsError>(self.buf@[pos as int]),
            pos >= BUF_SIZE ==> r == Err::<u8, DnsError>(DnsError::EndOfBuffer),
    {
        if pos >= BUF_SIZE {
            return Err(DnsError::EndOfBuffer);
        }
        Ok(self.buf[pos])
    }

    /// The bytes in `[start, start + len)`. A range that ends exactly at the
    /// capacity is in bounds.
    pub fn get_range(&mut self, start: usize, len: usize) -> (r: Result<&[u8], DnsError>)
        ensures
            *final(self) == *old(self),
            start + len <= BUF_SIZE ==> r is Ok && r->Ok_0@ == old(self).buf@.subrange(
                start as int,
                start + len,
            ),
            start + len > BUF_SIZE ==> r == Err::<&[u8], DnsError>(DnsError::EndOfBuffer),
    {
        if start > BUF_SIZE || len > BUF_SIZE - start {
            return Err(DnsError::EndOfBuffer);
        }
        Ok(&self.buf[start..start + len])
    }

    /// Reads a big-endian 16-bit value, stepping two bytes forward.
    pub fn read_u16(&mut self) -> (r: Result<u16, DnsError>)
        ensures
            final(self).buf == old(self).buf,
            old(self).pos + 2 <= BUF_SIZE ==> r == Ok::<u16, DnsError>(
                u16_at(old(self).buf@, old(self).pos as int),
            ) && final(self).pos == old(self).pos + 2,
            old(self).pos + 2 > BUF_SIZE ==> r == Err::<u16, DnsError>(DnsError::EndOfBuffer)
                && final(self).pos == old(self).pos,
    {
        if self.pos > BUF_SIZE - 2 {
            return Err(DnsError::EndOfBuffer);
        }
        let hi = self.read()?;
        let lo = self.read()?;
        proof {
            lemma_pack16(hi, lo);
        }
        Ok(((hi as u16) << 8) | (lo as u16))
    }

    /// Reads a big-endian 32-bit value, stepping four bytes forward.
    pub fn read_u32(&mut self) -> (r: Result<u32, DnsError>)
        ensures
            final(self).buf == old(self).buf,
            old(self).pos + 4 <= BUF_SIZE ==> r == Ok::<u32, DnsError>(
                u32_at(old(self).buf@, old(self).pos as int),
            ) && final(self).pos == old(self).pos + 4,
            old(self).pos + 4 > BUF_SIZE ==> r == Err::<u32, DnsError>(DnsError::EndOfBuffer)
                && final(self).pos == old(self).pos,
    {
        if self.pos > BUF_SIZE - 4 {
            return Err(DnsError::EndOfBuffer);
        }
        let b0 = self.read()?;
        let b1 = self.read()?;
        let b2 = self.read()?;
        let b3 = self.read()?;
        proof {
            lemma_pack32(b0, b1, b2, b3);
        }
        Ok(((b0 as u32) << 24) | ((b1 as u32) << 16) | ((b2 as u32) << 8) | (b3 as u32))
    }

    /// Writes `bytes` at the position and moves past them, or fails with
    /// nothing written when they do not fit.
    pub(crate) fn write_bytes(&mut self, bytes: &[u8]) -> (r: Result<(), DnsError>)
        ensures
            old(self).pos + bytes@.len() <= BUF_SIZE ==> r is Ok && final(self).pos == old(self).pos
                + bytes@.len() && final(self).buf@ == overwrite(
                old(self).buf@,
                old(self).pos as int,
                bytes@,
            ),
            old(self).pos + bytes@.len() > BUF_SIZE ==> r == Err::<(), DnsError>(
                DnsError::EndOfBuffer,
            ) && *final(self) == *old(self),
    {
        if self.pos > BUF_SIZE || bytes.len() > BUF_SIZE - self.pos {
            return Err(DnsError::EndOfBuffer);
        }
        let start = self.pos;
        let mut i: usize = 0;
        while i < bytes.len()
            invariant
                start + bytes@.len() <= BUF_SIZE,
                0 <= i <= bytes@.len(),
                self.pos == start + i,
                self.buf@ == overwrite(old(self).buf@, start as int, bytes@.subrange(0, i as int)),
            decreases bytes@.len() - i,
        {
            self.buf[self.pos] = bytes[i];
            self.pos = self.pos + 1;
            i = i + 1;
            assert(self.buf@ =~= overwrite(
                old(self).buf@,
                start as int,
                bytes@.subrange(0, i as int),
            ));
        }
        assert(bytes@.subrange(0, i as int) =~= bytes@);
        Ok(())
    }

    /// Writes one byte at the position and moves one step forward.
    pub fn write(&mut self, val: u8) -> (r: Result<(), DnsError>)
        ensures
            old(self).pos < BUF_SIZE ==> r is Ok && final(self).pos == old(self).pos + 1
                && final(self).buf@ == old(self).buf@.update(old(self).pos as int, val),
            old(self).pos >= BUF_SIZE ==> r == Err::<(), DnsError>(DnsError::EndOfBuffer)
                && *final(self) == *old(self),
    {
        if self.pos >= BUF_SIZE {
            return Err(DnsError::EndOfBuffer);
        }
        self.buf[self.pos] = val;
        self.pos = self.pos + 1;
        Ok(())
    }

    /// Writes one byte at the position and moves one step forward.
    pub fn write_u8(&mut self, val: u8) -> (r: Result<(), DnsError>)
        ensures
            old(self).pos < BUF_SIZE ==> r is Ok && final(self).pos == old(self).pos + 1
                && final(self).buf@ == overwrite(old(self).buf@, old(self).pos as int, seq![val]),
            old(self).pos >= BUF_SIZE ==> r == Err::<(), DnsError>(DnsError::EndOfBuffer)
                && *final(self) == *old(self),
    {
        let r = self.write(val);
        assert(old(self).pos < BUF_SIZE ==> self.buf@ =~= overwrite(
            old(self).buf@,
            old(self).pos as int,
            seq![val],
        ));
        r
    }

    /// Writes a big-endian 16-bit value, stepping two bytes forward.
    pub fn write_u16(&mut self, val: u16) -> (r: Result<(), DnsError>)
        ensures
            old(self).pos + 2 <= BUF_SIZE ==> r is Ok && final(self).pos == old(self).pos + 2
                && final(self).buf@ == overwrite(old(self).buf@, old(self).pos as int, be16(val)),
            old(self).pos + 2 > BUF_SIZE ==> r == Err::<(), DnsError>(DnsError::EndOfBuffer)
                && *final(self) == *old(self),
    {
        proof {
            lemma_split16(val);
        }
        let bytes: [u8; 2] = [(val >> 8) as u8, (val & 0xFF) as u8];
        assert(bytes@ =~= be16(val));
        self.write_bytes(&bytes)
    }

    /// Writes a big-endian 32-bit value, stepping four bytes forward.
    pub fn write_u32(&mut self, val: u32) -> (r: Result<(), DnsError>)
        ensures
            old(self).pos + 4 <= BUF_SIZE ==> r is Ok && final(self).pos == old(self).pos + 4
                && final(self).buf@ == overwrite(old(self).buf@, old(self).pos as int, be32(val)),
            old(self).pos + 4 > BUF_SIZE ==> r == Err::<(), DnsError>(DnsError::EndOfBuffer)
                && *final(self) == *old(self),
    {
        proof {
            lemma_split32(val);
        }
        let bytes: [u8; 4] = [
            ((val >> 24) & 0xFF) as u8,
            ((val >> 16) & 0xFF) as u8,
            ((val >> 8) & 0xFF) as u8,
            (val & 0xFF) as u8,
        ];
        assert(bytes@ =~= be32(val));
        self.write_bytes(&bytes)
    }

    /// Decodes the name at the position and appends it to `outstr`: its
    /// labels case-folded and joined by dots. Compression pointers are
    /// followed, at most five of them; the position moves past the name as
    /// it stands at the position (past the first pointer, if any).
    pub fn read_qname(&mut self, outstr: &mut String) -> (r: Result<(), DnsError>)
        ensures
            final(self).buf == old(self).buf,
            match walk_name(old(self).buf@, old(self).pos as int, 0) {
                Ok((ls, end)) => r is Ok && final(self).pos == end
                    && final(outstr)@ == old(outstr)@ + bytes_text(join_labels(ls)),
                Err(e) => r == Err::<(), DnsError>(e) && *final(self) == *old(self)
                    && *final(outstr) == *old(outstr),
            },
    {
        let ghost buf = self.buf@;
        let ghost start = self.pos as int;
        let mut pos: usize = self.pos;
        let mut jumps: usize = 0;
        let mut resume: Option<usize> = None;
        let mut out: Vec<u8> = Vec::new();
        let ghost mut acc: Seq<Seq<u8>> = seq![];
        let mut first = true;
        loop
            invariant
                first == (acc.len() == 0),
                self.buf@ == buf,
                self.pos == start,
                *self == *old(self),
                jumps <= MAX_JUMPS + 1,
                out@ == join_labels(acc),
                walk_name(buf, start, 0) == continue_walk(
                    acc,
                    resume,
                    walk_name(buf, pos as int, jumps as int),
                ),
            ensures
                pos < BUF_SIZE,
                jumps <= MAX_JUMPS,
                buf[pos as int] == 0,
            decreases MAX_JUMPS + 1 - jumps, if pos <= BUF_SIZE {
                BUF_SIZE - pos
            } else {
                0
            },
        {
            if jumps > MAX_JUMPS {
                return Err(DnsError::CompressionLoop);
            }
            let len = self.get(pos)?;
            if len >= 0xC0 {
                let lo = self.get(pos + 1)?;
                if resume.is_none() {
                    resume = Some(pos + 2);
                }
                pos = ((len - 0xC0) as usize) * 256 + lo as usize;
                jumps = jumps + 1;
            } else if len == 0 {
                break;
            } else {
                let label = self.get_range(pos + 1, len as usize)?;
                if !first {
                    out.push(46u8);
                }
                let ghost before = out@;
                let mut i: usize = 0;
                while i < label.len()
                    invariant
                        0 <= i <= label@.len(),
                        out@ == before + fold_label(label@.subrange(0, i as int)),
                    decreases label@.len() - i,
                {
                    let b = label[i];
                    let folded = if b >= 65 && b <= 90 {
                        b + 32
                    } else {
                        b
                    };
                    out.push(folded);
                    i = i + 1;
                    assert(out@ =~= before + fold_label(label@.subrange(0, i as int)));
                }
                proof {
                    assert(label@.subrange(0, i as int) =~= label@);
                    let next = acc.push(label@);
                    assert(next.drop_last() =~= acc);
                    if acc.len() == 0 {
                        assert(out@ =~= join_labels(next));
                    }
                    let rest = walk_name(buf, pos + 1 + len, jumps as int);
                    if let Ok((ls, end)) = rest {
                        assert(seq![label@] + ls =~= seq![label@].add(ls));
                        assert(acc + (seq![label@] + ls) =~= next + ls);
                    }
                    acc = next;
                }
                pos = pos + 1 + len as usize;
                first = false;
            }
        }
        proof {
            assert(acc + seq![] =~= acc);
        }
        let text = text_of_bytes(out.as_slice());
        outstr.append(text.as_str());
        self.pos = match resume {
            Some(p) => p,
            None => pos + 1,
        };
        Ok(())
    }

    /// Encodes a dotted name at the position: each label as its length and
    /// its bytes, then a zero. No compression is produced. Fails with nothing
    /// written when a label is longer than 63 bytes, or when the name does
    /// not fit.
    pub fn write_qname(&mut self, qname: &str) -> (r: Result<(), DnsError>)
        ensures
            ({
                let ls = split_labels(qname.spec_bytes());
                if has_long_label(ls) {
                    r == Err::<(), DnsError>(DnsError::LabelTooLong) && *final(self) == *old(self)
                } else if old(self).pos + name_wire(ls).len() > BUF_SIZE {
                    r == Err::<(), DnsError>(DnsError::EndOfBuffer) && *final(self) == *old(self)
                } else {
                    r is Ok && final(self).pos == old(self).pos + name_wire(ls).len()
                        && final(self).buf@ == overwrite(
                        old(self).buf@,
                        old(self).pos as int,
                        name_wire(ls),
                    )
                }
            }),
    {
        let bytes = qname.as_bytes();
        let mut wire: Vec<u8> = Vec::new();
        let mut long = false;
        let mut st: usize = 0;
        let mut i: usize = 0;
        let ghost mut done: Seq<Seq<u8>> = seq![];
        assert(bytes@.subrange(0, 0) =~= seq![]);
        assert(split_labels(bytes@.subrange(0, 0)) =~= done.push(bytes@.subrange(0, 0)));
        while i < bytes.len()
            invariant
                st <= i <= bytes@.len(),
                split_labels(bytes@.subrange(0, i as int)) == done.push(
                    bytes@.subrange(st as int, i as int),
                ),
                wire@ == labels_wire(done),
                long == has_long_label(done),
            decreases bytes@.len() - i,
        {
            let ghost pre = bytes@.subrange(0, i as int);
            let ghost cur = bytes@.subrange(st as int, i as int);
            assert(bytes@.subrange(0, i + 1).drop_last() =~= pre);
            if bytes[i] == 46u8 {
                let len = i - st;
                if len > MAX_LABEL_LEN {
                    long = true;
                }
                wire.push(len as u8);
                wire.extend_from_slice(&bytes[st..i]);
                proof {
                    let next = done.push(cur);
                    assert(next.drop_last() =~= done);
                    if has_long_label(next) && !has_long_label(done) {
                        assert(cur.len() > MAX_LABEL_LEN);
                    }
                    if len > MAX_LABEL_LEN {
                        assert(next[done.len() as int] == cur);
                    }
                    if has_long_label(done) {
                        let k = choose|k: int| 0 <= k < done.len() && done[k].len() > MAX_LABEL_LEN;
                        assert(next[k] == done[k]);
                    }
                    done = next;
                    assert(bytes@.subrange(i + 1, i + 1) =~= seq![]);
                    assert(split_labels(bytes@.subrange(0, i + 1)) =~= done.push(
                        bytes@.subrange(i + 1, i + 1),
                    ));
                }
                st = i + 1;
            } else {
                proof {
                    assert(bytes@.subrange(st as int, i + 1) =~= cur.push(bytes@[i as int]));
                    assert(split_labels(bytes@.subrange(0, i + 1)) =~= done.push(
                        bytes@.subrange(st as int, i + 1),
                    ));
                }
            }
            i = i + 1;
        }
        let len = i - st;
        if len > MAX_LABEL_LEN {
            long = true;
        }
        wire.push(len as u8);
        wire.extend_from_slice(&bytes[st..i]);
        wire.push(0u8);
        let ghost last = bytes@.subrange(st as int, i as int);
        let ghost ls = done.push(last);
        proof {
            assert(bytes@.subrange(0, i as int) =~= bytes@);
            assert(ls.drop_last() =~= done);
            assert(wire@ =~= name_wire(ls));
            if has_long_label(ls) && !has_long_label(done) {
                assert(last.len() > MAX_LABEL_LEN);
            }
            if len > MAX_LABEL_LEN {
                assert(ls[done.len() as int] == last);
            }
            if has_long_label(done) {
                let k = choose|k: int| 0 <= k < done.len() && done[k].len() > MAX_LABEL_LEN;
                assert(ls[k] == done[k]);
            }
        }
        if long {
            return Err(DnsError::LabelTooLong);
        }
        self.write_bytes(wire.as_slice())
    }

    /// Overwrites the byte at `pos`, leaving the position as it is.
    pub fn set(&mut self, pos: usize, val: u8) -> (r: Result<(), DnsError>)
        ensures
            final(self).pos == old(self).pos,
            pos < BUF_SIZE ==> r is Ok && final(self).buf@ == old(self).buf@.update(pos as int, val),
            pos >= BUF_SIZE ==> r == Err::<(), DnsError>(DnsError::EndOfBuffer)
                && final(self).buf == old(self).buf,
    {
        if pos >= BUF_SIZE {
            return Err(DnsError::EndOfBuffer);
        }
        self.buf[pos] = val;
        Ok(())
    }

    /// Overwrites two bytes at `pos` with a big-endian 16-bit value, leaving
    /// the position as it is.
    pub fn set_u16(&mut self, pos: usize, val: u16) -> (r: Result<(), DnsError>)
        ensures
            final(self).pos == old(self).pos,
            pos + 2 <= BUF_SIZE ==> r is Ok && final(self).buf@ == overwrite(
                old(self).buf@,
                pos as int,
                be16(val),
            ),
            pos + 2 > BUF_SIZE ==> r == Err::<(), DnsError>(DnsError::EndOfBuffer)
                && final(self).buf == old(self).buf,
    {
        if pos >= BUF_SIZE - 1 {
            return Err(DnsError::EndOfBuffer);
        }
        proof {
            lemma_split16(val);
        }
        self.buf[pos] = (val >> 8) as u8;
        self.buf[pos + 1] = (val & 0xFF) as u8;
        assert(self.buf@ =~= overwrite(old(self).buf@, pos as int, be16(val)));
        Ok(())
    }
}

} // verus!
