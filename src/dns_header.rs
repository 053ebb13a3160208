use vstd::prelude::*;

use crate::byte_packet_buffer::{
    be16, lemma_split16, overwrite, u16_at, BytePacketBuffer, BUF_SIZE,
};
use crate::error::DnsError;

verus! {

/// Bytes of a header on the wire.
pub const HEADER_LEN: usize = 12;

/// The fixed twelve-byte header of a message.
#[derive(Debug, Clone, Copy, PartialEq, Eq, Structural)]
pub struct DnsHeader {
    pub id: u16,
    pub recursion_desired: bool,
    pub truncated_message: bool,
    pub authoritative_answer: bool,
    pub opcode: u8,
    pub response: bool,
    pub rescode: u8,
    pub checking_disabled: bool,
    pub authed_data: bool,
    pub z: bool,
    pub recursion_available: bool,
    pub questions: u16,
    pub answers: u16,
    pub authoritative_entries: u16,
    pub resource_entries: u16,
}

/// One flag bit: `bit` when set, else zero.
pub open spec fn flag(set: bool, bit: u8) -> u8 {
    if set {
        bit
    } else {
        0
    }
}

/// The first flag byte: response, opcode, authoritative, truncated,
/// recursion desired, from the high bit down.
pub open spec fn flags_hi(h: DnsHeader) -> u8 {
    flag(h.response, 0x80) | ((h.opcode & 0x0F) << 3u8) | flag(h.authoritative_answer, 4) | flag(
        h.truncated_message,
        2,
    ) | flag(h.recursion_desired, 1)
}

/// The second flag byte: recursion available, the three reserved bits,
/// response code, from the high bit down.
pub open spec fn flags_lo(h: DnsHeader) -> u8 {
    flag(h.recursion_available, 0x80) | flag(h.z, 0x40) | flag(h.authed_data, 0x20) | flag(
        h.checking_disabled,
        0x10,
    ) | (h.rescode & 0x0F)
}

/// The wire form of a header.
pub open spec fn header_wire(h: DnsHeader) -> Seq<u8> {
    be16(h.id) + seq![flags_hi(h), flags_lo(h)] + be16(h.questions) + be16(h.answers) + be16(
        h.authoritative_entries,
    ) + be16(h.resource_entries)
}

/// The header held by the twelve bytes of `s` from `at` on.
pub open spec fn parse_header(s: Seq<u8>, at: int) -> DnsHeader {
    let a = s[at + 2];
    let b = s[at + 3];
    DnsHeader {
        id: u16_at(s, at),
        recursion_desired: a & 1 != 0,
        truncated_message: a & 2 != 0,
        authoritative_answer: a & 4 != 0,
        opcode: (a >> 3u8) & 0x0F,
        response: a & 0x80 != 0,
        rescode: b & 0x0F,
        checking_disabled: b & 0x10 != 0,
        authed_data: b & 0x20 != 0,
        z: b & 0x40 != 0,
        recursion_available: b & 0x80 != 0,
        questions: u16_at(s, at + 4),
        answers: u16_at(s, at + 6),
        authoritative_entries: u16_at(s, at + 8),
        resource_entries: u16_at(s, at + 10),
    }
}

impl DnsHeader {
    /// The header with every field zero or false.
    pub open spec fn new_spec() -> DnsHeader {
        DnsHeader {
            id: 0,
            recursion_desired: false,
            truncated_message: false,
            authoritative_answer: false,
            opcode: 0,
            response: false,
            rescode: 0,
            checking_disabled: false,
            authed_data: false,
            z: false,
            recursion_available: false,
            questions: 0,
            answers: 0,
            authoritative_entries: 0,
            resource_entries: 0,
        }
    }

    /// A header with every field zero or false.
    pub fn new() -> (r: DnsHeader)
        ensures
            r == DnsHeader::new_spec(),
    {
        DnsHeader {
            id: 0,
            recursion_desired: false,
            truncated_message: false,
            authoritative_answer: false,
            opcode: 0,
            response: false,
            rescode: 0,
            checking_disabled: false,
            authed_data: false,
            z: false,
            recursion_available: false,
            questions: 0,
            answers: 0,
            authoritative_entries: 0,
            resource_entries: 0,
        }
    }

    /// Whether the four-bit fields fit in four bits.
    pub open spec fn well_formed(self) -> bool {
        self.opcode < 16 && self.rescode < 16
    }

    /// Decodes a header at the buffer's position into `self`.
    pub fn read(&mut self, buffer: &mut BytePacketBuffer) -> (r: Result<(), DnsError>)
        ensures
            final(buffer).buf == old(buffer).buf,
            old(buffer).pos + HEADER_LEN <= BUF_SIZE ==> r is Ok && *final(self) == parse_header(
                old(buffer).buf@,
                old(buffer).pos as int,
            ) && final(buffer).pos == old(buffer).pos + HEADER_LEN,
            old(buffer).pos + HEADER_LEN > BUF_SIZE ==> r == Err::<(), DnsError>(
                DnsError::EndOfBuffer,
            ),
    {
        self.id = buffer.read_u16()?;
        let a = buffer.read()?;
        let b = buffer.read()?;
        self.recursion_desired = a & 1 != 0;
        self.truncated_message = a & 2 != 0;
        self.authoritative_answer = a & 4 != 0;
        self.opcode = (a >> 3) & 0x0F;
        self.response = a & 0x80 != 0;
        self.rescode = b & 0x0F;
        self.checking_disabled = b & 0x10 != 0;
        self.authed_data = b & 0x20 != 0;
        self.z = b & 0x40 != 0;
        self.recursion_available = b & 0x80 != 0;
        self.questions = buffer.read_u16()?;
        self.answers = buffer.read_u16()?;
        self.authoritative_entries = buffer.read_u16()?;
        self.resource_entries = buffer.read_u16()?;
        Ok(())
    }

    /// Encodes the header at the buffer's position, or fails with nothing
    /// written when it does not fit.
    pub fn write(&self, buffer: &mut BytePacketBuffer) -> (r: Result<(), DnsError>)
        ensures
            old(buffer).pos + HEADER_LEN <= BUF_SIZE ==> r is Ok && final(buffer).pos == old(
                buffer,
            ).pos + HEADER_LEN && final(buffer).buf@ == overwrite(
                old(buffer).buf@,
                old(buffer).pos as int,
                header_wire(*self),
            ),
            old(buffer).pos + HEADER_LEN > BUF_SIZE ==> r == Err::<(), DnsError>(
                DnsError::EndOfBuffer,
            ) && *final(buffer) == *old(buffer),
    {
        let hi: u8 = (if self.response {
            0x80u8
        } else {
            0
        }) | ((self.opcode & 0x0F) << 3) | (if self.authoritative_answer {
            4u8
        } else {
            0
        }) | (if self.truncated_message {
            2u8
        } else {
            0
        }) | (if self.recursion_desired {
            1u8
        } else {
            0
        });
        let lo: u8 = (if self.recursion_available {
            0x80u8
        } else {
            0
        }) | (if self.z {
            0x40u8
        } else {
            0
        }) | (if self.authed_data {
            0x20u8
        } else {
            0
        }) | (if self.checking_disabled {
            0x10u8
        } else {
            0
        }) | (self.rescode & 0x0F);
        proof {
            lemma_split16(self.id);
            lemma_split16(self.questions);
            lemma_split16(self.answers);
            lemma_split16(self.authoritative_entries);
            lemma_split16(self.resource_entries);
        }
        let bytes: [u8; 12] = [
            (self.id >> 8) as u8,
            (self.id & 0xFF) as u8,
            hi,
            lo,
            (self.questions >> 8) as u8,
            (self.questions & 0xFF) as u8,
            (self.answers >> 8) as u8,
            (self.answers & 0xFF) as u8,
            (self.authoritative_entries >> 8) as u8,
            (self.authoritative_entries & 0xFF) as u8,
            (self.resource_entries >> 8) as u8,
            (self.resource_entries & 0xFF) as u8,
        ];
        assert(bytes@ =~= header_wire(*self));
        buffer.write_bytes(&bytes)
    }
}

} // verus!
