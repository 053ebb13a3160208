use vstd::prelude::*;

use crate::byte_packet_buffer::{
    be16, be32, lemma_split16, lemma_split32, lemma_wrote_fails, lemma_wrote_then, u16_at, u32_at,
    wrote, BytePacketBuffer, BUF_SIZE,
};
use crate::dns_question::{name_piece, name_text, CLASS_IN};
use crate::error::DnsError;
use crate::name::walk_name;
use crate::query_type::QueryType;

verus! {

/// Bytes of the fields between a record's name and its data: type, class,
/// time to live and data length.
pub const RECORD_FIXED_LEN: usize = 10;

/// A resource record. Types without a variant of their own keep their code
/// and their data bytes as they came.
#[derive(Debug, Clone, PartialEq, Eq)]
pub enum DnsRecord {
    Unknown { domain: String, qtype: u16, data: Vec<u8>, ttl: u32 },
    A { domain: String, addr: [u8; 4], ttl: u32 },
    AAAA { domain: String, addr: [u8; 16], ttl: u32 },
}

/// What a record holds.
pub enum RecordView {
    Unknown { domain: Seq<char>, qtype: u16, data: Seq<u8>, ttl: u32 },
    A { domain: Seq<char>, addr: Seq<u8>, ttl: u32 },
    AAAA { domain: Seq<char>, addr: Seq<u8>, ttl: u32 },
}

impl View for DnsRecord {
    type V = RecordView;

    open spec fn view(&self) -> RecordView {
        match self {
            DnsRecord::Unknown { domain, qtype, data, ttl } => RecordView::Unknown {
                domain: domain@,
                qtype: *qtype,
                data: data@,
                ttl: *ttl,
            },
            DnsRecord::A { domain, addr, ttl } => RecordView::A {
                domain: domain@,
                addr: addr@,
                ttl: *ttl,
            },
            DnsRecord::AAAA { domain, addr, ttl } => RecordView::AAAA {
                domain: domain@,
                addr: addr@,
                ttl: *ttl,
            },
        }
    }
}

/// The fields between name and data.
pub open spec fn record_fixed(code: u16, ttl: u32, len: u16) -> Seq<u8> {
    be16(code) + be16(CLASS_IN) + be32(ttl) + be16(len)
}

/// The wire form of a record.
pub open spec fn record_piece(r: RecordView) -> Result<Seq<u8>, DnsError> {
    match r {
        RecordView::A { domain, addr, ttl } => match name_piece(domain) {
            Ok(w) => Ok(w + record_fixed(1, ttl, 4) + addr),
            Err(e) => Err(e),
        },
        RecordView::AAAA { domain, addr, ttl } => match name_piece(domain) {
            Ok(w) => Ok(w + record_fixed(28, ttl, 16) + addr),
            Err(e) => Err(e),
        },
        RecordView::Unknown { domain, qtype, data, ttl } => match name_piece(domain) {
            Ok(w) => Ok(w + record_fixed(qtype, ttl, data.len() as u16) + data),
            Err(e) => Err(e),
        },
    }
}

/// Decoding a record at `pos`: the record and the offset after it. An A
/// record must declare four bytes of data and an AAAA record sixteen; any
/// other type keeps the bytes its data length covers.
pub open spec fn parse_record(buf: Seq<u8>, pos: int) -> Result<(RecordView, int), DnsError> {
    match walk_name(buf, pos, 0) {
        Err(e) => Err(e),
        Ok((ls, end)) => if end + RECORD_FIXED_LEN > BUF_SIZE {
            Err(DnsError::EndOfBuffer)
        } else {
            let code = u16_at(buf, end);
            let ttl = u32_at(buf, end + 4);
            let len = u16_at(buf, end + 8);
            let p = end + RECORD_FIXED_LEN;
            if QueryType::spec_from_num(code) == QueryType::A {
                if len != 4 {
                    Err(DnsError::MalformedRecord)
                } else if p + 4 > BUF_SIZE {
                    Err(DnsError::EndOfBuffer)
                } else {
                    Ok(
                        (
                            RecordView::A {
                                domain: name_text(ls),
                                addr: buf.subrange(p, p + 4),
                                ttl,
                            },
                            p + 4,
                        ),
                    )
                }
            } else if QueryType::spec_from_num(code) == QueryType::AAAA {
                if len != 16 {
                    Err(DnsError::MalformedRecord)
                } else if p + 16 > BUF_SIZE {
                    Err(DnsError::EndOfBuffer)
                } else {
                    Ok(
                        (
                            RecordView::AAAA {
                                domain: name_text(ls),
                                addr: buf.subrange(p, p + 16),
                                ttl,
                            },
                            p + 16,
                        ),
                    )
                }
            } else if p + len > BUF_SIZE {
                Err(DnsError::EndOfBuffer)
            } else {
                Ok(
                    (
                        RecordView::Unknown {
                            domain: name_text(ls),
                            qtype: code,
                            data: buf.subrange(p, p + len),
                            ttl,
                        },
                        p + len,
                    ),
                )
            }
        },
    }
}

impl DnsRecord {
    /// Decodes a record at the buffer's position. The class is read and
    /// dropped.
    pub fn read(buffer: &mut BytePacketBuffer) -> (r: Result<DnsRecord, DnsError>)
        ensures
            final(buffer).buf == old(buffer).buf,
            match parse_record(old(buffer).buf@, old(buffer).pos as int) {
                Ok((v, end)) => r is Ok && r->Ok_0@ == v && final(buffer).pos == end,
                Err(e) => r == Err::<DnsRecord, DnsError>(e),
            },
    {
        let mut domain = String::new();
        buffer.read_qname(&mut domain)?;
        proof {
            if let Ok((ls, _)) = walk_name(old(buffer).buf@, old(buffer).pos as int, 0) {
                assert(domain@ =~= name_text(ls));
            }
        }
        let code = buffer.read_u16()?;
        let _ = buffer.read_u16()?;
        let ttl = buffer.read_u32()?;
        let data_len = buffer.read_u16()?;
        let start = buffer.pos();
        match QueryType::from_num(code) {
            QueryType::A => {
                if data_len != 4 {
                    return Err(DnsError::MalformedRecord);
                }
                let bytes = buffer.get_range(start, 4)?;
                let addr: [u8; 4] = [bytes[0], bytes[1], bytes[2], bytes[3]];
                assert(addr@ =~= bytes@);
                buffer.seek(start + 4);
                let rec = DnsRecord::A { domain, addr, ttl };
                assert(rec@ == RecordView::A { domain: domain@, addr: addr@, ttl });
                Ok(rec)
            },
            QueryType::AAAA => {
                if data_len != 16 {
                    return Err(DnsError::MalformedRecord);
                }
                let bytes = buffer.get_range(start, 16)?;
                let addr: [u8; 16] = [
                    bytes[0],
                    bytes[1],
                    bytes[2],
                    bytes[3],
                    bytes[4],
                    bytes[5],
                    bytes[6],
                    bytes[7],
                    bytes[8],
                    bytes[9],
                    bytes[10],
                    bytes[11],
                    bytes[12],
                    bytes[13],
                    bytes[14],
                    bytes[15],
                ];
                assert(addr@ =~= bytes@);
                buffer.seek(start + 16);
                let rec = DnsRecord::AAAA { domain, addr, ttl };
                assert(rec@ == RecordView::AAAA { domain: domain@, addr: addr@, ttl });
                Ok(rec)
            },
            _ => {
                let bytes = buffer.get_range(start, data_len as usize)?;
                let mut data: Vec<u8> = Vec::new();
                data.extend_from_slice(bytes);
                assert(data@ =~= bytes@);
                buffer.seek(start + data_len as usize);
                let rec = DnsRecord::Unknown { domain, qtype: code, data, ttl };
                assert(rec@ == RecordView::Unknown { domain: domain@, qtype: code, data: data@, ttl });
                Ok(rec)
            },
        }
    }

    /// Writes the fields between name and data.
    fn write_fixed(buffer: &mut BytePacketBuffer, code: u16, ttl: u32, len: u16) -> (r: Result<
        (),
        DnsError,
    >)
        ensures
            wrote(*old(buffer), *final(buffer), r, Ok(record_fixed(code, ttl, len))),
    {
        proof {
            lemma_split16(code);
            lemma_split16(CLASS_IN);
            lemma_split32(ttl);
            lemma_split16(len);
        }
        let bytes: [u8; 10] = [
            (code >> 8) as u8,
            (code & 0xFF) as u8,
            (CLASS_IN >> 8) as u8,
            (CLASS_IN & 0xFF) as u8,
            ((ttl >> 24) & 0xFF) as u8,
            ((ttl >> 16) & 0xFF) as u8,
            ((ttl >> 8) & 0xFF) as u8,
            (ttl & 0xFF) as u8,
            (len >> 8) as u8,
            (len & 0xFF) as u8,
        ];
        assert(bytes@ =~= record_fixed(code, ttl, len));
        buffer.write_bytes(&bytes)
    }

    /// Encodes the record at the buffer's position: name, type, Internet
    /// class, time to live, data length and data.
    pub fn write(&self, buffer: &mut BytePacketBuffer) -> (r: Result<(), DnsError>)
        ensures
            wrote(*old(buffer), *final(buffer), r, record_piece(self@)),
    {
        let ghost b0 = *buffer;
        let (domain, code, ttl) = match self {
            DnsRecord::A { domain, ttl, .. } => (domain, 1u16, *ttl),
            DnsRecord::AAAA { domain, ttl, .. } => (domain, 28u16, *ttl),
            DnsRecord::Unknown { domain, qtype, ttl, .. } => (domain, *qtype, *ttl),
        };
        buffer.write_qname(domain.as_str())?;
        let ghost b1 = *buffer;
        let ghost w = name_piece(domain@)->Ok_0;
        let payload: &[u8] = match self {
            DnsRecord::A { addr, .. } => addr.as_slice(),
            DnsRecord::AAAA { addr, .. } => addr.as_slice(),
            DnsRecord::Unknown { data, .. } => data.as_slice(),
        };
        if payload.len() > 0xFFFF {
            return Err(DnsError::EndOfBuffer);
        }
        let len = payload.len() as u16;
        let r = Self::write_fixed(buffer, code, ttl, len);
        let ghost b2 = *buffer;
        proof {
            lemma_wrote_then(b0, b1, b2, Ok(()), r, w, Ok(record_fixed(code, ttl, len)));
        }
        if r.is_err() {
            proof {
                lemma_wrote_fails(b0, b2, r, w + record_fixed(code, ttl, len), payload@);
            }
            return r;
        }
        let r2 = buffer.write_bytes(payload);
        proof {
            lemma_wrote_then(b0, b2, *buffer, r, r2, w + record_fixed(code, ttl, len), Ok(payload@));
        }
        r2
    }
}

} // verus!
