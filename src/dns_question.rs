use vstd::prelude::*;
use vstd::utf8::encode_utf8;

use crate::byte_packet_buffer::{
    be16, lemma_wrote_fails, lemma_wrote_then, u16_at, wrote, BytePacketBuffer, BUF_SIZE,
};
use crate::error::DnsError;
use crate::name::{has_long_label, join_labels, bytes_text, name_wire, split_labels, walk_name};
use crate::query_type::QueryType;

verus! {

/// The class written for every question and record: Internet.
pub const CLASS_IN: u16 = 1;

/// A question: a name and the type asked for.
#[derive(Debug, Clone, PartialEq, Eq)]
pub struct DnsQuestion {
    pub name: String,
    pub qtype: QueryType,
}

/// What a question holds.
pub struct QuestionView {
    pub name: Seq<char>,
    pub qtype: QueryType,
}

impl View for DnsQuestion {
    type V = QuestionView;

    open spec fn view(&self) -> QuestionView {
        QuestionView { name: self.name@, qtype: self.qtype }
    }
}

/// The wire form of a dotted name, or `LabelTooLong`.
pub open spec fn name_piece(name: Seq<char>) -> Result<Seq<u8>, DnsError> {
    let ls = split_labels(encode_utf8(name));
    if has_long_label(ls) {
        Err(DnsError::LabelTooLong)
    } else {
        Ok(name_wire(ls))
    }
}

/// The name a walk found, as text.
pub open spec fn name_text(ls: Seq<Seq<u8>>) -> Seq<char> {
    bytes_text(join_labels(ls))
}

/// The wire form of a question.
pub open spec fn question_piece(q: QuestionView) -> Result<Seq<u8>, DnsError> {
    match name_piece(q.name) {
        Ok(w) => Ok(w + be16(q.qtype.spec_to_num()) + be16(CLASS_IN)),
        Err(e) => Err(e),
    }
}

/// Decoding a question at `pos`: its name, its type, and the offset after it.
pub open spec fn parse_question(buf: Seq<u8>, pos: int) -> Result<
    (Seq<char>, QueryType, int),
    DnsError,
> {
    match walk_name(buf, pos, 0) {
        Err(e) => Err(e),
        Ok((ls, end)) => if end + 4 > BUF_SIZE {
            Err(DnsError::EndOfBuffer)
        } else {
            Ok((name_text(ls), QueryType::spec_from_num(u16_at(buf, end)), end + 4))
        },
    }
}

impl DnsQuestion {
    pub fn new(name: String, qtype: QueryType) -> (r: DnsQuestion)
        ensures
            r.name == name,
            r.qtype == qtype,
    {
        DnsQuestion { name, qtype }
    }

    /// Decodes a question at the buffer's position: the name is appended to
    /// `self.name`, the type replaces `self.qtype`, the class is read and
    /// dropped.
    pub fn read(&mut self, buffer: &mut BytePacketBuffer) -> (r: Result<(), DnsError>)
        ensures
            final(buffer).buf == old(buffer).buf,
            match parse_question(old(buffer).buf@, old(buffer).pos as int) {
                Ok((text, t, end)) => r is Ok && final(self).name@ == old(self).name@ + text
                    && final(self).qtype == t && final(buffer).pos == end,
                Err(e) => r == Err::<(), DnsError>(e),
            },
    {
        buffer.read_qname(&mut self.name)?;
        self.qtype = QueryType::from_num(buffer.read_u16()?);
        let _ = buffer.read_u16()?;
        Ok(())
    }

    /// Encodes the question at the buffer's position: name, type code, and
    /// the Internet class.
    pub fn write(&self, buffer: &mut BytePacketBuffer) -> (r: Result<(), DnsError>)
        ensures
            wrote(*old(buffer), *final(buffer), r, question_piece(self@)),
    {
        let ghost b0 = *buffer;
        buffer.write_qname(self.name.as_str())?;
        let ghost b1 = *buffer;
        let ghost w = name_wire(split_labels(encode_utf8(self.name@)));
        let r = buffer.write_u16(self.qtype.to_num());
        let ghost b2 = *buffer;
        if r.is_err() {
            proof {
                lemma_wrote_then(b0, b1, b2, Ok(()), r, w, Ok(be16(self.qtype.spec_to_num())));
                lemma_wrote_fails(b0, b2, r, w + be16(self.qtype.spec_to_num()), be16(CLASS_IN));
            }
            return r;
        }
        proof {
            lemma_wrote_then(b0, b1, b2, Ok(()), r, w, Ok(be16(self.qtype.spec_to_num())));
        }
        let r2 = buffer.write_u16(CLASS_IN);
        proof {
            lemma_wrote_then(
                b0,
                b2,
                *buffer,
                r,
                r2,
                w + be16(self.qtype.spec_to_num()),
                Ok(be16(CLASS_IN)),
            );
        }
        r2
    }
}

} // verus!
