use vstd::prelude::*;

use crate::byte_packet_buffer::{
    lemma_overwrite_twice, overwrite, wrote, BytePacketBuffer, BUF_SIZE,
};
use crate::dns_header::{parse_header, header_wire, DnsHeader, HEADER_LEN};
use crate::dns_question::{parse_question, question_piece, DnsQuestion, QuestionView};
use crate::dns_record::{parse_record, record_piece, DnsRecord, RecordView};
use crate::error::DnsError;
use crate::query_type::QueryType;

verus! {

/// A message: a header and its four sections, in wire order.
#[derive(Debug, Clone, PartialEq, Eq)]
pub struct DnsPacket {
    pub header: DnsHeader,
    pub questions: Vec<DnsQuestion>,
    pub answers: Vec<DnsRecord>,
    pub authorities: Vec<DnsRecord>,
    pub resources: Vec<DnsRecord>,
}

/// What a message holds.
pub struct PacketView {
    pub header: DnsHeader,
    pub questions: Seq<QuestionView>,
    pub answers: Seq<RecordView>,
    pub authorities: Seq<RecordView>,
    pub resources: Seq<RecordView>,
}

impl View for DnsPacket {
    type V = PacketView;

    open spec fn view(&self) -> PacketView {
        PacketView {
            header: self.header,
            questions: self.questions@.map_values(|q: DnsQuestion| q@),
            answers: self.answers@.map_values(|r: DnsRecord| r@),
            authorities: self.authorities@.map_values(|r: DnsRecord| r@),
            resources: self.resources@.map_values(|r: DnsRecord| r@),
        }
    }
}

/// Decoding `n` questions from `pos` on: them, and the offset after them.
pub open spec fn parse_questions(buf: Seq<u8>, pos: int, n: nat) -> Result<
    (Seq<QuestionView>, int),
    DnsError,
>
    decreases n,
{
    if n == 0 {
        Ok((seq![], pos))
    } else {
        match parse_questions(buf, pos, (n - 1) as nat) {
            Err(e) => Err(e),
            Ok((qs, p)) => match parse_question(buf, p) {
                Err(e) => Err(e),
                Ok((name, t, end)) => Ok((qs.push(QuestionView { name, qtype: t }), end)),
            },
        }
    }
}

/// Decoding `n` records from `pos` on: them, and the offset after them.
pub open spec fn parse_records(buf: Seq<u8>, pos: int, n: nat) -> Result<
    (Seq<RecordView>, int),
    DnsError,
>
    decreases n,
{
    if n == 0 {
        Ok((seq![], pos))
    } else {
        match parse_records(buf, pos, (n - 1) as nat) {
            Err(e) => Err(e),
            Ok((rs, p)) => match parse_record(buf, p) {
                Err(e) => Err(e),
                Ok((r, end)) => Ok((rs.push(r), end)),
            },
        }
    }
}

/// Decoding a message at `pos`: the header, then as many questions,
/// answers, authority and additional records as its counts say.
pub open spec fn parse_packet(buf: Seq<u8>, pos: int) -> Result<(PacketView, int), DnsError> {
    if pos + HEADER_LEN > BUF_SIZE {
        Err(DnsError::EndOfBuffer)
    } else {
        let h = parse_header(buf, pos);
        match parse_questions(buf, pos + HEADER_LEN, h.questions as nat) {
            Err(e) => Err(e),
            Ok((qs, p1)) => match parse_records(buf, p1, h.answers as nat) {
                Err(e) => Err(e),
                Ok((ans, p2)) => match parse_records(buf, p2, h.authoritative_entries as nat) {
                    Err(e) => Err(e),
                    Ok((auth, p3)) => match parse_records(buf, p3, h.resource_entries as nat) {
                        Err(e) => Err(e),
                        Ok((res, p4)) => Ok(
                            (
                                PacketView {
                                    header: h,
                                    questions: qs,
                                    answers: ans,
                                    authorities: auth,
                                    resources: res,
                                },
                                p4,
                            ),
                        ),
                    },
                },
            },
        }
    }
}

/// Writing `pieces` one after another from `pos` on: all their bytes, or
/// the first error, where a piece that does not fit gives `EndOfBuffer`.
pub open spec fn emit(pos: int, pieces: Seq<Result<Seq<u8>, DnsError>>) -> Result<
    Seq<u8>,
    DnsError,
>
    decreases pieces.len(),
{
    if pieces.len() == 0 {
        Ok(seq![])
    } else {
        match emit(pos, pieces.drop_last()) {
            Err(e) => Err(e),
            Ok(w) => match pieces.last() {
                Err(e) => Err(e),
                Ok(b) => if pos + w.len() + b.len() > BUF_SIZE {
                    Err(DnsError::EndOfBuffer)
                } else {
                    Ok(w + b)
                },
            },
        }
    }
}

/// Whether `after` and `r` show `res` written into `s0` at `p0`.
pub open spec fn emitted(
    p0: int,
    s0: Seq<u8>,
    after: BytePacketBuffer,
    r: Result<(), DnsError>,
    res: Result<Seq<u8>, DnsError>,
) -> bool {
    match res {
        Ok(w) => r is Ok && after.pos == p0 + w.len() && after.buf@ == overwrite(s0, p0, w),
        Err(e) => r == Err::<(), DnsError>(e),
    }
}

/// The header as written: its counts replaced by the sections' lengths.
pub open spec fn counted_header(p: PacketView) -> DnsHeader {
    DnsHeader {
        questions: p.questions.len() as u16,
        answers: p.answers.len() as u16,
        authoritative_entries: p.authorities.len() as u16,
        resource_entries: p.resources.len() as u16,
        ..p.header
    }
}

/// Whether every section's length fits a 16-bit count.
pub open spec fn counts_fit(p: PacketView) -> bool {
    p.questions.len() <= u16::MAX && p.answers.len() <= u16::MAX && p.authorities.len()
        <= u16::MAX && p.resources.len() <= u16::MAX
}

/// The items of a message as written, in order.
pub open spec fn packet_pieces(p: PacketView) -> Seq<Result<Seq<u8>, DnsError>> {
    seq![Ok(header_wire(counted_header(p)))] + p.questions.map_values(
        |q: QuestionView| question_piece(q),
    ) + p.answers.map_values(|r: RecordView| record_piece(r)) + p.authorities.map_values(
        |r: RecordView| record_piece(r),
    ) + p.resources.map_values(|r: RecordView| record_piece(r))
}

/// Decoding `n` questions that succeeds gives `n` of them.
pub proof fn lemma_parse_questions_len(buf: Seq<u8>, pos: int, n: nat)
    requires
        parse_questions(buf, pos, n) is Ok,
    ensures
        parse_questions(buf, pos, n)->Ok_0.0.len() == n,
    decreases n,
{
    if n > 0 {
        lemma_parse_questions_len(buf, pos, (n - 1) as nat);
    }
}

/// Decoding `n` records that succeeds gives `n` of them.
pub proof fn lemma_parse_records_len(buf: Seq<u8>, pos: int, n: nat)
    requires
        parse_records(buf, pos, n) is Ok,
    ensures
        parse_records(buf, pos, n)->Ok_0.0.len() == n,
    decreases n,
{
    if n > 0 {
        lemma_parse_records_len(buf, pos, (n - 1) as nat);
    }
}

/// A decoded message's counts are the lengths of its sections.
pub proof fn lemma_decoded_counts(buf: Seq<u8>, pos: int)
    requires
        parse_packet(buf, pos) is Ok,
    ensures
        ({
            let p = parse_packet(buf, pos)->Ok_0.0;
            &&& p.questions.len() == p.header.questions
            &&& p.answers.len() == p.header.answers
            &&& p.authorities.len() == p.header.authoritative_entries
            &&& p.resources.len() == p.header.resource_entries
        }),
{
    let h = parse_header(buf, pos);
    let (qs, p1) = parse_questions(buf, pos + HEADER_LEN, h.questions as nat)->Ok_0;
    lemma_parse_questions_len(buf, pos + HEADER_LEN, h.questions as nat);
    let (ans, p2) = parse_records(buf, p1, h.answers as nat)->Ok_0;
    lemma_parse_records_len(buf, p1, h.answers as nat);
    let (auth, p3) = parse_records(buf, p2, h.authoritative_entries as nat)->Ok_0;
    lemma_parse_records_len(buf, p2, h.authoritative_entries as nat);
    lemma_parse_records_len(buf, p3, h.resource_entries as nat);
}

/// Writing one more piece after `pieces` were written.
pub proof fn lemma_emit_push(
    p0: int,
    s0: Seq<u8>,
    b1: BytePacketBuffer,
    b2: BytePacketBuffer,
    r: Result<(), DnsError>,
    pieces: Seq<Result<Seq<u8>, DnsError>>,
    piece: Result<Seq<u8>, DnsError>,
)
    requires
        0 <= p0,
        s0.len() == BUF_SIZE,
        emit(p0, pieces) is Ok,
        emitted(p0, s0, b1, Ok(()), emit(p0, pieces)),
        wrote(b1, b2, r, piece),
    ensures
        emitted(p0, s0, b2, r, emit(p0, pieces.push(piece))),
{
    assert(pieces.push(piece).drop_last() =~= pieces);
    let w = emit(p0, pieces)->Ok_0;
    if let Ok(b) = piece {
        if p0 + w.len() + b.len() <= BUF_SIZE {
            lemma_overwrite_twice(s0, p0, w, b);
        }
    }
}

/// Once a piece fails, writing more pieces fails the same way.
pub proof fn lemma_emit_err(p0: int, pieces: Seq<Result<Seq<u8>, DnsError>>, more: Seq<Result<Seq<u8>, DnsError>>)
    requires
        emit(p0, pieces) is Err,
    ensures
        emit(p0, pieces + more) == emit(p0, pieces),
    decreases more.len(),
{
    if more.len() == 0 {
        assert(pieces + more =~= pieces);
    } else {
        lemma_emit_err(p0, pieces, more.drop_last());
        assert((pieces + more).drop_last() =~= pieces + more.drop_last());
    }
}

/// Writes the records in order after `pre` was written.
fn write_records(
    buffer: &mut BytePacketBuffer,
    recs: &Vec<DnsRecord>,
    Ghost(p0): Ghost<int>,
    Ghost(s0): Ghost<Seq<u8>>,
    Ghost(pre): Ghost<Seq<Result<Seq<u8>, DnsError>>>,
) -> (r: Result<(), DnsError>)
    requires
        0 <= p0,
        s0.len() == BUF_SIZE,
        emit(p0, pre) is Ok,
        emitted(p0, s0, *old(buffer), Ok(()), emit(p0, pre)),
    ensures
        emitted(
            p0,
            s0,
            *final(buffer),
            r,
            emit(p0, pre + recs@.map_values(|x: DnsRecord| record_piece(x@))),
        ),
{
    let ghost all = recs@.map_values(|x: DnsRecord| record_piece(x@));
    let mut i: usize = 0;
    while i < recs.len()
        invariant
            0 <= p0,
            s0.len() == BUF_SIZE,
            i <= recs@.len(),
            all == recs@.map_values(|x: DnsRecord| record_piece(x@)),
            emit(p0, pre + all.subrange(0, i as int)) is Ok,
            emitted(p0, s0, *buffer, Ok(()), emit(p0, pre + all.subrange(0, i as int))),
        decreases recs@.len() - i,
    {
        let ghost b1 = *buffer;
        let r = recs[i].write(buffer);
        proof {
            let done = pre + all.subrange(0, i as int);
            lemma_emit_push(p0, s0, b1, *buffer, r, done, all[i as int]);
            assert(done.push(all[i as int]) =~= pre + all.subrange(0, i + 1));
            if r.is_err() {
                lemma_emit_err(p0, pre + all.subrange(0, i + 1), all.subrange(i + 1, all.len() as int));
                assert(pre + all.subrange(0, i + 1) + all.subrange(i + 1, all.len() as int) =~= pre + all);
            }
        }
        if r.is_err() {
            return r;
        }
        i = i + 1;
    }
    assert(all.subrange(0, i as int) =~= all);
    Ok(())
}

/// Writes the questions in order after `pre` was written.
fn write_questions(
    buffer: &mut BytePacketBuffer,
    qs: &Vec<DnsQuestion>,
    Ghost(p0): Ghost<int>,
    Ghost(s0): Ghost<Seq<u8>>,
    Ghost(pre): Ghost<Seq<Result<Seq<u8>, DnsError>>>,
) -> (r: Result<(), DnsError>)
    requires
        0 <= p0,
        s0.len() == BUF_SIZE,
        emit(p0, pre) is Ok,
        emitted(p0, s0, *old(buffer), Ok(()), emit(p0, pre)),
    ensures
        emitted(
            p0,
            s0,
            *final(buffer),
            r,
            emit(p0, pre + qs@.map_values(|x: DnsQuestion| question_piece(x@))),
        ),
{
    let ghost all = qs@.map_values(|x: DnsQuestion| question_piece(x@));
    let mut i: usize = 0;
    while i < qs.len()
        invariant
            0 <= p0,
            s0.len() == BUF_SIZE,
            i <= qs@.len(),
            all == qs@.map_values(|x: DnsQuestion| question_piece(x@)),
            emit(p0, pre + all.subrange(0, i as int)) is Ok,
            emitted(p0, s0, *buffer, Ok(()), emit(p0, pre + all.subrange(0, i as int))),
        decreases qs@.len() - i,
    {
        let ghost b1 = *buffer;
        let r = qs[i].write(buffer);
        proof {
            let done = pre + all.subrange(0, i as int);
            lemma_emit_push(p0, s0, b1, *buffer, r, done, all[i as int]);
            assert(done.push(all[i as int]) =~= pre + all.subrange(0, i + 1));
            if r.is_err() {
                lemma_emit_err(p0, pre + all.subrange(0, i + 1), all.subrange(i + 1, all.len() as int));
                assert(pre + all.subrange(0, i + 1) + all.subrange(i + 1, all.len() as int) =~= pre + all);
            }
        }
        if r.is_err() {
            return r;
        }
        i = i + 1;
    }
    assert(all.subrange(0, i as int) =~= all);
    Ok(())
}

/// Reads `n` questions.
fn read_questions(buffer: &mut BytePacketBuffer, n: u16) -> (r: Result<Vec<DnsQuestion>, DnsError>)
    ensures
        final(buffer).buf == old(buffer).buf,
        match parse_questions(old(buffer).buf@, old(buffer).pos as int, n as nat) {
            Ok((qs, end)) => r is Ok && r->Ok_0@.map_values(|q: DnsQuestion| q@) == qs
                && final(buffer).pos == end,
            Err(e) => r == Err::<Vec<DnsQuestion>, DnsError>(e),
        },
{
    let ghost buf = buffer.buf@;
    let ghost arr = buffer.buf;
    let ghost p0 = buffer.pos as int;
    let mut out: Vec<DnsQuestion> = Vec::new();
    let mut i: u16 = 0;
    assert(out@.map_values(|q: DnsQuestion| q@) =~= seq![]);
    while i < n
        invariant
            i <= n,
            buffer.buf@ == buf,
            buffer.buf == arr,
            arr == old(buffer).buf,
            p0 == old(buffer).pos,
            parse_questions(buf, p0, i as nat) == Ok::<(Seq<QuestionView>, int), DnsError>(
                (out@.map_values(|q: DnsQuestion| q@), buffer.pos as int),
            ),
        decreases n - i,
    {
        let ghost before = out@.map_values(|q: DnsQuestion| q@);
        let mut q = DnsQuestion::new(String::new(), QueryType::Unknown(0));
        let r = q.read(buffer);
        proof {
            if r.is_err() {
                lemma_later_errs_questions(buf, p0, (i + 1) as nat, n as nat);
            }
        }
        if let Err(e) = r {
            return Err(e);
        }
        proof {
            assert(q.name@ =~= Seq::<char>::empty() + q.name@);
        }
        out.push(q);
        assert(out@.map_values(|q: DnsQuestion| q@) =~= before.push(q@));
        i = i + 1;
    }
    Ok(out)
}

/// Reads `n` records.
fn read_records(buffer: &mut BytePacketBuffer, n: u16) -> (r: Result<Vec<DnsRecord>, DnsError>)
    ensures
        final(buffer).buf == old(buffer).buf,
        match parse_records(old(buffer).buf@, old(buffer).pos as int, n as nat) {
            Ok((rs, end)) => r is Ok && r->Ok_0@.map_values(|x: DnsRecord| x@) == rs
                && final(buffer).pos == end,
            Err(e) => r == Err::<Vec<DnsRecord>, DnsError>(e),
        },
{
    let ghost buf = buffer.buf@;
    let ghost arr = buffer.buf;
    let ghost p0 = buffer.pos as int;
    let mut out: Vec<DnsRecord> = Vec::new();
    let mut i: u16 = 0;
    assert(out@.map_values(|x: DnsRecord| x@) =~= seq![]);
    while i < n
        invariant
            i <= n,
            buffer.buf@ == buf,
            buffer.buf == arr,
            arr == old(buffer).buf,
            p0 == old(buffer).pos,
            parse_records(buf, p0, i as nat) == Ok::<(Seq<RecordView>, int), DnsError>(
                (out@.map_values(|x: DnsRecord| x@), buffer.pos as int),
            ),
        decreases n - i,
    {
        let ghost before = out@.map_values(|x: DnsRecord| x@);
        let r = DnsRecord::read(buffer);
        proof {
            if r.is_err() {
                lemma_later_errs_records(buf, p0, (i + 1) as nat, n as nat);
            }
        }
        let rec = match r {
            Ok(rec) => rec,
            Err(e) => {
                return Err(e);
            },
        };
        out.push(rec);
        assert(out@.map_values(|x: DnsRecord| x@) =~= before.push(rec@));
        i = i + 1;
    }
    Ok(out)
}

/// Once decoding the first `i` questions fails, decoding more fails the
/// same way.
proof fn lemma_later_errs_questions(buf: Seq<u8>, pos: int, i: nat, n: nat)
    requires
        i <= n,
        parse_questions(buf, pos, i) is Err,
    ensures
        parse_questions(buf, pos, n) == parse_questions(buf, pos, i),
    decreases n - i,
{
    if i < n {
        lemma_later_errs_questions(buf, pos, i, (n - 1) as nat);
    }
}

/// Once decoding the first `i` records fails, decoding more fails the same
/// way.
proof fn lemma_later_errs_records(buf: Seq<u8>, pos: int, i: nat, n: nat)
    requires
        i <= n,
        parse_records(buf, pos, i) is Err,
    ensures
        parse_records(buf, pos, n) == parse_records(buf, pos, i),
    decreases n - i,
{
    if i < n {
        lemma_later_errs_records(buf, pos, i, (n - 1) as nat);
    }
}

impl DnsPacket {
    /// An empty message with a zeroed header.
    pub fn new() -> (r: DnsPacket)
        ensures
            r.header == DnsHeader::new_spec(),
            r.questions@.len() == 0,
            r.answers@.len() == 0,
            r.authorities@.len() == 0,
            r.resources@.len() == 0,
    {
        DnsPacket {
            header: DnsHeader::new(),
            questions: Vec::new(),
            answers: Vec::new(),
            authorities: Vec::new(),
            resources: Vec::new(),
        }
    }

    /// Decodes a message at the buffer's position: the header, then the
    /// number of questions and records that its counts give. Any failure
    /// fails the whole message.
    pub fn from_buffer(buffer: &mut BytePacketBuffer) -> (r: Result<DnsPacket, DnsError>)
        ensures
            final(buffer).buf == old(buffer).buf,
            match parse_packet(old(buffer).buf@, old(buffer).pos as int) {
                Ok((p, end)) => r is Ok && r->Ok_0@ == p && final(buffer).pos == end,
                Err(e) => r == Err::<DnsPacket, DnsError>(e),
            },
    {
        let mut header = DnsHeader::new();
        header.read(buffer)?;
        let questions = read_questions(buffer, header.questions)?;
        let answers = read_records(buffer, header.answers)?;
        let authorities = read_records(buffer, header.authoritative_entries)?;
        let resources = read_records(buffer, header.resource_entries)?;
        Ok(DnsPacket { header, questions, answers, authorities, resources })
    }

    /// Encodes the message at the buffer's position: the header, with its
    /// counts taken from the sections' lengths, then each section in order.
    #[verifier::rlimit(50)]
    pub fn write(&self, buffer: &mut BytePacketBuffer) -> (r: Result<(), DnsError>)
        ensures
            !counts_fit(self@) ==> r == Err::<(), DnsError>(DnsError::EndOfBuffer),
            counts_fit(self@) ==> emitted(
                old(buffer).pos as int,
                old(buffer).buf@,
                *final(buffer),
                r,
                emit(old(buffer).pos as int, packet_pieces(self@)),
            ),
    {
        if self.questions.len() > 0xFFFF || self.answers.len() > 0xFFFF || self.authorities.len()
            > 0xFFFF || self.resources.len() > 0xFFFF {
            return Err(DnsError::EndOfBuffer);
        }
        let ghost p0 = buffer.pos as int;
        let ghost s0 = buffer.buf@;
        let ghost v = self@;
        let mut header = self.header;
        header.questions = self.questions.len() as u16;
        header.answers = self.answers.len() as u16;
        header.authoritative_entries = self.authorities.len() as u16;
        header.resource_entries = self.resources.len() as u16;
        assert(header == counted_header(v));
        let ghost b0 = *buffer;
        let r = header.write(buffer);
        let ghost hp: Seq<Result<Seq<u8>, DnsError>> = seq![Ok(header_wire(header))];
        let ghost qp = self.questions@.map_values(|x: DnsQuestion| question_piece(x@));
        let ghost ap = self.answers@.map_values(|x: DnsRecord| record_piece(x@));
        let ghost up = self.authorities@.map_values(|x: DnsRecord| record_piece(x@));
        let ghost rp = self.resources@.map_values(|x: DnsRecord| record_piece(x@));
        proof {
            assert(v.questions.map_values(|q: QuestionView| question_piece(q)) =~= qp);
            assert(v.answers.map_values(|q: RecordView| record_piece(q)) =~= ap);
            assert(v.authorities.map_values(|q: RecordView| record_piece(q)) =~= up);
            assert(v.resources.map_values(|q: RecordView| record_piece(q)) =~= rp);
            assert(packet_pieces(v) =~= hp + qp + ap + up + rp);
            let e: Seq<Result<Seq<u8>, DnsError>> = seq![];
            assert(hp.drop_last() =~= e);
            assert(emit(p0, e) == Ok::<Seq<u8>, DnsError>(seq![]));
            assert(seq![] + header_wire(header) =~= header_wire(header));
            if r.is_err() {
                lemma_emit_err(p0, hp, qp);
                lemma_emit_err(p0, hp + qp, ap);
                lemma_emit_err(p0, hp + qp + ap, up);
                lemma_emit_err(p0, hp + qp + ap + up, rp);
            }
        }
        if r.is_err() {
            return r;
        }
        let r = write_questions(buffer, &self.questions, Ghost(p0), Ghost(s0), Ghost(hp));
        proof {
            if r.is_err() {
                lemma_emit_err(p0, hp + qp, ap);
                lemma_emit_err(p0, hp + qp + ap, up);
                lemma_emit_err(p0, hp + qp + ap + up, rp);
            }
        }
        if r.is_err() {
            return r;
        }
        let r = write_records(buffer, &self.answers, Ghost(p0), Ghost(s0), Ghost(hp + qp));
        proof {
            if r.is_err() {
                lemma_emit_err(p0, hp + qp + ap, up);
                lemma_emit_err(p0, hp + qp + ap + up, rp);
            }
        }
        if r.is_err() {
            return r;
        }
        let r = write_records(buffer, &self.authorities, Ghost(p0), Ghost(s0), Ghost(hp + qp + ap));
        proof {
            if r.is_err() {
                lemma_emit_err(p0, hp + qp + ap + up, rp);
            }
        }
        if r.is_err() {
            return r;
        }
        write_records(buffer, &self.resources, Ghost(p0), Ghost(s0), Ghost(hp + qp + ap + up))
    }
}

} // verus!
