use vstd::prelude::*;
use vstd::utf8::{encode_utf8, encode_utf8_decode_utf8, encode_utf8_valid_utf8};

use crate::byte_packet_buffer::{be16, be32, u16_at, u32_at};
use crate::dns_header::{flag, flags_hi, flags_lo, header_wire, parse_header, DnsHeader, HEADER_LEN};
use crate::byte_packet_buffer::{overwrite, BUF_SIZE};
use crate::dns_packet::{counted_header, emit, packet_pieces, parse_packet, parse_questions, parse_records, PacketView};
use crate::dns_question::{name_piece, name_text, parse_question, question_piece, QuestionView};
use crate::dns_record::{parse_record, record_fixed, record_piece, RecordView};
use crate::query_type::QueryType;
use crate::error::DnsError;
use crate::name::{
    fold_label, has_long_label, join_labels, labels_wire, lower_byte, name_wire, split_labels, walk_name,
    MAX_LABEL_LEN,
};

verus! {

/// Whether every label is one to 63 bytes long.
pub open spec fn labels_ok(ls: Seq<Seq<u8>>) -> bool {
    forall|i: int| 0 <= i < ls.len() ==> 1 <= #[trigger] ls[i].len() <= MAX_LABEL_LEN
}

/// Whether a name is in the form that decoding gives back: no upper-case
/// ASCII letter, and every label one to 63 bytes long.
pub open spec fn name_ok(name: Seq<char>) -> bool {
    let b = encode_utf8(name);
    &&& forall|i: int| 0 <= i < b.len() ==> !(65 <= #[trigger] b[i] <= 90)
    &&& labels_ok(split_labels(b))
}

proof fn lemma_fold_push(b: Seq<u8>, c: u8)
    ensures
        fold_label(b.push(c)) == fold_label(b).push(lower_byte(c)),
{
    assert(fold_label(b.push(c)) =~= fold_label(b).push(lower_byte(c)));
}

proof fn lemma_join_push_last(ls: Seq<Seq<u8>>, c: u8)
    requires
        ls.len() >= 1,
    ensures
        join_labels(ls.update(ls.len() - 1, ls.last().push(c))) == join_labels(ls).push(
            lower_byte(c),
        ),
{
    let q = ls.update(ls.len() - 1, ls.last().push(c));
    lemma_fold_push(ls.last(), c);
    if ls.len() >= 2 {
        assert(q.drop_last() =~= ls.drop_last());
    }
}

/// Joining the labels of a text gives the text, case-folded.
proof fn lemma_join_split(b: Seq<u8>)
    ensures
        join_labels(split_labels(b)) == fold_label(b),
    decreases b.len(),
{
    if b.len() == 0 {
        assert(fold_label(b) =~= seq![]);
    } else {
        let pre = b.drop_last();
        let c = b.last();
        lemma_join_split(pre);
        crate::name::lemma_split_labels_nonempty(pre);
        let p = split_labels(pre);
        assert(b =~= pre.push(c));
        lemma_fold_push(pre, c);
        if c == 46u8 {
            let q = p.push(seq![]);
            assert(q.drop_last() =~= p);
            assert(fold_label(seq![]) =~= seq![]);
            assert(join_labels(q) =~= join_labels(p) + seq![46u8]);
        } else {
            lemma_join_push_last(p, c);
        }
    }
}

/// The text of the labels of a name that is in decoded form is the name.
proof fn lemma_name_text(name: Seq<char>)
    requires
        name_ok(name),
    ensures
        name_text(split_labels(encode_utf8(name))) == name,
{
    let b = encode_utf8(name);
    lemma_join_split(b);
    assert(fold_label(b) =~= b);
    encode_utf8_valid_utf8(name);
    encode_utf8_decode_utf8(name);
}

proof fn lemma_labels_wire_prefix(ls: Seq<Seq<u8>>, k: int)
    requires
        0 <= k <= ls.len(),
    ensures
        labels_wire(ls.take(k)).len() <= labels_wire(ls).len(),
        labels_wire(ls).subrange(0, labels_wire(ls.take(k)).len() as int) == labels_wire(
            ls.take(k),
        ),
    decreases ls.len(),
{
    if k == ls.len() {
        assert(ls.take(k) =~= ls);
        assert(labels_wire(ls).subrange(0, labels_wire(ls).len() as int) =~= labels_wire(ls));
    } else {
        let d = ls.drop_last();
        lemma_labels_wire_prefix(d, k);
        assert(d.take(k) =~= ls.take(k));
        let n = labels_wire(ls.take(k)).len() as int;
        assert(labels_wire(ls).subrange(0, n) =~= labels_wire(d).subrange(0, n));
    }
}

proof fn lemma_walk_written_from(buf: Seq<u8>, pos: int, ls: Seq<Seq<u8>>, k: int)
    requires
        labels_ok(ls),
        0 <= k <= ls.len(),
        0 <= pos,
        pos + name_wire(ls).len() <= buf.len(),
        buf.subrange(pos, pos + name_wire(ls).len()) == name_wire(ls),
    ensures
        walk_name(buf, pos + labels_wire(ls.take(k)).len(), 0) == Ok::<
            (Seq<Seq<u8>>, int),
            DnsError,
        >((ls.skip(k), pos + name_wire(ls).len())),
    decreases ls.len() - k,
{
    let nw = name_wire(ls);
    let q = pos + labels_wire(ls.take(k)).len();
    lemma_labels_wire_prefix(ls, k);
    if k == ls.len() {
        assert(ls.take(k) =~= ls);
        assert(buf[q] == nw[q - pos]);
        assert(ls.skip(k) =~= seq![]);
    } else {
        lemma_walk_written_from(buf, pos, ls, k + 1);
        lemma_labels_wire_prefix(ls, k + 1);
        let t1 = ls.take(k + 1);
        assert(t1.drop_last() =~= ls.take(k));
        let lw1 = labels_wire(t1);
        let len = ls[k].len();
        assert(1 <= ls[k].len() <= MAX_LABEL_LEN);
        assert(lw1 == labels_wire(ls.take(k)) + seq![len as u8] + ls[k]);
        assert(nw.subrange(0, lw1.len() as int) == lw1) by {
            assert(nw.subrange(0, lw1.len() as int) =~= labels_wire(ls).subrange(
                0,
                lw1.len() as int,
            ));
        }
        assert(buf[q] == nw[q - pos]);
        assert(nw[q - pos] == lw1[q - pos]);
        assert(buf[q] == len as u8);
        assert(buf.subrange(q + 1, q + 1 + len) =~= ls[k]) by {
            assert forall|j: int| 0 <= j < len implies buf[q + 1 + j] == ls[k][j] by {
                assert(buf[q + 1 + j] == nw[q + 1 + j - pos]);
                assert(nw[q + 1 + j - pos] == lw1[q + 1 + j - pos]);
            }
        }
        assert(seq![ls[k]] + ls.skip(k + 1) =~= ls.skip(k));
    }
}

/// A name written as labels is decoded back to the same labels, and the
/// reader resumes right after it.
pub proof fn lemma_walk_written(buf: Seq<u8>, pos: int, ls: Seq<Seq<u8>>)
    requires
        labels_ok(ls),
        0 <= pos,
        pos + name_wire(ls).len() <= buf.len(),
        buf.subrange(pos, pos + name_wire(ls).len()) == name_wire(ls),
    ensures
        walk_name(buf, pos, 0) == Ok::<(Seq<Seq<u8>>, int), DnsError>(
            (ls, pos + name_wire(ls).len()),
        ),
{
    lemma_walk_written_from(buf, pos, ls, 0);
    assert(ls.take(0) =~= seq![]);
    assert(ls.skip(0) =~= ls);
}

proof fn lemma_u16_written(s: Seq<u8>, at: int, v: u16)
    requires
        0 <= at && at + 2 <= s.len(),
        s.subrange(at, at + 2) == be16(v),
    ensures
        u16_at(s, at) == v,
{
    assert(s[at] == be16(v)[0] && s[at + 1] == be16(v)[1]);
    assert((v / 256) as u8 as int * 256 + (v % 256) as u8 as int == v) by (nonlinear_arith);
}

proof fn lemma_u32_written(s: Seq<u8>, at: int, v: u32)
    requires
        0 <= at && at + 4 <= s.len(),
        s.subrange(at, at + 4) == be32(v),
    ensures
        u32_at(s, at) == v,
{
    assert(s[at] == be32(v)[0] && s[at + 1] == be32(v)[1]);
    assert(s[at + 2] == be32(v)[2] && s[at + 3] == be32(v)[3]);
    assert((v / 0x100_0000) as u8 as int * 0x100_0000 + ((v / 0x1_0000) % 256) as u8 as int
        * 0x1_0000 + ((v / 256) % 256) as u8 as int * 256 + (v % 256) as u8 as int == v)
        by (nonlinear_arith);
}

proof fn lemma_flag_bits(r: u8, op: u8, a: u8, t: u8, d: u8)
    requires
        r == 0 || r == 0x80,
        a == 0 || a == 4,
        t == 0 || t == 2,
        d == 0 || d == 1,
        op < 16,
    ensures
        ((r | ((op & 0x0F) << 3u8) | a | t | d) & 1 != 0) == (d == 1),
        ((r | ((op & 0x0F) << 3u8) | a | t | d) & 2 != 0) == (t == 2),
        ((r | ((op & 0x0F) << 3u8) | a | t | d) & 4 != 0) == (a == 4),
        ((r | ((op & 0x0F) << 3u8) | a | t | d) & 0x80 != 0) == (r == 0x80),
        (((r | ((op & 0x0F) << 3u8) | a | t | d) >> 3u8) & 0x0F) == op,
{
    assert(((r | ((op & 0x0F) << 3u8) | a | t | d) & 1 != 0) == (d == 1)) by (bit_vector)
        requires
            r == 0 || r == 0x80,
            a == 0 || a == 4,
            t == 0 || t == 2,
            d == 0 || d == 1,
    ;
    assert(((r | ((op & 0x0F) << 3u8) | a | t | d) & 2 != 0) == (t == 2)) by (bit_vector)
        requires
            r == 0 || r == 0x80,
            a == 0 || a == 4,
            t == 0 || t == 2,
            d == 0 || d == 1,
    ;
    assert(((r | ((op & 0x0F) << 3u8) | a | t | d) & 4 != 0) == (a == 4)) by (bit_vector)
        requires
            r == 0 || r == 0x80,
            a == 0 || a == 4,
            t == 0 || t == 2,
            d == 0 || d == 1,
    ;
    assert(((r | ((op & 0x0F) << 3u8) | a | t | d) & 0x80 != 0) == (r == 0x80)) by (bit_vector)
        requires
            r == 0 || r == 0x80,
            a == 0 || a == 4,
            t == 0 || t == 2,
            d == 0 || d == 1,
            op < 16,
    ;
    assert((((r | ((op & 0x0F) << 3u8) | a | t | d) >> 3u8) & 0x0F) == op) by (bit_vector)
        requires
            r == 0 || r == 0x80,
            a == 0 || a == 4,
            t == 0 || t == 2,
            d == 0 || d == 1,
            op < 16,
    ;
}

proof fn lemma_low_flag_bits(ra: u8, z: u8, ad: u8, cd: u8, rc: u8)
    requires
        ra == 0 || ra == 0x80,
        z == 0 || z == 0x40,
        ad == 0 || ad == 0x20,
        cd == 0 || cd == 0x10,
        rc < 16,
    ensures
        ((ra | z | ad | cd | (rc & 0x0F)) & 0x80 != 0) == (ra == 0x80),
        ((ra | z | ad | cd | (rc & 0x0F)) & 0x40 != 0) == (z == 0x40),
        ((ra | z | ad | cd | (rc & 0x0F)) & 0x20 != 0) == (ad == 0x20),
        ((ra | z | ad | cd | (rc & 0x0F)) & 0x10 != 0) == (cd == 0x10),
        ((ra | z | ad | cd | (rc & 0x0F)) & 0x0F) == rc,
{
    assert(((ra | z | ad | cd | (rc & 0x0F)) & 0x80 != 0) == (ra == 0x80)) by (bit_vector)
        requires
            ra == 0 || ra == 0x80,
            z == 0 || z == 0x40,
            ad == 0 || ad == 0x20,
            cd == 0 || cd == 0x10,
    ;
    assert(((ra | z | ad | cd | (rc & 0x0F)) & 0x40 != 0) == (z == 0x40)) by (bit_vector)
        requires
            ra == 0 || ra == 0x80,
            z == 0 || z == 0x40,
            ad == 0 || ad == 0x20,
            cd == 0 || cd == 0x10,
    ;
    assert(((ra | z | ad | cd | (rc & 0x0F)) & 0x20 != 0) == (ad == 0x20)) by (bit_vector)
        requires
            ra == 0 || ra == 0x80,
            z == 0 || z == 0x40,
            ad == 0 || ad == 0x20,
            cd == 0 || cd == 0x10,
    ;
    assert(((ra | z | ad | cd | (rc & 0x0F)) & 0x10 != 0) == (cd == 0x10)) by (bit_vector)
        requires
            ra == 0 || ra == 0x80,
            z == 0 || z == 0x40,
            ad == 0 || ad == 0x20,
            cd == 0 || cd == 0x10,
    ;
    assert(((ra | z | ad | cd | (rc & 0x0F)) & 0x0F) == rc) by (bit_vector)
        requires
            ra == 0 || ra == 0x80,
            z == 0 || z == 0x40,
            ad == 0 || ad == 0x20,
            cd == 0 || cd == 0x10,
            rc < 16,
    ;
}

/// A header written in its wire form is read back as it was.
pub proof fn lemma_header_written(buf: Seq<u8>, pos: int, h: DnsHeader)
    requires
        h.well_formed(),
        0 <= pos && pos + HEADER_LEN <= buf.len(),
        buf.subrange(pos, pos + HEADER_LEN) == header_wire(h),
    ensures
        parse_header(buf, pos) == h,
{
    let w = header_wire(h);
    assert forall|j: int| 0 <= j < HEADER_LEN implies buf[pos + j] == w[j] by {
        assert(buf.subrange(pos, pos + HEADER_LEN)[j] == buf[pos + j]);
    }
    assert(buf.subrange(pos, pos + 2) =~= be16(h.id));
    assert(w =~= seq![
        be16(h.id)[0],
        be16(h.id)[1],
        flags_hi(h),
        flags_lo(h),
        be16(h.questions)[0],
        be16(h.questions)[1],
        be16(h.answers)[0],
        be16(h.answers)[1],
        be16(h.authoritative_entries)[0],
        be16(h.authoritative_entries)[1],
        be16(h.resource_entries)[0],
        be16(h.resource_entries)[1],
    ]);
    assert(buf.subrange(pos + 4, pos + 6) =~= be16(h.questions));
    assert(buf.subrange(pos + 6, pos + 8) =~= be16(h.answers));
    assert(buf.subrange(pos + 8, pos + 10) =~= be16(h.authoritative_entries));
    assert(buf.subrange(pos + 10, pos + 12) =~= be16(h.resource_entries));
    lemma_u16_written(buf, pos, h.id);
    lemma_u16_written(buf, pos + 4, h.questions);
    lemma_u16_written(buf, pos + 6, h.answers);
    lemma_u16_written(buf, pos + 8, h.authoritative_entries);
    lemma_u16_written(buf, pos + 10, h.resource_entries);
    assert(buf[pos + 2] == flags_hi(h));
    assert(buf[pos + 3] == flags_lo(h));
    lemma_flag_bits(
        flag(h.response, 0x80),
        h.opcode,
        flag(h.authoritative_answer, 4),
        flag(h.truncated_message, 2),
        flag(h.recursion_desired, 1),
    );
    lemma_low_flag_bits(
        flag(h.recursion_available, 0x80),
        flag(h.z, 0x40),
        flag(h.authed_data, 0x20),
        flag(h.checking_disabled, 0x10),
        h.rescode,
    );
}

/// A part of what was written is found in the buffer at its offset.
proof fn lemma_written_part(buf: Seq<u8>, pos: int, w: Seq<u8>, a: int, b: int)
    requires
        0 <= pos && pos + w.len() <= buf.len(),
        buf.subrange(pos, pos + w.len()) == w,
        0 <= a <= b <= w.len(),
    ensures
        buf.subrange(pos + a, pos + b) == w.subrange(a, b),
{
    assert forall|j: int| 0 <= j < b - a implies buf.subrange(pos + a, pos + b)[j] == w.subrange(
        a,
        b,
    )[j] by {
        assert(buf.subrange(pos, pos + w.len())[a + j] == buf[pos + a + j]);
    }
    assert(buf.subrange(pos + a, pos + b) =~= w.subrange(a, b));
}

/// A name in decoded form, written, is decoded back to the same text, and
/// the reader resumes right after it.
proof fn lemma_name_written(buf: Seq<u8>, pos: int, name: Seq<char>, w: Seq<u8>)
    requires
        name_ok(name),
        name_piece(name) == Ok::<Seq<u8>, DnsError>(w),
        0 <= pos && pos + w.len() <= buf.len(),
        buf.subrange(pos, pos + w.len()) == w,
    ensures
        walk_name(buf, pos, 0) is Ok,
        name_text(walk_name(buf, pos, 0)->Ok_0.0) == name,
        walk_name(buf, pos, 0)->Ok_0.1 == pos + w.len(),
{
    let ls = split_labels(encode_utf8(name));
    lemma_walk_written(buf, pos, ls);
    lemma_name_text(name);
}

/// Whether a question is in the form that decoding gives back.
pub open spec fn question_ok(q: QuestionView) -> bool {
    name_ok(q.name) && q.qtype.well_formed()
}

/// Whether a record is in the form that decoding gives back: its name in
/// decoded form, an address of four or sixteen bytes, and no unknown record
/// with the code of a type that has a variant.
pub open spec fn record_ok(r: RecordView) -> bool {
    match r {
        RecordView::A { domain, addr, .. } => name_ok(domain) && addr.len() == 4,
        RecordView::AAAA { domain, addr, .. } => name_ok(domain) && addr.len() == 16,
        RecordView::Unknown { domain, qtype, .. } => name_ok(domain) && QueryType::spec_from_num(
            qtype,
        ) != QueryType::A && QueryType::spec_from_num(qtype) != QueryType::AAAA,
    }
}

/// A question written in its wire form is read back as it was.
pub proof fn lemma_question_written(buf: Seq<u8>, pos: int, q: QuestionView)
    requires
        question_ok(q),
        buf.len() == BUF_SIZE,
        question_piece(q) is Ok,
        0 <= pos && pos + question_piece(q)->Ok_0.len() <= BUF_SIZE,
        buf.subrange(pos, pos + question_piece(q)->Ok_0.len()) == question_piece(q)->Ok_0,
    ensures
        parse_question(buf, pos) == Ok::<(Seq<char>, QueryType, int), DnsError>(
            (q.name, q.qtype, pos + question_piece(q)->Ok_0.len()),
        ),
{
    let w = question_piece(q)->Ok_0;
    let nw = name_piece(q.name)->Ok_0;
    let code = q.qtype.spec_to_num();
    lemma_written_part(buf, pos, w, 0, nw.len() as int);
    assert(w.subrange(0, nw.len() as int) =~= nw);
    lemma_name_written(buf, pos, q.name, nw);
    let n = nw.len() as int;
    lemma_written_part(buf, pos, w, n, n + 2);
    assert(w.subrange(n, n + 2) =~= be16(code));
    lemma_u16_written(buf, pos + nw.len(), code);
}

/// A record written in its wire form is read back as it was.
pub proof fn lemma_record_written(buf: Seq<u8>, pos: int, r: RecordView)
    requires
        record_ok(r),
        buf.len() == BUF_SIZE,
        record_piece(r) is Ok,
        0 <= pos && pos + record_piece(r)->Ok_0.len() <= BUF_SIZE,
        buf.subrange(pos, pos + record_piece(r)->Ok_0.len()) == record_piece(r)->Ok_0,
    ensures
        parse_record(buf, pos) == Ok::<(RecordView, int), DnsError>(
            (r, pos + record_piece(r)->Ok_0.len()),
        ),
{
    let w = record_piece(r)->Ok_0;
    let (domain, code, ttl, payload) = match r {
        RecordView::A { domain, addr, ttl } => (domain, 1u16, ttl, addr),
        RecordView::AAAA { domain, addr, ttl } => (domain, 28u16, ttl, addr),
        RecordView::Unknown { domain, qtype, data, ttl } => (domain, qtype, ttl, data),
    };
    let nw = name_piece(domain)->Ok_0;
    let n = nw.len() as int;
    let len = payload.len() as u16;
    let fixed = record_fixed(code, ttl, len);
    assert(w == nw + fixed + payload);
    lemma_written_part(buf, pos, w, 0, n);
    assert(w.subrange(0, n) =~= nw);
    lemma_name_written(buf, pos, domain, nw);
    lemma_written_part(buf, pos, w, n, n + 2);
    assert(w.subrange(n, n + 2) =~= be16(code));
    lemma_u16_written(buf, pos + n, code);
    lemma_written_part(buf, pos, w, n + 4, n + 8);
    assert(w.subrange(n + 4, n + 8) =~= be32(ttl));
    lemma_u32_written(buf, pos + n + 4, ttl);
    lemma_written_part(buf, pos, w, n + 8, n + 10);
    assert(w.subrange(n + 8, n + 10) =~= be16(len));
    lemma_u16_written(buf, pos + n + 8, len);
    lemma_written_part(buf, pos, w, n + 10, w.len() as int);
    assert(w.subrange(n + 10, w.len() as int) =~= payload);
}

/// What the first `k` pieces write.
pub open spec fn emitted_prefix(pos: int, pcs: Seq<Result<Seq<u8>, DnsError>>, k: int) -> Seq<u8> {
    emit(pos, pcs.take(k))->Ok_0
}

proof fn lemma_emit_prefix(pos: int, pcs: Seq<Result<Seq<u8>, DnsError>>, k: int)
    requires
        emit(pos, pcs) is Ok,
        0 <= k <= pcs.len(),
    ensures
        emit(pos, pcs.take(k)) is Ok,
        emitted_prefix(pos, pcs, k).len() <= emit(pos, pcs)->Ok_0.len(),
        emit(pos, pcs)->Ok_0.subrange(0, emitted_prefix(pos, pcs, k).len() as int)
            == emitted_prefix(pos, pcs, k),
    decreases pcs.len(),
{
    let w = emit(pos, pcs)->Ok_0;
    if k == pcs.len() {
        assert(pcs.take(k) =~= pcs);
        assert(w.subrange(0, w.len() as int) =~= w);
    } else {
        let d = pcs.drop_last();
        lemma_emit_prefix(pos, d, k);
        assert(d.take(k) =~= pcs.take(k));
        let n = emitted_prefix(pos, pcs, k).len() as int;
        assert(w.subrange(0, n) =~= emit(pos, d)->Ok_0.subrange(0, n));
    }
}

proof fn lemma_emit_step(pos: int, pcs: Seq<Result<Seq<u8>, DnsError>>, k: int)
    requires
        emit(pos, pcs) is Ok,
        0 <= k < pcs.len(),
    ensures
        pcs[k] is Ok,
        emitted_prefix(pos, pcs, k + 1) == emitted_prefix(pos, pcs, k) + pcs[k]->Ok_0,
        pos + emitted_prefix(pos, pcs, k + 1).len() <= BUF_SIZE,
{
    lemma_emit_prefix(pos, pcs, k + 1);
    assert(pcs.take(k + 1).drop_last() =~= pcs.take(k));
}

/// The bytes of piece `k` stand in the buffer at its offset.
proof fn lemma_piece_in_buffer(s0: Seq<u8>, pos: int, pcs: Seq<Result<Seq<u8>, DnsError>>, k: int)
    requires
        s0.len() == BUF_SIZE,
        0 <= pos,
        emit(pos, pcs) is Ok,
        0 <= k < pcs.len(),
    ensures
        pcs[k] is Ok,
        emitted_prefix(pos, pcs, k + 1) == emitted_prefix(pos, pcs, k) + pcs[k]->Ok_0,
        pos + emitted_prefix(pos, pcs, k + 1).len() <= BUF_SIZE,
        ({
            let buf = overwrite(s0, pos, emit(pos, pcs)->Ok_0);
            let a = pos + emitted_prefix(pos, pcs, k).len();
            buf.subrange(a, a + pcs[k]->Ok_0.len()) == pcs[k]->Ok_0
        }),
{
    lemma_emit_step(pos, pcs, k);
    lemma_emit_prefix(pos, pcs, k + 1);
    lemma_emit_prefix(pos, pcs, pcs.len() as int);
    assert(pcs.take(pcs.len() as int) =~= pcs);
    let w = emit(pos, pcs)->Ok_0;
    let buf = overwrite(s0, pos, w);
    let item = pcs[k]->Ok_0;
    let n = emitted_prefix(pos, pcs, k).len() as int;
    let w1 = emitted_prefix(pos, pcs, k + 1);
    assert(buf.subrange(pos + n, pos + n + item.len()) =~= item) by {
        assert forall|j: int| 0 <= j < item.len() implies buf[pos + n + j] == item[j] by {
            assert(w1[n + j] == item[j]);
            assert(w.subrange(0, w1.len() as int)[n + j] == w[n + j]);
        }
    }
}

proof fn lemma_questions_written(
    s0: Seq<u8>,
    pos: int,
    pcs: Seq<Result<Seq<u8>, DnsError>>,
    base: int,
    qs: Seq<QuestionView>,
    i: int,
)
    requires
        s0.len() == BUF_SIZE,
        0 <= pos,
        emit(pos, pcs) is Ok,
        0 <= base && base + qs.len() <= pcs.len(),
        forall|j: int|
            0 <= j < qs.len() ==> pcs[base + j] == question_piece(#[trigger] qs[j]) && question_ok(
                qs[j],
            ),
        0 <= i <= qs.len(),
    ensures
        parse_questions(overwrite(s0, pos, emit(pos, pcs)->Ok_0), pos + emitted_prefix(pos, pcs, base).len(), i as nat)
            == Ok::<(Seq<QuestionView>, int), DnsError>(
            (qs.take(i), pos + emitted_prefix(pos, pcs, base + i).len()),
        ),
    decreases i,
{
    let buf = overwrite(s0, pos, emit(pos, pcs)->Ok_0);
    if i == 0 {
        assert(qs.take(0) =~= seq![]);
    } else {
        lemma_questions_written(s0, pos, pcs, base, qs, i - 1);
        let k = base + i - 1;
        lemma_piece_in_buffer(s0, pos, pcs, k);
        let q = qs[i - 1];
        assert(pcs[k] == question_piece(q));
        lemma_question_written(buf, pos + emitted_prefix(pos, pcs, k).len(), q);
        assert(qs.take(i - 1).push(QuestionView { name: q.name, qtype: q.qtype }) =~= qs.take(i));
    }
}

proof fn lemma_records_written(
    s0: Seq<u8>,
    pos: int,
    pcs: Seq<Result<Seq<u8>, DnsError>>,
    base: int,
    rs: Seq<RecordView>,
    i: int,
)
    requires
        s0.len() == BUF_SIZE,
        0 <= pos,
        emit(pos, pcs) is Ok,
        0 <= base && base + rs.len() <= pcs.len(),
        forall|j: int|
            0 <= j < rs.len() ==> pcs[base + j] == record_piece(#[trigger] rs[j]) && record_ok(
                rs[j],
            ),
        0 <= i <= rs.len(),
    ensures
        parse_records(overwrite(s0, pos, emit(pos, pcs)->Ok_0), pos + emitted_prefix(pos, pcs, base).len(), i as nat)
            == Ok::<(Seq<RecordView>, int), DnsError>(
            (rs.take(i), pos + emitted_prefix(pos, pcs, base + i).len()),
        ),
    decreases i,
{
    let buf = overwrite(s0, pos, emit(pos, pcs)->Ok_0);
    if i == 0 {
        assert(rs.take(0) =~= seq![]);
    } else {
        lemma_records_written(s0, pos, pcs, base, rs, i - 1);
        let k = base + i - 1;
        lemma_piece_in_buffer(s0, pos, pcs, k);
        assert(pcs[k] == record_piece(rs[i - 1]));
        lemma_record_written(buf, pos + emitted_prefix(pos, pcs, k).len(), rs[i - 1]);
        assert(rs.take(i - 1).push(rs[i - 1]) =~= rs.take(i));
    }
}

/// Whether a message is in the form that decoding gives back: a header
/// whose four-bit fields fit and whose counts are the sections' lengths,
/// and every question and record in decoded form.
pub open spec fn packet_ok(p: PacketView) -> bool {
    &&& p.header.well_formed()
    &&& p.header.questions == p.questions.len()
    &&& p.header.answers == p.answers.len()
    &&& p.header.authoritative_entries == p.authorities.len()
    &&& p.header.resource_entries == p.resources.len()
    &&& forall|j: int| 0 <= j < p.questions.len() ==> question_ok(#[trigger] p.questions[j])
    &&& forall|j: int| 0 <= j < p.answers.len() ==> record_ok(#[trigger] p.answers[j])
    &&& forall|j: int| 0 <= j < p.authorities.len() ==> record_ok(#[trigger] p.authorities[j])
    &&& forall|j: int| 0 <= j < p.resources.len() ==> record_ok(#[trigger] p.resources[j])
}

/// Round trip: a message in decoded form that is encoded into a buffer
/// (see `DnsPacket::write`) and decoded from the same position (see
/// `DnsPacket::from_buffer`) comes back as it was, every section in its
/// order, and decoding ends where encoding did.
#[verifier::rlimit(40)]
pub proof fn lemma_packet_round_trip(p: PacketView, s0: Seq<u8>, pos: int)
    requires
        s0.len() == BUF_SIZE,
        0 <= pos,
        packet_ok(p),
        emit(pos, packet_pieces(p)) is Ok,
    ensures
        parse_packet(overwrite(s0, pos, emit(pos, packet_pieces(p))->Ok_0), pos)
            == Ok::<(PacketView, int), DnsError>(
            (p, pos + emit(pos, packet_pieces(p))->Ok_0.len()),
        ),
{
    let pcs = packet_pieces(p);
    let w = emit(pos, pcs)->Ok_0;
    let buf = overwrite(s0, pos, w);
    let nq = p.questions.len() as int;
    let na = p.answers.len() as int;
    let nu = p.authorities.len() as int;
    let nr = p.resources.len() as int;
    assert(counted_header(p) == p.header);
    assert(pcs.len() == 1 + nq + na + nu + nr);
    assert(pcs[0] == Ok::<Seq<u8>, DnsError>(header_wire(p.header)));
    lemma_piece_in_buffer(s0, pos, pcs, 0);
    assert(pcs.take(0) =~= seq![]);
    assert(emit(pos, pcs.take(0)) == Ok::<Seq<u8>, DnsError>(seq![]));
    assert(emitted_prefix(pos, pcs, 1) =~= header_wire(p.header));
    lemma_header_written(buf, pos, p.header);
    assert forall|j: int| 0 <= j < nq implies pcs[1 + j] == question_piece(
        #[trigger] p.questions[j],
    ) && question_ok(p.questions[j]) by {}
    assert forall|j: int| 0 <= j < na implies pcs[1 + nq + j] == record_piece(
        #[trigger] p.answers[j],
    ) && record_ok(p.answers[j]) by {}
    assert forall|j: int| 0 <= j < nu implies pcs[1 + nq + na + j] == record_piece(
        #[trigger] p.authorities[j],
    ) && record_ok(p.authorities[j]) by {}
    assert forall|j: int| 0 <= j < nr implies pcs[1 + nq + na + nu + j] == record_piece(
        #[trigger] p.resources[j],
    ) && record_ok(p.resources[j]) by {}
    lemma_questions_written(s0, pos, pcs, 1, p.questions, nq);
    lemma_records_written(s0, pos, pcs, 1 + nq, p.answers, na);
    lemma_records_written(s0, pos, pcs, 1 + nq + na, p.authorities, nu);
    lemma_records_written(s0, pos, pcs, 1 + nq + na + nu, p.resources, nr);
    assert(p.questions.take(nq) =~= p.questions);
    assert(p.answers.take(na) =~= p.answers);
    assert(p.authorities.take(nu) =~= p.authorities);
    assert(p.resources.take(nr) =~= p.resources);
    assert(pcs.take(pcs.len() as int) =~= pcs);
}

} // verus!
