use vstd::prelude::*;

use vstd::utf8::*;

use crate::error::DnsError;

verus! {

/// Pointers a single name may follow before it is refused.
pub const MAX_JUMPS: usize = 5;

/// Largest length of one label.
pub const MAX_LABEL_LEN: usize = 63;

/// ASCII case folding of one byte; other bytes are left as they are.
pub open spec fn lower_byte(b: u8) -> u8 {
    if 65 <= b <= 90 {
        (b + 32) as u8
    } else {
        b
    }
}

/// ASCII case folding of a label.
pub open spec fn fold_label(l: Seq<u8>) -> Seq<u8> {
    l.map_values(|b: u8| lower_byte(b))
}

/// Labels folded and joined by dots, with no dot before the first.
pub open spec fn join_labels(ls: Seq<Seq<u8>>) -> Seq<u8>
    decreases ls.len(),
{
    if ls.len() == 0 {
        seq![]
    } else if ls.len() == 1 {
        fold_label(ls[0])
    } else {
        join_labels(ls.drop_last()) + seq![46u8] + fold_label(ls.last())
    }
}

/// Whether a length byte is a compression pointer (its two high bits set).
pub open spec fn is_pointer(len: u8) -> bool {
    len >= 0xC0
}

/// The offset a pointer made of `hi` and `lo` leads to.
pub open spec fn pointer_target(hi: u8, lo: u8) -> int {
    (hi - 0xC0) * 256 + lo
}

/// Decoding a name at `pos` of `buf` after `jumps` pointers: its labels and
/// the offset where the reader resumes after it (just past the first
/// pointer, or past the terminating zero when none was followed).
pub open spec fn walk_name(buf: Seq<u8>, pos: int, jumps: int) -> Result<
    (Seq<Seq<u8>>, int),
    DnsError,
>
    decreases MAX_JUMPS + 1 - jumps, buf.len() - pos,
{
    if jumps > MAX_JUMPS {
        Err(DnsError::CompressionLoop)
    } else if pos < 0 || pos >= buf.len() {
        Err(DnsError::EndOfBuffer)
    } else {
        let len = buf[pos];
        if is_pointer(len) {
            if pos + 1 >= buf.len() {
                Err(DnsError::EndOfBuffer)
            } else {
                match walk_name(buf, pointer_target(len, buf[pos + 1]), jumps + 1) {
                    Ok((ls, _)) => Ok((ls, pos + 2)),
                    Err(e) => Err(e),
                }
            }
        } else if len == 0 {
            Ok((seq![], pos + 1))
        } else if pos + 1 + len > buf.len() {
            Err(DnsError::EndOfBuffer)
        } else {
            match walk_name(buf, pos + 1 + len, jumps) {
                Ok((ls, end)) => Ok((seq![buf.subrange(pos + 1, pos + 1 + len)] + ls, end)),
                Err(e) => Err(e),
            }
        }
    }
}

/// The labels of a dotted text, split at each dot.
pub open spec fn split_labels(s: Seq<u8>) -> Seq<Seq<u8>>
    decreases s.len(),
{
    if s.len() == 0 {
        seq![seq![]]
    } else {
        let prev = split_labels(s.drop_last());
        if s.last() == 46u8 {
            prev.push(seq![])
        } else {
            prev.update(prev.len() - 1, prev.last().push(s.last()))
        }
    }
}

/// Length-prefixed labels, without the terminating zero.
pub open spec fn labels_wire(ls: Seq<Seq<u8>>) -> Seq<u8>
    decreases ls.len(),
{
    if ls.len() == 0 {
        seq![]
    } else {
        labels_wire(ls.drop_last()) + seq![ls.last().len() as u8] + ls.last()
    }
}

/// The wire form of a name made of `ls`.
pub open spec fn name_wire(ls: Seq<Seq<u8>>) -> Seq<u8> {
    labels_wire(ls) + seq![0u8]
}

/// Whether some label is too long to encode.
pub open spec fn has_long_label(ls: Seq<Seq<u8>>) -> bool {
    exists|i: int| 0 <= i < ls.len() && ls[i].len() > MAX_LABEL_LEN
}

/// The text that `String::from_utf8_lossy` makes of some bytes.
pub uninterp spec fn lossy_text(b: Seq<u8>) -> Seq<char>;

/// The text of some bytes: valid UTF-8 decoded as it stands, anything else
/// with its invalid sequences replaced.
pub open spec fn bytes_text(b: Seq<u8>) -> Seq<char> {
    if valid_utf8(b) {
        decode_utf8(b)
    } else {
        lossy_text(b)
    }
}

/// Relies on `String::from_utf8_lossy`: the text depends on the bytes alone,
/// and valid UTF-8 is decoded as it stands.
#[verifier::external_body]
pub(crate) fn text_of_bytes(b: &[u8]) -> (r: String)
    ensures
        r@ == bytes_text(b@),
        !valid_utf8(b@) ==> r@ == lossy_text(b@),
{
    String::from_utf8_lossy(b).into_owned()
}

/// The result of decoding a name whose walk gave `r`, having already
/// collected `acc` and, once a pointer was followed, with the reader to
/// resume at `resume`.
pub open spec fn continue_walk(
    acc: Seq<Seq<u8>>,
    resume: Option<usize>,
    r: Result<(Seq<Seq<u8>>, int), DnsError>,
) -> Result<(Seq<Seq<u8>>, int), DnsError> {
    match r {
        Ok((ls, end)) => Ok(
            (
                acc + ls,
                match resume {
                    Some(p) => p as int,
                    None => end,
                },
            ),
        ),
        Err(e) => Err(e),
    }
}

/// Every text has at least one label, perhaps empty.
pub proof fn lemma_split_labels_nonempty(s: Seq<u8>)
    ensures
        split_labels(s).len() >= 1,
    decreases s.len(),
{
    if s.len() > 0 {
        lemma_split_labels_nonempty(s.drop_last());
    }
}

/// Two pointers that lead to each other, or one that leads to itself, make
/// the name fail with `CompressionLoop`: decoding stops after a bounded
/// number of jumps.
pub proof fn lemma_pointer_cycle_refused(buf: Seq<u8>, x: int, y: int)
    requires
        0 <= x && x + 1 < buf.len(),
        0 <= y && y + 1 < buf.len(),
        is_pointer(buf[x]) && pointer_target(buf[x], buf[x + 1]) == y,
        is_pointer(buf[y]) && pointer_target(buf[y], buf[y + 1]) == x,
    ensures
        walk_name(buf, x, 0) == Err::<(Seq<Seq<u8>>, int), DnsError>(DnsError::CompressionLoop),
{
    reveal_with_fuel(walk_name, 8);
}

/// Allowing one more jump changes nothing of a name that decodes.
pub proof fn lemma_walk_more_jumps(buf: Seq<u8>, pos: int, jumps: int)
    requires
        0 <= jumps,
        walk_name(buf, pos, jumps + 1) is Ok,
    ensures
        walk_name(buf, pos, jumps) == walk_name(buf, pos, jumps + 1),
    decreases MAX_JUMPS + 1 - jumps, buf.len() - pos,
{
    let len = buf[pos];
    if is_pointer(len) {
        lemma_walk_more_jumps(buf, pointer_target(len, buf[pos + 1]), jumps + 1);
    } else if len != 0 {
        lemma_walk_more_jumps(buf, pos + 1 + len, jumps);
    }
}

/// A pointer at `x` to a name at `t` decodes to the same labels as the name
/// at `t` read directly, and the reader resumes two bytes past the pointer,
/// not past the name it leads to. (The name at `t` must leave room for the
/// extra jump.)
pub proof fn lemma_pointer_reuses_name(buf: Seq<u8>, x: int, t: int)
    requires
        0 <= x && x + 1 < buf.len(),
        is_pointer(buf[x]) && pointer_target(buf[x], buf[x + 1]) == t,
        walk_name(buf, t, 1) is Ok,
    ensures
        walk_name(buf, t, 0) is Ok,
        walk_name(buf, x, 0) == Ok::<(Seq<Seq<u8>>, int), DnsError>(
            (walk_name(buf, t, 0)->Ok_0.0, x + 2),
        ),
{
    lemma_walk_more_jumps(buf, t, 0);
}

} // verus!
