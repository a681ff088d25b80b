//! Domain names: length-prefixed labels ended by a zero byte, with RFC 1035
//! compression pointers followed on decode.
//!
//! A name is written with its labels joined by `.`; the root, which has no label,
//! is written `.`. The encoder never produces pointers.
use crate::buffer::ByteBuffer;
use crate::error::DnsError;
use crate::section::holds_at;
use crate::wire::extend_bytes;
use vstd::slice::slice_subrange;
use vstd::string::StringSliceAdditionalSpecFns;
use vstd::prelude::*;
use vstd::utf8::{
    decode_utf8, encode_utf8, encode_utf8_decode_utf8, encode_utf8_valid_utf8, valid_utf8,
};

verus! {

/// The byte that separates labels in the written form of a name.
pub const DOT: u8 = 46;

/// The longest label the wire format can carry.
pub const MAX_LABEL_LEN: usize = 63;

/// What `String::from_utf8_lossy` makes of the bytes `b`.
pub uninterp spec fn utf8_lossy(b: Seq<u8>) -> Seq<char>;

/// Relies on `String::from_utf8_lossy`: the result depends on the bytes alone, and
/// bytes that are valid UTF-8 give the characters they encode.
#[verifier::external_body]
fn string_from_utf8_lossy(b: &[u8]) -> (r: String)
    ensures
        r@ == utf8_lossy(b@),
        valid_utf8(b@) ==> r@ == decode_utf8(b@),
{
    String::from_utf8_lossy(b).into_owned()
}

/// `r` with the label `l` put in front of its labels.
pub open spec fn prepend_label(l: Seq<u8>, r: Result<(Seq<Seq<u8>>, int), DnsError>) -> Result<
    (Seq<Seq<u8>>, int),
    DnsError,
> {
    match r {
        Ok((ls, next)) => Ok((seq![l] + ls, next)),
        Err(e) => Err(e),
    }
}

/// `r` with the offset after the name replaced by `next`.
pub open spec fn resume_at(r: Result<(Seq<Seq<u8>>, int), DnsError>, next: int) -> Result<
    (Seq<Seq<u8>>, int),
    DnsError,
> {
    match r {
        Ok((ls, _)) => Ok((ls, next)),
        Err(e) => Err(e),
    }
}

/// The labels of the name that starts at offset `pos` of `buf`, and the offset just
/// after it; `seg` is the offset where the current run of literal labels began.
///
/// A length byte below 64 gives a literal label, zero ends the name, a byte with the
/// two top bits set starts a pointer whose 14 bits give the offset where the name
/// goes on. A pointer must point strictly before `seg`: a chain of pointers then
/// moves strictly backwards and always ends. After a pointer the name ends, for the
/// reader, just after the pointer's two bytes.
pub open spec fn labels_at(buf: Seq<u8>, pos: int, seg: int) -> Result<
    (Seq<Seq<u8>>, int),
    DnsError,
>
    decreases seg, buf.len() - pos,
{
    if pos < 0 || pos >= buf.len() {
        Err(DnsError::OutOfBounds)
    } else {
        let b = buf[pos];
        if b == 0 {
            Ok((seq![], pos + 1))
        } else if b < 64 {
            if pos + 1 + b > buf.len() {
                Err(DnsError::OutOfBounds)
            } else {
                prepend_label(
                    buf.subrange(pos + 1, pos + 1 + b),
                    labels_at(buf, pos + 1 + b, seg),
                )
            }
        } else if b >= 192 {
            if pos + 1 >= buf.len() {
                Err(DnsError::OutOfBounds)
            } else {
                let target = (b - 192) * 256 + buf[pos + 1];
                if target >= seg {
                    Err(DnsError::CompressionLoop)
                } else {
                    resume_at(labels_at(buf, target, target), pos + 2)
                }
            }
        } else {
            Err(DnsError::UnsupportedLabelEncoding)
        }
    }
}

/// The labels joined by dots.
pub open spec fn join_labels(ls: Seq<Seq<u8>>) -> Seq<u8>
    decreases ls.len(),
{
    if ls.len() == 0 {
        seq![]
    } else if ls.len() == 1 {
        ls[0]
    } else {
        join_labels(ls.drop_last()) + seq![DOT] + ls.last()
    }
}

/// The written form of a name with labels `ls`: the labels joined by dots, or a lone
/// dot for the root.
pub open spec fn dotted(ls: Seq<Seq<u8>>) -> Seq<u8> {
    if ls.len() == 0 {
        seq![DOT]
    } else {
        join_labels(ls)
    }
}

/// The text of the written form `b`: its characters if it is valid UTF-8, else what
/// a lossy conversion makes of it.
pub open spec fn name_text(b: Seq<u8>) -> Seq<char> {
    if valid_utf8(b) {
        decode_utf8(b)
    } else {
        utf8_lossy(b)
    }
}

/// The name that starts at offset `pos` of `buf`, as text, and the offset just after
/// it.
pub open spec fn name_at(buf: Seq<u8>, pos: int) -> Result<(Seq<char>, int), DnsError> {
    match labels_at(buf, pos, pos) {
        Ok((ls, next)) => Ok((name_text(dotted(ls)), next)),
        Err(e) => Err(e),
    }
}

/// The result of the whole name, given the labels `acc` read so far, where the
/// reader resumes (`saved`, if a pointer was followed) and the result from the
/// current offset on.
spec fn continue_from(
    acc: Seq<Seq<u8>>,
    saved: Option<usize>,
    r: Result<(Seq<Seq<u8>>, int), DnsError>,
) -> Result<(Seq<Seq<u8>>, int), DnsError> {
    match r {
        Ok((ls, next)) => Ok(
            (
                acc + ls,
                match saved {
                    Some(p) => p as int,
                    None => next,
                },
            ),
        ),
        Err(e) => Err(e),
    }
}

proof fn lemma_continue_literal(
    acc: Seq<Seq<u8>>,
    saved: Option<usize>,
    l: Seq<u8>,
    r: Result<(Seq<Seq<u8>>, int), DnsError>,
)
    ensures
        continue_from(acc, saved, prepend_label(l, r)) == continue_from(acc.push(l), saved, r),
{
    if let Ok((ls, next)) = r {
        assert(acc + (seq![l] + ls) =~= acc.push(l) + ls);
    }
}

/// Reads a name at the cursor, following compression pointers, and leaves the
/// cursor just after the name as it stands at the cursor (just after the first
/// pointer, if there is one).
pub fn parse_name(packet: &mut ByteBuffer) -> (r: Result<String, DnsError>)
    requires
        old(packet).wf(),
    ensures
        final(packet).wf(),
        final(packet).data() == old(packet).data(),
        match name_at(old(packet).data(), old(packet).position()) {
            Ok((name, next)) => r is Ok && r->Ok_0@ == name && final(packet).position() == next,
            Err(e) => r == Err::<String, DnsError>(e),
        },
{
    let ghost buf = packet.data();
    let ghost start = packet.position();
    let mut out: Vec<u8> = Vec::new();
    let mut any = false;
    let mut seg: usize = packet.pos();
    let mut saved: Option<usize> = None;
    let ghost mut acc: Seq<Seq<u8>> = seq![];
    loop
        invariant
            packet.wf(),
            packet.data() == buf,
            buf == old(packet).data(),
            start == old(packet).position(),
            seg <= packet.position(),
            out@ == join_labels(acc),
            any == (acc.len() > 0),
            saved matches Some(p) ==> p <= buf.len(),
            labels_at(buf, start, start) == continue_from(
                acc,
                saved,
                labels_at(buf, packet.position(), seg as int),
            ),
        decreases seg, buf.len() - packet.position(),
    {
        let ghost pos = packet.position();
        let len = match packet.read() {
            Some(b) => b,
            None => {
                return Err(DnsError::OutOfBounds);
            },
        };
        if len == 0 {
            assert(acc + seq![] =~= acc);
            if let Some(p) = saved {
                packet.seek(p);
            }
            let bytes = if any {
                out
            } else {
                vec![DOT]
            };
            assert(bytes@ == dotted(acc));
            let name = string_from_utf8_lossy(bytes.as_slice());
            return Ok(name);
        } else if len < 64 {
            // Top bits 00: a literal label of `len` bytes.
            let label = packet.read_range(len as usize)?;
            proof {
                let rest = labels_at(buf, pos + 1 + len, seg as int);
                lemma_continue_literal(acc, saved, label@, rest);
            }
            if any {
                out.push(DOT);
            }
            extend_bytes(&mut out, label);
            proof {
                let old_acc = acc;
                acc = acc.push(label@);
                assert(acc.drop_last() =~= old_acc);
                if old_acc.len() == 0 {
                    assert(out@ =~= join_labels(acc));
                }
            }
            any = true;
        } else if len >= 192 {
            // Top bits 11: a pointer; its low 14 bits give the offset to go on from.
            let lo = match packet.read() {
                Some(b) => b,
                None => {
                    return Err(DnsError::OutOfBounds);
                },
            };
            let target: usize = (len - 192) as usize * 256 + lo as usize;
            if target >= seg {
                return Err(DnsError::CompressionLoop);
            }
            if saved.is_none() {
                saved = Some(packet.pos());
            }
            packet.jump(target)?;
            seg = target;
        } else {
            // Top bits 01 or 10: reserved.
            return Err(DnsError::UnsupportedLabelEncoding);
        }
    }
}

/// `b` cut at every dot: as many labels as dots plus one, some of them possibly empty.
pub open spec fn split_labels(b: Seq<u8>) -> Seq<Seq<u8>>
    decreases b.len(),
{
    if b.len() == 0 {
        seq![seq![]]
    } else {
        let ls = split_labels(b.drop_last());
        if b.last() == DOT {
            ls.push(seq![])
        } else {
            ls.update(ls.len() - 1, ls.last().push(b.last()))
        }
    }
}

/// The labels of the name written `b`: none for the root `.`, else `b` cut at every
/// dot.
pub open spec fn name_labels(b: Seq<u8>) -> Seq<Seq<u8>> {
    if b == seq![DOT] {
        seq![]
    } else {
        split_labels(b)
    }
}

/// Why the label `l` cannot be encoded, if it cannot.
pub open spec fn label_error(l: Seq<u8>) -> Option<DnsError> {
    if l.len() == 0 {
        Some(DnsError::EmptyLabel)
    } else if l.len() > MAX_LABEL_LEN {
        Some(DnsError::LabelTooLong)
    } else {
        None
    }
}

/// Why the first label of `ls` that cannot be encoded cannot, if there is one.
pub open spec fn labels_error(ls: Seq<Seq<u8>>) -> Option<DnsError>
    decreases ls.len(),
{
    if ls.len() == 0 {
        None
    } else {
        match labels_error(ls.drop_last()) {
            Some(e) => Some(e),
            None => label_error(ls.last()),
        }
    }
}

/// Each label preceded by its length.
pub open spec fn labels_wire(ls: Seq<Seq<u8>>) -> Seq<u8>
    decreases ls.len(),
{
    if ls.len() == 0 {
        seq![]
    } else {
        labels_wire(ls.drop_last()) + seq![ls.last().len() as u8] + ls.last()
    }
}

/// The wire form of the name written `b`, or why it has none.
pub open spec fn encode_name(b: Seq<u8>) -> Result<Seq<u8>, DnsError> {
    match labels_error(name_labels(b)) {
        Some(e) => Err(e),
        None => Ok(labels_wire(name_labels(b)) + seq![0u8]),
    }
}

proof fn lemma_split_labels_len(b: Seq<u8>)
    ensures
        split_labels(b).len() >= 1,
    decreases b.len(),
{
    if b.len() > 0 {
        lemma_split_labels_len(b.drop_last());
    }
}

/// The labels that a prefix of `b` completes are the first labels of `b`.
proof fn lemma_split_prefix(b: Seq<u8>, i: int)
    requires
        0 <= i <= b.len(),
    ensures
        split_labels(b).len() >= split_labels(b.subrange(0, i)).len(),
        split_labels(b).subrange(0, split_labels(b.subrange(0, i)).len() - 1) == split_labels(
            b.subrange(0, i),
        ).drop_last(),
    decreases b.len(),
{
    lemma_split_labels_len(b.subrange(0, i));
    if i == b.len() {
        assert(b.subrange(0, i) =~= b);
    } else {
        let d = b.drop_last();
        lemma_split_prefix(d, i);
        assert(d.subrange(0, i) =~= b.subrange(0, i));
        lemma_split_labels_len(d);
        let k = split_labels(b.subrange(0, i)).len() - 1;
        assert(split_labels(b).subrange(0, k) =~= split_labels(d).subrange(0, k));
    }
}

/// An error among the first `k` labels is the error of all of them.
proof fn lemma_labels_error_prefix(ls: Seq<Seq<u8>>, k: int)
    requires
        0 <= k <= ls.len(),
        labels_error(ls.subrange(0, k)) is Some,
    ensures
        labels_error(ls) == labels_error(ls.subrange(0, k)),
    decreases ls.len(),
{
    if k == ls.len() {
        assert(ls.subrange(0, k) =~= ls);
    } else {
        assert(ls.drop_last().subrange(0, k) =~= ls.subrange(0, k));
        lemma_labels_error_prefix(ls.drop_last(), k);
    }
}

/// A bad label ended by the dot at `i` is the first bad label of `bs`.
proof fn lemma_first_bad_label(bs: Seq<u8>, i: int, done: Seq<Seq<u8>>, cur: Seq<u8>)
    requires
        0 <= i < bs.len(),
        bs[i] == DOT,
        split_labels(bs.subrange(0, i)) == done.push(cur),
        labels_error(done) is None,
        label_error(cur) is Some,
    ensures
        labels_error(split_labels(bs)) == label_error(cur),
{
    let pre = bs.subrange(0, i + 1);
    assert(pre.drop_last() =~= bs.subrange(0, i));
    lemma_split_prefix(bs, i + 1);
    let full = split_labels(bs);
    let k = done.len() + 1int;
    assert(split_labels(pre).drop_last() =~= done.push(cur));
    assert(full.subrange(0, k) == done.push(cur));
    assert(done.push(cur).drop_last() =~= done);
    lemma_labels_error_prefix(full, k);
}

/// The wire form of `name`: each label preceded by its length, then a zero byte.
/// Fails on the first label that is empty or longer than 63 bytes.
pub fn serialize_name(name: &str) -> (r: Result<Vec<u8>, DnsError>)
    ensures
        match encode_name(name.spec_bytes()) {
            Ok(w) => r is Ok && r->Ok_0@ == w,
            Err(e) => r == Err::<Vec<u8>, DnsError>(e),
        },
{
    let b = name.as_bytes();
    let ghost bs = b@;
    if b.len() == 1 && b[0] == DOT {
        assert(bs =~= seq![DOT]);
        assert(labels_wire(seq![]) + seq![0u8] =~= seq![0u8]);
        return Ok(vec![0]);
    }
    let mut out: Vec<u8> = Vec::new();
    let mut start: usize = 0;
    let mut i: usize = 0;
    let ghost mut done: Seq<Seq<u8>> = seq![];
    assert(bs.subrange(0, 0) =~= seq![]);
    while i < b.len()
        invariant
            b@ == bs,
            bs == name.spec_bytes(),
            bs != seq![DOT],
            0 <= start <= i <= bs.len(),
            split_labels(bs.subrange(0, i as int)) == done.push(bs.subrange(start as int, i as int)),
            labels_error(done) is None,
            out@ == labels_wire(done),
        decreases bs.len() - i,
    {
        let ghost cur = bs.subrange(start as int, i as int);
        assert(bs.subrange(0, i + 1).drop_last() =~= bs.subrange(0, i as int));
        if b[i] == DOT {
            let len = i - start;
            if len == 0 || len > MAX_LABEL_LEN {
                proof {
                    lemma_first_bad_label(bs, i as int, done, cur);
                }
                return Err(if len == 0 {
                    DnsError::EmptyLabel
                } else {
                    DnsError::LabelTooLong
                });
            }
            out.push(len as u8);
            extend_bytes(&mut out, slice_subrange(b, start, i));
            proof {
                let old_done = done;
                done = done.push(cur);
                assert(done.drop_last() =~= old_done);
                assert(bs.subrange(i + 1, i + 1) =~= seq![]);
            }
            start = i + 1;
        } else {
            assert(bs.subrange(start as int, i + 1) =~= cur.push(bs[i as int]));
        }
        i = i + 1;
    }
    assert(bs.subrange(0, bs.len() as int) =~= bs);
    let ghost last = bs.subrange(start as int, i as int);
    assert(done.push(last).drop_last() =~= done);
    let len = i - start;
    if len == 0 || len > MAX_LABEL_LEN {
        return Err(if len == 0 {
            DnsError::EmptyLabel
        } else {
            DnsError::LabelTooLong
        });
    }
    out.push(len as u8);
    extend_bytes(&mut out, slice_subrange(b, start, i));
    out.push(0);
    Ok(out)
}

/// The name with text `s` has a wire form: no label of it is empty or longer than 63
/// bytes.
pub open spec fn name_encodes(s: Seq<char>) -> bool {
    encode_name(encode_utf8(s)) is Ok
}

/// The first label and its length byte lead the wire form of labels.
proof fn lemma_labels_wire_first(ls: Seq<Seq<u8>>)
    requires
        ls.len() > 0,
    ensures
        labels_wire(ls) == seq![ls[0].len() as u8] + ls[0] + labels_wire(ls.drop_first()),
    decreases ls.len(),
{
    if ls.len() > 1 {
        let d = ls.drop_last();
        lemma_labels_wire_first(d);
        assert(d.drop_first() =~= ls.drop_first().drop_last());
        assert(d[0] == ls[0]);
        assert(ls.drop_first().last() == ls.last());
    } else {
        assert(ls.drop_first() =~= seq![]);
        assert(ls.drop_last() =~= seq![]);
    }
}

/// Labels without an error are each 1 to 63 bytes long.
proof fn lemma_labels_fit(ls: Seq<Seq<u8>>)
    requires
        labels_error(ls) is None,
    ensures
        forall|i: int| 0 <= i < ls.len() ==> 1 <= #[trigger] ls[i].len() <= MAX_LABEL_LEN,
    decreases ls.len(),
{
    if ls.len() > 0 {
        lemma_labels_fit(ls.drop_last());
        assert forall|i: int| 0 <= i < ls.len() implies 1 <= #[trigger] ls[i].len()
            <= MAX_LABEL_LEN by {
            if i < ls.len() - 1 {
                assert(ls[i] == ls.drop_last()[i]);
            }
        }
    }
}

/// Literal labels read back from their wire form, wherever it stands.
proof fn lemma_labels_at_wire(buf: Seq<u8>, p: int, seg: int, ls: Seq<Seq<u8>>)
    requires
        forall|i: int| 0 <= i < ls.len() ==> 1 <= #[trigger] ls[i].len() <= MAX_LABEL_LEN,
        0 <= p,
        p + labels_wire(ls).len() + 1 <= buf.len(),
        buf.subrange(p, p + labels_wire(ls).len() + 1) == labels_wire(ls) + seq![0u8],
    ensures
        labels_at(buf, p, seg) == Ok::<(Seq<Seq<u8>>, int), DnsError>(
            (ls, p + labels_wire(ls).len() + 1),
        ),
    decreases ls.len(),
{
    let w = labels_wire(ls) + seq![0u8];
    assert(buf[p] == w[0]);
    if ls.len() == 0 {
        assert(ls =~= seq![]);
        assert(w =~= seq![0u8]);
    } else {
        lemma_labels_wire_first(ls);
        let l = ls[0];
        let rest = ls.drop_first();
        let q = p + 1 + l.len();
        assert(buf[p] == l.len() as u8);
        assert(buf.subrange(p + 1, q) =~= l) by {
            assert forall|j: int| 0 <= j < l.len() implies buf.subrange(p + 1, q)[j] == l[j] by {
                assert(buf[p + 1 + j] == w[1 + j]);
            }
        }
        assert forall|i: int| 0 <= i < rest.len() implies 1 <= #[trigger] rest[i].len()
            <= MAX_LABEL_LEN by {
            assert(rest[i] == ls[i + 1]);
        }
        assert(buf.subrange(q, q + labels_wire(rest).len() + 1) =~= labels_wire(rest) + seq![0u8])
            by {
            assert forall|j: int| 0 <= j < labels_wire(rest).len() + 1 implies buf.subrange(
                q,
                q + labels_wire(rest).len() + 1,
            )[j] == (labels_wire(rest) + seq![0u8])[j] by {
                assert(buf[q + j] == w[1 + l.len() + j]);
            }
        }
        lemma_labels_at_wire(buf, q, seg, rest);
        assert(seq![l] + rest =~= ls);
        assert(labels_wire(ls).len() == 1 + l.len() + labels_wire(rest).len());
        assert(buf[p] as int == l.len());
        assert(labels_at(buf, p, seg) == prepend_label(
            buf.subrange(p + 1, p + 1 + buf[p]),
            labels_at(buf, p + 1 + buf[p], seg),
        ));
    }
}

proof fn lemma_join_push(ls: Seq<Seq<u8>>, x: Seq<u8>)
    requires
        ls.len() >= 1,
    ensures
        join_labels(ls.push(x)) == join_labels(ls) + seq![DOT] + x,
{
    assert(ls.push(x).drop_last() =~= ls);
}

/// Cutting at the dots and joining with dots gives back what was cut.
proof fn lemma_join_split(b: Seq<u8>)
    ensures
        join_labels(split_labels(b)) == b,
    decreases b.len(),
{
    if b.len() == 0 {
    } else {
        let d = b.drop_last();
        lemma_join_split(d);
        lemma_split_labels_len(d);
        let ls = split_labels(d);
        if b.last() == DOT {
            lemma_join_push(ls, seq![]);
            assert(d + seq![DOT] + seq![] =~= b);
        } else {
            let u = ls.update(ls.len() - 1, ls.last().push(b.last()));
            if ls.len() == 1 {
                assert(u[0] =~= d.push(b.last()));
                assert(d.push(b.last()) =~= b);
            } else {
                assert(u.drop_last() =~= ls.drop_last());
                assert(join_labels(ls.drop_last()) + seq![DOT] + ls.last().push(b.last())
                    =~= join_labels(ls.drop_last()) + seq![DOT] + ls.last() + seq![b.last()]);
                assert(d + seq![b.last()] =~= b);
            }
        }
    }
}

/// The written form of a name is the labels it is cut into, joined back.
proof fn lemma_dotted_name_labels(b: Seq<u8>)
    ensures
        dotted(name_labels(b)) == b,
{
    if b != seq![DOT] {
        lemma_split_labels_len(b);
        lemma_join_split(b);
    }
}

/// A name that encodes reads back unchanged from its wire form, wherever that form
/// stands in a buffer, and the reader ends just after it.
pub proof fn lemma_name_round_trip(s: Seq<char>, buf: Seq<u8>, p: int)
    requires
        encode_name(encode_utf8(s)) is Ok,
        holds_at(buf, p, encode_name(encode_utf8(s))->Ok_0),
    ensures
        name_at(buf, p) == Ok::<(Seq<char>, int), DnsError>(
            (s, p + encode_name(encode_utf8(s))->Ok_0.len()),
        ),
{
    let b = encode_utf8(s);
    let ls = name_labels(b);
    lemma_labels_fit(ls);
    lemma_labels_at_wire(buf, p, p, ls);
    lemma_dotted_name_labels(b);
    encode_utf8_valid_utf8(s);
    encode_utf8_decode_utf8(s);
}

/// The offset that the pointer whose first byte is at `pos` of `buf` names.
pub open spec fn pointer_target(buf: Seq<u8>, pos: int) -> int {
    (buf[pos] - 192) * 256 + buf[pos + 1]
}

/// A compression pointer that names its own offset or a later one is refused with
/// `CompressionLoop`: where a name starts with it, and where the reader meets it
/// after literal labels that began at `seg`.
pub proof fn lemma_forward_pointer_rejected(buf: Seq<u8>, pos: int, seg: int)
    requires
        0 <= seg <= pos,
        pos + 1 < buf.len(),
        buf[pos] >= 192,
        pointer_target(buf, pos) >= pos,
    ensures
        labels_at(buf, pos, seg) == Err::<(Seq<Seq<u8>>, int), DnsError>(
            DnsError::CompressionLoop,
        ),
        name_at(buf, pos) == Err::<(Seq<char>, int), DnsError>(DnsError::CompressionLoop),
{
}

} // verus!
