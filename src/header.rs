//! The fixed 12-byte message header.
//!
//! Byte layout, most significant bit first:
//!
//! | bytes | content |
//! |-------|---------|
//! | 0–1   | `id`, big-endian |
//! | 2     | bit 7 QR (set in a response, clear in a query), bits 6–3 opcode, bit 2 AA, bit 1 TC, bit 0 RD |
//! | 3     | bit 7 RA, bits 6–4 reserved (three bits), bits 3–0 response code |
//! | 4–11  | question, answer, authority and additional counts, big-endian |
use crate::buffer::ByteBuffer;
use crate::error::DnsError;
use crate::wire::{be_u16, extend_bytes, lemma_u16_round_trip, u16_bytes, u16_to_bytes};
use vstd::prelude::*;

verus! {

/// The kind of query a message carries (four bits on the wire).
#[derive(Debug, Clone, Copy, PartialEq, Eq, Structural)]
pub enum Opcode {
    Query,
    InverseQuery,
    Status,
    Reserved(u8),
}

/// The outcome a response reports (four bits on the wire).
#[derive(Debug, Clone, Copy, PartialEq, Eq, Structural)]
pub enum Rcode {
    Success,
    FormatError,
    ServerFailure,
    NameError,
    NotImplemented,
    Refused,
    Reserved(u8),
}

/// The opcode that the code `b` stands for.
pub open spec fn opcode_of(b: u8) -> Opcode {
    match b {
        0 => Opcode::Query,
        1 => Opcode::InverseQuery,
        2 => Opcode::Status,
        _ => Opcode::Reserved(b),
    }
}

/// The code of an opcode.
pub open spec fn opcode_code(o: Opcode) -> u8 {
    match o {
        Opcode::Query => 0,
        Opcode::InverseQuery => 1,
        Opcode::Status => 2,
        Opcode::Reserved(b) => b,
    }
}

/// The response code that the code `b` stands for.
pub open spec fn rcode_of(b: u8) -> Rcode {
    match b {
        0 => Rcode::Success,
        1 => Rcode::FormatError,
        2 => Rcode::ServerFailure,
        3 => Rcode::NameError,
        4 => Rcode::NotImplemented,
        5 => Rcode::Refused,
        _ => Rcode::Reserved(b),
    }
}

/// The code of a response code.
pub open spec fn rcode_code(r: Rcode) -> u8 {
    match r {
        Rcode::Success => 0,
        Rcode::FormatError => 1,
        Rcode::ServerFailure => 2,
        Rcode::NameError => 3,
        Rcode::NotImplemented => 4,
        Rcode::Refused => 5,
        Rcode::Reserved(b) => b,
    }
}

impl Opcode {
    /// A reserved opcode holds a four-bit code that no other variant names.
    pub open spec fn wf(self) -> bool {
        match self {
            Opcode::Reserved(b) => 3 <= b < 16,
            _ => true,
        }
    }
}

impl Rcode {
    /// A reserved response code holds a four-bit code that no other variant names.
    pub open spec fn wf(self) -> bool {
        match self {
            Rcode::Reserved(b) => 6 <= b < 16,
            _ => true,
        }
    }
}

impl From<u8> for Opcode {
    fn from(b: u8) -> Opcode {
        match b {
            0 => Opcode::Query,
            1 => Opcode::InverseQuery,
            2 => Opcode::Status,
            _ => Opcode::Reserved(b),
        }
    }
}

impl vstd::std_specs::convert::FromSpecImpl<u8> for Opcode {
    open spec fn obeys_from_spec() -> bool {
        true
    }

    open spec fn from_spec(v: u8) -> Opcode {
        opcode_of(v)
    }
}

impl From<Opcode> for u8 {
    fn from(o: Opcode) -> u8 {
        match o {
            Opcode::Query => 0,
            Opcode::InverseQuery => 1,
            Opcode::Status => 2,
            Opcode::Reserved(b) => b,
        }
    }
}

impl vstd::std_specs::convert::FromSpecImpl<Opcode> for u8 {
    open spec fn obeys_from_spec() -> bool {
        true
    }

    open spec fn from_spec(v: Opcode) -> u8 {
        opcode_code(v)
    }
}

impl From<u8> for Rcode {
    fn from(b: u8) -> Rcode {
        match b {
            0 => Rcode::Success,
            1 => Rcode::FormatError,
            2 => Rcode::ServerFailure,
            3 => Rcode::NameError,
            4 => Rcode::NotImplemented,
            5 => Rcode::Refused,
            _ => Rcode::Reserved(b),
        }
    }
}

impl vstd::std_specs::convert::FromSpecImpl<u8> for Rcode {
    open spec fn obeys_from_spec() -> bool {
        true
    }

    open spec fn from_spec(v: u8) -> Rcode {
        rcode_of(v)
    }
}

impl From<Rcode> for u8 {
    fn from(r: Rcode) -> u8 {
        match r {
            Rcode::Success => 0,
            Rcode::FormatError => 1,
            Rcode::ServerFailure => 2,
            Rcode::NameError => 3,
            Rcode::NotImplemented => 4,
            Rcode::Refused => 5,
            Rcode::Reserved(b) => b,
        }
    }
}

impl vstd::std_specs::convert::FromSpecImpl<Rcode> for u8 {
    open spec fn obeys_from_spec() -> bool {
        true
    }

    open spec fn from_spec(v: Rcode) -> u8 {
        rcode_code(v)
    }
}

/// The message header.
///
/// `query` is true for a query and false for a response: the wire's QR bit is its
/// complement.
#[derive(Debug, Clone, Copy, PartialEq, Eq, Structural)]
pub struct Header {
    pub id: u16,
    pub query: bool,
    pub opcode: Opcode,
    pub authoritative_answer: bool,
    pub truncation: bool,
    pub recursion_desired: bool,
    pub recursion_available: bool,
    pub reserved: u8,
    pub rcode: Rcode,
    pub questions: u16,
    pub answers: u16,
    pub authoritative_entries: u16,
    pub resource_entries: u16,
}

impl Header {
    /// Every field fits its width on the wire and the enumerations are in canonical
    /// form, so that the header reads back as it was written.
    pub open spec fn wf(self) -> bool {
        &&& self.opcode.wf()
        &&& self.rcode.wf()
        &&& self.reserved < 8
    }
}

/// The bit `mask` if `b` holds, else no bit.
pub open spec fn bit(b: bool, mask: u8) -> u8 {
    if b {
        mask
    } else {
        0
    }
}

/// Byte 2 of the header: QR, opcode, AA, TC, RD.
pub open spec fn flags_hi(h: Header) -> u8 {
    bit(!h.query, 0x80) | ((opcode_code(h.opcode) & 0x0F) << 3u8) | bit(
        h.authoritative_answer,
        0x04,
    ) | bit(h.truncation, 0x02) | bit(h.recursion_desired, 0x01)
}

/// Byte 3 of the header: RA, reserved bits, response code.
pub open spec fn flags_lo(h: Header) -> u8 {
    bit(h.recursion_available, 0x80) | ((h.reserved & 0x07) << 4u8) | (rcode_code(h.rcode)
        & 0x0F)
}

/// The twelve bytes of a header; fields wider than their slot lose their high bits.
pub open spec fn header_bytes(h: Header) -> Seq<u8> {
    u16_bytes(h.id) + seq![flags_hi(h), flags_lo(h)] + u16_bytes(h.questions) + u16_bytes(
        h.answers,
    ) + u16_bytes(h.authoritative_entries) + u16_bytes(h.resource_entries)
}

/// The header that the first twelve bytes of `b` hold.
pub open spec fn header_from(b: Seq<u8>) -> Header
    recommends
        b.len() >= 12,
{
    Header {
        id: be_u16(b[0], b[1]),
        query: b[2] & 0x80 == 0,
        opcode: opcode_of((b[2] >> 3u8) & 0x0F),
        authoritative_answer: b[2] & 0x04 != 0,
        truncation: b[2] & 0x02 != 0,
        recursion_desired: b[2] & 0x01 != 0,
        recursion_available: b[3] & 0x80 != 0,
        reserved: (b[3] >> 4u8) & 0x07,
        rcode: rcode_of(b[3] & 0x0F),
        questions: be_u16(b[4], b[5]),
        answers: be_u16(b[6], b[7]),
        authoritative_entries: be_u16(b[8], b[9]),
        resource_entries: be_u16(b[10], b[11]),
    }
}

proof fn lemma_flags_hi_bits(q: bool, op: u8, aa: bool, tc: bool, rd: bool)
    by (bit_vector)
    requires
        op < 16,
    ensures
        ({
            let b = bit(!q, 0x80) | ((op & 0x0F) << 3u8) | bit(aa, 0x04) | bit(tc, 0x02) | bit(
                rd,
                0x01,
            );
            &&& (b & 0x80 == 0) == q
            &&& (b >> 3u8) & 0x0F == op
            &&& (b & 0x04 != 0) == aa
            &&& (b & 0x02 != 0) == tc
            &&& (b & 0x01 != 0) == rd
        }),
{
}

proof fn lemma_flags_lo_bits(ra: bool, z: u8, rc: u8)
    by (bit_vector)
    requires
        z < 8,
        rc < 16,
    ensures
        ({
            let b = bit(ra, 0x80) | ((z & 0x07) << 4u8) | (rc & 0x0F);
            &&& (b & 0x80 != 0) == ra
            &&& (b >> 4u8) & 0x07 == z
            &&& b & 0x0F == rc
        }),
{
}

/// A well-formed header reads back from its twelve bytes unchanged.
pub proof fn lemma_header_round_trip(h: Header)
    requires
        h.wf(),
    ensures
        header_bytes(h).len() == 12,
        header_from(header_bytes(h)) == h,
{
    lemma_flags_hi_bits(
        h.query,
        opcode_code(h.opcode),
        h.authoritative_answer,
        h.truncation,
        h.recursion_desired,
    );
    lemma_flags_lo_bits(h.recursion_available, h.reserved, rcode_code(h.rcode));
    lemma_u16_round_trip(h.id);
    lemma_u16_round_trip(h.questions);
    lemma_u16_round_trip(h.answers);
    lemma_u16_round_trip(h.authoritative_entries);
    lemma_u16_round_trip(h.resource_entries);
    let b = header_bytes(h);
    assert(b[2] == flags_hi(h));
    assert(b[3] == flags_lo(h));
    assert(header_from(b) == h);
}

/// The twelve wire bytes of `header`.
pub fn serialize_header(header: &Header) -> (r: Vec<u8>)
    ensures
        r@ == header_bytes(*header),
{
    let mut res: Vec<u8> = Vec::new();
    extend_bytes(&mut res, &u16_to_bytes(header.id));
    let qr: u8 = if header.query {
        0
    } else {
        0x80
    };
    let aa: u8 = if header.authoritative_answer {
        0x04
    } else {
        0
    };
    let tc: u8 = if header.truncation {
        0x02
    } else {
        0
    };
    let rd: u8 = if header.recursion_desired {
        0x01
    } else {
        0
    };
    let ra: u8 = if header.recursion_available {
        0x80
    } else {
        0
    };
    res.push(qr | ((u8::from(header.opcode) & 0x0F) << 3u8) | aa | tc | rd);
    res.push(ra | ((header.reserved & 0x07) << 4u8) | (u8::from(header.rcode) & 0x0F));
    extend_bytes(&mut res, &u16_to_bytes(header.questions));
    extend_bytes(&mut res, &u16_to_bytes(header.answers));
    extend_bytes(&mut res, &u16_to_bytes(header.authoritative_entries));
    extend_bytes(&mut res, &u16_to_bytes(header.resource_entries));
    assert(res@ =~= header_bytes(*header));
    res
}

/// Reads a header: the next twelve bytes under the cursor.
pub fn parse_header(packet: &mut ByteBuffer) -> (r: Result<Header, DnsError>)
    requires
        old(packet).wf(),
    ensures
        final(packet).wf(),
        final(packet).data() == old(packet).data(),
        r is Ok <==> old(packet).position() + 12 <= old(packet).data().len(),
        r is Err ==> r == Err::<Header, DnsError>(DnsError::OutOfBounds),
        r is Ok ==> r->Ok_0 == header_from(old(packet).rest()),
        final(packet).position() == old(packet).position() + (if r is Ok {
            12int
        } else {
            0int
        }),
{
    let b = packet.read_range(12)?;
    let hi = b[2];
    let lo = b[3];
    Ok(
        Header {
            id: (b[0] as u16) * 256 + b[1] as u16,
            query: hi & 0x80 == 0,
            opcode: Opcode::from((hi >> 3u8) & 0x0F),
            authoritative_answer: hi & 0x04 != 0,
            truncation: hi & 0x02 != 0,
            recursion_desired: hi & 0x01 != 0,
            recursion_available: lo & 0x80 != 0,
            reserved: (lo >> 4u8) & 0x07,
            rcode: Rcode::from(lo & 0x0F),
            questions: (b[4] as u16) * 256 + b[5] as u16,
            answers: (b[6] as u16) * 256 + b[7] as u16,
            authoritative_entries: (b[8] as u16) * 256 + b[9] as u16,
            resource_entries: (b[10] as u16) * 256 + b[11] as u16,
        },
    )
}

} // verus!
