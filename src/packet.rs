//! Whole messages: the header, then the question, answer, authority and additional
//! sections, each as long as the header's count for it says.
use crate::buffer::ByteBuffer;
use crate::error::DnsError;
use crate::header::{
    header_bytes, header_from, lemma_header_round_trip, parse_header, serialize_header, Header,
};
use crate::name::name_encodes;
use crate::question::{
    lemma_questions_round_trip, parse_questions, question_writer, questions_at, questions_view,
    questions_wire, serialize_questions, Question, QuestionModel,
};
use crate::record::{
    lemma_records_round_trip, parse_records, record_writer, records_at, records_view,
    records_wire, serialize_records, Record, RecordModel,
};
use crate::section::{holds_at, lemma_holds_at_split, lemma_many_wire_ok};
use crate::wire::extend_bytes;
use vstd::prelude::*;

verus! {

/// A DNS message.
#[derive(Debug, Clone, PartialEq, Eq)]
pub struct DnsPacket {
    pub header: Header,
    pub questions: Vec<Question>,
    pub answers: Vec<Record>,
    pub authoritative_entries: Vec<Record>,
    pub resource_entries: Vec<Record>,
}

/// A message as a value.
pub ghost struct PacketModel {
    pub header: Header,
    pub questions: Seq<QuestionModel>,
    pub answers: Seq<RecordModel>,
    pub authoritative_entries: Seq<RecordModel>,
    pub resource_entries: Seq<RecordModel>,
}

impl View for DnsPacket {
    type V = PacketModel;

    open spec fn view(&self) -> PacketModel {
        PacketModel {
            header: self.header,
            questions: questions_view(self.questions@),
            answers: records_view(self.answers@),
            authoritative_entries: records_view(self.authoritative_entries@),
            resource_entries: records_view(self.resource_entries@),
        }
    }
}

/// Every record of the list is well formed.
pub open spec fn records_wf(rs: Seq<RecordModel>) -> bool {
    forall|i: int| 0 <= i < rs.len() ==> (#[trigger] rs[i]).wf()
}

impl PacketModel {
    /// The header counts agree with the section lengths.
    pub open spec fn counts_match(self) -> bool {
        &&& self.questions.len() == self.header.questions
        &&& self.answers.len() == self.header.answers
        &&& self.authoritative_entries.len() == self.header.authoritative_entries
        &&& self.resource_entries.len() == self.header.resource_entries
    }

    /// A message that can be written and read back as it is: a well-formed header
    /// whose counts agree with the sections, names that have a wire form, and
    /// well-formed records.
    pub open spec fn wf(self) -> bool {
        &&& self.header.wf()
        &&& self.counts_match()
        &&& forall|i: int|
            0 <= i < self.questions.len() ==> name_encodes(#[trigger] self.questions[i].name)
        &&& records_wf(self.answers)
        &&& records_wf(self.authoritative_entries)
        &&& records_wf(self.resource_entries)
    }
}

/// The message that `buf` holds from its first byte on, or why it holds none. Each
/// section is read right where the one before it ended; bytes after the last
/// section are not looked at.
pub open spec fn packet_from(buf: Seq<u8>) -> Result<PacketModel, DnsError> {
    if buf.len() < 12 {
        Err(DnsError::OutOfBounds)
    } else {
        let h = header_from(buf);
        match questions_at(buf, 12, h.questions as nat) {
            Ok((qs, p1)) => match records_at(buf, p1, h.answers as nat) {
                Ok((an, p2)) => match records_at(buf, p2, h.authoritative_entries as nat) {
                    Ok((ns, p3)) => match records_at(buf, p3, h.resource_entries as nat) {
                        Ok((ar, _)) => Ok(
                            PacketModel {
                                header: h,
                                questions: qs,
                                answers: an,
                                authoritative_entries: ns,
                                resource_entries: ar,
                            },
                        ),
                        Err(e) => Err(e),
                    },
                    Err(e) => Err(e),
                },
                Err(e) => Err(e),
            },
            Err(e) => Err(e),
        }
    }
}

/// The wire form of a message, or why it has none: the header counts must agree
/// with the sections, and every entry must have a wire form.
pub open spec fn packet_wire(m: PacketModel) -> Result<Seq<u8>, DnsError> {
    if !m.counts_match() {
        Err(DnsError::CountMismatch)
    } else {
        match questions_wire(m.questions) {
            Ok(q) => match records_wire(m.answers) {
                Ok(an) => match records_wire(m.authoritative_entries) {
                    Ok(ns) => match records_wire(m.resource_entries) {
                        Ok(ar) => Ok(header_bytes(m.header) + q + an + ns + ar),
                        Err(e) => Err(e),
                    },
                    Err(e) => Err(e),
                },
                Err(e) => Err(e),
            },
            Err(e) => Err(e),
        }
    }
}

/// The wire form of `packet`. Fails with `CountMismatch` when a header count differs
/// from the length of its section, else on the first entry that has no wire form.
pub fn serialize_dns_packet(packet: &DnsPacket) -> (r: Result<Vec<u8>, DnsError>)
    ensures
        match packet_wire(packet@) {
            Ok(w) => r is Ok && r->Ok_0@ == w,
            Err(e) => r == Err::<Vec<u8>, DnsError>(e),
        },
{
    if packet.questions.len() != packet.header.questions as usize || packet.answers.len()
        != packet.header.answers as usize || packet.authoritative_entries.len()
        != packet.header.authoritative_entries as usize || packet.resource_entries.len()
        != packet.header.resource_entries as usize {
        return Err(DnsError::CountMismatch);
    }
    let mut bytes = serialize_header(&packet.header);
    let questions = serialize_questions(packet.questions.as_slice())?;
    extend_bytes(&mut bytes, questions.as_slice());
    let answers = serialize_records(packet.answers.as_slice())?;
    extend_bytes(&mut bytes, answers.as_slice());
    let authoritative_entries = serialize_records(packet.authoritative_entries.as_slice())?;
    extend_bytes(&mut bytes, authoritative_entries.as_slice());
    let resource_entries = serialize_records(packet.resource_entries.as_slice())?;
    extend_bytes(&mut bytes, resource_entries.as_slice());
    Ok(bytes)
}

/// Reads the message that `packet` holds: the header, then exactly as many entries
/// in each section as the header counts.
pub fn parse_dns_packet(packet: &[u8]) -> (r: Result<DnsPacket, DnsError>)
    ensures
        match packet_from(packet@) {
            Ok(m) => r is Ok && r->Ok_0@ == m,
            Err(e) => r == Err::<DnsPacket, DnsError>(e),
        },
{
    let mut packet = ByteBuffer::from(packet);
    let header = parse_header(&mut packet)?;
    let questions = parse_questions(&mut packet, header.questions as usize)?;
    let answers = parse_records(&mut packet, header.answers as usize)?;
    let authoritative_entries = parse_records(
        &mut packet,
        header.authoritative_entries as usize,
    )?;
    let resource_entries = parse_records(&mut packet, header.resource_entries as usize)?;
    Ok(DnsPacket { header, questions, answers, authoritative_entries, resource_entries })
}

/// Round trip: a well-formed message has a wire form, and reading that wire form
/// gives the message back, field for field.
pub proof fn lemma_round_trip(m: PacketModel)
    requires
        m.wf(),
    ensures
        packet_wire(m) is Ok,
        packet_from(packet_wire(m)->Ok_0) == Ok::<PacketModel, DnsError>(m),
{
    let h = m.header;
    assert forall|i: int| 0 <= i < m.questions.len() implies #[trigger] question_writer()(
        m.questions[i],
    ) is Ok by {}
    lemma_many_wire_ok(question_writer(), m.questions);
    assert forall|i: int| 0 <= i < m.answers.len() implies #[trigger] record_writer()(
        m.answers[i],
    ) is Ok by {
        assert(m.answers[i].wf());
    }
    lemma_many_wire_ok(record_writer(), m.answers);
    assert forall|i: int| 0 <= i < m.authoritative_entries.len() implies #[trigger] record_writer()(
        m.authoritative_entries[i],
    ) is Ok by {
        assert(m.authoritative_entries[i].wf());
    }
    lemma_many_wire_ok(record_writer(), m.authoritative_entries);
    assert forall|i: int| 0 <= i < m.resource_entries.len() implies #[trigger] record_writer()(
        m.resource_entries[i],
    ) is Ok by {
        assert(m.resource_entries[i].wf());
    }
    lemma_many_wire_ok(record_writer(), m.resource_entries);
    let hb = header_bytes(h);
    let q = questions_wire(m.questions)->Ok_0;
    let an = records_wire(m.answers)->Ok_0;
    let ns = records_wire(m.authoritative_entries)->Ok_0;
    let ar = records_wire(m.resource_entries)->Ok_0;
    let w = hb + q + an + ns + ar;
    assert(packet_wire(m) == Ok::<Seq<u8>, DnsError>(w));
    assert(w.subrange(0, w.len() as int) =~= w);
    assert(holds_at(w, 0, w));
    lemma_holds_at_split(w, 0, hb + q + an + ns, ar);
    lemma_holds_at_split(w, 0, hb + q + an, ns);
    lemma_holds_at_split(w, 0, hb + q, an);
    lemma_holds_at_split(w, 0, hb, q);
    lemma_header_round_trip(h);
    assert(header_from(w) == header_from(hb)) by {
        assert forall|j: int| 0 <= j < 12 implies w[j] == hb[j] by {
            assert(w.subrange(0, 12)[j] == hb[j]);
        }
    }
    lemma_questions_round_trip(m.questions, w, 12);
    lemma_records_round_trip(m.answers, w, 12 + q.len() as int);
    lemma_records_round_trip(m.authoritative_entries, w, 12 + q.len() + an.len() as int);
    lemma_records_round_trip(m.resource_entries, w, 12 + q.len() + an.len() + ns.len() as int);
}

} // verus!
