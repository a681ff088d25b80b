//! The question section: a name, then the query type and class, big-endian.
use crate::buffer::ByteBuffer;
use crate::error::DnsError;
use crate::name::{encode_name, lemma_name_round_trip, name_at, parse_name, serialize_name};
use crate::section::{
    holds_at, lemma_holds_at_index, lemma_holds_at_split, lemma_many_at_step,
    lemma_many_wire_first, lemma_many_wire_prefix_err, many_at, many_wire, prepend_all,
};
use crate::wire::{be_u16, extend_bytes, lemma_u16_round_trip, u16_bytes, u16_to_bytes};
use vstd::prelude::*;
use vstd::utf8::encode_utf8;

verus! {

/// A question: the name asked about, the query type (A = 1, NS = 2, CNAME = 5, ...)
/// and the class (IN = 1), as the numbers the wire carries.
#[derive(Debug, Clone, PartialEq, Eq)]
pub struct Question {
    pub name: String,
    pub typ: u16,
    pub class: u16,
}

/// A question as a value: the name's text, the type and the class.
pub ghost struct QuestionModel {
    pub name: Seq<char>,
    pub typ: u16,
    pub class: u16,
}

impl View for Question {
    type V = QuestionModel;

    open spec fn view(&self) -> QuestionModel {
        QuestionModel { name: self.name@, typ: self.typ, class: self.class }
    }
}

/// The models of a list of questions.
pub open spec fn questions_view(qs: Seq<Question>) -> Seq<QuestionModel> {
    qs.map_values(|q: Question| q@)
}

/// The question at offset `pos` of `buf`, and the offset just after it.
pub open spec fn question_at(buf: Seq<u8>, pos: int) -> Result<(QuestionModel, int), DnsError> {
    match name_at(buf, pos) {
        Ok((name, p)) => if p + 4 > buf.len() {
            Err(DnsError::OutOfBounds)
        } else {
            Ok(
                (
                    QuestionModel {
                        name,
                        typ: be_u16(buf[p], buf[p + 1]),
                        class: be_u16(buf[p + 2], buf[p + 3]),
                    },
                    p + 4,
                ),
            )
        },
        Err(e) => Err(e),
    }
}

/// [`question_at`] as a value.
pub open spec fn question_reader() -> spec_fn(Seq<u8>, int) -> Result<(QuestionModel, int), DnsError> {
    |buf: Seq<u8>, pos: int| question_at(buf, pos)
}

/// `count` questions from offset `pos` of `buf`, and the offset after the last.
pub open spec fn questions_at(buf: Seq<u8>, pos: int, count: nat) -> Result<
    (Seq<QuestionModel>, int),
    DnsError,
> {
    many_at(question_reader(), buf, pos, count)
}

/// The wire form of a question, or why it has none.
pub open spec fn question_wire(q: QuestionModel) -> Result<Seq<u8>, DnsError> {
    match encode_name(encode_utf8(q.name)) {
        Ok(w) => Ok(w + u16_bytes(q.typ) + u16_bytes(q.class)),
        Err(e) => Err(e),
    }
}

/// [`question_wire`] as a value.
pub open spec fn question_writer() -> spec_fn(QuestionModel) -> Result<Seq<u8>, DnsError> {
    |q: QuestionModel| question_wire(q)
}

/// The wire form of a list of questions, or why it has none.
pub open spec fn questions_wire(qs: Seq<QuestionModel>) -> Result<Seq<u8>, DnsError> {
    many_wire(question_writer(), qs)
}

/// Reads one question at the cursor.
pub fn parse_single_question(packet: &mut ByteBuffer) -> (r: Result<Question, DnsError>)
    requires
        old(packet).wf(),
    ensures
        final(packet).wf(),
        final(packet).data() == old(packet).data(),
        match question_at(old(packet).data(), old(packet).position()) {
            Ok((q, next)) => r is Ok && r->Ok_0@ == q && final(packet).position() == next,
            Err(e) => r == Err::<Question, DnsError>(e),
        },
{
    let name = parse_name(packet)?;
    let typ = packet.read_u16()?;
    let class = packet.read_u16()?;
    Ok(Question { name, typ, class })
}

/// Reads `count` questions at the cursor, one after another.
pub fn parse_questions(packet: &mut ByteBuffer, count: usize) -> (r: Result<
    Vec<Question>,
    DnsError,
>)
    requires
        old(packet).wf(),
    ensures
        final(packet).wf(),
        final(packet).data() == old(packet).data(),
        match questions_at(old(packet).data(), old(packet).position(), count as nat) {
            Ok((qs, next)) => {
                &&& r is Ok
                &&& questions_view(r->Ok_0@) == qs
                &&& final(packet).position() == next
            },
            Err(e) => r == Err::<Vec<Question>, DnsError>(e),
        },
{
    let ghost buf = packet.data();
    let ghost start = packet.position();
    let mut records: Vec<Question> = Vec::new();
    let mut i: usize = 0;
    while i < count
        invariant
            packet.wf(),
            packet.data() == buf,
            buf == old(packet).data(),
            start == old(packet).position(),
            0 <= i <= count,
            questions_at(buf, start, count as nat) == prepend_all(
                questions_view(records@),
                questions_at(buf, packet.position(), (count - i) as nat),
            ),
        decreases count - i,
    {
        let ghost pos = packet.position();
        let record = parse_single_question(packet)?;
        proof {
            lemma_many_at_step(
                question_reader(),
                buf,
                pos,
                (count - i) as nat,
                questions_view(records@),
            );
        }
        let ghost prev = records@;
        records.push(record);
        assert(questions_view(records@) =~= questions_view(prev).push(record@));
        i = i + 1;
    }
    assert(questions_view(records@) + seq![] =~= questions_view(records@));
    Ok(records)
}

/// The wire form of one question.
pub fn serialize_single_question(question: &Question) -> (r: Result<Vec<u8>, DnsError>)
    ensures
        match question_wire(question@) {
            Ok(w) => r is Ok && r->Ok_0@ == w,
            Err(e) => r == Err::<Vec<u8>, DnsError>(e),
        },
{
    let mut bytes = serialize_name(question.name.as_str())?;
    let typ = u16_to_bytes(question.typ);
    extend_bytes(&mut bytes, &typ);
    let class = u16_to_bytes(question.class);
    extend_bytes(&mut bytes, &class);
    Ok(bytes)
}

/// The wire forms of `questions`, one after another; fails on the first that has
/// none.
pub fn serialize_questions(questions: &[Question]) -> (r: Result<Vec<u8>, DnsError>)
    ensures
        match questions_wire(questions_view(questions@)) {
            Ok(w) => r is Ok && r->Ok_0@ == w,
            Err(e) => r == Err::<Vec<u8>, DnsError>(e),
        },
{
    let ghost qs = questions_view(questions@);
    let mut bytes: Vec<u8> = Vec::new();
    let mut i: usize = 0;
    assert(qs.subrange(0, 0) =~= seq![]);
    while i < questions.len()
        invariant
            qs == questions_view(questions@),
            0 <= i <= questions@.len(),
            questions_wire(qs.subrange(0, i as int)) == Ok::<Seq<u8>, DnsError>(bytes@),
        decreases questions@.len() - i,
    {
        assert(qs.subrange(0, i + 1).drop_last() =~= qs.subrange(0, i as int));
        let one = match serialize_single_question(&questions[i]) {
            Ok(one) => one,
            Err(e) => {
                proof {
                    lemma_many_wire_prefix_err(question_writer(), qs, i + 1);
                }
                return Err(e);
            },
        };
        extend_bytes(&mut bytes, one.as_slice());
        i = i + 1;
    }
    assert(qs.subrange(0, questions@.len() as int) =~= qs);
    Ok(bytes)
}

/// A question that encodes reads back unchanged from its wire form.
pub proof fn lemma_question_round_trip(q: QuestionModel, buf: Seq<u8>, p: int)
    requires
        question_wire(q) is Ok,
        holds_at(buf, p, question_wire(q)->Ok_0),
    ensures
        question_at(buf, p) == Ok::<(QuestionModel, int), DnsError>(
            (q, p + question_wire(q)->Ok_0.len()),
        ),
{
    let nw = encode_name(encode_utf8(q.name))->Ok_0;
    let t = u16_bytes(q.typ);
    let c = u16_bytes(q.class);
    lemma_holds_at_split(buf, p, nw + t, c);
    lemma_holds_at_split(buf, p, nw, t);
    lemma_name_round_trip(q.name, buf, p);
    let e = p + nw.len();
    lemma_holds_at_index(buf, e, t, 0);
    lemma_holds_at_index(buf, e, t, 1);
    lemma_holds_at_index(buf, e + 2, c, 0);
    lemma_holds_at_index(buf, e + 2, c, 1);
    lemma_u16_round_trip(q.typ);
    lemma_u16_round_trip(q.class);
}

/// Questions that encode read back unchanged from their wire form, one after
/// another.
pub proof fn lemma_questions_round_trip(qs: Seq<QuestionModel>, buf: Seq<u8>, p: int)
    requires
        questions_wire(qs) is Ok,
        holds_at(buf, p, questions_wire(qs)->Ok_0),
    ensures
        questions_at(buf, p, qs.len()) == Ok::<(Seq<QuestionModel>, int), DnsError>(
            (qs, p + questions_wire(qs)->Ok_0.len()),
        ),
    decreases qs.len(),
{
    if qs.len() == 0 {
        assert(qs =~= seq![]);
    } else {
        lemma_many_wire_first(question_writer(), qs);
        let a = question_wire(qs[0])->Ok_0;
        let b = questions_wire(qs.drop_first())->Ok_0;
        lemma_holds_at_split(buf, p, a, b);
        lemma_question_round_trip(qs[0], buf, p);
        lemma_questions_round_trip(qs.drop_first(), buf, p + a.len());
        assert(seq![qs[0]] + qs.drop_first() =~= qs);
    }
}

} // verus!
