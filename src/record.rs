//! Resource records: a name, type, class, time to live, data length and data.
use crate::buffer::ByteBuffer;
use crate::error::DnsError;
use crate::name::{
    encode_name, lemma_name_round_trip, name_at, name_encodes, parse_name, serialize_name,
};
use crate::section::{
    holds_at, lemma_holds_at_index, lemma_holds_at_split, lemma_many_at_step,
    lemma_many_wire_first, lemma_many_wire_prefix_err, many_at, many_wire, prepend_all,
};
use crate::wire::{
    be_i32, be_u16, extend_bytes, i32_bytes, i32_to_bytes, lemma_i32_round_trip,
    lemma_u16_round_trip, u16_bytes, u16_to_bytes,
};
use vstd::prelude::*;
use vstd::slice::slice_to_vec;
use vstd::utf8::encode_utf8;

verus! {

/// The type of a record.
#[derive(Debug, Clone, Copy, PartialEq, Eq, Structural)]
pub enum RecordType {
    /// An IPv4 address (1).
    A,
    /// An authoritative name server (2).
    Ns,
    /// Any other type, by its number.
    Unknown(u16),
}

/// The class of a record.
#[derive(Debug, Clone, Copy, PartialEq, Eq, Structural)]
pub enum Class {
    /// The Internet (1).
    In,
    /// Any other class, by its number.
    Unknown(u16),
}

/// The data of a record: an IPv4 address for type A, the bytes as they stand for
/// any other type.
#[derive(Debug, Clone, PartialEq, Eq)]
pub enum Data {
    Addr([u8; 4]),
    Unknown(Vec<u8>),
}

/// A resource record.
#[derive(Debug, Clone, PartialEq, Eq)]
pub struct Record {
    pub name: String,
    pub record_type: RecordType,
    pub class: Class,
    pub ttl: i32,
    pub len: u16,
    pub data: Data,
}

/// The data of a record as a value.
pub ghost enum DataModel {
    Addr(Seq<u8>),
    Unknown(Seq<u8>),
}

/// A record as a value.
pub ghost struct RecordModel {
    pub name: Seq<char>,
    pub record_type: RecordType,
    pub class: Class,
    pub ttl: i32,
    pub len: u16,
    pub data: DataModel,
}

impl View for Data {
    type V = DataModel;

    open spec fn view(&self) -> DataModel {
        match self {
            Data::Addr(a) => DataModel::Addr(a@),
            Data::Unknown(v) => DataModel::Unknown(v@),
        }
    }
}

impl View for Record {
    type V = RecordModel;

    open spec fn view(&self) -> RecordModel {
        RecordModel {
            name: self.name@,
            record_type: self.record_type,
            class: self.class,
            ttl: self.ttl,
            len: self.len,
            data: self.data@,
        }
    }
}

/// The models of a list of records.
pub open spec fn records_view(rs: Seq<Record>) -> Seq<RecordModel> {
    rs.map_values(|r: Record| r@)
}

/// The type that the number `v` stands for.
pub open spec fn record_type_of(v: u16) -> RecordType {
    match v {
        1 => RecordType::A,
        2 => RecordType::Ns,
        _ => RecordType::Unknown(v),
    }
}

/// The number of a type.
pub open spec fn record_type_code(t: RecordType) -> u16 {
    match t {
        RecordType::A => 1,
        RecordType::Ns => 2,
        RecordType::Unknown(v) => v,
    }
}

/// The class that the number `v` stands for.
pub open spec fn class_of(v: u16) -> Class {
    match v {
        1 => Class::In,
        _ => Class::Unknown(v),
    }
}

/// The number of a class.
pub open spec fn class_code(c: Class) -> u16 {
    match c {
        Class::In => 1,
        Class::Unknown(v) => v,
    }
}

/// The bytes of record data.
pub open spec fn data_bytes(d: DataModel) -> Seq<u8> {
    match d {
        DataModel::Addr(a) => a,
        DataModel::Unknown(b) => b,
    }
}

/// The data of a record of type `t` whose data bytes are `b`, or why there is none.
pub open spec fn data_of(t: RecordType, b: Seq<u8>) -> Result<DataModel, DnsError> {
    if t == RecordType::A {
        if b.len() == 4 {
            Ok(DataModel::Addr(b))
        } else {
            Err(DnsError::MalformedAddress)
        }
    } else {
        Ok(DataModel::Unknown(b))
    }
}

impl RecordType {
    /// An unknown type holds a number that no other variant names.
    pub open spec fn wf(self) -> bool {
        match self {
            RecordType::Unknown(v) => v != 1 && v != 2,
            _ => true,
        }
    }
}

impl Class {
    /// An unknown class holds a number that no other variant names.
    pub open spec fn wf(self) -> bool {
        match self {
            Class::Unknown(v) => v != 1,
            _ => true,
        }
    }
}

impl RecordModel {
    /// The record is as decoding makes one: a name that has a wire form, type and
    /// class in canonical form, an address exactly for type A, and a data length that
    /// counts the data.
    pub open spec fn wf(self) -> bool {
        &&& name_encodes(self.name)
        &&& self.record_type.wf()
        &&& self.class.wf()
        &&& (self.record_type == RecordType::A) == (self.data is Addr)
        &&& data_bytes(self.data).len() == self.len
        &&& self.data matches DataModel::Addr(a) ==> a.len() == 4
    }
}

/// The record at offset `pos` of `buf`, and the offset just after it.
pub open spec fn record_at(buf: Seq<u8>, pos: int) -> Result<(RecordModel, int), DnsError> {
    match name_at(buf, pos) {
        Ok((name, p)) => if p + 10 > buf.len() {
            Err(DnsError::OutOfBounds)
        } else {
            let record_type = record_type_of(be_u16(buf[p], buf[p + 1]));
            let len = be_u16(buf[p + 8], buf[p + 9]);
            if p + 10 + len > buf.len() {
                Err(DnsError::TruncatedRecord)
            } else {
                match data_of(record_type, buf.subrange(p + 10, p + 10 + len)) {
                    Ok(data) => Ok(
                        (
                            RecordModel {
                                name,
                                record_type,
                                class: class_of(be_u16(buf[p + 2], buf[p + 3])),
                                ttl: be_i32(buf[p + 4], buf[p + 5], buf[p + 6], buf[p + 7]),
                                len,
                                data,
                            },
                            p + 10 + len,
                        ),
                    ),
                    Err(e) => Err(e),
                }
            }
        },
        Err(e) => Err(e),
    }
}

/// [`record_at`] as a value.
pub open spec fn record_reader() -> spec_fn(Seq<u8>, int) -> Result<(RecordModel, int), DnsError> {
    |buf: Seq<u8>, pos: int| record_at(buf, pos)
}

/// `count` records from offset `pos` of `buf`, and the offset after the last.
pub open spec fn records_at(buf: Seq<u8>, pos: int, count: nat) -> Result<
    (Seq<RecordModel>, int),
    DnsError,
> {
    many_at(record_reader(), buf, pos, count)
}

/// The wire form of a record, or why it has none.
pub open spec fn record_wire(r: RecordModel) -> Result<Seq<u8>, DnsError> {
    match encode_name(encode_utf8(r.name)) {
        Ok(w) => if data_bytes(r.data).len() != r.len {
            Err(DnsError::LengthMismatch)
        } else {
            Ok(
                w + u16_bytes(record_type_code(r.record_type)) + u16_bytes(class_code(r.class))
                    + i32_bytes(r.ttl) + u16_bytes(r.len) + data_bytes(r.data),
            )
        },
        Err(e) => Err(e),
    }
}

/// [`record_wire`] as a value.
pub open spec fn record_writer() -> spec_fn(RecordModel) -> Result<Seq<u8>, DnsError> {
    |r: RecordModel| record_wire(r)
}

/// The wire form of a list of records, or why it has none.
pub open spec fn records_wire(rs: Seq<RecordModel>) -> Result<Seq<u8>, DnsError> {
    many_wire(record_writer(), rs)
}

/// The type that the number `record_type` stands for.
pub fn parse_record_type(record_type: u16) -> (r: RecordType)
    ensures
        r == record_type_of(record_type),
        r.wf(),
{
    match record_type {
        1 => RecordType::A,
        2 => RecordType::Ns,
        _ => RecordType::Unknown(record_type),
    }
}

/// The number of a type, big-endian.
pub fn serialize_record_type(record_type: &RecordType) -> (r: Vec<u8>)
    ensures
        r@ == u16_bytes(record_type_code(*record_type)),
{
    let code: u16 = match record_type {
        RecordType::A => 1,
        RecordType::Ns => 2,
        RecordType::Unknown(value) => *value,
    };
    let b = u16_to_bytes(code);
    let mut r: Vec<u8> = Vec::new();
    extend_bytes(&mut r, &b);
    r
}

/// The class that the number `class` stands for.
pub fn parse_class(class: u16) -> (r: Class)
    ensures
        r == class_of(class),
        r.wf(),
{
    match class {
        1 => Class::In,
        _ => Class::Unknown(class),
    }
}

/// The number of a class, big-endian.
pub fn serialize_class(class: &Class) -> (r: Vec<u8>)
    ensures
        r@ == u16_bytes(class_code(*class)),
{
    let code: u16 = match class {
        Class::In => 1,
        Class::Unknown(value) => *value,
    };
    let b = u16_to_bytes(code);
    let mut r: Vec<u8> = Vec::new();
    extend_bytes(&mut r, &b);
    r
}

/// The data of a record of type `record_type` whose data bytes are `data`: an
/// address for type A, which must be four bytes long, else the bytes as they stand.
pub fn parse_data(record_type: &RecordType, data: &[u8]) -> (r: Result<Data, DnsError>)
    ensures
        match data_of(*record_type, data@) {
            Ok(d) => r is Ok && r->Ok_0@ == d,
            Err(e) => r == Err::<Data, DnsError>(e),
        },
{
    match record_type {
        RecordType::A => {
            if data.len() != 4 {
                return Err(DnsError::MalformedAddress);
            }
            let addr: [u8; 4] = [data[0], data[1], data[2], data[3]];
            assert(addr@ =~= data@);
            Ok(Data::Addr(addr))
        },
        _ => Ok(Data::Unknown(slice_to_vec(data))),
    }
}

/// The bytes of record data.
pub fn serialize_data(data: &Data) -> (r: Vec<u8>)
    ensures
        r@ == data_bytes(data@),
{
    let mut r: Vec<u8> = Vec::new();
    match data {
        Data::Addr(addr) => extend_bytes(&mut r, addr),
        Data::Unknown(bytes) => extend_bytes(&mut r, bytes.as_slice()),
    }
    r
}

/// Reads one record at the cursor. The data must fit in the buffer
/// (`TruncatedRecord` otherwise); the data of a type A record must be four bytes
/// long (`MalformedAddress` otherwise).
pub fn parse_single_record(packet: &mut ByteBuffer) -> (r: Result<Record, DnsError>)
    requires
        old(packet).wf(),
    ensures
        final(packet).wf(),
        final(packet).data() == old(packet).data(),
        match record_at(old(packet).data(), old(packet).position()) {
            Ok((rec, next)) => r is Ok && r->Ok_0@ == rec && final(packet).position() == next,
            Err(e) => r == Err::<Record, DnsError>(e),
        },
{
    let name = parse_name(packet)?;
    let record_type = parse_record_type(packet.read_u16()?);
    let class = parse_class(packet.read_u16()?);
    let ttl = packet.read_i32()?;
    let len = packet.read_u16()?;
    let bytes = match packet.read_range(len as usize) {
        Ok(bytes) => bytes,
        Err(_) => {
            return Err(DnsError::TruncatedRecord);
        },
    };
    let data = parse_data(&record_type, bytes)?;
    Ok(Record { name, record_type, class, ttl, len, data })
}

/// Reads `count` records at the cursor, one after another.
pub fn parse_records(packet: &mut ByteBuffer, count: usize) -> (r: Result<Vec<Record>, DnsError>)
    requires
        old(packet).wf(),
    ensures
        final(packet).wf(),
        final(packet).data() == old(packet).data(),
        match records_at(old(packet).data(), old(packet).position(), count as nat) {
            Ok((rs, next)) => {
                &&& r is Ok
                &&& records_view(r->Ok_0@) == rs
                &&& final(packet).position() == next
            },
            Err(e) => r == Err::<Vec<Record>, DnsError>(e),
        },
{
    let ghost buf = packet.data();
    let ghost start = packet.position();
    let mut records: Vec<Record> = Vec::new();
    let mut i: usize = 0;
    while i < count
        invariant
            packet.wf(),
            packet.data() == buf,
            buf == old(packet).data(),
            start == old(packet).position(),
            0 <= i <= count,
            records_at(buf, start, count as nat) == prepend_all(
                records_view(records@),
                records_at(buf, packet.position(), (count - i) as nat),
            ),
        decreases count - i,
    {
        let ghost pos = packet.position();
        let record = parse_single_record(packet)?;
        proof {
            lemma_many_at_step(record_reader(), buf, pos, (count - i) as nat, records_view(records@));
        }
        let ghost prev = records@;
        records.push(record);
        assert(records_view(records@) =~= records_view(prev).push(record@));
        i = i + 1;
    }
    assert(records_view(records@) + seq![] =~= records_view(records@));
    Ok(records)
}

/// The wire form of one record. Fails when the name has no wire form, or when the
/// declared data length differs from the length of the data (`LengthMismatch`).
pub fn serialize_single_record(record: &Record) -> (r: Result<Vec<u8>, DnsError>)
    ensures
        match record_wire(record@) {
            Ok(w) => r is Ok && r->Ok_0@ == w,
            Err(e) => r == Err::<Vec<u8>, DnsError>(e),
        },
{
    let mut bytes = serialize_name(record.name.as_str())?;
    let data = serialize_data(&record.data);
    if data.len() != record.len as usize {
        return Err(DnsError::LengthMismatch);
    }
    let record_type = serialize_record_type(&record.record_type);
    extend_bytes(&mut bytes, record_type.as_slice());
    let class = serialize_class(&record.class);
    extend_bytes(&mut bytes, class.as_slice());
    let ttl = i32_to_bytes(record.ttl);
    extend_bytes(&mut bytes, &ttl);
    let len = u16_to_bytes(record.len);
    extend_bytes(&mut bytes, &len);
    extend_bytes(&mut bytes, data.as_slice());
    Ok(bytes)
}

/// The wire forms of `records`, one after another; fails on the first that has
/// none.
pub fn serialize_records(records: &[Record]) -> (r: Result<Vec<u8>, DnsError>)
    ensures
        match records_wire(records_view(records@)) {
            Ok(w) => r is Ok && r->Ok_0@ == w,
            Err(e) => r == Err::<Vec<u8>, DnsError>(e),
        },
{
    let ghost rs = records_view(records@);
    let mut bytes: Vec<u8> = Vec::new();
    let mut i: usize = 0;
    assert(rs.subrange(0, 0) =~= seq![]);
    while i < records.len()
        invariant
            rs == records_view(records@),
            0 <= i <= records@.len(),
            records_wire(rs.subrange(0, i as int)) == Ok::<Seq<u8>, DnsError>(bytes@),
        decreases records@.len() - i,
    {
        assert(rs.subrange(0, i + 1).drop_last() =~= rs.subrange(0, i as int));
        let one = match serialize_single_record(&records[i]) {
            Ok(one) => one,
            Err(e) => {
                proof {
                    lemma_many_wire_prefix_err(record_writer(), rs, i + 1);
                }
                return Err(e);
            },
        };
        extend_bytes(&mut bytes, one.as_slice());
        i = i + 1;
    }
    assert(rs.subrange(0, records@.len() as int) =~= rs);
    Ok(bytes)
}

/// A well-formed record that encodes reads back unchanged from its wire form.
pub proof fn lemma_record_round_trip(r: RecordModel, buf: Seq<u8>, p: int)
    requires
        r.wf(),
        holds_at(buf, p, record_wire(r)->Ok_0),
    ensures
        record_wire(r) is Ok,
        record_at(buf, p) == Ok::<(RecordModel, int), DnsError>(
            (r, p + record_wire(r)->Ok_0.len()),
        ),
{
    let nw = encode_name(encode_utf8(r.name))->Ok_0;
    let t = u16_bytes(record_type_code(r.record_type));
    let c = u16_bytes(class_code(r.class));
    let ttl = i32_bytes(r.ttl);
    let l = u16_bytes(r.len);
    let d = data_bytes(r.data);
    lemma_holds_at_split(buf, p, nw + t + c + ttl + l, d);
    lemma_holds_at_split(buf, p, nw + t + c + ttl, l);
    lemma_holds_at_split(buf, p, nw + t + c, ttl);
    lemma_holds_at_split(buf, p, nw + t, c);
    lemma_holds_at_split(buf, p, nw, t);
    lemma_name_round_trip(r.name, buf, p);
    let e = p + nw.len();
    lemma_holds_at_index(buf, e, t, 0);
    lemma_holds_at_index(buf, e, t, 1);
    lemma_holds_at_index(buf, e + 2, c, 0);
    lemma_holds_at_index(buf, e + 2, c, 1);
    lemma_holds_at_index(buf, e + 4, ttl, 0);
    lemma_holds_at_index(buf, e + 4, ttl, 1);
    lemma_holds_at_index(buf, e + 4, ttl, 2);
    lemma_holds_at_index(buf, e + 4, ttl, 3);
    lemma_holds_at_index(buf, e + 8, l, 0);
    lemma_holds_at_index(buf, e + 8, l, 1);
    lemma_u16_round_trip(record_type_code(r.record_type));
    lemma_u16_round_trip(class_code(r.class));
    lemma_u16_round_trip(r.len);
    lemma_i32_round_trip(r.ttl);
    assert(buf.subrange(e + 10, e + 10 + r.len) == d);
}

/// Well-formed records that encode read back unchanged from their wire form, one
/// after another.
pub proof fn lemma_records_round_trip(rs: Seq<RecordModel>, buf: Seq<u8>, p: int)
    requires
        forall|i: int| 0 <= i < rs.len() ==> (#[trigger] rs[i]).wf(),
        records_wire(rs) is Ok,
        holds_at(buf, p, records_wire(rs)->Ok_0),
    ensures
        records_at(buf, p, rs.len()) == Ok::<(Seq<RecordModel>, int), DnsError>(
            (rs, p + records_wire(rs)->Ok_0.len()),
        ),
    decreases rs.len(),
{
    if rs.len() == 0 {
        assert(rs =~= seq![]);
    } else {
        lemma_many_wire_first(record_writer(), rs);
        let a = record_wire(rs[0])->Ok_0;
        let b = records_wire(rs.drop_first())->Ok_0;
        lemma_holds_at_split(buf, p, a, b);
        lemma_record_round_trip(rs[0], buf, p);
        assert forall|i: int| 0 <= i < rs.drop_first().len() implies (
        #[trigger] rs.drop_first()[i]).wf() by {
            assert(rs.drop_first()[i] == rs[i + 1]);
        }
        lemma_records_round_trip(rs.drop_first(), buf, p + a.len());
        assert(seq![rs[0]] + rs.drop_first() =~= rs);
    }
}

} // verus!
