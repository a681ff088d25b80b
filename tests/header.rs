use rust_dns::buffer::ByteBuffer;
use rust_dns::error::DnsError;
use rust_dns::header::{parse_header, serialize_header, Header, Opcode, Rcode};

// A query header: id 9398, AA and TC set, RD clear, RA set, reserved bits 0b100,
// response code 0, one question.
const QUERY_PACKET: [u8; 12] = [
    0x24, 0xB6, 0b0000_0110, 0b1100_0000, 0x00, 0x01, 0x00, 0x00, 0x00, 0x00, 0x00, 0x00,
];

const QUERY_ID: u16 = 9398;
const QUERY_QUERY: bool = true;
const QUERY_OPCODE: u8 = 0;
const QUERY_AUTHORITATIVE_ANSWER: bool = true;
const QUERY_TRUNCATION: bool = true;
const QUERY_RECURSION_DESIRED: bool = false;
const QUERY_RECURSION_AVAILABLE: bool = true;
const QUERY_RESERVED: u8 = 0b100;
const QUERY_RCODE: u8 = 0;
const QUERY_QUESTIONS: u16 = 1;
const QUERY_ANSWERS: u16 = 0;
const QUERY_AUTHORITATIVE_ENTRIES: u16 = 0;
const QUERY_RESOURCE_ENTRIES: u16 = 0;

fn parsed() -> Header {
    let bytes = &QUERY_PACKET[0..12];
    let mut buf = ByteBuffer::from(bytes);
    parse_header(&mut buf).unwrap()
}

#[test]
fn test_serialize_header_returns_expected_value() {
    let header = Header {
        id: 100,
        query: false,
        opcode: Opcode::from(0b111),
        authoritative_answer: true,
        truncation: false,
        recursion_desired: true,
        recursion_available: false,
        reserved: 0b000,
        rcode: Rcode::from(0b1111),
        questions: 3,
        answers: 4,
        authoritative_entries: 5,
        resource_entries: 6,
    };
    let mut expected = vec![0; 12];
    expected[0] = (100 << 8) as u8;
    expected[1] = 100 as u8;
    // QR set (a response), opcode 0b0111 in bits 6-3, AA, RD.
    expected[2] = 0b10111101;
    expected[3] = 0b0001111;
    expected[4] = (3 << 8) as u8;
    expected[5] = 3 as u8;
    expected[6] = (4 << 8) as u8;
    expected[7] = 4 as u8;
    expected[8] = (5 << 8) as u8;
    expected[9] = 5 as u8;
    expected[10] = (6 << 8) as u8;
    expected[11] = 6 as u8;
    assert_eq!(serialize_header(&header), expected);
}

#[test]
fn test_parse_header_returns_expected_id() {
    assert_eq!(parsed().id, QUERY_ID);
}

#[test]
fn test_parse_header_returns_expected_query_flag() {
    assert_eq!(parsed().query, QUERY_QUERY);
}

#[test]
fn test_parse_header_returns_expected_opcode() {
    assert_eq!(u8::from(parsed().opcode), QUERY_OPCODE);
}

#[test]
fn test_parse_header_returns_expected_authoritative_answer_flag() {
    assert_eq!(parsed().authoritative_answer, QUERY_AUTHORITATIVE_ANSWER);
}

#[test]
fn test_parse_header_returns_expected_truncation_flag() {
    assert_eq!(parsed().truncation, QUERY_TRUNCATION);
}

#[test]
fn test_parse_header_returns_expected_recursion_desired_flag() {
    assert_eq!(parsed().recursion_desired, QUERY_RECURSION_DESIRED);
}

#[test]
fn test_parse_header_returns_expected_recursion_available_flag() {
    assert_eq!(parsed().recursion_available, QUERY_RECURSION_AVAILABLE);
}

#[test]
fn test_parse_header_returns_expected_reserved_flags() {
    assert_eq!(parsed().reserved, QUERY_RESERVED);
}

#[test]
fn test_parse_header_returns_expected_rcode() {
    assert_eq!(u8::from(parsed().rcode), QUERY_RCODE);
}

#[test]
fn test_parse_header_returns_expected_questions() {
    assert_eq!(parsed().questions, QUERY_QUESTIONS);
}

#[test]
fn test_parse_header_returns_expected_answers() {
    assert_eq!(parsed().answers, QUERY_ANSWERS);
}

#[test]
fn test_parse_header_returns_expected_authoritative_entries() {
    assert_eq!(parsed().authoritative_entries, QUERY_AUTHORITATIVE_ENTRIES);
}

#[test]
fn test_parse_header_returns_expected_resource_entries() {
    assert_eq!(parsed().resource_entries, QUERY_RESOURCE_ENTRIES);
}

#[test]
fn header_flags_of_a_query_with_aa_and_rd() {
    let header = Header {
        id: 0,
        query: true,
        opcode: Opcode::Query,
        authoritative_answer: true,
        truncation: false,
        recursion_desired: true,
        recursion_available: false,
        reserved: 0,
        rcode: Rcode::Success,
        questions: 0,
        answers: 0,
        authoritative_entries: 0,
        resource_entries: 0,
    };
    let bytes = serialize_header(&header);
    assert_eq!(bytes.len(), 12);
    assert_eq!(bytes[2], 0b0000_0101);
    assert_eq!(bytes[3], 0);
}

#[test]
fn header_round_trips_every_field() {
    let header = Header {
        id: 0xBEEF,
        query: false,
        opcode: Opcode::Status,
        authoritative_answer: false,
        truncation: true,
        recursion_desired: false,
        recursion_available: true,
        reserved: 0b101,
        rcode: Rcode::Refused,
        questions: 0x1234,
        answers: 0x0102,
        authoritative_entries: 0xFFFF,
        resource_entries: 7,
    };
    let bytes = serialize_header(&header);
    assert_eq!(bytes, vec![0xBE, 0xEF, 0x92, 0xD5, 0x12, 0x34, 0x01, 0x02, 0xFF, 0xFF, 0, 7]);
    let mut buf = ByteBuffer::from(&bytes);
    assert_eq!(parse_header(&mut buf), Ok(header));
    assert_eq!(buf.pos(), 12);
}

#[test]
fn header_needs_twelve_bytes() {
    let bytes = vec![0u8; 11];
    let mut buf = ByteBuffer::from(&bytes);
    assert_eq!(parse_header(&mut buf), Err(DnsError::OutOfBounds));
    assert_eq!(buf.pos(), 0);
}

#[test]
fn opcode_and_rcode_codes() {
    assert_eq!(Opcode::from(1), Opcode::InverseQuery);
    assert_eq!(Opcode::from(9), Opcode::Reserved(9));
    assert_eq!(u8::from(Opcode::Status), 2);
    assert_eq!(Rcode::from(3), Rcode::NameError);
    assert_eq!(Rcode::from(12), Rcode::Reserved(12));
    assert_eq!(u8::from(Rcode::NotImplemented), 4);
}
