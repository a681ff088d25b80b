use rust_dns::error::DnsError;
use rust_dns::header::{Header, Opcode, Rcode};
use rust_dns::packet::{parse_dns_packet, serialize_dns_packet, DnsPacket};
use rust_dns::question::Question;
use rust_dns::record::{Class, Data, Record, RecordType};

fn header(questions: u16, answers: u16, authorities: u16, additionals: u16) -> Header {
    Header {
        id: 9398,
        query: false,
        opcode: Opcode::Query,
        authoritative_answer: true,
        truncation: false,
        recursion_desired: true,
        recursion_available: false,
        reserved: 0,
        rcode: Rcode::Success,
        questions,
        answers,
        authoritative_entries: authorities,
        resource_entries: additionals,
    }
}

fn answer() -> Record {
    Record {
        name: "example.com".to_string(),
        record_type: RecordType::A,
        class: Class::In,
        ttl: 215,
        len: 4,
        data: Data::Addr([127, 0, 0, 1]),
    }
}

fn packet() -> DnsPacket {
    DnsPacket {
        header: header(1, 1, 1, 1),
        questions: vec![Question { name: "example.com".to_string(), typ: 1, class: 1 }],
        answers: vec![answer()],
        authoritative_entries: vec![Record {
            name: "com".to_string(),
            record_type: RecordType::Ns,
            class: Class::In,
            ttl: 86400,
            len: 3,
            data: Data::Unknown(vec![1, b'a', 0]),
        }],
        resource_entries: vec![Record {
            name: ".".to_string(),
            record_type: RecordType::Unknown(41),
            class: Class::Unknown(512),
            ttl: 0,
            len: 0,
            data: Data::Unknown(vec![]),
        }],
    }
}

#[test]
fn message_round_trips() {
    let packet = packet();
    let bytes = serialize_dns_packet(&packet).unwrap();
    assert_eq!(parse_dns_packet(&bytes), Ok(packet));
}

#[test]
fn empty_message_is_its_header() {
    let packet = DnsPacket {
        header: header(0, 0, 0, 0),
        questions: vec![],
        answers: vec![],
        authoritative_entries: vec![],
        resource_entries: vec![],
    };
    let bytes = serialize_dns_packet(&packet).unwrap();
    assert_eq!(bytes, vec![0x24, 0xB6, 0x85, 0, 0, 0, 0, 0, 0, 0, 0, 0]);
    assert_eq!(parse_dns_packet(&bytes), Ok(packet));
}

#[test]
fn response_with_compressed_answer_name() {
    let mut bytes = vec![0x24, 0xB6, 0x84, 0x00, 0, 1, 0, 1, 0, 0, 0, 0];
    bytes.extend([7, b'e', b'x', b'a', b'm', b'p', b'l', b'e', 3, b'c', b'o', b'm', 0, 0, 1, 0, 1]);
    bytes.extend([0xC0, 0x0C, 0, 1, 0, 1, 0, 0, 0, 100, 0, 4, 127, 0, 0, 1]);
    let packet = parse_dns_packet(&bytes).unwrap();
    assert_eq!(packet.questions[0].name, "example.com");
    let mut expected = answer();
    expected.ttl = 100;
    assert_eq!(packet.answers, vec![expected]);
    assert!(packet.header.authoritative_answer);
    assert!(!packet.header.query);
}

#[test]
fn trailing_bytes_are_ignored() {
    let mut bytes = serialize_dns_packet(&packet()).unwrap();
    bytes.extend([0xFF, 0xFF, 0xFF]);
    assert_eq!(parse_dns_packet(&bytes), Ok(packet()));
}

#[test]
fn counts_decide_how_much_is_read() {
    let mut bytes = serialize_dns_packet(&packet()).unwrap();
    bytes[11] = 0;
    let parsed = parse_dns_packet(&bytes).unwrap();
    assert_eq!(parsed.resource_entries, vec![]);
    assert_eq!(parsed.authoritative_entries, packet().authoritative_entries);
    bytes[7] = 2;
    bytes[11] = 1;
    assert_eq!(parse_dns_packet(&bytes), Err(DnsError::OutOfBounds));
}

#[test]
fn short_message_is_out_of_bounds() {
    assert_eq!(parse_dns_packet(&[0u8; 11]), Err(DnsError::OutOfBounds));
    assert_eq!(parse_dns_packet(&[]), Err(DnsError::OutOfBounds));
}

#[test]
fn counts_must_match_sections() {
    let mut packet = packet();
    packet.header.answers = 2;
    assert_eq!(serialize_dns_packet(&packet), Err(DnsError::CountMismatch));
}

#[test]
fn entry_errors_stop_the_encoder() {
    let mut packet = packet();
    packet.answers[0].name = "a".repeat(70);
    assert_eq!(serialize_dns_packet(&packet), Err(DnsError::LabelTooLong));
}
