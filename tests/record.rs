use rust_dns::buffer::ByteBuffer;
use rust_dns::error::DnsError;
use rust_dns::record::{
    parse_class, parse_data, parse_record_type, parse_records, parse_single_record, serialize_class,
    serialize_data, serialize_record_type, serialize_records, serialize_single_record, Class, Data,
    Record, RecordType,
};

fn example_com() -> Vec<u8> {
    vec![
        7, b'e', b'x', b'a', b'm', b'p', b'l', b'e', 3, b'c', b'o', b'm', 0,
    ]
}

fn a_record() -> Record {
    Record {
        name: "example.com".to_string(),
        record_type: RecordType::A,
        class: Class::In,
        ttl: 215,
        len: 4,
        data: Data::Addr([127, 0, 0, 1]),
    }
}

#[test]
fn a_record_wire_form() {
    let mut expected = example_com();
    expected.extend([0, 1, 0, 1, 0, 0, 0, 215, 0, 4, 127, 0, 0, 1]);
    assert_eq!(serialize_single_record(&a_record()).unwrap(), expected);
    let mut buf = ByteBuffer::from(&expected);
    assert_eq!(parse_single_record(&mut buf).unwrap(), a_record());
    assert_eq!(buf.pos(), expected.len());
}

#[test]
fn record_longer_than_the_buffer_is_truncated() {
    let mut bytes = example_com();
    bytes.extend([0, 16, 0, 1, 0, 0, 0, 60, 0, 10]);
    bytes.extend([1, 2, 3, 4]);
    let mut buf = ByteBuffer::from(&bytes);
    assert_eq!(parse_single_record(&mut buf), Err(DnsError::TruncatedRecord));
}

#[test]
fn record_cut_before_its_data_length_is_out_of_bounds() {
    let mut bytes = example_com();
    bytes.extend([0, 16, 0, 1, 0, 0, 0, 60, 0]);
    let mut buf = ByteBuffer::from(&bytes);
    assert_eq!(parse_single_record(&mut buf), Err(DnsError::OutOfBounds));
}

#[test]
fn a_record_with_three_bytes_is_a_malformed_address() {
    let mut bytes = example_com();
    bytes.extend([0, 1, 0, 1, 0, 0, 0, 60, 0, 3, 10, 0, 0]);
    let mut buf = ByteBuffer::from(&bytes);
    assert_eq!(parse_single_record(&mut buf), Err(DnsError::MalformedAddress));
}

#[test]
fn unknown_types_and_classes_pass_through() {
    let record = Record {
        name: "example.com".to_string(),
        record_type: RecordType::Unknown(16),
        class: Class::Unknown(3),
        ttl: -1,
        len: 3,
        data: Data::Unknown(vec![2, b'h', b'i']),
    };
    let bytes = serialize_single_record(&record).unwrap();
    let mut expected = example_com();
    expected.extend([0, 16, 0, 3, 0xFF, 0xFF, 0xFF, 0xFF, 0, 3, 2, b'h', b'i']);
    assert_eq!(bytes, expected);
    let mut buf = ByteBuffer::from(&bytes);
    assert_eq!(parse_single_record(&mut buf).unwrap(), record);
}

#[test]
fn ns_record_keeps_its_data() {
    let record = Record {
        name: "example.com".to_string(),
        record_type: RecordType::Ns,
        class: Class::In,
        ttl: 3600,
        len: 0,
        data: Data::Unknown(vec![]),
    };
    let bytes = serialize_single_record(&record).unwrap();
    let mut buf = ByteBuffer::from(&bytes);
    assert_eq!(parse_single_record(&mut buf).unwrap(), record);
}

#[test]
fn declared_length_must_count_the_data() {
    let mut record = a_record();
    record.len = 5;
    assert_eq!(serialize_single_record(&record), Err(DnsError::LengthMismatch));
}

#[test]
fn name_errors_come_before_length_errors() {
    let mut record = a_record();
    record.name = "bad..name".to_string();
    record.len = 5;
    assert_eq!(serialize_single_record(&record), Err(DnsError::EmptyLabel));
}

#[test]
fn records_round_trip() {
    let records = vec![
        a_record(),
        Record {
            name: "example.org".to_string(),
            record_type: RecordType::Unknown(5),
            class: Class::In,
            ttl: 0,
            len: 2,
            data: Data::Unknown(vec![0xC0, 0x0C]),
        },
    ];
    let bytes = serialize_records(&records).unwrap();
    let mut buf = ByteBuffer::from(&bytes);
    assert_eq!(parse_records(&mut buf, 2).unwrap(), records);
    assert_eq!(buf.pos(), bytes.len());
}

#[test]
fn type_and_class_codes() {
    assert_eq!(parse_record_type(1), RecordType::A);
    assert_eq!(parse_record_type(2), RecordType::Ns);
    assert_eq!(parse_record_type(0x1234), RecordType::Unknown(0x1234));
    assert_eq!(serialize_record_type(&RecordType::Ns), vec![0, 2]);
    assert_eq!(serialize_record_type(&RecordType::Unknown(0x1234)), vec![0x12, 0x34]);
    assert_eq!(parse_class(1), Class::In);
    assert_eq!(parse_class(255), Class::Unknown(255));
    assert_eq!(serialize_class(&Class::In), vec![0, 1]);
    assert_eq!(serialize_class(&Class::Unknown(0x0102)), vec![1, 2]);
}

#[test]
fn data_by_type() {
    assert_eq!(parse_data(&RecordType::A, &[10, 0, 0, 1]), Ok(Data::Addr([10, 0, 0, 1])));
    assert_eq!(parse_data(&RecordType::A, &[10, 0, 0, 1, 5]), Err(DnsError::MalformedAddress));
    assert_eq!(parse_data(&RecordType::Ns, &[1, 2]), Ok(Data::Unknown(vec![1, 2])));
    assert_eq!(serialize_data(&Data::Addr([1, 2, 3, 4])), vec![1, 2, 3, 4]);
    assert_eq!(serialize_data(&Data::Unknown(vec![9])), vec![9]);
}
