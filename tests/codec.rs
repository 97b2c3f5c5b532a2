use dns::domain_name::{into_string, is_label, is_pointer, take_name, Name};
use dns::header::{Header, OpCode, ResponseCode, Type as MessageType};
use dns::resource_record::{Class, ResourceRecord, Type};
use dns::sections::{QClass, QType, Question};
use dns::{DecodeError, Message};

fn duckduckgo_query() -> Vec<u8> {
    vec![
        144, 200, 1, 0, 0, 1, 0, 0, 0, 0, 0, 0, 10, 100, 117, 99, 107, 100, 117, 99, 107, 103,
        111, 3, 99, 111, 109, 0, 0, 1, 0, 1,
    ]
}

fn query_header(qd: u16, an: u16) -> Header {
    Header {
        id: 37064,
        message_type: MessageType::Query,
        op_code: OpCode::Query,
        authoritive_answer: false,
        truncated: false,
        recursion_desired: true,
        recursion_available: false,
        z: 0,
        r_code: ResponseCode::NoError,
        qd_count: qd,
        an_count: an,
        ns_count: 0,
        ar_count: 0,
    }
}

fn is_short<T>(r: &Result<T, DecodeError>) -> bool {
    matches!(r, Err(DecodeError::NotEnoughBytes))
}

fn is_illegal<T>(r: &Result<T, DecodeError>) -> bool {
    matches!(r, Err(DecodeError::IllegalValue(_)))
}

#[test]
fn deserialize() {
    let query = duckduckgo_query();
    let (header, at) = Header::decode(&query, 0).unwrap();

    assert_eq!(
        header,
        Header {
            id: 37064,
            message_type: MessageType::Query,
            op_code: OpCode::Query,
            authoritive_answer: false,
            truncated: false,
            recursion_desired: true,
            recursion_available: false,
            z: 0,
            r_code: ResponseCode::NoError,
            qd_count: 1,
            an_count: 0,
            ns_count: 0,
            ar_count: 0,
        }
    );

    let (question, _) = Question::decode(&query, at).unwrap();
    assert_eq!(
        question,
        Question {
            qname: "duckduckgo.com".to_string(),
            qtype: QType::A,
            qclass: QClass::IN,
        }
    );
}

#[test]
fn header_scenario_fields_and_end() {
    let bytes = [144, 200, 1, 0, 0, 1, 0, 0, 0, 0, 0, 0];
    let (header, end) = Header::decode(&bytes, 0).unwrap();
    assert_eq!(header, query_header(1, 0));
    assert_eq!(end, 12);
}

#[test]
fn header_round_trip() {
    let header = Header {
        id: 0xBEEF,
        message_type: MessageType::Reply,
        op_code: OpCode::Status,
        authoritive_answer: true,
        truncated: false,
        recursion_desired: true,
        recursion_available: true,
        z: 5,
        r_code: ResponseCode::Refused,
        qd_count: 1,
        an_count: 2,
        ns_count: 3,
        ar_count: 0x1234,
    };
    let bytes = header.into_bytes();
    assert_eq!(bytes, vec![0xBE, 0xEF, 0x95, 0xD5, 0, 1, 0, 2, 0, 3, 0x12, 0x34]);
    let (decoded, end) = Header::decode(&bytes, 0).unwrap();
    assert_eq!(decoded, header);
    assert_eq!(end, 12);
}

#[test]
fn header_encodes_every_response_code_as_decoded() {
    let codes = [
        ResponseCode::NoError,
        ResponseCode::FormatError,
        ResponseCode::ServerFailure,
        ResponseCode::NameError,
        ResponseCode::NotImplemented,
        ResponseCode::Refused,
    ];
    for (i, code) in codes.iter().enumerate() {
        assert_eq!(code.code() as usize, i);
        let mut header = query_header(0, 0);
        header.r_code = *code;
        let bytes = header.into_bytes();
        assert_eq!(Header::decode(&bytes, 0).unwrap().0.r_code, *code);
    }
}

#[test]
fn header_truncated_is_short() {
    let bytes = [144, 200, 1, 0, 0, 1, 0, 0, 0, 0, 0, 0];
    for k in 0..12 {
        assert!(is_short(&Header::decode(&bytes[..k], 0)), "cut at {}", k);
    }
}

#[test]
fn header_illegal_opcode_and_rcode() {
    // opcode 3
    let bytes = [0, 0, 3 << 3, 0, 0, 0, 0, 0, 0, 0, 0, 0];
    assert!(is_illegal(&Header::decode(&bytes, 0)));
    // opcode is checked before the fourth byte is needed
    assert!(is_illegal(&Header::decode(&bytes[..3], 0)));
    // rcode 6
    let bytes = [0, 0, 0, 6, 0, 0, 0, 0, 0, 0, 0, 0];
    assert!(is_illegal(&Header::decode(&bytes, 0)));
    assert!(is_illegal(&OpCode::try_from_code(15)));
    assert!(is_illegal(&ResponseCode::try_from_code(6)));
    assert_eq!(OpCode::try_from_code(1).unwrap(), OpCode::IQuery);
    assert!(is_illegal(&MessageType::try_from_bit(2)));
}

#[test]
fn name_scenario_decodes_and_reencodes() {
    let bytes: Vec<u8> = vec![
        10, b'd', b'u', b'c', b'k', b'd', b'u', b'c', b'k', b'g', b'o', 3, b'c', b'o', b'm', 0,
    ];
    let (name, end) = take_name(&bytes, 0).unwrap();
    assert_eq!(end, 16);
    assert_eq!(name.0, bytes);
    assert_eq!(into_string(name).unwrap(), "duckduckgo.com");

    let question = Question {
        qname: "duckduckgo.com".to_string(),
        qtype: QType::A,
        qclass: QClass::IN,
    };
    let encoded = question.into_bytes();
    assert_eq!(&encoded[..16], &bytes[..]);
}

#[test]
fn name_with_pointer_is_resolved() {
    let mut buf = duckduckgo_query();
    // "www" then a pointer to the name at offset 12
    let start = buf.len();
    buf.extend_from_slice(&[3, b'w', b'w', b'w', 0xC0, 12]);
    let (name, end) = take_name(&buf, start).unwrap();
    assert_eq!(end, start + 6);
    assert_eq!(into_string(name).unwrap(), "www.duckduckgo.com");
    // a name that is only a pointer
    buf.extend_from_slice(&[0xC0, start as u8]);
    let (name, end) = take_name(&buf, start + 6).unwrap();
    assert_eq!(end, start + 8);
    assert_eq!(into_string(name).unwrap(), "www.duckduckgo.com");
}

#[test]
fn root_name_is_empty_text() {
    let (name, end) = take_name(&[0], 0).unwrap();
    assert_eq!(end, 1);
    assert_eq!(into_string(name).unwrap(), "");
    let question = Question { qname: String::new(), qtype: QType::NS, qclass: QClass::Any };
    assert!(question.is_encodable());
    let bytes = question.clone().into_bytes();
    assert_eq!(bytes, vec![0, 0, 2, 0, 255]);
    assert_eq!(Question::decode(&bytes, 0).unwrap(), (question, 5));
}

#[test]
fn pointer_to_itself_is_illegal() {
    let mut buf = vec![0u8; 12];
    buf.extend_from_slice(&[0xC0, 12]);
    assert!(is_illegal(&take_name(&buf, 12)));
}

#[test]
fn pointer_cycle_of_two_is_illegal() {
    let buf = [0xC0, 2, 0xC0, 0];
    assert!(is_illegal(&take_name(&buf, 0)));
    assert!(is_illegal(&take_name(&buf, 2)));
}

#[test]
fn label_loop_through_pointer_is_illegal() {
    let buf = [1, b'a', 0xC0, 0];
    assert!(is_illegal(&take_name(&buf, 0)));
}

#[test]
fn long_label_length_is_illegal() {
    for len in [64u8, 100, 0x80, 0xBF] {
        let mut buf = vec![len];
        buf.extend(std::iter::repeat(b'a').take(len as usize));
        buf.push(0);
        assert!(is_illegal(&take_name(&buf, 0)), "length {}", len);
    }
    // after another label too
    let buf = [1, b'a', 64, 0];
    assert!(is_illegal(&take_name(&buf, 0)));
}

#[test]
fn longest_name_is_accepted_and_longer_is_illegal() {
    // 4 labels of 63 bytes and the zero byte: 257 bytes, too long
    let mut buf = Vec::new();
    for _ in 0..4 {
        buf.push(63);
        buf.extend(std::iter::repeat(b'x').take(63));
    }
    buf.push(0);
    assert!(is_illegal(&take_name(&buf, 0)));
    // 3 labels of 63, one of 61, and the zero byte: 255 bytes
    let mut buf = Vec::new();
    for _ in 0..3 {
        buf.push(63);
        buf.extend(std::iter::repeat(b'x').take(63));
    }
    buf.push(61);
    buf.extend(std::iter::repeat(b'x').take(61));
    buf.push(0);
    assert_eq!(buf.len(), 255);
    let (name, end) = take_name(&buf, 0).unwrap();
    assert_eq!(end, 255);
    assert_eq!(name.0, buf);
}

#[test]
fn name_truncated_is_short() {
    let bytes = [3, b'c', b'o', b'm', 0];
    for k in 0..bytes.len() {
        assert!(is_short(&take_name(&bytes[..k], 0)), "cut at {}", k);
    }
    // a pointer past the end of the buffer
    assert!(is_short(&take_name(&[0xC0, 9], 0)));
}

#[test]
fn pointer_and_label_bytes() {
    assert!(is_pointer(0xC0));
    assert!(is_pointer(0xFF));
    assert!(!is_pointer(0x80));
    assert!(is_label(0));
    assert!(is_label(63));
    assert!(!is_label(64));
}

#[test]
fn into_string_rejects_names_with_pointers_or_bad_text() {
    assert!(is_illegal(&into_string(Name(vec![0xC0, 12]))));
    assert!(is_illegal(&into_string(Name(vec![1, b'a', 0, 7]))));
    assert!(is_illegal(&into_string(Name(vec![2, 0xFF, 0xFE, 0]))));
    assert_eq!(into_string(Name(vec![2, 0xC3, 0xA9, 0])).unwrap(), "é");
}

#[test]
fn question_round_trip() {
    let question = Question {
        qname: "mail.example.org".to_string(),
        qtype: QType::MX,
        qclass: QClass::CH,
    };
    let bytes = question.clone().into_bytes();
    let mut expected = vec![4, b'm', b'a', b'i', b'l', 7];
    expected.extend_from_slice(b"example");
    expected.extend_from_slice(&[3, b'o', b'r', b'g', 0, 0, 15, 0, 3]);
    assert_eq!(bytes, expected);
    assert_eq!(Question::decode(&bytes, 0).unwrap(), (question, bytes.len()));
}

#[test]
fn question_truncated_is_short() {
    let query = duckduckgo_query();
    for k in 12..query.len() {
        assert!(is_short(&Question::decode(&query[..k], 12)), "cut at {}", k);
    }
}

#[test]
fn question_illegal_type_class_and_text() {
    let mut bytes = vec![1, b'a', 0, 0, 17, 0, 1];
    assert!(is_illegal(&Question::decode(&bytes, 0)));
    bytes[4] = 252;
    assert_eq!(Question::decode(&bytes, 0).unwrap().0.qtype, QType::AXFR);
    bytes[6] = 5;
    assert!(is_illegal(&Question::decode(&bytes, 0)));
    let bytes = [1, 0xFF, 0, 0, 1, 0, 1];
    assert!(is_illegal(&Question::decode(&bytes, 0)));
    assert!(is_illegal(&QType::try_from_code(0)));
    assert!(is_illegal(&QType::try_from_code(28)));
    assert!(is_illegal(&QClass::try_from_code(254)));
    assert_eq!(QClass::try_from_code(255).unwrap(), QClass::Any);
    assert_eq!(QType::MAILA.code(), 254);
}

#[test]
fn question_encodability() {
    let q = |name: &str| Question { qname: name.to_string(), qtype: QType::A, qclass: QClass::IN };
    assert!(q("duckduckgo.com").is_encodable());
    assert!(!q("a..b").is_encodable());
    assert!(!q("a.").is_encodable());
    assert!(!q(".a").is_encodable());
    assert!(!q(&"x".repeat(64)).is_encodable());
    assert!(q(&"x".repeat(63)).is_encodable());
}

fn sample_record() -> ResourceRecord {
    ResourceRecord {
        name: vec![0xC0, 0x0C],
        r_type: Type::A,
        class: Class::IN,
        ttl: 300,
        rdlength: 4,
        rdata: vec![185, 24, 223, 10],
    }
}

#[test]
fn record_bytes_and_round_trip() {
    let record = sample_record();
    let bytes = record.clone().into_bytes();
    assert_eq!(bytes, vec![0xC0, 0x0C, 0, 1, 0, 1, 0, 0, 1, 44, 0, 4, 185, 24, 223, 10]);

    let plain = ResourceRecord { name: vec![3, b'c', b'o', b'm', 0], ..sample_record() };
    let bytes = plain.clone().into_bytes();
    assert_eq!(ResourceRecord::decode(&bytes, 0).unwrap(), (plain, bytes.len()));
}

#[test]
fn record_pointer_scenario_in_message() {
    let message = Message {
        header: query_header(1, 1),
        questions: vec![Question {
            qname: "duckduckgo.com".to_string(),
            qtype: QType::A,
            qclass: QClass::IN,
        }],
        answers: vec![sample_record()],
        authority: vec![],
        additional: vec![],
    };
    assert!(message.is_encodable());
    let bytes = message.clone().into_bytes();
    let decoded = Message::decode(&bytes).unwrap();
    assert_eq!(decoded.header, message.header);
    assert_eq!(decoded.questions, message.questions);
    let answer = &decoded.answers[0];
    assert_eq!(answer.name, bytes[12..28].to_vec());
    assert_eq!(answer.r_type, Type::A);
    assert_eq!(answer.class, Class::IN);
    assert_eq!(answer.ttl, 300);
    assert_eq!(answer.rdlength, 4);
    assert_eq!(answer.rdata, vec![185, 24, 223, 10]);
    assert_eq!(into_string(Name(answer.name.clone())).unwrap(), "duckduckgo.com");
}

#[test]
fn record_truncated_is_short() {
    let plain = ResourceRecord { name: vec![1, b'a', 0], ..sample_record() };
    let bytes = plain.into_bytes();
    for k in 0..bytes.len() {
        assert!(is_short(&ResourceRecord::decode(&bytes[..k], 0)), "cut at {}", k);
    }
}

#[test]
fn record_illegal_type_and_class() {
    let mut bytes = vec![0, 0, 29, 0, 1, 0, 0, 0, 0, 0, 0];
    assert!(is_illegal(&ResourceRecord::decode(&bytes, 0)));
    bytes[2] = 28;
    assert_eq!(ResourceRecord::decode(&bytes, 0).unwrap().0.r_type, Type::AAAA);
    bytes[4] = 255;
    assert!(is_illegal(&ResourceRecord::decode(&bytes, 0)));
    assert!(is_illegal(&Type::try_from_code(252)));
    assert!(is_illegal(&Class::try_from_code(5)));
    assert_eq!(Type::AAAA.into_bytes(), vec![0, 28]);
    assert_eq!(Class::HS.into_bytes(), vec![0, 4]);
}

#[test]
fn record_length_must_match_data() {
    let mut record = sample_record();
    assert!(record.is_encodable());
    record.rdlength = 5;
    assert!(!record.is_encodable());
}

#[test]
fn message_round_trip_and_counts() {
    let query = duckduckgo_query();
    let message = Message::decode(&query).unwrap();
    assert_eq!(message.questions.len(), 1);
    assert!(message.answers.is_empty());
    assert_eq!(message.clone().into_bytes(), query);

    let mut padded = query.clone();
    padded.resize(512, 0);
    assert_eq!(Message::decode(&padded).unwrap(), message);

    let mut wrong = message.clone();
    wrong.header.an_count = 1;
    assert!(!wrong.is_encodable());
}

#[test]
fn message_truncated_is_short() {
    let query = duckduckgo_query();
    for k in 0..query.len() {
        assert!(is_short(&Message::decode(&query[..k])), "cut at {}", k);
    }
}

#[test]
fn error_messages() {
    assert_eq!(DecodeError::NotEnoughBytes.message(), "failed to decode bytes: not enough bytes");
    assert_eq!(
        DecodeError::IllegalValue("bad".to_string()).message(),
        "failed to decode bytes: bad"
    );
}

#[test]
fn record_name_must_be_utf8_text() {
    let bytes = [1, 0xFF, 0, 0, 1, 0, 1, 0, 0, 0, 0, 0, 0];
    assert!(is_illegal(&ResourceRecord::decode(&bytes, 0)));
    assert!(is_illegal(&take_name(&bytes, 0)));
    let bytes = [1, b'a', 0, 0, 1, 0, 1, 0, 0, 0, 0, 0, 0];
    let (record, end) = ResourceRecord::decode(&bytes, 0).unwrap();
    assert_eq!(end, 13);
    assert_eq!(record.name, vec![1, b'a', 0]);
    assert!(record.rdata.is_empty());
}
