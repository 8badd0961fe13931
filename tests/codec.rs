use std::collections::HashMap;

use dns_relay::{pack_flags, unpack_flags, Answer, DnsError, Flags, Header, Packet, Question};

fn labels(names: &[&str]) -> Vec<String> {
    names.iter().map(|s| String::from(*s)).collect()
}

fn sample_header(question_count: u16, answer_count: u16) -> Header {
    Header {
        id: 1265,
        is_response: true,
        opcode: 15,
        authoritative: true,
        truncated: true,
        recursion_desired: true,
        recursion_available: true,
        reserved: 7,
        response_code: 15,
        question_count,
        answer_count,
        authority_count: 328,
        additional_count: 421,
    }
}

fn google_question() -> Question {
    Question { labels: labels(&["google", "com"]), query_type: 1, query_class: 1 }
}

fn google_answer() -> Answer {
    Answer {
        labels: labels(&["google", "com"]),
        record_type: 1,
        record_class: 1,
        ttl: 60,
        data_length: 4,
        address: [127, 0, 0, 1],
    }
}

/// A zeroed frame whose header holds the given counts.
fn frame(question_count: u16, answer_count: u16) -> [u8; 512] {
    let mut buf = [0u8; 512];
    buf[0] = 0x12;
    buf[1] = 0x34;
    buf[4] = (question_count >> 8) as u8;
    buf[5] = question_count as u8;
    buf[6] = (answer_count >> 8) as u8;
    buf[7] = answer_count as u8;
    buf
}

fn put(buf: &mut [u8], at: usize, bytes: &[u8]) -> usize {
    buf[at..at + bytes.len()].copy_from_slice(bytes);
    at + bytes.len()
}

#[test]
fn test_to_from_header() {
    let my_header = Header {
        id: 1265,
        is_response: true,
        opcode: 15,
        authoritative: true,
        truncated: true,
        recursion_desired: true,
        recursion_available: true,
        reserved: 7,
        response_code: 15,
        question_count: 256,
        answer_count: 357,
        authority_count: 328,
        additional_count: 421,
    };
    let mut buf = [0; 12];
    my_header.to_buf(&mut buf).unwrap();
    let res_header = Header::from_buf(&buf).unwrap();

    assert_eq!(my_header, res_header);
}

#[test]
fn test_to_from_packet() {
    let my_header = Header {
        id: 1265,
        is_response: true,
        opcode: 15,
        authoritative: true,
        truncated: true,
        recursion_desired: true,
        recursion_available: true,
        reserved: 7,
        response_code: 15,
        question_count: 1,
        answer_count: 1,
        authority_count: 328,
        additional_count: 421,
    };

    let my_packet = Packet {
        header: my_header,
        questions: vec![Question {
            labels: vec![String::from("google"), String::from("com")],
            query_type: 1,
            query_class: 1,
        }],
        answers: vec![Answer {
            labels: vec![String::from("google"), String::from("com")],
            record_type: 1,
            record_class: 1,
            ttl: 60,
            data_length: 4,
            address: [127, 0, 0, 1],
        }],
    };
    let packet = my_packet.clone();

    let mut buf = [0; 512];
    packet.to_buf(&mut buf).unwrap();
    let res_packet = Packet::from_buf(&buf).unwrap();

    assert_eq!(my_packet, res_packet);
}

#[test]
fn header_bytes_are_big_endian_with_packed_flags() {
    let mut buf = [0u8; 12];
    sample_header(256, 357).to_buf(&mut buf).unwrap();
    assert_eq!(buf, [0x04, 0xF1, 0xFF, 0xFF, 0x01, 0x00, 0x01, 0x65, 0x01, 0x48, 0x01, 0xA5]);
}

#[test]
fn header_of_zero_bytes_is_all_clear() {
    let h = Header::from_buf(&[0u8; 12]).unwrap();
    assert_eq!(h.id, 0);
    assert!(!h.is_response && !h.authoritative && !h.truncated);
    assert_eq!((h.opcode, h.reserved, h.response_code), (0, 0, 0));
    assert_eq!((h.question_count, h.answer_count), (0, 0));
}

#[test]
fn header_rejects_wrong_lengths() {
    assert_eq!(Header::from_buf(&[0u8; 11]), Err(DnsError::Length));
    assert_eq!(Header::from_buf(&[0u8; 13]), Err(DnsError::Length));
    let mut short = [7u8; 11];
    assert_eq!(sample_header(0, 0).to_buf(&mut short), Err(DnsError::Length));
    assert_eq!(short, [7u8; 11]);
}

#[test]
fn header_encode_masks_wide_fields() {
    let mut h = sample_header(0, 0);
    h.opcode = 0x1F;
    h.reserved = 0x0F;
    h.response_code = 0xF3;
    let mut buf = [0u8; 12];
    h.to_buf(&mut buf).unwrap();
    let back = Header::from_buf(&buf).unwrap();
    assert_eq!((back.opcode, back.reserved, back.response_code), (15, 7, 3));
}

#[test]
fn flags_pack_exact_bytes() {
    let f = Flags {
        is_response: true,
        opcode: 2,
        authoritative: false,
        truncated: true,
        recursion_desired: true,
        recursion_available: true,
        reserved: 0,
        response_code: 4,
    };
    assert_eq!(pack_flags(f), (0x93, 0x84));
    let none = Flags {
        is_response: false,
        opcode: 0,
        authoritative: false,
        truncated: false,
        recursion_desired: false,
        recursion_available: false,
        reserved: 0,
        response_code: 0,
    };
    assert_eq!(pack_flags(none), (0, 0));
}

#[test]
fn flags_unpack_of_pack_is_identity_in_range() {
    for bits in 0u32..32 {
        for opcode in [0u8, 1, 7, 15] {
            for reserved in [0u8, 5, 7] {
                for response_code in [0u8, 4, 15] {
                    let f = Flags {
                        is_response: bits & 1 != 0,
                        opcode,
                        authoritative: bits & 2 != 0,
                        truncated: bits & 4 != 0,
                        recursion_desired: bits & 8 != 0,
                        recursion_available: bits & 16 != 0,
                        reserved,
                        response_code,
                    };
                    let (b2, b3) = pack_flags(f);
                    assert_eq!(unpack_flags(b2, b3), f);
                }
            }
        }
    }
}

#[test]
fn flags_pack_truncates_wide_fields() {
    let f = Flags {
        is_response: false,
        opcode: 0x13,
        authoritative: false,
        truncated: false,
        recursion_desired: false,
        recursion_available: false,
        reserved: 0x0A,
        response_code: 0x21,
    };
    let (b2, b3) = pack_flags(f);
    let back = unpack_flags(b2, b3);
    assert_eq!((back.opcode, back.reserved, back.response_code), (3, 2, 1));
}

#[test]
fn packet_rejects_wrong_lengths() {
    assert_eq!(Packet::from_buf(&[0u8; 511]), Err(DnsError::Length));
    let p = Packet { header: sample_header(0, 0), questions: vec![], answers: vec![] };
    let mut buf = [0u8; 100];
    assert_eq!(p.to_buf(&mut buf), Err(DnsError::Length));
}

#[test]
fn packet_encoding_is_exact_and_zero_filled() {
    let p = Packet {
        header: sample_header(1, 1),
        questions: vec![google_question()],
        answers: vec![google_answer()],
    };
    let mut buf = [0xAAu8; 512];
    p.to_buf(&mut buf).unwrap();
    let name: [u8; 12] = [6, b'g', b'o', b'o', b'g', b'l', b'e', 3, b'c', b'o', b'm', 0];
    assert_eq!(&buf[12..24], &name);
    assert_eq!(&buf[24..28], &[0, 1, 0, 1]);
    assert_eq!(&buf[28..40], &name);
    assert_eq!(&buf[40..54], &[0, 1, 0, 1, 0, 0, 0, 60, 0, 4, 127, 0, 0, 1]);
    assert!(buf[54..].iter().all(|b| *b == 0));
}

#[test]
fn compressed_name_decodes_to_earlier_name() {
    let mut buf = frame(2, 0);
    let mut at = put(&mut buf, 12, &[6, b'g', b'o', b'o', b'g', b'l', b'e', 3, b'c', b'o', b'm', 0]);
    at = put(&mut buf, at, &[0, 1, 0, 1]);
    at = put(&mut buf, at, &[0xC0, 12]);
    put(&mut buf, at, &[0, 28, 0, 1]);
    let p = Packet::from_buf(&buf).unwrap();
    assert_eq!(p.questions.len(), 2);
    assert_eq!(p.questions[0].labels, labels(&["google", "com"]));
    assert_eq!(p.questions[1].labels, labels(&["google", "com"]));
    assert_eq!(p.questions[1].query_type, 28);
}

#[test]
fn compressed_suffix_follows_literal_labels() {
    let mut buf = frame(2, 0);
    let mut at = put(&mut buf, 12, &[6, b'g', b'o', b'o', b'g', b'l', b'e', 3, b'c', b'o', b'm', 0]);
    at = put(&mut buf, at, &[0, 1, 0, 1]);
    at = put(&mut buf, at, &[4, b'm', b'a', b'i', b'l', 0xC0, 19]);
    put(&mut buf, at, &[0, 15, 0, 1]);
    let p = Packet::from_buf(&buf).unwrap();
    assert_eq!(p.questions[1].labels, labels(&["mail", "com"]));
    assert_eq!(p.questions[1].query_type, 15);
}

#[test]
fn pointer_to_unknown_offset_is_rejected() {
    let mut buf = frame(1, 0);
    put(&mut buf, 12, &[0xC0, 40, 0, 1, 0, 1]);
    assert_eq!(Packet::from_buf(&buf), Err(DnsError::CompressionReference));
}

#[test]
fn answer_name_may_point_into_question() {
    let mut buf = frame(1, 1);
    let mut at = put(&mut buf, 12, &[6, b'g', b'o', b'o', b'g', b'l', b'e', 3, b'c', b'o', b'm', 0]);
    at = put(&mut buf, at, &[0, 1, 0, 1]);
    put(&mut buf, at, &[0xC0, 12, 0, 1, 0, 1, 0, 0, 1, 0, 0, 4, 8, 8, 4, 4]);
    let p = Packet::from_buf(&buf).unwrap();
    assert_eq!(p.answers.len(), 1);
    assert_eq!(p.answers[0].labels, labels(&["google", "com"]));
    assert_eq!(p.answers[0].ttl, 256);
    assert_eq!(p.answers[0].address, [8, 8, 4, 4]);
}

#[test]
fn malformed_rdlength_is_unsupported() {
    let mut buf = frame(0, 1);
    put(&mut buf, 12, &[1, b'a', 0, 0, 1, 0, 1, 0, 0, 0, 60, 0, 6, 1, 2, 3, 4, 5, 6]);
    assert_eq!(Packet::from_buf(&buf), Err(DnsError::UnsupportedRecord));
}

#[test]
fn invalid_utf8_label_is_rejected() {
    let mut buf = frame(1, 0);
    put(&mut buf, 12, &[2, 0xFF, 0xFE, 0, 0, 1, 0, 1]);
    assert_eq!(Packet::from_buf(&buf), Err(DnsError::Encoding));
}

#[test]
fn counts_past_the_frame_are_malformed() {
    // Each empty-named question takes 5 bytes: 100 of them fill the frame.
    assert_eq!(Packet::from_buf(&frame(100, 0)).unwrap().questions.len(), 100);
    assert_eq!(Packet::from_buf(&frame(101, 0)), Err(DnsError::Malformed));
    let mut buf = frame(1, 0);
    buf[12] = 63;
    buf[76] = 63;
    buf[140] = 63;
    buf[204] = 63;
    buf[268] = 63;
    buf[332] = 63;
    buf[396] = 63;
    buf[460] = 63;
    assert_eq!(Packet::from_buf(&buf), Err(DnsError::Malformed));
}

#[test]
fn unicode_labels_round_trip() {
    let q = Question { labels: labels(&["bücher", "example"]), query_type: 1, query_class: 1 };
    let p = Packet { header: sample_header(1, 0), questions: vec![q], answers: vec![] };
    let mut buf = [0u8; 512];
    p.clone().to_buf(&mut buf).unwrap();
    assert_eq!(buf[12], 7);
    let back = Packet::from_buf(&buf).unwrap();
    assert_eq!(back, p);
    assert_eq!(back.questions[0].labels[0], "bücher");
}

#[test]
fn unwritable_labels_are_rejected() {
    let mut buf = [9u8; 512];
    let empty = Question { labels: labels(&["", "com"]), query_type: 1, query_class: 1 };
    let p = Packet { header: sample_header(1, 0), questions: vec![empty], answers: vec![] };
    assert_eq!(p.to_buf(&mut buf), Err(DnsError::InvalidLabel));
    let long = "x".repeat(64);
    let q = Question { labels: vec![long], query_type: 1, query_class: 1 };
    let p = Packet { header: sample_header(1, 0), questions: vec![q], answers: vec![] };
    assert_eq!(p.to_buf(&mut buf), Err(DnsError::InvalidLabel));
    assert!(buf.iter().all(|b| *b == 9));
}

#[test]
fn longest_label_is_written() {
    let long = "y".repeat(63);
    let q = Question { labels: vec![long.clone()], query_type: 1, query_class: 1 };
    let p = Packet { header: sample_header(1, 0), questions: vec![q], answers: vec![] };
    let mut buf = [0u8; 512];
    p.to_buf(&mut buf).unwrap();
    assert_eq!(buf[12], 63);
    assert_eq!(Packet::from_buf(&buf).unwrap().questions[0].labels[0], long);
}

#[test]
fn non_address_record_is_not_written() {
    let mut a = google_answer();
    a.data_length = 6;
    let p = Packet { header: sample_header(0, 1), questions: vec![], answers: vec![a] };
    let mut buf = [0u8; 512];
    assert_eq!(p.to_buf(&mut buf), Err(DnsError::UnsupportedRecord));
}

#[test]
fn oversized_message_is_rejected() {
    let mut questions = Vec::new();
    for _ in 0..30 {
        questions.push(google_question());
    }
    // 12 + 30 * 16 = 492 bytes fit; two more questions do not.
    let fits = Packet { header: sample_header(30, 0), questions: questions.clone(), answers: vec![] };
    let mut buf = [0u8; 512];
    assert_eq!(fits.to_buf(&mut buf), Ok(()));
    questions.push(google_question());
    questions.push(google_question());
    let p = Packet { header: sample_header(32, 0), questions, answers: vec![] };
    let mut buf = [5u8; 512];
    assert_eq!(p.to_buf(&mut buf), Err(DnsError::TooLarge));
    assert!(buf.iter().all(|b| *b == 5));
}

#[test]
fn question_decoder_fills_table() {
    let mut buf = [0u8; 40];
    put(&mut buf, 4, &[1, b'a', 1, b'b', 0, 0, 1, 0, 1]);
    let mut table = HashMap::new();
    let (qs, end) = Question::from_buf(&buf, 4, 1, &mut table).unwrap();
    assert_eq!(end, 13);
    assert_eq!(qs[0].labels, labels(&["a", "b"]));
    assert_eq!(table.get(&4), Some(&(0, 0)));
    assert_eq!(table.get(&6), Some(&(0, 1)));
    assert_eq!(table.len(), 2);
}

#[test]
fn response_header_keeps_query_fields() {
    let mut q = sample_header(2, 0);
    q.is_response = false;
    q.opcode = 0;
    let r = q.response();
    assert!(r.is_response);
    assert_eq!(r.id, q.id);
    assert_eq!(r.question_count, 2);
    assert_eq!(r.answer_count, 2);
    assert_eq!(r.response_code, 0);
    assert!(r.recursion_desired);
    assert!(!r.authoritative && !r.truncated && !r.recursion_available);
    assert_eq!((r.reserved, r.authority_count, r.additional_count), (0, 0, 0));
    q.opcode = 2;
    let r = q.response();
    assert_eq!(r.opcode, 2);
    assert_eq!(r.response_code, 4);
}

#[test]
fn local_response_answers_loopback() {
    let mut h = sample_header(1, 0);
    h.opcode = 0;
    let q = Packet { header: h, questions: vec![google_question()], answers: vec![] };
    let r = q.local_response().unwrap();
    assert_eq!(r.header.answer_count, 1);
    assert_eq!(r.header.question_count, 1);
    assert!(r.header.is_response);
    assert_eq!(r.questions, q.questions);
    assert_eq!(r.answers, vec![google_answer()]);
    let empty = Packet { header: sample_header(0, 0), questions: vec![], answers: vec![] };
    assert_eq!(empty.local_response(), None);
}
