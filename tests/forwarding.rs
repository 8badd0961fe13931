use dns_relay::{Answer, DnsError, Forwarder, Header, Packet, Question};

fn labels(names: &[&str]) -> Vec<String> {
    names.iter().map(|s| String::from(*s)).collect()
}

fn query_header(question_count: u16) -> Header {
    Header {
        id: 77,
        is_response: false,
        opcode: 0,
        authoritative: false,
        truncated: false,
        recursion_desired: true,
        recursion_available: false,
        reserved: 0,
        response_code: 0,
        question_count,
        answer_count: 0,
        authority_count: 0,
        additional_count: 1,
    }
}

fn question(names: &[&str]) -> Question {
    Question { labels: labels(names), query_type: 1, query_class: 1 }
}

fn answer(names: &[&str], address: [u8; 4]) -> Answer {
    Answer {
        labels: labels(names),
        record_type: 1,
        record_class: 1,
        ttl: 300,
        data_length: 4,
        address,
    }
}

/// The frame an upstream resolver would send back for `sent`, with `answers`.
fn upstream_reply(sent: &Packet, answers: Vec<Answer>) -> [u8; 512] {
    let mut header = sent.header.response();
    header.answer_count = answers.len() as u16;
    let reply = Packet { header, questions: sent.questions.clone(), answers };
    let mut buf = [0u8; 512];
    reply.to_buf(&mut buf).unwrap();
    buf
}

#[test]
fn forwarding_fans_out_and_keeps_question_order() {
    let query = Packet {
        header: query_header(2),
        questions: vec![question(&["google", "com"]), question(&["example", "org"])],
        answers: vec![],
    };
    let mut fwd = Forwarder::new(query.clone());
    assert!(!fwd.is_done());

    let first = fwd.next_query().unwrap();
    assert_eq!(first.questions, vec![question(&["google", "com"])]);
    assert_eq!(first.header.question_count, 1);
    assert_eq!(first.header.answer_count, 0);
    assert_eq!(first.header.additional_count, 0);
    assert_eq!(first.header.id, 77);
    assert!(first.answers.is_empty());
    let reply = upstream_reply(&first, vec![answer(&["google", "com"], [142, 250, 1, 1])]);
    fwd.on_reply(&reply).unwrap();

    let second = fwd.next_query().unwrap();
    assert_eq!(second.questions, vec![question(&["example", "org"])]);
    let reply = upstream_reply(&second, vec![answer(&["example", "org"], [93, 184, 216, 34])]);
    fwd.on_reply(&reply).unwrap();

    assert!(fwd.is_done());
    assert_eq!(fwd.next_query(), None);
    let response = fwd.into_response();
    assert!(response.header.is_response);
    assert_eq!(response.header.id, 77);
    assert_eq!(response.header.question_count, 2);
    assert_eq!(response.header.answer_count, 2);
    assert_eq!(response.header.response_code, 0);
    assert_eq!(response.header.additional_count, 0);
    assert_eq!(response.questions, query.questions);
    assert_eq!(
        response.answers,
        vec![
            answer(&["google", "com"], [142, 250, 1, 1]),
            answer(&["example", "org"], [93, 184, 216, 34]),
        ]
    );
}

#[test]
fn upstream_query_encodes_and_decodes() {
    let query = Packet {
        header: query_header(2),
        questions: vec![question(&["a", "b"]), question(&["c"])],
        answers: vec![],
    };
    let fwd = Forwarder::new(query);
    let sent = fwd.next_query().unwrap();
    let mut buf = [0u8; 512];
    sent.clone().to_buf(&mut buf).unwrap();
    assert_eq!(Packet::from_buf(&buf).unwrap(), sent);
}

#[test]
fn undecodable_reply_changes_nothing() {
    let query = Packet {
        header: query_header(1),
        questions: vec![question(&["google", "com"])],
        answers: vec![],
    };
    let mut fwd = Forwarder::new(query);
    let mut bad = [0u8; 512];
    bad[7] = 1;
    bad[12] = 1;
    bad[13] = b'a';
    assert_eq!(fwd.on_reply(&bad), Err(DnsError::UpstreamDecode));
    assert_eq!(fwd.on_reply(&[0u8; 100]), Err(DnsError::UpstreamDecode));
    assert!(!fwd.is_done());
    let sent = fwd.next_query().unwrap();
    let reply = upstream_reply(&sent, vec![]);
    fwd.on_reply(&reply).unwrap();
    let response = fwd.into_response();
    assert_eq!(response.header.answer_count, 1);
    assert!(response.answers.is_empty());
}

#[test]
fn unimplemented_opcode_gets_rcode_four() {
    let mut header = query_header(1);
    header.opcode = 2;
    let query = Packet { header, questions: vec![question(&["x"])], answers: vec![] };
    let mut fwd = Forwarder::new(query);
    let sent = fwd.next_query().unwrap();
    assert_eq!(sent.header.opcode, 2);
    fwd.on_reply(&upstream_reply(&sent, vec![answer(&["x"], [1, 2, 3, 4])])).unwrap();
    let response = fwd.into_response();
    assert_eq!(response.header.response_code, 4);
    assert_eq!(response.header.opcode, 2);
}

#[test]
fn query_without_questions_is_done_at_once() {
    let query = Packet { header: query_header(0), questions: vec![], answers: vec![] };
    let fwd = Forwarder::new(query);
    assert!(fwd.is_done());
    assert_eq!(fwd.next_query(), None);
    let response = fwd.into_response();
    assert_eq!(response.header.answer_count, 0);
    assert!(response.answers.is_empty());
}
