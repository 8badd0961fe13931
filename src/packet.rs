use std::collections::HashMap;
use vstd::prelude::*;

use crate::answer::{
    answers_bytes, answers_labels_ok, answers_len, answers_view, answers_writable,
    lemma_answers_round_trip, parse_answers, records_ok, records_supported, Answer, AnswerView,
    ADDRESS_LEN,
};
use crate::error::DnsError;
use crate::header::{
    header_bytes, header_in_range, header_of, lemma_header_round_trip, response_header, Header,
};
use crate::question::{
    lemma_questions_round_trip, parse_questions, questions_bytes, questions_len, questions_ok,
    copy_questions, questions_view, questions_writable, Question, QuestionView,
};
use crate::name::copy_labels;
use crate::wire::{lemma_splice_append, splice};

verus! {

broadcast use vstd::std_specs::hash::group_hash_axioms;

/// The size of every frame: a DNS message over UDP, without extensions.
pub const MESSAGE_LEN: usize = 512;

/// The size of the header at the start of a frame.
pub const HEADER_LEN: usize = 12;

/// A DNS message: a header, then the questions, then the answers.
#[derive(Debug, Clone, PartialEq, Eq)]
pub struct Packet {
    pub header: Header,
    pub questions: Vec<Question>,
    pub answers: Vec<Answer>,
}

pub struct PacketView {
    pub header: Header,
    pub questions: Seq<QuestionView>,
    pub answers: Seq<AnswerView>,
}

impl View for Packet {
    type V = PacketView;

    open spec fn view(&self) -> PacketView {
        PacketView {
            header: self.header,
            questions: questions_view(self.questions@),
            answers: answers_view(self.answers@),
        }
    }
}

/// The message a frame holds: the header in its first 12 bytes, then as many
/// questions as the header counts, then as many answers. Compression pointers
/// resolve to labels of the questions. Bytes after the last answer are not
/// read.
pub open spec fn parse_packet(buf: Seq<u8>) -> Result<PacketView, DnsError> {
    if buf.len() != MESSAGE_LEN {
        Err(DnsError::Length)
    } else {
        let h = header_of(buf);
        match parse_questions(
            buf,
            HEADER_LEN as int,
            h.question_count as nat,
            Map::empty(),
            seq![],
        ) {
            Err(e) => Err(e),
            Ok(qp) => match parse_answers(
                buf,
                qp.end,
                h.answer_count as nat,
                qp.table,
                qp.questions,
                seq![],
            ) {
                Err(e) => Err(e),
                Ok(ap) => Ok(
                    PacketView { header: h, questions: qp.questions, answers: ap.answers },
                ),
            },
        }
    }
}

/// A message on the wire, without compression.
pub open spec fn packet_bytes(p: PacketView) -> Seq<u8> {
    header_bytes(p.header) + questions_bytes(p.questions) + answers_bytes(p.answers)
}

pub open spec fn zeros(n: nat) -> Seq<u8> {
    Seq::new(n, |i: int| 0u8)
}

/// The frame that holds a message, or why it cannot be written: a label the
/// wire cannot carry, a record that is not an IPv4 address, or a message over
/// 512 bytes, in that order. The bytes after the message are zero.
pub open spec fn encode_frame(p: PacketView) -> Result<Seq<u8>, DnsError> {
    if !(questions_ok(p.questions) && answers_labels_ok(p.answers)) {
        Err(DnsError::InvalidLabel)
    } else if !records_ok(p.answers) {
        Err(DnsError::UnsupportedRecord)
    } else if packet_bytes(p).len() > MESSAGE_LEN {
        Err(DnsError::TooLarge)
    } else {
        Ok(packet_bytes(p) + zeros((MESSAGE_LEN - packet_bytes(p).len()) as nat))
    }
}

/// The type and the class of an IPv4 address record on the Internet.
pub const TYPE_A: u16 = 1;

pub const CLASS_IN: u16 = 1;

/// The time to live of the stub answer, in seconds.
pub const STUB_TTL: u32 = 60;

/// The address of the stub answer: the loopback address.
pub open spec fn loopback() -> Seq<u8> {
    seq![127u8, 0u8, 0u8, 1u8]
}

/// The stub response to a query with at least one question: the response
/// header with one answer, the questions, and one answer that maps the first
/// question's name to the loopback address.
pub open spec fn local_response_of(q: PacketView) -> PacketView {
    PacketView {
        header: Header { answer_count: 1, ..response_header(q.header) },
        questions: q.questions,
        answers: seq![
            AnswerView {
                labels: q.questions[0].labels,
                record_type: TYPE_A,
                record_class: CLASS_IN,
                ttl: STUB_TTL,
                data_length: ADDRESS_LEN,
                address: loopback(),
            },
        ],
    }
}

impl Packet {
    /// The response to this query when no upstream resolver is configured; none
    /// when the query asks no question.
    pub fn local_response(&self) -> (r: Option<Packet>)
        ensures
            self.questions@.len() == 0 <==> r is None,
            r matches Some(p) ==> p@ == local_response_of(self@),
    {
        if self.questions.len() == 0 {
            return None;
        }
        let mut header = self.header.response();
        header.answer_count = 1;
        let answer = Answer {
            labels: copy_labels(&self.questions[0].labels),
            record_type: TYPE_A,
            record_class: CLASS_IN,
            ttl: STUB_TTL,
            data_length: ADDRESS_LEN,
            address: [127, 0, 0, 1],
        };
        let answers = vec![answer];
        let r = Packet { header, questions: copy_questions(&self.questions), answers };
        assert(r@.answers =~= local_response_of(self@).answers);
        assert(r.answers@[0].address@ =~= loopback());
        Some(r)
    }

    /// Decodes the message that a 512-byte frame holds.
    pub fn from_buf(buf: &[u8]) -> (r: Result<Packet, DnsError>)
        ensures
            match r {
                Ok(p) => parse_packet(buf@) == Ok::<PacketView, DnsError>(p@),
                Err(e) => parse_packet(buf@) == Err::<PacketView, DnsError>(e),
            },
    {
        if buf.len() != MESSAGE_LEN {
            return Err(DnsError::Length);
        }
        let header = Header::read(buf);
        let mut table: HashMap<usize, (usize, usize)> = HashMap::new();
        let (questions, index) = match Question::from_buf(
            buf,
            HEADER_LEN,
            header.question_count,
            &mut table,
        ) {
            Ok(v) => v,
            Err(e) => {
                return Err(e);
            },
        };
        let (answers, _end) = match Answer::from_buf(
            buf,
            index,
            header.answer_count,
            &mut table,
            &questions,
        ) {
            Ok(v) => v,
            Err(e) => {
                return Err(e);
            },
        };
        Ok(Packet { header, questions, answers })
    }

    /// Encodes the message into a 512-byte frame, zero after its end. Nothing
    /// is written when the message cannot be encoded.
    pub fn to_buf(self, buf: &mut [u8]) -> (r: Result<(), DnsError>)
        ensures
            old(buf)@.len() != MESSAGE_LEN ==> r == Err::<(), DnsError>(DnsError::Length),
            old(buf)@.len() == MESSAGE_LEN ==> match encode_frame(self@) {
                Ok(bytes) => r == Ok::<(), DnsError>(()) && final(buf)@ == bytes,
                Err(e) => r == Err::<(), DnsError>(e),
            },
            r is Err ==> final(buf)@ == old(buf)@,
    {
        if buf.len() != MESSAGE_LEN {
            return Err(DnsError::Length);
        }
        if !questions_writable(&self.questions) || !answers_writable(&self.answers) {
            return Err(DnsError::InvalidLabel);
        }
        if !records_supported(&self.answers) {
            return Err(DnsError::UnsupportedRecord);
        }
        let ghost p = self@;
        let qlen = match questions_len(&self.questions, MESSAGE_LEN - HEADER_LEN) {
            Some(n) => n,
            None => {
                return Err(DnsError::TooLarge);
            },
        };
        let alen = match answers_len(&self.answers, MESSAGE_LEN - HEADER_LEN - qlen) {
            Some(n) => n,
            None => {
                return Err(DnsError::TooLarge);
            },
        };
        let ghost start = buf@;
        let ghost hb = header_bytes(self.header);
        let ghost qb = questions_bytes(p.questions);
        let ghost ab = answers_bytes(p.answers);
        self.header.write(buf);
        let index = Question::to_buf(&self.questions, HEADER_LEN, buf);
        proof {
            lemma_splice_append(start, 0, hb, qb);
        }
        let index = Answer::to_buf(&self.answers, index, buf);
        proof {
            lemma_splice_append(start, 0, hb + qb, ab);
        }
        let ghost body = hb + qb + ab;
        let mut i: usize = index;
        while i < MESSAGE_LEN
            invariant
                index == body.len(),
                index <= i <= MESSAGE_LEN,
                buf@.len() == MESSAGE_LEN,
                start.len() == MESSAGE_LEN,
                buf@ == splice(start, 0, body + zeros((i - index) as nat)),
            decreases MESSAGE_LEN - i,
        {
            buf[i] = 0;
            assert(buf@ =~= splice(start, 0, body + zeros((i + 1 - index) as nat)));
            i = i + 1;
        }
        assert(buf@ =~= body + zeros((MESSAGE_LEN - index) as nat));
        Ok(())
    }
}

/// Decoding an encoded message gives it back, for every message whose header
/// counts its questions and answers, whose sub-byte header fields fit their
/// widths, whose labels and records the wire can carry, and that fits in 512
/// bytes.
pub proof fn lemma_packet_round_trip(p: PacketView)
    requires
        header_in_range(p.header),
        p.header.question_count == p.questions.len(),
        p.header.answer_count == p.answers.len(),
        questions_ok(p.questions),
        answers_labels_ok(p.answers),
        records_ok(p.answers),
        packet_bytes(p).len() <= MESSAGE_LEN,
    ensures
        encode_frame(p) is Ok,
        parse_packet(encode_frame(p)->Ok_0) == Ok::<PacketView, DnsError>(p),
{
    let buf = encode_frame(p)->Ok_0;
    let hb = header_bytes(p.header);
    let qb = questions_bytes(p.questions);
    let ab = answers_bytes(p.answers);
    let q_end: int = 12 + qb.len() as int;
    lemma_header_round_trip(p.header);
    assert(buf.subrange(0, 12) =~= hb);
    assert(header_of(buf) == header_of(hb)) by {
        assert forall|j: int| 0 <= j < 12 implies buf[j] == hb[j] by {
            assert(buf[j] == buf.subrange(0, 12)[j]);
        }
    }
    assert(buf.subrange(12, q_end) =~= qb);
    lemma_questions_round_trip(buf, 12, p.questions, Map::empty(), seq![]);
    assert(seq![] + p.questions =~= p.questions);
    let qp = parse_questions(buf, 12, p.questions.len(), Map::empty(), seq![])->Ok_0;
    assert(buf.subrange(q_end, q_end + ab.len()) =~= ab);
    lemma_answers_round_trip(buf, q_end, p.answers, qp.table, p.questions, seq![]);
    assert(seq![] + p.answers =~= p.answers);
}

} // verus!
