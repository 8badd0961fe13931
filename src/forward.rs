use vstd::prelude::*;

use crate::answer::{answers_view, Answer, AnswerView};
use crate::error::DnsError;
use crate::header::{response_header, Header};
use crate::packet::{parse_packet, Packet, PacketView};

verus! {

/// The query sent upstream for question `i`: the query's header with counts
/// that fit a message of that one question, the question, and no answer.
pub open spec fn upstream_query(q: PacketView, i: int) -> PacketView {
    PacketView {
        header: Header {
            question_count: 1,
            answer_count: 0,
            authority_count: 0,
            additional_count: 0,
            ..q.header
        },
        questions: seq![q.questions[i]],
        answers: seq![],
    }
}

/// The response a forwarded query gets once every question has been answered
/// upstream: the response header, the query's questions, and the answers
/// gathered, in the order of the questions.
pub open spec fn forwarded_response(q: PacketView, answers: Seq<AnswerView>) -> PacketView {
    PacketView { header: response_header(q.header), questions: q.questions, answers }
}

/// Forwarding a query upstream, one question at a time. The caller sends each
/// query that `next_query` gives, hands the reply to `on_reply`, and takes the
/// response from `into_response` once `next_query` gives none.
pub struct Forwarder {
    query: Packet,
    answers: Vec<Answer>,
    next: usize,
}

pub struct ForwarderView {
    /// The query being forwarded.
    pub query: PacketView,
    /// The answers gathered so far, in the order of the questions.
    pub answers: Seq<AnswerView>,
    /// How many questions have been answered upstream.
    pub next: nat,
}

impl View for Forwarder {
    type V = ForwarderView;

    closed spec fn view(&self) -> ForwarderView {
        ForwarderView {
            query: self.query@,
            answers: answers_view(self.answers@),
            next: self.next as nat,
        }
    }
}

impl Forwarder {
    pub closed spec fn wf(&self) -> bool {
        self.next <= self.query.questions.len()
    }

    /// Starts forwarding `query`.
    pub fn new(query: Packet) -> (r: Forwarder)
        ensures
            r.wf(),
            r@ == (ForwarderView { query: query@, answers: seq![], next: 0 }),
    {
        let r = Forwarder { query, answers: Vec::new(), next: 0 };
        assert(r@.answers =~= Seq::<AnswerView>::empty());
        r
    }

    /// Whether every question has been answered upstream.
    pub fn is_done(&self) -> (r: bool)
        requires
            self.wf(),
        ensures
            r == (self@.next == self@.query.questions.len()),
    {
        self.next == self.query.questions.len()
    }

    /// The query to send upstream next, if a question is left.
    pub fn next_query(&self) -> (r: Option<Packet>)
        requires
            self.wf(),
        ensures
            r is Some <==> self@.next < self@.query.questions.len(),
            r matches Some(p) ==> p@ == upstream_query(self@.query, self@.next as int),
    {
        if self.next >= self.query.questions.len() {
            return None;
        }
        let question = self.query.questions[self.next].duplicate();
        let header = Header {
            question_count: 1,
            answer_count: 0,
            authority_count: 0,
            additional_count: 0,
            ..self.query.header
        };
        let p = Packet { header, questions: vec![question], answers: Vec::new() };
        assert(p@.questions =~= seq![self@.query.questions[self@.next as int]]);
        assert(p@.answers =~= Seq::<AnswerView>::empty());
        Some(p)
    }

    /// Takes the upstream reply to the current question: its answers join the
    /// gathered ones, and the next question is up. A reply that does not decode
    /// changes nothing.
    pub fn on_reply(&mut self, reply: &[u8]) -> (r: Result<(), DnsError>)
        requires
            old(self).wf(),
            old(self)@.next < old(self)@.query.questions.len(),
        ensures
            final(self).wf(),
            match parse_packet(reply@) {
                Ok(p) => r == Ok::<(), DnsError>(()) && final(self)@ == (ForwarderView {
                    query: old(self)@.query,
                    answers: old(self)@.answers + p.answers,
                    next: old(self)@.next + 1,
                }),
                Err(_) => r == Err::<(), DnsError>(DnsError::UpstreamDecode) && final(self)@
                    == old(self)@,
            },
    {
        let reply = match Packet::from_buf(reply) {
            Ok(p) => p,
            Err(_) => {
                return Err(DnsError::UpstreamDecode);
            },
        };
        let ghost before = self.answers@;
        let mut more = reply.answers;
        self.answers.append(&mut more);
        assert(answers_view(self.answers@) =~= answers_view(before) + answers_view(reply.answers@));
        self.next = self.next + 1;
        Ok(())
    }

    /// The response to the query, once every question has been answered
    /// upstream.
    pub fn into_response(self) -> (r: Packet)
        requires
            self.wf(),
            self@.next == self@.query.questions.len(),
        ensures
            r@ == forwarded_response(self@.query, self@.answers),
    {
        Packet {
            header: self.query.header.response(),
            questions: self.query.questions,
            answers: self.answers,
        }
    }
}

} // verus!
