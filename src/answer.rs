use vstd::prelude::*;

use crate::error::DnsError;
use crate::name::{
    decode_name, labels_ok, labels_view, labels_writable, lemma_name_round_trip, name_bytes,
    name_len, parse_labels, write_name, BackRefs,
};
use crate::question::{names_of, questions_view, Question, QuestionView};
use crate::wire::{
    be16, be32, lemma_be16_of_bytes, lemma_be32_of_bytes, lemma_flat_map_first,
    lemma_flat_map_take_next, lemma_splice_append, read_u16, read_u32, splice, u16_bytes,
    u32_bytes, write_quad, write_u16, write_u32,
};

verus! {

/// The only RDLENGTH carried: that of an IPv4 address.
pub const ADDRESS_LEN: u16 = 4;

/// One resource record of a message's answer section, holding an IPv4 address.
#[derive(Debug, Clone, PartialEq, Eq)]
pub struct Answer {
    /// The labels of the name, in presentation order.
    pub labels: Vec<String>,
    pub record_type: u16,
    pub record_class: u16,
    pub ttl: u32,
    /// Always 4 in a record that can be written or that was decoded.
    pub data_length: u16,
    pub address: [u8; 4],
}

/// What an answer holds, with each label as its characters.
pub struct AnswerView {
    pub labels: Seq<Seq<char>>,
    pub record_type: u16,
    pub record_class: u16,
    pub ttl: u32,
    pub data_length: u16,
    pub address: Seq<u8>,
}

impl View for Answer {
    type V = AnswerView;

    open spec fn view(&self) -> AnswerView {
        AnswerView {
            labels: labels_view(self.labels@),
            record_type: self.record_type,
            record_class: self.record_class,
            ttl: self.ttl,
            data_length: self.data_length,
            address: self.address@,
        }
    }
}

pub open spec fn answers_view(a: Seq<Answer>) -> Seq<AnswerView> {
    a.map_values(|x: Answer| x@)
}

/// What decoding a run of answers yields: the answers, the offset just past
/// them, and the back-reference table as it stands afterwards.
pub struct AnswersParse {
    pub answers: Seq<AnswerView>,
    pub end: int,
    pub table: Map<usize, (usize, usize)>,
}

/// Decodes one answer at `pos`, in a message whose questions are `qs`: a name,
/// the type, the class, the TTL, the RDLENGTH, which must be 4, and the
/// address. Returns it, the offset just past it, and the table afterwards.
pub open spec fn parse_answer(
    buf: Seq<u8>,
    pos: int,
    table: Map<usize, (usize, usize)>,
    qs: Seq<QuestionView>,
) -> Result<(AnswerView, int, Map<usize, (usize, usize)>), DnsError> {
    match parse_labels(buf, pos, table, names_of(qs), qs.len() as usize, 0) {
        Err(e) => Err(e),
        Ok(n) => {
            let e = n.end;
            if e + 10 > buf.len() {
                Err(DnsError::Malformed)
            } else if be16(buf[e + 8], buf[e + 9]) != ADDRESS_LEN {
                Err(DnsError::UnsupportedRecord)
            } else if e + 14 > buf.len() {
                Err(DnsError::Malformed)
            } else {
                Ok(
                    (
                        AnswerView {
                            labels: n.labels,
                            record_type: be16(buf[e], buf[e + 1]),
                            record_class: be16(buf[e + 2], buf[e + 3]),
                            ttl: be32(buf[e + 4], buf[e + 5], buf[e + 6], buf[e + 7]),
                            data_length: ADDRESS_LEN,
                            address: buf.subrange(e + 10, e + 14),
                        },
                        e + 14,
                        n.table,
                    ),
                )
            }
        },
    }
}

/// Decodes `count` more answers at `pos`, after the answers `acc`.
pub open spec fn parse_answers(
    buf: Seq<u8>,
    pos: int,
    count: nat,
    table: Map<usize, (usize, usize)>,
    qs: Seq<QuestionView>,
    acc: Seq<AnswerView>,
) -> Result<AnswersParse, DnsError>
    decreases count,
{
    if count == 0 {
        Ok(AnswersParse { answers: acc, end: pos, table })
    } else {
        match parse_answer(buf, pos, table, qs) {
            Err(e) => Err(e),
            Ok((a, end, t)) => parse_answers(buf, end, (count - 1) as nat, t, qs, acc.push(a)),
        }
    }
}

/// Every label of every answer can be written.
pub open spec fn answers_labels_ok(a: Seq<AnswerView>) -> bool {
    forall|i: int| 0 <= i < a.len() ==> labels_ok(#[trigger] a[i].labels)
}

/// Every answer carries an IPv4 address.
pub open spec fn records_ok(a: Seq<AnswerView>) -> bool {
    forall|i: int|
        0 <= i < a.len() ==> #[trigger] a[i].data_length == ADDRESS_LEN && a[i].address.len() == 4
}

/// One answer on the wire.
pub open spec fn answer_bytes(a: AnswerView) -> Seq<u8> {
    name_bytes(a.labels) + record_bytes(a)
}

/// What follows an answer's name on the wire.
pub open spec fn record_bytes(a: AnswerView) -> Seq<u8> {
    u16_bytes(a.record_type) + u16_bytes(a.record_class) + u32_bytes(a.ttl) + u16_bytes(
        a.data_length,
    ) + a.address
}

pub open spec fn answer_fn() -> spec_fn(AnswerView) -> Seq<u8> {
    |a: AnswerView| answer_bytes(a)
}

/// A run of answers on the wire, one after the other.
pub open spec fn answers_bytes(a: Seq<AnswerView>) -> Seq<u8> {
    a.flat_map(answer_fn())
}

/// Written answers decode to themselves, in a message with any questions and
/// whatever the table holds.
pub proof fn lemma_answers_round_trip(
    buf: Seq<u8>,
    pos: int,
    a: Seq<AnswerView>,
    table: Map<usize, (usize, usize)>,
    qs: Seq<QuestionView>,
    acc: Seq<AnswerView>,
)
    requires
        answers_labels_ok(a),
        records_ok(a),
        0 <= pos,
        pos + answers_bytes(a).len() <= buf.len(),
        buf.subrange(pos, pos + answers_bytes(a).len()) == answers_bytes(a),
    ensures
        parse_answers(buf, pos, a.len(), table, qs, acc) is Ok,
        parse_answers(buf, pos, a.len(), table, qs, acc)->Ok_0.answers == acc + a,
        parse_answers(buf, pos, a.len(), table, qs, acc)->Ok_0.end == pos + answers_bytes(a).len(),
    decreases a.len(),
{
    let all = answers_bytes(a);
    if a.len() == 0 {
        assert(acc + a =~= acc);
        assert(a.flat_map(answer_fn()) =~= Seq::<u8>::empty());
    } else {
        let x = a[0];
        let rest = a.skip(1);
        let nb = name_bytes(x.labels);
        lemma_flat_map_first(a, answer_fn());
        assert(all =~= answer_bytes(x) + answers_bytes(rest));
        assert(labels_ok(x.labels));
        assert(buf.subrange(pos, pos + nb.len()) =~= nb) by {
            assert forall|j: int| 0 <= j < nb.len() implies buf.subrange(pos, pos + nb.len())[j]
                == nb[j] by {
                assert(buf[pos + j] == all[j]);
            }
        }
        lemma_name_round_trip(buf, pos, x.labels, table, names_of(qs), qs.len() as usize, 0);
        let e = pos + nb.len();
        let r = record_bytes(x);
        assert(x.address.len() == 4 && x.data_length == ADDRESS_LEN);
        assert forall|j: int| 0 <= j < 14 implies buf[e + j] == #[trigger] r[j] by {
            assert(buf[e + j] == all[nb.len() + j]);
        }
        assert(buf[e] == r[0] && buf[e + 1] == r[1] && buf[e + 2] == r[2] && buf[e + 3] == r[3]);
        assert(buf[e + 4] == r[4] && buf[e + 5] == r[5] && buf[e + 6] == r[6] && buf[e + 7]
            == r[7]);
        assert(buf[e + 8] == r[8] && buf[e + 9] == r[9]);
        lemma_be16_of_bytes(x.record_type);
        lemma_be16_of_bytes(x.record_class);
        lemma_be32_of_bytes(x.ttl);
        lemma_be16_of_bytes(x.data_length);
        assert(buf.subrange(e + 10, e + 14) =~= x.address) by {
            assert forall|j: int| 0 <= j < 4 implies buf.subrange(e + 10, e + 14)[j]
                == x.address[j] by {
                assert(buf[e + 10 + j] == r[10 + j]);
            }
        }
        let n = parse_labels(buf, pos, table, names_of(qs), qs.len() as usize, 0)->Ok_0;
        assert(parse_answer(buf, pos, table, qs)->Ok_0.0 == x);
        let ab = answer_bytes(x);
        assert(answers_labels_ok(rest) && records_ok(rest)) by {
            assert forall|j: int| 0 <= j < rest.len() implies labels_ok(#[trigger] rest[j].labels)
                && rest[j].data_length == ADDRESS_LEN && rest[j].address.len() == 4 by {
                assert(rest[j] == a[j + 1]);
            }
        }
        let rb = answers_bytes(rest);
        assert(buf.subrange(pos + ab.len(), pos + ab.len() + rb.len()) =~= rb) by {
            assert forall|j: int| 0 <= j < rb.len() implies buf.subrange(
                pos + ab.len(),
                pos + ab.len() + rb.len(),
            )[j] == rb[j] by {
                assert(buf[pos + ab.len() + j] == all[ab.len() + j]);
            }
        }
        lemma_answers_round_trip(buf, pos + ab.len(), rest, n.table, qs, acc.push(x));
        assert(acc.push(x) + rest =~= acc + a);
    }
}

impl Answer {
    /// Decodes `num_answers` answers starting at `start_index`, in a message
    /// whose questions are `questions`; compression pointers resolve through
    /// `table`. Returns them and the offset just past the last one.
    pub fn from_buf(
        buf: &[u8],
        start_index: usize,
        num_answers: u16,
        table: &mut BackRefs,
        questions: &Vec<Question>,
    ) -> (r: Result<(Vec<Answer>, usize), DnsError>)
        ensures
            ({
                let p = parse_answers(
                    buf@,
                    start_index as int,
                    num_answers as nat,
                    old(table)@,
                    questions_view(questions@),
                    seq![],
                );
                match r {
                    Ok((a, end)) => p == Ok::<AnswersParse, DnsError>(
                        AnswersParse {
                            answers: answers_view(a@),
                            end: end as int,
                            table: final(table)@,
                        },
                    ),
                    Err(e) => p == Err::<AnswersParse, DnsError>(e),
                }
            }),
    {
        let ghost qv = questions_view(questions@);
        let ghost whole = parse_answers(
            buf@,
            start_index as int,
            num_answers as nat,
            table@,
            qv,
            seq![],
        );
        let mut answers: Vec<Answer> = Vec::new();
        let mut index: usize = start_index;
        let mut i: u16 = 0;
        assert(answers_view(answers@) =~= Seq::<AnswerView>::empty());
        while i < num_answers
            invariant
                i <= num_answers,
                qv == questions_view(questions@),
                whole == parse_answers(
                    buf@,
                    start_index as int,
                    num_answers as nat,
                    old(table)@,
                    qv,
                    seq![],
                ),
                whole == parse_answers(
                    buf@,
                    index as int,
                    (num_answers - i) as nat,
                    table@,
                    qv,
                    answers_view(answers@),
                ),
            decreases num_answers - i,
        {
            let ghost before = answers_view(answers@);
            let (labels, end) = match decode_name(buf, index, table, questions) {
                Ok(v) => v,
                Err(e) => {
                    return Err(e);
                },
            };
            if end > buf.len() || buf.len() - end < 10 {
                return Err(DnsError::Malformed);
            }
            let record_type = read_u16(buf, end);
            let record_class = read_u16(buf, end + 2);
            let ttl = read_u32(buf, end + 4);
            let data_length = read_u16(buf, end + 8);
            if data_length != ADDRESS_LEN {
                return Err(DnsError::UnsupportedRecord);
            }
            if buf.len() - end < 14 {
                return Err(DnsError::Malformed);
            }
            let address: [u8; 4] = [buf[end + 10], buf[end + 11], buf[end + 12], buf[end + 13]];
            assert(address@ =~= buf@.subrange(end + 10, end + 14));
            let a = Answer { labels, record_type, record_class, ttl, data_length, address };
            answers.push(a);
            assert(answers_view(answers@) =~= before.push(a@));
            index = end + 14;
            i = i + 1;
        }
        Ok((answers, index))
    }

    /// Writes the answers one after the other at `start_index`, and returns
    /// the offset just past the last one.
    pub fn to_buf(answers: &Vec<Answer>, start_index: usize, buf: &mut [u8]) -> (end: usize)
        requires
            answers_labels_ok(answers_view(answers@)),
            start_index + answers_bytes(answers_view(answers@)).len() <= old(buf)@.len(),
        ensures
            end == start_index + answers_bytes(answers_view(answers@)).len(),
            final(buf)@ == splice(old(buf)@, start_index as int, answers_bytes(answers_view(answers@))),
    {
        let ghost av = answers_view(answers@);
        let ghost start = buf@;
        let mut index: usize = start_index;
        let mut i: usize = 0;
        assert(buf@ =~= splice(start, start_index as int, av.take(0).flat_map(answer_fn())));
        while i < answers.len()
            invariant
                i <= answers.len(),
                av == answers_view(answers@),
                answers_labels_ok(av),
                start_index + answers_bytes(av).len() <= start.len(),
                buf@.len() == start.len(),
                index == start_index + av.take(i as int).flat_map(answer_fn()).len(),
                buf@ == splice(start, start_index as int, av.take(i as int).flat_map(answer_fn())),
            decreases answers.len() - i,
        {
            proof {
                lemma_flat_map_take_next(av, answer_fn(), i as int);
            }
            let ghost done = av.take(i as int).flat_map(answer_fn());
            let a = &answers[i];
            assert(a@ == av[i as int]);
            index = a.write(buf, index);
            assert(buf@ =~= splice(start, start_index as int, done + answer_bytes(a@)));
            i = i + 1;
        }
        assert(av.take(av.len() as int) =~= av);
        index
    }

    /// Writes this answer at `at`, and returns the offset just past it.
    fn write(&self, buf: &mut [u8], at: usize) -> (end: usize)
        requires
            labels_ok(self@.labels),
            at + answer_bytes(self@).len() <= old(buf)@.len(),
        ensures
            end == at + answer_bytes(self@).len(),
            final(buf)@ == splice(old(buf)@, at as int, answer_bytes(self@)),
    {
        let ghost start = buf@;
        let ghost nb = name_bytes(self@.labels);
        assert(answer_bytes(self@) =~= nb + record_bytes(self@));
        assert(self.address@.len() == 4);
        let index = write_name(&self.labels, buf, at);
        assert(index + 14 <= buf.len());
        self.write_record(buf, index);
        proof {
            lemma_splice_append(start, at as int, nb, record_bytes(self@));
        }
        index + 14
    }

    /// Writes the 14 bytes that follow the name.
    fn write_record(&self, buf: &mut [u8], at: usize)
        requires
            at + 14 <= old(buf)@.len(),
        ensures
            final(buf)@ == splice(old(buf)@, at as int, record_bytes(self@)),
    {
        assert(at + 14 <= buf.len());
        assert(self.address@.len() == 4);
        let ghost s0 = buf@;
        let ghost (t, c, l, d) = (
            u16_bytes(self.record_type),
            u16_bytes(self.record_class),
            u32_bytes(self.ttl),
            u16_bytes(self.data_length),
        );
        write_u16(buf, at, self.record_type);
        write_u16(buf, at + 2, self.record_class);
        proof {
            lemma_splice_append(s0, at as int, t, c);
        }
        write_u32(buf, at + 4, self.ttl);
        proof {
            lemma_splice_append(s0, at as int, t + c, l);
        }
        write_u16(buf, at + 8, self.data_length);
        proof {
            lemma_splice_append(s0, at as int, t + c + l, d);
        }
        write_quad(buf, at + 10, self.address);
        proof {
            lemma_splice_append(s0, at as int, t + c + l + d, self.address@);
        }
    }
}

/// Whether every label of every answer can be written.
pub fn answers_writable(answers: &Vec<Answer>) -> (ok: bool)
    ensures
        ok == answers_labels_ok(answers_view(answers@)),
{
    let mut i: usize = 0;
    while i < answers.len()
        invariant
            i <= answers.len(),
            forall|j: int| 0 <= j < i ==> labels_ok(#[trigger] answers_view(answers@)[j].labels),
        decreases answers.len() - i,
    {
        if !labels_writable(&answers[i].labels) {
            assert(answers_view(answers@)[i as int] == answers@[i as int]@);
            assert(!labels_ok(answers_view(answers@)[i as int].labels));
            return false;
        }
        i = i + 1;
    }
    true
}

/// Whether every answer carries an IPv4 address.
pub fn records_supported(answers: &Vec<Answer>) -> (ok: bool)
    ensures
        ok == records_ok(answers_view(answers@)),
{
    let mut i: usize = 0;
    while i < answers.len()
        invariant
            i <= answers.len(),
            forall|j: int|
                0 <= j < i ==> #[trigger] answers_view(answers@)[j].data_length == ADDRESS_LEN
                    && answers_view(answers@)[j].address.len() == 4,
        decreases answers.len() - i,
    {
        assert(answers_view(answers@)[i as int] == answers@[i as int]@);
        assert(answers@[i as int].address@.len() == 4);
        if answers[i].data_length != ADDRESS_LEN {
            assert(answers_view(answers@)[i as int].data_length != ADDRESS_LEN);
            return false;
        }
        i = i + 1;
    }
    true
}

/// The number of bytes the answers take on the wire, if it is at most `room`.
pub fn answers_len(answers: &Vec<Answer>, room: usize) -> (r: Option<usize>)
    requires
        answers_labels_ok(answers_view(answers@)),
        records_ok(answers_view(answers@)),
        room <= 0x1_0000,
    ensures
        r is Some <==> answers_bytes(answers_view(answers@)).len() <= room,
        r matches Some(n) ==> n == answers_bytes(answers_view(answers@)).len(),
{
    let ghost av = answers_view(answers@);
    let mut total: usize = 0;
    let mut i: usize = 0;
    while i < answers.len()
        invariant
            i <= answers.len(),
            av == answers_view(answers@),
            answers_labels_ok(av),
            records_ok(av),
            room <= 0x1_0000,
            total == av.take(i as int).flat_map(answer_fn()).len(),
            total <= room,
        decreases answers.len() - i,
    {
        proof {
            lemma_flat_map_take_next(av, answer_fn(), i as int);
        }
        assert(answers[i as int]@ == av[i as int]);
        let n = match name_len(&answers[i].labels, room - total) {
            Some(n) => n,
            None => {
                return None;
            },
        };
        if room - total - n < 14 {
            return None;
        }
        total = total + n + 14;
        i = i + 1;
    }
    assert(av.take(av.len() as int) =~= av);
    Some(total)
}

} // verus!
