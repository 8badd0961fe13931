use vstd::prelude::*;

use crate::error::DnsError;
use crate::name::{
    copy_labels, decode_name, labels_ok, labels_view, labels_writable, lemma_name_round_trip,
    name_bytes, name_len, parse_labels, write_name, BackRefs, NameParse,
};
use crate::wire::{
    be16, lemma_be16_of_bytes, lemma_flat_map_first, lemma_flat_map_take_next, read_u16, splice,
    u16_bytes, write_u16,
};

verus! {

/// One entry of a message's question section.
#[derive(Debug, Clone, PartialEq, Eq)]
pub struct Question {
    /// The labels of the name, in presentation order.
    pub labels: Vec<String>,
    pub query_type: u16,
    pub query_class: u16,
}

/// What a question holds, with each label as its characters.
pub struct QuestionView {
    pub labels: Seq<Seq<char>>,
    pub query_type: u16,
    pub query_class: u16,
}

impl View for Question {
    type V = QuestionView;

    open spec fn view(&self) -> QuestionView {
        QuestionView {
            labels: labels_view(self.labels@),
            query_type: self.query_type,
            query_class: self.query_class,
        }
    }
}

pub open spec fn questions_view(qs: Seq<Question>) -> Seq<QuestionView> {
    qs.map_values(|q: Question| q@)
}

/// The names of the questions, as the targets of compression pointers.
pub open spec fn names_of(qs: Seq<QuestionView>) -> Seq<Seq<Seq<char>>> {
    qs.map_values(|q: QuestionView| q.labels)
}

/// What decoding a run of questions yields: the questions, the offset just
/// past them, and the back-reference table as it stands afterwards.
pub struct QuestionsParse {
    pub questions: Seq<QuestionView>,
    pub end: int,
    pub table: Map<usize, (usize, usize)>,
}

/// Decodes one question at `pos`, after the questions `prior`: a name, then
/// the type and the class.
pub open spec fn parse_question(
    buf: Seq<u8>,
    pos: int,
    table: Map<usize, (usize, usize)>,
    prior: Seq<QuestionView>,
) -> Result<(QuestionView, NameParse), DnsError> {
    match parse_labels(buf, pos, table, names_of(prior), prior.len() as usize, 0) {
        Err(e) => Err(e),
        Ok(n) => if n.end + 4 > buf.len() {
            Err(DnsError::Malformed)
        } else {
            Ok(
                (
                    QuestionView {
                        labels: n.labels,
                        query_type: be16(buf[n.end], buf[n.end + 1]),
                        query_class: be16(buf[n.end + 2], buf[n.end + 3]),
                    },
                    NameParse { labels: n.labels, end: n.end + 4, table: n.table },
                ),
            )
        },
    }
}

/// Decodes `count` more questions at `pos`, after the questions `acc`.
pub open spec fn parse_questions(
    buf: Seq<u8>,
    pos: int,
    count: nat,
    table: Map<usize, (usize, usize)>,
    acc: Seq<QuestionView>,
) -> Result<QuestionsParse, DnsError>
    decreases count,
{
    if count == 0 {
        Ok(QuestionsParse { questions: acc, end: pos, table })
    } else {
        match parse_question(buf, pos, table, acc) {
            Err(e) => Err(e),
            Ok((q, n)) => parse_questions(buf, n.end, (count - 1) as nat, n.table, acc.push(q)),
        }
    }
}

pub open spec fn questions_ok(qs: Seq<QuestionView>) -> bool {
    forall|i: int| 0 <= i < qs.len() ==> labels_ok(#[trigger] qs[i].labels)
}

/// One question on the wire.
pub open spec fn question_bytes(q: QuestionView) -> Seq<u8> {
    name_bytes(q.labels) + u16_bytes(q.query_type) + u16_bytes(q.query_class)
}

pub open spec fn question_fn() -> spec_fn(QuestionView) -> Seq<u8> {
    |q: QuestionView| question_bytes(q)
}

/// A run of questions on the wire, one after the other.
pub open spec fn questions_bytes(qs: Seq<QuestionView>) -> Seq<u8> {
    qs.flat_map(question_fn())
}

/// Written questions decode to themselves, after whatever questions came
/// before and whatever the table holds.
pub proof fn lemma_questions_round_trip(
    buf: Seq<u8>,
    pos: int,
    qs: Seq<QuestionView>,
    table: Map<usize, (usize, usize)>,
    acc: Seq<QuestionView>,
)
    requires
        questions_ok(qs),
        0 <= pos,
        pos + questions_bytes(qs).len() <= buf.len(),
        buf.subrange(pos, pos + questions_bytes(qs).len()) == questions_bytes(qs),
    ensures
        parse_questions(buf, pos, qs.len(), table, acc) is Ok,
        parse_questions(buf, pos, qs.len(), table, acc)->Ok_0.questions == acc + qs,
        parse_questions(buf, pos, qs.len(), table, acc)->Ok_0.end == pos + questions_bytes(qs).len(),
    decreases qs.len(),
{
    let all = questions_bytes(qs);
    if qs.len() == 0 {
        assert(acc + qs =~= acc);
        assert(qs.flat_map(question_fn()) =~= Seq::<u8>::empty());
    } else {
        let q = qs[0];
        let rest = qs.skip(1);
        let nb = name_bytes(q.labels);
        lemma_flat_map_first(qs, question_fn());
        assert(all =~= question_bytes(q) + questions_bytes(rest));
        assert(labels_ok(q.labels));
        assert(buf.subrange(pos, pos + nb.len()) =~= nb) by {
            assert forall|j: int| 0 <= j < nb.len() implies buf.subrange(pos, pos + nb.len())[j]
                == nb[j] by {
                assert(buf[pos + j] == all[j]);
            }
        }
        lemma_name_round_trip(buf, pos, q.labels, table, names_of(acc), acc.len() as usize, 0);
        let e = pos + nb.len();
        assert(buf[e] == all[nb.len() as int]);
        assert(buf[e + 1] == all[nb.len() as int + 1]);
        assert(buf[e + 2] == all[nb.len() as int + 2]);
        assert(buf[e + 3] == all[nb.len() as int + 3]);
        lemma_be16_of_bytes(q.query_type);
        lemma_be16_of_bytes(q.query_class);
        let n = parse_labels(buf, pos, table, names_of(acc), acc.len() as usize, 0)->Ok_0;
        assert(parse_question(buf, pos, table, acc)->Ok_0.0 == q);
        let qb = question_bytes(q);
        assert(questions_ok(rest)) by {
            assert forall|j: int| 0 <= j < rest.len() implies labels_ok(#[trigger] rest[j].labels) by {
                assert(rest[j] == qs[j + 1]);
            }
        }
        let rb = questions_bytes(rest);
        assert(buf.subrange(pos + qb.len(), pos + qb.len() + rb.len()) =~= rb) by {
            assert forall|j: int| 0 <= j < rb.len() implies buf.subrange(
                pos + qb.len(),
                pos + qb.len() + rb.len(),
            )[j] == rb[j] by {
                assert(buf[pos + qb.len() + j] == all[qb.len() + j]);
            }
        }
        lemma_questions_round_trip(buf, pos + qb.len(), rest, n.table, acc.push(q));
        assert(acc.push(q) + rest =~= acc + qs);
    }
}

impl Question {
    /// A copy of this question.
    pub fn duplicate(&self) -> (r: Question)
        ensures
            r@ == self@,
    {
        Question {
            labels: copy_labels(&self.labels),
            query_type: self.query_type,
            query_class: self.query_class,
        }
    }

    /// Decodes `num_questions` questions starting at `start_index`, entering
    /// the offset of each literal label in `table`. Returns them and the offset
    /// just past the last one.
    pub fn from_buf(
        buf: &[u8],
        start_index: usize,
        num_questions: u16,
        table: &mut BackRefs,
    ) -> (r: Result<(Vec<Question>, usize), DnsError>)
        ensures
            ({
                let p = parse_questions(
                    buf@,
                    start_index as int,
                    num_questions as nat,
                    old(table)@,
                    seq![],
                );
                match r {
                    Ok((qs, end)) => p == Ok::<QuestionsParse, DnsError>(
                        QuestionsParse {
                            questions: questions_view(qs@),
                            end: end as int,
                            table: final(table)@,
                        },
                    ),
                    Err(e) => p == Err::<QuestionsParse, DnsError>(e),
                }
            }),
    {
        let ghost whole = parse_questions(
            buf@,
            start_index as int,
            num_questions as nat,
            table@,
            seq![],
        );
        let mut questions: Vec<Question> = Vec::new();
        let mut index: usize = start_index;
        let mut i: u16 = 0;
        assert(questions_view(questions@) =~= Seq::<QuestionView>::empty());
        while i < num_questions
            invariant
                i <= num_questions,
                whole == parse_questions(
                    buf@,
                    start_index as int,
                    num_questions as nat,
                    old(table)@,
                    seq![],
                ),
                whole == parse_questions(
                    buf@,
                    index as int,
                    (num_questions - i) as nat,
                    table@,
                    questions_view(questions@),
                ),
            decreases num_questions - i,
        {
            let ghost prior = questions_view(questions@);
            let (labels, end) = match decode_name(buf, index, table, &questions) {
                Ok(v) => v,
                Err(e) => {
                    return Err(e);
                },
            };
            if end > buf.len() || buf.len() - end < 4 {
                return Err(DnsError::Malformed);
            }
            let q = Question {
                labels,
                query_type: read_u16(buf, end),
                query_class: read_u16(buf, end + 2),
            };
            questions.push(q);
            assert(questions_view(questions@) =~= prior.push(q@));
            index = end + 4;
            i = i + 1;
        }
        Ok((questions, index))
    }

    /// Writes the questions one after the other at `start_index`, and returns
    /// the offset just past the last one.
    pub fn to_buf(questions: &Vec<Question>, start_index: usize, buf: &mut [u8]) -> (end: usize)
        requires
            questions_ok(questions_view(questions@)),
            start_index + questions_bytes(questions_view(questions@)).len() <= old(buf)@.len(),
        ensures
            end == start_index + questions_bytes(questions_view(questions@)).len(),
            final(buf)@ == splice(
                old(buf)@,
                start_index as int,
                questions_bytes(questions_view(questions@)),
            ),
    {
        let ghost qv = questions_view(questions@);
        let ghost start = buf@;
        let mut index: usize = start_index;
        let mut i: usize = 0;
        assert(buf@ =~= splice(start, start_index as int, qv.take(0).flat_map(question_fn())));
        while i < questions.len()
            invariant
                i <= questions.len(),
                qv == questions_view(questions@),
                questions_ok(qv),
                start_index + questions_bytes(qv).len() <= start.len(),
                buf@.len() == start.len(),
                index == start_index + qv.take(i as int).flat_map(question_fn()).len(),
                buf@ == splice(start, start_index as int, qv.take(i as int).flat_map(question_fn())),
            decreases questions.len() - i,
        {
            proof {
                lemma_flat_map_take_next(qv, question_fn(), i as int);
            }
            let ghost done = qv.take(i as int).flat_map(question_fn());
            let q = &questions[i];
            assert(q@ == qv[i as int]);
            let ghost nb = name_bytes(q@.labels);
            index = write_name(&q.labels, buf, index);
            assert(buf@ =~= splice(start, start_index as int, done + nb));
            assert(index + 4 <= buf.len());
            write_u16(buf, index, q.query_type);
            assert(buf@ =~= splice(start, start_index as int, done + nb + u16_bytes(q.query_type)));
            write_u16(buf, index + 2, q.query_class);
            assert(buf@ =~= splice(start, start_index as int, done + question_bytes(q@)));
            index = index + 4;
            i = i + 1;
        }
        assert(qv.take(qv.len() as int) =~= qv);
        index
    }
}

/// A copy of the questions.
pub fn copy_questions(questions: &Vec<Question>) -> (r: Vec<Question>)
    ensures
        questions_view(r@) == questions_view(questions@),
{
    let mut r: Vec<Question> = Vec::new();
    let mut i: usize = 0;
    while i < questions.len()
        invariant
            i <= questions.len(),
            questions_view(r@) == questions_view(questions@).take(i as int),
        decreases questions.len() - i,
    {
        let q = questions[i].duplicate();
        let ghost prev = r@;
        r.push(q);
        assert(questions_view(r@) =~= questions_view(prev).push(q@));
        assert(questions_view(questions@).take(i + 1) =~= questions_view(questions@).take(
            i as int,
        ).push(q@));
        i = i + 1;
    }
    assert(questions_view(questions@).take(questions.len() as int) =~= questions_view(questions@));
    r
}

/// Whether every label of every question can be written.
pub fn questions_writable(questions: &Vec<Question>) -> (ok: bool)
    ensures
        ok == questions_ok(questions_view(questions@)),
{
    let mut i: usize = 0;
    while i < questions.len()
        invariant
            i <= questions.len(),
            forall|j: int| 0 <= j < i ==> labels_ok(#[trigger] questions_view(questions@)[j].labels),
        decreases questions.len() - i,
    {
        if !labels_writable(&questions[i].labels) {
            assert(questions_view(questions@)[i as int] == questions@[i as int]@);
            assert(!labels_ok(questions_view(questions@)[i as int].labels));
            return false;
        }
        i = i + 1;
    }
    true
}

/// The number of bytes the questions take on the wire, if it is at most `room`.
pub fn questions_len(questions: &Vec<Question>, room: usize) -> (r: Option<usize>)
    requires
        questions_ok(questions_view(questions@)),
        room <= 0x1_0000,
    ensures
        r is Some <==> questions_bytes(questions_view(questions@)).len() <= room,
        r matches Some(n) ==> n == questions_bytes(questions_view(questions@)).len(),
{
    let ghost qv = questions_view(questions@);
    let mut total: usize = 0;
    let mut i: usize = 0;
    while i < questions.len()
        invariant
            i <= questions.len(),
            qv == questions_view(questions@),
            questions_ok(qv),
            room <= 0x1_0000,
            total == qv.take(i as int).flat_map(question_fn()).len(),
            total <= room,
        decreases questions.len() - i,
    {
        proof {
            lemma_flat_map_take_next(qv, question_fn(), i as int);
        }
        assert(questions[i as int]@ == qv[i as int]);
        let n = match name_len(&questions[i].labels, room - total) {
            Some(n) => n,
            None => {
                return None;
            },
        };
        if room - total - n < 4 {
            return None;
        }
        total = total + n + 4;
        i = i + 1;
    }
    assert(qv.take(qv.len() as int) =~= qv);
    Some(total)
}

} // verus!
