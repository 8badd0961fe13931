use std::collections::HashMap;
use vstd::prelude::*;
use vstd::slice::{slice_subrange, slice_to_vec};
use vstd::utf8::{
    decode_utf8, encode_utf8, encode_utf8_decode_utf8, encode_utf8_valid_utf8, valid_utf8,
};

use crate::error::DnsError;
use crate::question::{names_of, questions_view, Question};
use crate::wire::{lemma_flat_map_first, lemma_flat_map_take_next, splice};

verus! {

broadcast use vstd::std_specs::hash::group_hash_axioms;

/// Where compression pointers may lead while one message is decoded: the
/// offset of a label's length byte, mapped to the index of the question and
/// the index of the label that was decoded there.
pub type BackRefs = HashMap<usize, (usize, usize)>;

/// The longest label the wire format carries, in bytes.
pub const MAX_LABEL_LEN: usize = 63;

/// A length byte at or above this value starts a compression pointer.
pub const POINTER_TAG: u8 = 0xC0;

/// The characters of each label.
pub open spec fn labels_view(v: Seq<String>) -> Seq<Seq<char>> {
    v.map_values(|s: String| s@)
}

/// A label the wire format carries: 1 to 63 bytes of UTF-8.
pub open spec fn label_ok(l: Seq<char>) -> bool {
    1 <= encode_utf8(l).len() <= MAX_LABEL_LEN
}

pub open spec fn labels_ok(ls: Seq<Seq<char>>) -> bool {
    forall|i: int| 0 <= i < ls.len() ==> label_ok(#[trigger] ls[i])
}

/// One label on the wire: its length byte, then its bytes.
pub open spec fn label_chunk(l: Seq<char>) -> Seq<u8> {
    seq![encode_utf8(l).len() as u8] + encode_utf8(l)
}

/// A name on the wire: each label with its length byte, then a zero byte. The
/// encoder never writes compression pointers.
pub open spec fn name_bytes(ls: Seq<Seq<char>>) -> Seq<u8> {
    ls.flat_map(chunk_fn()).push(0u8)
}

pub open spec fn chunk_fn() -> spec_fn(Seq<char>) -> Seq<u8> {
    |l: Seq<char>| label_chunk(l)
}

/// The offset that a compression pointer starting with bytes `b0`, `b1` names.
pub open spec fn pointer_target(b0: u8, b1: u8) -> usize {
    ((b0 - POINTER_TAG) as int * 256 + b1 as int) as usize
}

/// What decoding a name yields: its labels, the offset just past it, and the
/// back-reference table as it stands afterwards.
pub struct NameParse {
    pub labels: Seq<Seq<char>>,
    pub end: int,
    pub table: Map<usize, (usize, usize)>,
}

/// Puts `ls` in front of the labels of a decoded name.
pub open spec fn prepend(ls: Seq<Seq<char>>, r: Result<NameParse, DnsError>) -> Result<
    NameParse,
    DnsError,
> {
    match r {
        Ok(n) => Ok(NameParse { labels: ls + n.labels, end: n.end, table: n.table }),
        Err(e) => Err(e),
    }
}

/// Decodes the rest of a name from offset `pos` of `buf`, where `k` labels of
/// it have been read already. `prior` holds the labels of the questions
/// decoded before; the name being read belongs to question `qi`.
///
/// A zero byte ends the name. A byte with its two high bits set starts a
/// compression pointer, which ends the name with the labels that the table
/// entry at its offset names. Any other byte is the length of a literal label,
/// which must be UTF-8 and whose length byte's offset is entered in the table.
pub open spec fn parse_labels(
    buf: Seq<u8>,
    pos: int,
    table: Map<usize, (usize, usize)>,
    prior: Seq<Seq<Seq<char>>>,
    qi: usize,
    k: usize,
) -> Result<NameParse, DnsError>
    decreases buf.len() - pos,
{
    if pos < 0 || pos >= buf.len() {
        Err(DnsError::Malformed)
    } else if buf[pos] == 0 {
        Ok(NameParse { labels: seq![], end: pos + 1, table })
    } else if buf[pos] >= POINTER_TAG {
        if pos + 1 >= buf.len() {
            Err(DnsError::Malformed)
        } else {
            let t = pointer_target(buf[pos], buf[pos + 1]);
            if table.contains_key(t) && table[t].0 < prior.len() && table[t].1
                <= prior[table[t].0 as int].len() {
                Ok(
                    NameParse {
                        labels: prior[table[t].0 as int].skip(table[t].1 as int),
                        end: pos + 2,
                        table,
                    },
                )
            } else {
                Err(DnsError::CompressionReference)
            }
        }
    } else {
        let next = pos + 1 + buf[pos];
        if next > buf.len() {
            Err(DnsError::Malformed)
        } else if !valid_utf8(buf.subrange(pos + 1, next)) {
            Err(DnsError::Encoding)
        } else {
            prepend(
                seq![decode_utf8(buf.subrange(pos + 1, next))],
                parse_labels(
                    buf,
                    next,
                    table.insert(pos as usize, (qi, k)),
                    prior,
                    qi,
                    (k + 1) as usize,
                ),
            )
        }
    }
}

/// A written name decodes to its labels, whatever the table and the prior
/// questions hold.
pub proof fn lemma_name_round_trip(
    buf: Seq<u8>,
    pos: int,
    ls: Seq<Seq<char>>,
    table: Map<usize, (usize, usize)>,
    prior: Seq<Seq<Seq<char>>>,
    qi: usize,
    k: usize,
)
    requires
        labels_ok(ls),
        0 <= pos,
        pos + name_bytes(ls).len() <= buf.len(),
        buf.subrange(pos, pos + name_bytes(ls).len()) == name_bytes(ls),
    ensures
        parse_labels(buf, pos, table, prior, qi, k) is Ok,
        parse_labels(buf, pos, table, prior, qi, k)->Ok_0.labels == ls,
        parse_labels(buf, pos, table, prior, qi, k)->Ok_0.end == pos + name_bytes(ls).len(),
    decreases ls.len(),
{
    let nb = name_bytes(ls);
    assert(buf[pos] == nb[0]);
    if ls.len() == 0 {
        assert(ls.flat_map(chunk_fn()) =~= Seq::<u8>::empty());
    } else {
        let rest = ls.skip(1);
        let e = encode_utf8(ls[0]);
        lemma_flat_map_first(ls, chunk_fn());
        assert(label_ok(ls[0]));
        assert(nb =~= seq![e.len() as u8] + e + name_bytes(rest));
        let next = pos + 1 + e.len();
        assert(buf[pos] == e.len() as u8);
        assert(buf.subrange(pos + 1, next) =~= e) by {
            assert forall|j: int| 0 <= j < e.len() implies buf.subrange(pos + 1, next)[j] == e[j] by {
                assert(buf[pos + 1 + j] == nb[1 + j]);
            }
        }
        encode_utf8_valid_utf8(ls[0]);
        encode_utf8_decode_utf8(ls[0]);
        assert(labels_ok(rest)) by {
            assert forall|j: int| 0 <= j < rest.len() implies label_ok(#[trigger] rest[j]) by {
                assert(rest[j] == ls[j + 1]);
            }
        }
        assert(buf.subrange(next, next + name_bytes(rest).len()) =~= name_bytes(rest)) by {
            assert forall|j: int| 0 <= j < name_bytes(rest).len() implies buf.subrange(
                next,
                next + name_bytes(rest).len(),
            )[j] == name_bytes(rest)[j] by {
                assert(buf[next + j] == nb[1 + e.len() + j]);
            }
        }
        lemma_name_round_trip(buf, next, rest, table.insert(pos as usize, (qi, k)), prior, qi, (k + 1) as usize);
        assert(seq![ls[0]] + rest =~= ls);
    }
}

/// Decoding a name leaves the table entries at offsets before it as they were.
pub proof fn lemma_parse_keeps_entries(
    buf: Seq<u8>,
    pos: int,
    table: Map<usize, (usize, usize)>,
    prior: Seq<Seq<Seq<char>>>,
    qi: usize,
    k: usize,
    key: usize,
)
    requires
        buf.len() <= usize::MAX,
        parse_labels(buf, pos, table, prior, qi, k) is Ok,
        key < pos,
        table.contains_key(key),
    ensures
        parse_labels(buf, pos, table, prior, qi, k)->Ok_0.table.contains_key(key),
        parse_labels(buf, pos, table, prior, qi, k)->Ok_0.table[key] == table[key],
    decreases buf.len() - pos,
{
    if 0 <= pos < buf.len() && buf[pos] != 0 && buf[pos] < POINTER_TAG {
        let next = pos + 1 + buf[pos];
        lemma_parse_keeps_entries(
            buf,
            next,
            table.insert(pos as usize, (qi, k)),
            prior,
            qi,
            (k + 1) as usize,
            key,
        );
    }
}

/// A name that is wholly a compression pointer to the start of an earlier name
/// decodes to the same labels as that earlier name: the earlier name began
/// with a literal label at offset `o` and was decoded as the name of question
/// `prior.len()`, that question is kept, and the table entry at `o` is as that
/// decoding left it.
pub proof fn lemma_pointer_to_earlier_name(
    buf: Seq<u8>,
    o: int,
    table: Map<usize, (usize, usize)>,
    prior: Seq<Seq<Seq<char>>>,
    p: int,
    later_table: Map<usize, (usize, usize)>,
    later_prior: Seq<Seq<Seq<char>>>,
    qj: usize,
    kj: usize,
)
    requires
        buf.len() <= usize::MAX,
        prior.len() < usize::MAX,
        0 <= o < buf.len(),
        0 < buf[o] < POINTER_TAG,
        parse_labels(buf, o, table, prior, prior.len() as usize, 0) is Ok,
        later_prior.len() > prior.len(),
        later_prior[prior.len() as int] == parse_labels(
            buf,
            o,
            table,
            prior,
            prior.len() as usize,
            0,
        )->Ok_0.labels,
        later_table.contains_key(o as usize),
        later_table[o as usize] == parse_labels(
            buf,
            o,
            table,
            prior,
            prior.len() as usize,
            0,
        )->Ok_0.table[o as usize],
        0 <= p,
        p + 1 < buf.len(),
        buf[p] >= POINTER_TAG,
        pointer_target(buf[p], buf[p + 1]) == o,
    ensures
        parse_labels(buf, p, later_table, later_prior, qj, kj) == Ok::<NameParse, DnsError>(
            NameParse {
                labels: parse_labels(buf, o, table, prior, prior.len() as usize, 0)->Ok_0.labels,
                end: p + 2,
                table: later_table,
            },
        ),
{
    let qi = prior.len() as usize;
    let next = o + 1 + buf[o];
    let t1 = table.insert(o as usize, (qi, 0));
    lemma_parse_keeps_entries(buf, next, t1, prior, qi, 1, o as usize);
    let earlier = parse_labels(buf, o, table, prior, qi, 0)->Ok_0.labels;
    assert(later_prior[qi as int].skip(0) =~= earlier);
}

/// Relies on `String::from_utf8`: it accepts exactly the byte strings that are
/// well-formed UTF-8, and then holds the characters they encode.
#[verifier::external_body]
fn string_from_utf8(bytes: Vec<u8>) -> (r: Option<String>)
    ensures
        r is Some <==> valid_utf8(bytes@),
        r matches Some(s) ==> s@ == decode_utf8(bytes@),
{
    String::from_utf8(bytes).ok()
}

/// Decodes the name at `start`, resolving compression pointers through
/// `table` into the labels of `prior`, and enters the offset of each literal
/// label in `table` against question `prior.len()`. Returns the labels and the
/// offset just past the name.
pub fn decode_name(
    buf: &[u8],
    start: usize,
    table: &mut BackRefs,
    prior: &Vec<Question>,
) -> (r: Result<(Vec<String>, usize), DnsError>)
    ensures
        ({
            let p = parse_labels(
                buf@,
                start as int,
                old(table)@,
                names_of(questions_view(prior@)),
                prior.len(),
                0,
            );
            match r {
                Ok((ls, end)) => p == Ok::<NameParse, DnsError>(
                    NameParse { labels: labels_view(ls@), end: end as int, table: final(table)@ },
                ),
                Err(e) => p == Err::<NameParse, DnsError>(e),
            }
        }),
{
    let ghost pv = names_of(questions_view(prior@));
    let ghost whole = parse_labels(buf@, start as int, table@, pv, prior.len(), 0);
    let mut labels: Vec<String> = Vec::new();
    let mut pos: usize = start;
    loop
        invariant
            start <= pos,
            labels.len() <= pos - start,
            pv == names_of(questions_view(prior@)),
            whole == parse_labels(buf@, start as int, old(table)@, pv, prior.len(), 0),
            whole == prepend(
                labels_view(labels@),
                parse_labels(buf@, pos as int, table@, pv, prior.len(), labels.len()),
            ),
        decreases buf@.len() - pos,
    {
        if pos >= buf.len() {
            return Err(DnsError::Malformed);
        }
        let len = buf[pos];
        if len == 0 {
            assert(labels_view(labels@) + seq![] =~= labels_view(labels@));
            return Ok((labels, pos + 1));
        }
        if len >= POINTER_TAG {
            if pos + 1 >= buf.len() {
                return Err(DnsError::Malformed);
            }
            let target: usize = ((len - POINTER_TAG) as usize) * 256 + buf[pos + 1] as usize;
            let (q, l) = match table.get(&target) {
                Some(entry) => *entry,
                None => {
                    return Err(DnsError::CompressionReference);
                },
            };
            if q >= prior.len() || l > prior[q].labels.len() {
                return Err(DnsError::CompressionReference);
            }
            let src = &prior[q].labels;
            let ghost before = labels_view(labels@);
            let mut i: usize = l;
            while i < src.len()
                invariant
                    l <= i <= src.len(),
                    labels_view(labels@) == before + labels_view(src@).subrange(l as int, i as int),
                decreases src.len() - i,
            {
                let s = src[i].clone();
                assert(s@ == labels_view(src@)[i as int]);
                let ghost prev = labels@;
                labels.push(s);
                assert(labels@ == prev.push(s));
                assert(labels_view(labels@) =~= labels_view(prev).push(s@));
                assert(labels_view(src@).subrange(l as int, i + 1) =~= labels_view(src@).subrange(
                    l as int,
                    i as int,
                ).push(s@));
                assert(labels_view(labels@) =~= before + labels_view(src@).subrange(
                    l as int,
                    i + 1,
                ));
                i = i + 1;
            }
            assert(labels_view(src@).subrange(l as int, src.len() as int) =~= pv[q as int].skip(
                l as int,
            ));
            return Ok((labels, pos + 2));
        }
        let n = len as usize;
        if n > buf.len() - pos - 1 {
            return Err(DnsError::Malformed);
        }
        let bytes = slice_to_vec(slice_subrange(buf, pos + 1, pos + 1 + n));
        assert(bytes@ =~= buf@.subrange(pos + 1, pos + 1 + n));
        match string_from_utf8(bytes) {
            None => {
                return Err(DnsError::Encoding);
            },
            Some(s) => {
                let ghost rest = parse_labels(
                    buf@,
                    pos + 1 + n,
                    table@.insert(pos, (prior.len(), labels.len())),
                    pv,
                    prior.len(),
                    (labels.len() + 1) as usize,
                );
                let ghost old_labels = labels_view(labels@);
                table.insert(pos, (prior.len(), labels.len()));
                labels.push(s);
                assert(labels_view(labels@) =~= old_labels + seq![s@]);
                assert(prepend(old_labels, prepend(seq![s@], rest)) == prepend(
                    labels_view(labels@),
                    rest,
                )) by {
                    match rest {
                        Ok(nr) => {
                            assert(old_labels + (seq![s@] + nr.labels) =~= labels_view(labels@)
                                + nr.labels);
                        },
                        Err(_) => {},
                    }
                }
                pos = pos + 1 + n;
            },
        }
    }
}

/// A copy of the labels.
pub fn copy_labels(labels: &Vec<String>) -> (r: Vec<String>)
    ensures
        labels_view(r@) == labels_view(labels@),
{
    let mut r: Vec<String> = Vec::new();
    let mut i: usize = 0;
    while i < labels.len()
        invariant
            i <= labels.len(),
            labels_view(r@) == labels_view(labels@).take(i as int),
        decreases labels.len() - i,
    {
        let s = labels[i].clone();
        let ghost prev = r@;
        r.push(s);
        assert(labels_view(r@) =~= labels_view(prev).push(s@));
        assert(labels_view(labels@).take(i + 1) =~= labels_view(labels@).take(i as int).push(s@));
        i = i + 1;
    }
    assert(labels_view(labels@).take(labels.len() as int) =~= labels_view(labels@));
    r
}

/// Whether every label can be written: 1 to 63 bytes each.
pub fn labels_writable(labels: &Vec<String>) -> (ok: bool)
    ensures
        ok == labels_ok(labels_view(labels@)),
{
    let mut i: usize = 0;
    while i < labels.len()
        invariant
            i <= labels.len(),
            forall|j: int| 0 <= j < i ==> label_ok(#[trigger] labels_view(labels@)[j]),
        decreases labels.len() - i,
    {
        let n = labels[i].as_str().as_bytes().len();
        if n == 0 || n > MAX_LABEL_LEN {
            assert(!label_ok(labels_view(labels@)[i as int]));
            return false;
        }
        i = i + 1;
    }
    true
}

/// The number of bytes the name takes on the wire, if it is at most `room`.
pub fn name_len(labels: &Vec<String>, room: usize) -> (r: Option<usize>)
    requires
        labels_ok(labels_view(labels@)),
        room <= 0x1_0000,
    ensures
        r is Some <==> name_bytes(labels_view(labels@)).len() <= room,
        r matches Some(n) ==> n == name_bytes(labels_view(labels@)).len(),
{
    let ghost lv = labels_view(labels@);
    let mut total: usize = 1;
    let mut i: usize = 0;
    while i < labels.len()
        invariant
            i <= labels.len(),
            lv == labels_view(labels@),
            labels_ok(lv),
            room <= 0x1_0000,
            total == lv.take(i as int).flat_map(chunk_fn()).len() + 1,
            total <= room + 1,
        decreases labels.len() - i,
    {
        proof {
            lemma_flat_map_take_next(lv, chunk_fn(), i as int);
        }
        let n = labels[i].as_str().as_bytes().len();
        total = total + 1 + n;
        if total > room {
            proof {
                lemma_flat_map_take_next(lv, chunk_fn(), i as int);
                assert(lv.take(lv.len() as int) =~= lv);
            }
            return None;
        }
        i = i + 1;
    }
    assert(lv.take(lv.len() as int) =~= lv);
    if total > room {
        None
    } else {
        Some(total)
    }
}

/// Writes the name at `at`: each label as its length byte and its bytes, then
/// a zero byte. Returns the offset just past it.
pub fn write_name(labels: &Vec<String>, buf: &mut [u8], at: usize) -> (end: usize)
    requires
        labels_ok(labels_view(labels@)),
        at + name_bytes(labels_view(labels@)).len() <= old(buf)@.len(),
    ensures
        end == at + name_bytes(labels_view(labels@)).len(),
        final(buf)@ == splice(old(buf)@, at as int, name_bytes(labels_view(labels@))),
{
    let ghost lv = labels_view(labels@);
    let ghost start = buf@;
    let mut idx: usize = at;
    let mut i: usize = 0;
    assert(lv.take(0).flat_map(chunk_fn()) =~= Seq::<u8>::empty());
    assert(buf@ =~= splice(start, at as int, Seq::<u8>::empty()));
    while i < labels.len()
        invariant
            i <= labels.len(),
            lv == labels_view(labels@),
            labels_ok(lv),
            at + name_bytes(lv).len() <= start.len(),
            buf@.len() == start.len(),
            idx == at + lv.take(i as int).flat_map(chunk_fn()).len(),
            buf@ == splice(start, at as int, lv.take(i as int).flat_map(chunk_fn())),
        decreases labels.len() - i,
    {
        proof {
            lemma_flat_map_take_next(lv, chunk_fn(), i as int);
        }
        let ghost done = lv.take(i as int).flat_map(chunk_fn());
        let b = labels[i].as_str().as_bytes();
        assert(b@ == encode_utf8(lv[i as int]));
        let n = b.len();
        assert(idx + 1 + n <= buf.len());
        buf[idx] = n as u8;
        assert(buf@ =~= splice(start, at as int, done + seq![n as u8]));
        let mut j: usize = 0;
        while j < n
            invariant
                j <= n,
                n == b@.len(),
                idx + 1 + n <= buf.len(),
                n <= MAX_LABEL_LEN,
                buf@.len() == start.len(),
                buf@ == splice(start, at as int, done + seq![n as u8] + b@.take(j as int)),
                idx == at + done.len(),
            decreases n - j,
        {
            buf[idx + 1 + j] = b[j];
            assert(b@.take(j + 1) =~= b@.take(j as int).push(b@[j as int]));
            assert(buf@ =~= splice(start, at as int, done + seq![n as u8] + b@.take(j + 1)));
            j = j + 1;
        }
        assert(b@.take(n as int) =~= b@);
        assert(done + seq![n as u8] + b@ =~= lv.take(i + 1).flat_map(chunk_fn()));
        idx = idx + 1 + n;
        i = i + 1;
    }
    assert(lv.take(lv.len() as int) =~= lv);
    buf[idx] = 0;
    assert(buf@ =~= splice(start, at as int, name_bytes(lv)));
    idx + 1
}

} // verus!
