use vstd::prelude::*;
use vstd::seq_lib::lemma_flatten_concat;

verus! {

/// The big-endian 16-bit integer of two bytes.
pub open spec fn be16(hi: u8, lo: u8) -> u16 {
    (hi as int * 256 + lo as int) as u16
}

/// The big-endian 32-bit integer of four bytes.
pub open spec fn be32(b0: u8, b1: u8, b2: u8, b3: u8) -> u32 {
    (((b0 as int * 256 + b1 as int) * 256 + b2 as int) * 256 + b3 as int) as u32
}

/// The two bytes of a 16-bit integer, most significant first.
pub open spec fn u16_bytes(x: u16) -> Seq<u8> {
    seq![(x / 256) as u8, (x % 256) as u8]
}

/// The four bytes of a 32-bit integer, most significant first.
pub open spec fn u32_bytes(x: u32) -> Seq<u8> {
    seq![(x / 0x100_0000) as u8, (x / 0x1_0000 % 256) as u8, (x / 256 % 256) as u8, (x % 256) as u8]
}

/// `s` with the bytes from `at` on overwritten by `t`.
pub open spec fn splice(s: Seq<u8>, at: int, t: Seq<u8>) -> Seq<u8> {
    s.take(at) + t + s.skip(at + t.len())
}

/// Two writes side by side are one write of both.
pub proof fn lemma_splice_append(s: Seq<u8>, at: int, x: Seq<u8>, y: Seq<u8>)
    requires
        0 <= at,
        at + x.len() + y.len() <= s.len(),
    ensures
        splice(splice(s, at, x), at + x.len(), y) == splice(s, at, x + y),
{
    assert(splice(splice(s, at, x), at + x.len(), y) =~= splice(s, at, x + y));
}

pub proof fn lemma_be16_of_bytes(x: u16)
    ensures
        be16(u16_bytes(x)[0], u16_bytes(x)[1]) == x,
{
}

pub proof fn lemma_be32_of_bytes(x: u32)
    ensures
        be32(u32_bytes(x)[0], u32_bytes(x)[1], u32_bytes(x)[2], u32_bytes(x)[3]) == x,
{
}

/// A flat map splits at any index into the flat maps of the two parts.
pub proof fn lemma_flat_map_split<A>(s: Seq<A>, f: spec_fn(A) -> Seq<u8>, i: int)
    requires
        0 <= i <= s.len(),
    ensures
        s.flat_map(f) == s.take(i).flat_map(f) + s.skip(i).flat_map(f),
{
    assert(s.map_values(f) =~= s.take(i).map_values(f) + s.skip(i).map_values(f));
    lemma_flatten_concat(s.take(i).map_values(f), s.skip(i).map_values(f));
}

/// A flat map of a nonempty sequence starts with the image of its first element.
pub proof fn lemma_flat_map_first<A>(s: Seq<A>, f: spec_fn(A) -> Seq<u8>)
    requires
        s.len() > 0,
    ensures
        s.flat_map(f) == f(s[0]) + s.skip(1).flat_map(f),
{
    lemma_flat_map_split(s, f, 1);
    assert(s.take(1) =~= seq![s[0]]);
    assert(seq![s[0]].map_values(f) =~= seq![f(s[0])]);
    seq![f(s[0])].lemma_flatten_one_element();
}

/// Extending a prefix by one element extends its flat map by that element's image.
pub proof fn lemma_flat_map_take_next<A>(s: Seq<A>, f: spec_fn(A) -> Seq<u8>, i: int)
    requires
        0 <= i < s.len(),
    ensures
        s.take(i + 1).flat_map(f) == s.take(i).flat_map(f) + f(s[i]),
        s.take(i + 1).flat_map(f).len() <= s.flat_map(f).len(),
{
    s.lemma_flat_map_take_append(f, i);
    lemma_flat_map_split(s, f, i + 1);
}

/// Reads the big-endian 16-bit integer at `at`.
pub fn read_u16(buf: &[u8], at: usize) -> (r: u16)
    requires
        at + 2 <= buf@.len(),
    ensures
        r == be16(buf@[at as int], buf@[at + 1]),
{
    (buf[at] as u16) * 256 + (buf[at + 1] as u16)
}

/// Reads the big-endian 32-bit integer at `at`.
pub fn read_u32(buf: &[u8], at: usize) -> (r: u32)
    requires
        at + 4 <= buf@.len(),
    ensures
        r == be32(buf@[at as int], buf@[at + 1], buf@[at + 2], buf@[at + 3]),
{
    assert(at + 4 <= buf.len());
    let hi = read_u16(buf, at) as u32;
    let lo = read_u16(buf, at + 2) as u32;
    hi * 0x1_0000 + lo
}

/// Writes `x` big-endian at `at`.
pub fn write_u16(buf: &mut [u8], at: usize, x: u16)
    requires
        at + 2 <= old(buf)@.len(),
    ensures
        final(buf)@ == splice(old(buf)@, at as int, u16_bytes(x)),
{
    buf[at] = (x / 256) as u8;
    buf[at + 1] = (x % 256) as u8;
    assert(final(buf)@ =~= splice(old(buf)@, at as int, u16_bytes(x)));
}

/// Writes `x` big-endian at `at`.
pub fn write_u32(buf: &mut [u8], at: usize, x: u32)
    requires
        at + 4 <= old(buf)@.len(),
    ensures
        final(buf)@ == splice(old(buf)@, at as int, u32_bytes(x)),
{
    buf[at] = (x / 0x100_0000) as u8;
    buf[at + 1] = (x / 0x1_0000 % 256) as u8;
    buf[at + 2] = (x / 256 % 256) as u8;
    buf[at + 3] = (x % 256) as u8;
    assert(final(buf)@ =~= splice(old(buf)@, at as int, u32_bytes(x)));
}

/// Writes the four bytes of `x` at `at`.
pub fn write_quad(buf: &mut [u8], at: usize, x: [u8; 4])
    requires
        at + 4 <= old(buf)@.len(),
    ensures
        final(buf)@ == splice(old(buf)@, at as int, x@),
{
    buf[at] = x[0];
    buf[at + 1] = x[1];
    buf[at + 2] = x[2];
    buf[at + 3] = x[3];
    assert(final(buf)@ =~= splice(old(buf)@, at as int, x@));
}

} // verus!
