use vstd::prelude::*;

verus! {

/// The sub-byte fields of bytes 2 and 3 of a DNS header.
#[derive(Debug, Clone, Copy, PartialEq, Eq, Structural)]
pub struct Flags {
    pub is_response: bool,
    /// Four bits wide.
    pub opcode: u8,
    pub authoritative: bool,
    pub truncated: bool,
    pub recursion_desired: bool,
    pub recursion_available: bool,
    /// Three bits wide.
    pub reserved: u8,
    /// Four bits wide.
    pub response_code: u8,
}

/// Every multi-bit field fits its width on the wire.
pub open spec fn flags_in_range(f: Flags) -> bool {
    f.opcode <= 15 && f.reserved <= 7 && f.response_code <= 15
}

pub open spec fn bit(b: bool) -> u8 {
    if b { 1u8 } else { 0u8 }
}

/// Byte 2: QR(1) Opcode(4) AA(1) TC(1) RD(1), most significant bit first.
pub open spec fn flags_byte2(f: Flags) -> u8 {
    (bit(f.is_response) << 7u8) | ((f.opcode & 0x0Fu8) << 3u8) | (bit(f.authoritative) << 2u8)
        | (bit(f.truncated) << 1u8) | bit(f.recursion_desired)
}

/// Byte 3: RA(1) Z(3) RCODE(4), most significant bit first.
pub open spec fn flags_byte3(f: Flags) -> u8 {
    (bit(f.recursion_available) << 7u8) | ((f.reserved & 0x07u8) << 4u8) | (f.response_code
        & 0x0Fu8)
}

/// The flags that bytes 2 and 3 hold.
pub open spec fn flags_of(b2: u8, b3: u8) -> Flags {
    Flags {
        is_response: b2 & 0x80u8 != 0,
        opcode: (b2 >> 3u8) & 0x0Fu8,
        authoritative: b2 & 0x04u8 != 0,
        truncated: b2 & 0x02u8 != 0,
        recursion_desired: b2 & 0x01u8 != 0,
        recursion_available: b3 & 0x80u8 != 0,
        reserved: (b3 >> 4u8) & 0x07u8,
        response_code: b3 & 0x0Fu8,
    }
}

/// The flags with each multi-bit field cut to its width.
pub open spec fn masked(f: Flags) -> Flags {
    Flags {
        opcode: f.opcode & 0x0Fu8,
        reserved: f.reserved & 0x07u8,
        response_code: f.response_code & 0x0Fu8,
        ..f
    }
}

/// Packs the flags into header bytes 2 and 3. A multi-bit field wider than its
/// width is cut to its low bits.
pub fn pack_flags(f: Flags) -> (r: (u8, u8))
    ensures
        r == (flags_byte2(f), flags_byte3(f)),
{
    let qr: u8 = if f.is_response { 1 } else { 0 };
    let aa: u8 = if f.authoritative { 1 } else { 0 };
    let tc: u8 = if f.truncated { 1 } else { 0 };
    let rd: u8 = if f.recursion_desired { 1 } else { 0 };
    let ra: u8 = if f.recursion_available { 1 } else { 0 };
    let b2: u8 = (qr << 7u8) | ((f.opcode & 0x0F) << 3u8) | (aa << 2u8) | (tc << 1u8) | rd;
    let b3: u8 = (ra << 7u8) | ((f.reserved & 0x07) << 4u8) | (f.response_code & 0x0F);
    (b2, b3)
}

/// Reads the flags out of header bytes 2 and 3; every pair of bytes is accepted.
pub fn unpack_flags(b2: u8, b3: u8) -> (r: Flags)
    ensures
        r == flags_of(b2, b3),
        flags_in_range(r),
{
    let r = Flags {
        is_response: b2 & 0x80 != 0,
        opcode: (b2 >> 3u8) & 0x0F,
        authoritative: b2 & 0x04 != 0,
        truncated: b2 & 0x02 != 0,
        recursion_desired: b2 & 0x01 != 0,
        recursion_available: b3 & 0x80 != 0,
        reserved: (b3 >> 4u8) & 0x07,
        response_code: b3 & 0x0F,
    };
    assert((b2 >> 3u8) & 0x0Fu8 <= 15u8) by (bit_vector);
    assert((b3 >> 4u8) & 0x07u8 <= 7u8) by (bit_vector);
    assert(b3 & 0x0Fu8 <= 15u8) by (bit_vector);
    r
}

/// Unpacking packed flags gives back the flags, each multi-bit field cut to
/// its width; flags already in range come back unchanged.
pub proof fn lemma_flags_round_trip(f: Flags)
    ensures
        flags_of(flags_byte2(f), flags_byte3(f)) == masked(f),
        flags_in_range(f) ==> masked(f) == f,
{
    let (qr, op, aa) = (bit(f.is_response), f.opcode, bit(f.authoritative));
    let (tc, rd) = (bit(f.truncated), bit(f.recursion_desired));
    let (ra, z, rc) = (bit(f.recursion_available), f.reserved, f.response_code);
    assert(qr <= 1 && aa <= 1 && tc <= 1 && rd <= 1 && ra <= 1);
    let b2 = flags_byte2(f);
    let b3 = flags_byte3(f);
    assert(qr <= 1 && aa <= 1 && tc <= 1 && rd <= 1 && b2 == (qr << 7u8) | ((op & 0x0Fu8) << 3u8)
        | (aa << 2u8) | (tc << 1u8) | rd ==> {
        &&& (b2 & 0x80u8 != 0) == (qr == 1)
        &&& (b2 >> 3u8) & 0x0Fu8 == op & 0x0Fu8
        &&& (b2 & 0x04u8 != 0) == (aa == 1)
        &&& (b2 & 0x02u8 != 0) == (tc == 1)
        &&& (b2 & 0x01u8 != 0) == (rd == 1)
    }) by (bit_vector);
    assert(ra <= 1 && b3 == (ra << 7u8) | ((z & 0x07u8) << 4u8) | (rc & 0x0Fu8) ==> {
        &&& (b3 & 0x80u8 != 0) == (ra == 1)
        &&& (b3 >> 4u8) & 0x07u8 == z & 0x07u8
        &&& b3 & 0x0Fu8 == rc & 0x0Fu8
    }) by (bit_vector);
    assert(op <= 15 ==> op & 0x0Fu8 == op) by (bit_vector);
    assert(z <= 7 ==> z & 0x07u8 == z) by (bit_vector);
    assert(rc <= 15 ==> rc & 0x0Fu8 == rc) by (bit_vector);
}

} // verus!
