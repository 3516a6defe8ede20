//! Bitwise CRC-16, most significant bit first.

use vstd::prelude::*;

verus! {

/// One bit of the register.
pub open spec fn crc_bit(crc: u16, poly: u16) -> u16 {
    if crc & 0x8000 != 0 {
        (crc << 1) ^ poly
    } else {
        crc << 1
    }
}

/// Eight bits of the register.
pub open spec fn crc_eight(crc: u16, poly: u16) -> u16 {
    crc_bit(
        crc_bit(
            crc_bit(
                crc_bit(
                    crc_bit(crc_bit(crc_bit(crc_bit(crc, poly), poly), poly), poly),
                    poly,
                ),
                poly,
            ),
            poly,
        ),
        poly,
    )
}

/// One byte into the register.
pub open spec fn crc_byte(crc: u16, b: u8, poly: u16) -> u16 {
    crc_eight(crc ^ ((b as u16) << 8), poly)
}

/// The register behind a run of bytes.
pub open spec fn crc_of(data: Seq<u8>, init: u16, poly: u16) -> u16
    decreases data.len(),
{
    if data.len() == 0 {
        init
    } else {
        crc_byte(crc_of(data.drop_last(), init, poly), data.last(), poly)
    }
}

/// One byte into the register.
fn step(crc: u16, b: u8, poly: u16) -> (r: u16)
    ensures
        r == crc_byte(crc, b, poly),
{
    let mut c: u16 = crc ^ ((b as u16) << 8);
    c = bit(c, poly);
    c = bit(c, poly);
    c = bit(c, poly);
    c = bit(c, poly);
    c = bit(c, poly);
    c = bit(c, poly);
    c = bit(c, poly);
    bit(c, poly)
}

fn bit(crc: u16, poly: u16) -> (r: u16)
    ensures
        r == crc_bit(crc, poly),
{
    if crc & 0x8000 != 0 {
        (crc << 1) ^ poly
    } else {
        crc << 1
    }
}

/// The CRC of some bytes.
pub fn crc(data: &[u8], init: u16, poly: u16) -> (r: u16)
    ensures
        r == crc_of(data@, init, poly),
{
    let mut c: u16 = init;
    let mut i: usize = 0;
    while i < data.len()
        invariant
            i <= data@.len(),
            c == crc_of(data@.take(i as int), init, poly),
        decreases data@.len() - i,
    {
        c = step(c, data[i], poly);
        i = i + 1;
        assert(data@.take(i as int).drop_last() =~= data@.take(i - 1));
    }
    assert(data@.take(data@.len() as int) =~= data@);
    c
}

/// The register remembers where it came from, for a polynomial with a constant term.
proof fn lemma_bit_injective(a: u16, b: u16, poly: u16)
    requires
        poly & 1 == 1,
        a != b,
    ensures
        crc_bit(a, poly) != crc_bit(b, poly),
{
    assert((if a & 0x8000 != 0 { (a << 1) ^ poly } else { a << 1 }) != (if b & 0x8000 != 0 {
        (b << 1) ^ poly
    } else {
        b << 1
    })) by (bit_vector)
        requires
            poly & 1 == 1,
            a != b,
    ;
}

proof fn lemma_eight_injective(a: u16, b: u16, poly: u16)
    requires
        poly & 1 == 1,
        a != b,
    ensures
        crc_eight(a, poly) != crc_eight(b, poly),
{
    let a1 = crc_bit(a, poly);
    let b1 = crc_bit(b, poly);
    lemma_bit_injective(a, b, poly);
    let a2 = crc_bit(a1, poly);
    let b2 = crc_bit(b1, poly);
    lemma_bit_injective(a1, b1, poly);
    let a3 = crc_bit(a2, poly);
    let b3 = crc_bit(b2, poly);
    lemma_bit_injective(a2, b2, poly);
    let a4 = crc_bit(a3, poly);
    let b4 = crc_bit(b3, poly);
    lemma_bit_injective(a3, b3, poly);
    let a5 = crc_bit(a4, poly);
    let b5 = crc_bit(b4, poly);
    lemma_bit_injective(a4, b4, poly);
    let a6 = crc_bit(a5, poly);
    let b6 = crc_bit(b5, poly);
    lemma_bit_injective(a5, b5, poly);
    let a7 = crc_bit(a6, poly);
    let b7 = crc_bit(b6, poly);
    lemma_bit_injective(a6, b6, poly);
    lemma_bit_injective(a7, b7, poly);
}

/// A difference in the register survives equal bytes, and different bytes into
/// equal registers make a difference.
proof fn lemma_byte_injective(a: u16, b: u16, x: u8, y: u8, poly: u16)
    requires
        poly & 1 == 1,
        (a != b && x == y) || (a == b && x != y),
    ensures
        crc_byte(a, x, poly) != crc_byte(b, y, poly),
{
    assert(a ^ ((x as u16) << 8) != b ^ ((y as u16) << 8)) by (bit_vector)
        requires
            (a != b && x == y) || (a == b && x != y),
    ;
    lemma_eight_injective(a ^ ((x as u16) << 8), b ^ ((y as u16) << 8), poly);
}

/// Two runs of bytes that differ in exactly one byte have different CRCs.
pub proof fn law_crc_detects_one_byte(a: Seq<u8>, b: Seq<u8>, k: int, init: u16, poly: u16)
    requires
        poly & 1 == 1,
        a.len() == b.len(),
        0 <= k < a.len(),
        a[k] != b[k],
        forall|i: int| 0 <= i < a.len() && i != k ==> a[i] == b[i],
    ensures
        crc_of(a, init, poly) != crc_of(b, init, poly),
    decreases a.len(),
{
    let ra = crc_of(a.drop_last(), init, poly);
    let rb = crc_of(b.drop_last(), init, poly);
    if k == a.len() - 1 {
        assert(a.drop_last() =~= b.drop_last());
    } else {
        law_crc_detects_one_byte(a.drop_last(), b.drop_last(), k, init, poly);
        assert(a.last() == b.last());
    }
    lemma_byte_injective(ra, rb, a.last(), b.last(), poly);
}

} // verus!
