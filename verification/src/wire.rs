use vstd::prelude::*;

verus! {

/// The big-endian 16-bit value held by bytes `i` and `i + 1` of `b`.
pub open spec fn spec_be16(b: Seq<u8>, i: int) -> u16 {
    ((b[i] as int) * 256 + (b[i + 1] as int)) as u16
}

/// High byte of a big-endian 16-bit field.
pub open spec fn spec_be_hi(v: u16) -> u8 {
    (v / 256) as u8
}

/// Low byte of a big-endian 16-bit field.
pub open spec fn spec_be_lo(v: u16) -> u8 {
    (v % 256) as u8
}

/// The two big-endian bytes of a 16-bit field.
pub open spec fn spec_be16_bytes(v: u16) -> Seq<u8> {
    seq![spec_be_hi(v), spec_be_lo(v)]
}

/// The big-endian 32-bit value held by bytes `i` through `i + 3` of `b`.
pub open spec fn spec_be32(b: Seq<u8>, i: int) -> u32 {
    ((b[i] as int) * 0x1000000 + (b[i + 1] as int) * 0x10000 + (b[i + 2] as int) * 0x100 + (b[i
        + 3] as int)) as u32
}

/// The four big-endian bytes of a 32-bit field.
pub open spec fn spec_be32_bytes(v: u32) -> Seq<u8> {
    seq![
        (v / 0x1000000) as u8,
        (v / 0x10000 % 0x100) as u8,
        (v / 0x100 % 0x100) as u8,
        (v % 0x100) as u8,
    ]
}

/// Splitting a 16-bit field into its two bytes and joining them restores
/// the field.
pub proof fn lemma_be16_join(v: u16)
    ensures
        ((spec_be_hi(v) as int) * 256 + (spec_be_lo(v) as int)) as u16 == v,
{
    assert(((((v / 256) as u8) as int) * 256 + (((v % 256) as u8) as int)) as u16 == v)
        by (bit_vector);
}

/// Joining two bytes into a 16-bit field and splitting it restores the
/// bytes.
pub proof fn lemma_be16_split(b0: u8, b1: u8)
    ensures
        spec_be_hi(((b0 as int) * 256 + (b1 as int)) as u16) == b0,
        spec_be_lo(((b0 as int) * 256 + (b1 as int)) as u16) == b1,
{
    assert((((b0 as int) * 256 + (b1 as int)) as u16) / 256 == b0 as u16) by (bit_vector);
    assert((((b0 as int) * 256 + (b1 as int)) as u16) % 256 == b1 as u16) by (bit_vector);
}

/// Splitting a 32-bit field into its four bytes and joining them restores
/// the field.
pub proof fn lemma_be32_join(v: u32)
    ensures
        ((spec_be32_bytes(v)[0] as int) * 0x1000000 + (spec_be32_bytes(v)[1] as int) * 0x10000 + (
        spec_be32_bytes(v)[2] as int) * 0x100 + (spec_be32_bytes(v)[3] as int)) as u32 == v,
{
    assert(((((v / 0x1000000) as u8) as int) * 0x1000000 + (((v / 0x10000 % 0x100) as u8) as int)
        * 0x10000 + (((v / 0x100 % 0x100) as u8) as int) * 0x100 + (((v % 0x100) as u8) as int))
        as u32 == v) by (bit_vector);
}

/// Joining four bytes into a 32-bit field and splitting it restores the
/// bytes.
pub proof fn lemma_be32_split(b0: u8, b1: u8, b2: u8, b3: u8)
    ensures
        ({
            let v = ((b0 as int) * 0x1000000 + (b1 as int) * 0x10000 + (b2 as int) * 0x100 + (
            b3 as int)) as u32;
            spec_be32_bytes(v) == seq![b0, b1, b2, b3]
        }),
{
    let v = ((b0 as int) * 0x1000000 + (b1 as int) * 0x10000 + (b2 as int) * 0x100 + (
    b3 as int)) as u32;
    assert((v / 0x1000000) as u8 == b0 && (v / 0x10000 % 0x100) as u8 == b1 && (v / 0x100
        % 0x100) as u8 == b2 && (v % 0x100) as u8 == b3) by (bit_vector)
        requires
            v == ((b0 as int) * 0x1000000 + (b1 as int) * 0x10000 + (b2 as int) * 0x100 + (
            b3 as int)) as u32,
    ;
    assert(spec_be32_bytes(v) =~= seq![b0, b1, b2, b3]);
}

/// Appends every byte of `src` to `dst`, in order.
pub fn push_all(dst: &mut Vec<u8>, src: &[u8])
    ensures
        final(dst)@ == old(dst)@ + src@,
{
    let ghost orig = dst@;
    let mut i: usize = 0;
    while i < src.len()
        invariant
            i <= src@.len(),
            dst@ == orig + src@.take(i as int),
        decreases src@.len() - i,
    {
        let byte: u8 = src[i];
        dst.push(byte);
        proof {
            assert((orig + src@.take(i as int)).push(byte) =~= orig + src@.take(i + 1));
        }
        i = i + 1;
    }
    proof {
        assert(src@.take(src@.len() as int) =~= src@);
    }
}

/// Appends the two big-endian bytes of a 16-bit field.
pub fn push_be16(dst: &mut Vec<u8>, v: u16)
    ensures
        final(dst)@ == old(dst)@ + spec_be16_bytes(v),
{
    dst.push((v / 256) as u8);
    dst.push((v % 256) as u8);
    proof {
        assert(old(dst)@.push(spec_be_hi(v)).push(spec_be_lo(v)) =~= old(dst)@ + spec_be16_bytes(
            v,
        ));
    }
}

/// Appends the four big-endian bytes of a 32-bit field.
pub fn push_be32(dst: &mut Vec<u8>, v: u32)
    ensures
        final(dst)@ == old(dst)@ + spec_be32_bytes(v),
{
    dst.push((v / 0x1000000) as u8);
    dst.push((v / 0x10000 % 0x100) as u8);
    dst.push((v / 0x100 % 0x100) as u8);
    dst.push((v % 0x100) as u8);
    proof {
        assert(old(dst)@.push(spec_be32_bytes(v)[0]).push(spec_be32_bytes(v)[1]).push(
            spec_be32_bytes(v)[2],
        ).push(spec_be32_bytes(v)[3]) =~= old(dst)@ + spec_be32_bytes(v));
    }
}

} // verus!
