//! Unsigned LEB128 varints, as prost writes and reads them, and the CRC-32
//! checksum that closes every record.
use vstd::prelude::*;

verus! {

/// The LEB128 bytes of `v`: seven bits per byte, low group first, the high
/// bit set on every byte but the last.
pub open spec fn varint_bytes(v: nat) -> Seq<u8>
    decreases v,
{
    if v < 128 {
        seq![v as u8]
    } else {
        seq![((v % 128) + 128) as u8] + varint_bytes(v / 128)
    }
}

/// `b` begins with the bytes `p`.
pub open spec fn starts_with(b: Seq<u8>, p: Seq<u8>) -> bool {
    p.len() <= b.len() && b.subrange(0, p.len() as int) == p
}

/// The CRC-32 (IEEE) checksum of `b`.
pub uninterp spec fn crc32_of(b: Seq<u8>) -> u32;

/// `128` to the power `k`.
pub open spec fn pow128(k: nat) -> nat
    decreases k,
{
    if k == 0 {
        1
    } else {
        128 * pow128((k - 1) as nat)
    }
}

proof fn lemma_varint_len_below(v: nat, k: nat)
    requires
        1 <= k,
        v < pow128(k),
    ensures
        varint_bytes(v).len() <= k,
    decreases k,
{
    if v >= 128 {
        assert(k >= 2) by {
            if k == 1 {
                assert(pow128(1) == 128 * pow128(0));
            }
        }
        let m = pow128((k - 1) as nat);
        assert(v / 128 < m) by (nonlinear_arith)
            requires
                v < 128 * m,
        ;
        lemma_varint_len_below(v / 128, (k - 1) as nat);
    }
}

/// A varint takes at least one byte, at most five for a `u32` and at most ten
/// for a `u64`.
pub proof fn lemma_varint_len(v: nat)
    ensures
        1 <= varint_bytes(v).len(),
        v < 0x1_0000_0000 ==> varint_bytes(v).len() <= 5,
        v < 0x1_0000_0000_0000_0000 ==> varint_bytes(v).len() <= 10,
{
    reveal_with_fuel(pow128, 11);
    if v < 0x1_0000_0000 {
        lemma_varint_len_below(v, 5);
    }
    if v < 0x1_0000_0000_0000_0000 {
        lemma_varint_len_below(v, 10);
    }
}

/// Varints do not run into each other: two that both begin `s` are the same.
pub proof fn lemma_varint_unique(s: Seq<u8>, a: nat, b: nat)
    requires
        starts_with(s, varint_bytes(a)),
        starts_with(s, varint_bytes(b)),
    ensures
        a == b,
    decreases a,
{
    let va = varint_bytes(a);
    let vb = varint_bytes(b);
    lemma_varint_len(a);
    lemma_varint_len(b);
    assert(s[0] == va[0]) by {
        assert(s.subrange(0, va.len() as int)[0] == va[0]);
    }
    assert(s[0] == vb[0]) by {
        assert(s.subrange(0, vb.len() as int)[0] == vb[0]);
    }
    if a >= 128 && b >= 128 {
        let t = s.drop_first();
        let ra = varint_bytes(a / 128);
        let rb = varint_bytes(b / 128);
        assert(va.drop_first() =~= ra);
        assert(vb.drop_first() =~= rb);
        assert(t.subrange(0, ra.len() as int) =~= ra) by {
            assert forall|i: int| 0 <= i < ra.len() implies t[i] == ra[i] by {
                assert(s.subrange(0, va.len() as int)[i + 1] == va[i + 1]);
            }
        }
        assert(t.subrange(0, rb.len() as int) =~= rb) by {
            assert forall|i: int| 0 <= i < rb.len() implies t[i] == rb[i] by {
                assert(s.subrange(0, vb.len() as int)[i + 1] == vb[i + 1]);
            }
        }
        lemma_varint_unique(t, a / 128, b / 128);
    }
}

/// Relies on prost::encode_length_delimiter: it appends the varint of `len`,
/// and on a `Vec` fails only when fewer than its length in bytes are left
/// below `isize::MAX`.
#[verifier::external_body]
pub(crate) fn put_length_delimiter(len: usize, buf: &mut Vec<u8>)
    requires
        old(buf)@.len() + 10 <= isize::MAX,
    ensures
        final(buf)@ == old(buf)@ + varint_bytes(len as nat),
{
    let _ = prost::encode_length_delimiter(len, buf);
}

/// Relies on prost::length_delimiter_len: the number of bytes of the varint of
/// `len`.
#[verifier::external_body]
pub(crate) fn length_delimiter_size(len: usize) -> (r: usize)
    ensures
        r == varint_bytes(len as nat).len(),
{
    prost::length_delimiter_len(len)
}

/// Relies on prost::encoding::encode_varint: it appends the varint of `v`.
#[verifier::external_body]
pub(crate) fn put_varint(v: u64, buf: &mut Vec<u8>)
    requires
        old(buf)@.len() + 10 <= isize::MAX,
    ensures
        final(buf)@ == old(buf)@ + varint_bytes(v as nat),
{
    prost::encoding::encode_varint(v, buf)
}

#[verifier::external_type_specification]
#[verifier::external_body]
pub struct ExDecodeError(prost::DecodeError);

/// Relies on prost::encoding::decode_varint: on success it consumes at least
/// one byte and hands back the rest; a slice that starts with the varint of a
/// `u64` decodes to that value, and the rest follows its last byte.
#[verifier::external_body]
pub(crate) fn read_varint(b: &[u8]) -> (r: core::result::Result<(u64, &[u8]), prost::DecodeError>)
    ensures
        r matches Ok((_, rest)) ==> rest@.len() < b@.len() && rest@ == b@.subrange(
            b@.len() - rest@.len(),
            b@.len() as int,
        ),
        r is Err ==> forall|v: u64| !#[trigger] starts_with(b@, varint_bytes(v as nat)),
        r matches Ok((x, rest)) ==> forall|v: u64| #[trigger]
            starts_with(b@, varint_bytes(v as nat)) ==> x == v && rest@ == b@.subrange(
                varint_bytes(v as nat).len() as int,
                b@.len() as int,
            ),
{
    let mut rest = b;
    match prost::encoding::decode_varint(&mut rest) {
        Ok(v) => Ok((v, rest)),
        Err(e) => Err(e),
    }
}

/// Relies on crc32fast::hash: the CRC-32 (IEEE) checksum of the bytes, which
/// depends on them alone.
#[verifier::external_body]
pub(crate) fn checksum(b: &[u8]) -> (r: u32)
    ensures
        r == crc32_of(b@),
{
    crc32fast::hash(b)
}

} // verus!
