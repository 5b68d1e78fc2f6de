//! Little-endian base-128 integers ("varints"), as used by the record stream.
//!
//! A `u32` is written seven bits at a time, least significant group first;
//! every byte but the last has its high bit set.
use vstd::prelude::*;

verus! {

/// The canonical encoding of `v`.
pub open spec fn varint_bytes(v: u32) -> Seq<u8>
    decreases v,
{
    if v < 128 {
        seq![v as u8]
    } else {
        seq![((v % 128) + 128) as u8] + varint_bytes(v / 128)
    }
}

/// `bytes` holds the encoding of `v` starting at `pos`.
pub open spec fn varint_at(bytes: Seq<u8>, pos: int, v: u32) -> bool {
    &&& 0 <= pos
    &&& pos + varint_bytes(v).len() <= bytes.len()
    &&& bytes.subrange(pos, pos + varint_bytes(v).len()) == varint_bytes(v)
}

/// An encoding is between one and five bytes long.
pub proof fn lemma_varint_len(v: u32)
    ensures
        1 <= varint_bytes(v).len() <= 5,
        v < 128 ==> varint_bytes(v).len() == 1,
{
    reveal_with_fuel(varint_bytes, 5);
    assert(v / 128 / 128 / 128 / 128 < 128);
}

/// Unfolds the first byte of an encoding found in `bytes` at `pos`.
pub proof fn lemma_varint_at_step(bytes: Seq<u8>, pos: int, v: u32)
    requires
        varint_at(bytes, pos, v),
    ensures
        pos < bytes.len(),
        v < 128 ==> bytes[pos] == v as u8,
        v >= 128 ==> bytes[pos] == ((v % 128) + 128) as u8 && varint_at(bytes, pos + 1, v / 128),
{
    let e = varint_bytes(v);
    assert(e.len() >= 1) by { lemma_varint_len(v) };
    assert(bytes[pos] == bytes.subrange(pos, pos + e.len())[0]);
    if v >= 128 {
        let t = varint_bytes(v / 128);
        assert(e == seq![((v % 128) + 128) as u8] + t);
        assert(bytes.subrange(pos + 1, pos + 1 + t.len()) =~= e.subrange(1, e.len() as int));
        assert(e.subrange(1, e.len() as int) =~= t);
    }
}

/// An encoding placed between any two byte strings is found where it was put.
pub proof fn lemma_varint_at_concat(prefix: Seq<u8>, v: u32, suffix: Seq<u8>)
    ensures
        varint_at(prefix + varint_bytes(v) + suffix, prefix.len() as int, v),
{
    let s = prefix + varint_bytes(v) + suffix;
    assert(s.subrange(prefix.len() as int, (prefix.len() + varint_bytes(v).len()) as int) =~= varint_bytes(v));
}

/// Decoding is unambiguous: the bytes at a position encode at most one value.
pub proof fn lemma_varint_unique(bytes: Seq<u8>, pos: int, v1: u32, v2: u32)
    requires
        varint_at(bytes, pos, v1),
        varint_at(bytes, pos, v2),
    ensures
        v1 == v2,
    decreases v1,
{
    lemma_varint_at_step(bytes, pos, v1);
    lemma_varint_at_step(bytes, pos, v2);
    if v1 >= 128 && v2 >= 128 {
        lemma_varint_unique(bytes, pos + 1, v1 / 128, v2 / 128);
    }
}

/// The bits of `v` below position `shift`.
pub open spec fn low_bits(v: u32, shift: u32) -> u32 {
    v & !(0xFFFF_FFFFu32 << shift)
}

proof fn lemma_bits_step(v: u32, value: u32, shift: u32)
    requires
        shift <= 28,
        shift % 7 == 0,
        value == low_bits(v, shift),
    ensures
        (v >> shift) < 128 ==> ((((v >> shift) as u8) & 0x80u8) == 0u8 && (value | (((((v
            >> shift) as u8) & 0x7Fu8) as u32) << shift)) == v),
        (v >> shift) >= 128 ==> {
            &&& shift + 7 <= 28
            &&& ((((v >> shift) % 128 + 128) as u8) & 0x80u8) != 0u8
            &&& (value | ((((((v >> shift) % 128 + 128) as u8) & 0x7Fu8) as u32) << shift))
                == low_bits(v, (shift + 7) as u32)
            &&& (v >> shift) / 128 == v >> ((shift + 7) as u32)
        },
{
    let r = v >> shift;
    assert(r < 128 ==> ((r as u8) & 0x80u8) == 0u8) by (bit_vector);
    assert(r < 128 ==> ((r as u8) & 0x7Fu8) as u32 == r) by (bit_vector);
    assert(r >= 128 ==> (((r % 128 + 128) as u8) & 0x80u8) != 0u8) by (bit_vector);
    assert(r >= 128 ==> (((r % 128 + 128) as u8) & 0x7Fu8) as u32 == r & 0x7Fu32) by (bit_vector);
    assert(r / 128 == r >> 7u32) by (bit_vector);
    assert(r < 128 ==> (value | (r << shift)) == v) by (bit_vector)
        requires
            r == v >> shift,
            shift <= 28,
            value == v & !(0xFFFF_FFFFu32 << shift),
    ;
    assert(r >= 128 ==> shift + 7 <= 31) by (bit_vector)
        requires
            r == v >> shift,
            shift <= 28,
    ;
    if r >= 128 {
        assert(shift + 7 <= 28);
        let s7 = (shift + 7) as u32;
        assert((value | ((r & 0x7Fu32) << shift)) == v & !(0xFFFF_FFFFu32 << s7)) by (bit_vector)
            requires
                r == v >> shift,
                s7 == shift + 7,
                s7 <= 28,
                value == v & !(0xFFFF_FFFFu32 << shift),
        ;
        assert(r >> 7u32 == v >> s7) by (bit_vector)
            requires
                r == v >> shift,
                s7 == shift + 7,
                s7 <= 28,
        ;
    }
}

/// Reads the varint that `bytes` holds at `pos`; returns its value and the
/// position just after it.
pub(crate) fn read_varint(bytes: &[u8], pos: usize, Ghost(v): Ghost<u32>) -> (res: (u32, usize))
    requires
        varint_at(bytes@, pos as int, v),
    ensures
        res.0 == v,
        res.1 == pos + varint_bytes(v).len(),
{
    let mut value: u32 = 0;
    let mut shift: u32 = 0;
    let mut cur: usize = pos;
    let ghost start = pos;
    proof {
        assert(v & !(0xFFFF_FFFFu32 << 0u32) == 0) by (bit_vector);
        assert(v >> 0u32 == v) by (bit_vector);
    }
    loop
        invariant
            start == pos,
            shift <= 28,
            shift % 7 == 0,
            value == low_bits(v, shift),
            varint_at(bytes@, cur as int, v >> shift),
            cur + varint_bytes(v >> shift).len() == start + varint_bytes(v).len(),
        decreases 28 - shift,
    {
        let ghost rest = v >> shift;
        proof {
            lemma_varint_at_step(bytes@, cur as int, rest);
            lemma_bits_step(v, value, shift);
        }
        let byte = bytes[cur];
        cur = cur + 1;
        value = value | (((byte & 0x7F) as u32) << shift);
        if byte & 0x80 == 0 {
            proof {
                lemma_varint_len(rest);
                assert(rest < 128);
                assert(varint_bytes(rest).len() == 1);
                assert(value == v);
            }
            return (value, cur);
        }
        proof {
            assert(varint_bytes(rest) == seq![((rest % 128) + 128) as u8] + varint_bytes(
                rest / 128,
            ));
        }
        shift = shift + 7;
    }
}

/// Appends the encoding of `value` to `out`.
pub fn put_varint(out: &mut Vec<u8>, value: u32)
    ensures
        final(out)@ == old(out)@ + varint_bytes(value),
{
    let ghost start = out@;
    let mut rest: u32 = value;
    loop
        invariant
            start == old(out)@,
            out@ + varint_bytes(rest) == start + varint_bytes(value),
        decreases rest,
    {
        let byte = #[verifier::truncate] ((rest & 0x7F) as u8);
        proof {
            assert((rest & 0x7Fu32) as u8 == (rest % 128) as u8 && (rest & 0x7Fu32) < 128)
                by (bit_vector);
            assert(rest >> 7u32 == rest / 128) by (bit_vector);
            assert(((rest & 0x7Fu32) as u8 | 0x80u8) == ((rest % 128) + 128) as u8) by (bit_vector);
        }
        let ghost before = out@;
        let ghost v_old = rest;
        rest = rest >> 7;
        if rest == 0 {
            out.push(byte);
            assert(v_old < 128);
            assert(byte == v_old as u8);
            assert(out@ =~= before + varint_bytes(v_old));
            assert(out@ == start + varint_bytes(value));
            return;
        }
        out.push(byte | 0x80);
        assert(varint_bytes(v_old) == seq![(byte | 0x80)] + varint_bytes(rest));
        assert(out@ + varint_bytes(rest) =~= before + varint_bytes(v_old));
    }
}

} // verus!
