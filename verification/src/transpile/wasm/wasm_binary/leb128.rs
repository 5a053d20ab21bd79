//! LEB128, the variable-length encoding of integers in the WebAssembly binary format.

use vstd::prelude::*;

verus! {

/// Unsigned LEB128: seven bits per byte, least significant first, the high bit set on every
/// byte but the last.
pub open spec fn unsigned_leb128(v: nat) -> Seq<u8>
    decreases v,
{
    if v < 128 {
        seq![v as u8]
    } else {
        seq![(v % 128 + 128) as u8] + unsigned_leb128(v / 128)
    }
}

/// How far a signed value is from the values that take one byte.
pub open spec fn signed_size(v: int) -> nat {
    if v >= 0 { v as nat } else { (-v - 1) as nat }
}

/// Signed LEB128: seven bits per byte, least significant first; the last byte is the one
/// whose sign bit (0x40) matches what is left of the value.
pub open spec fn signed_leb128(v: int) -> Seq<u8>
    decreases signed_size(v),
{
    let byte = v % 128;
    let rest = v / 128;
    if (rest == 0 && byte < 64) || (rest == -1 && byte >= 64) {
        seq![byte as u8]
    } else {
        proof {
            lemma_signed_rest_smaller(v);
        }
        seq![(byte + 128) as u8] + signed_leb128(rest)
    }
}

pub proof fn lemma_signed_rest_smaller(v: int)
    requires
        !((v / 128 == 0 && v % 128 < 64) || (v / 128 == -1 && v % 128 >= 64)),
    ensures
        signed_size(v / 128) < signed_size(v),
{
    assert(v == 128 * (v / 128) + v % 128 && 0 <= v % 128 < 128) by (nonlinear_arith);
}

/// Appends the unsigned LEB128 encoding of `value`.
pub fn write_unsigned(w: &mut Vec<u8>, value: u64)
    ensures
        final(w)@ == old(w)@ + unsigned_leb128(value as nat),
{
    let ghost start = w@;
    let mut rest = value;
    assert(start + unsigned_leb128(value as nat) == w@ + unsigned_leb128(rest as nat));
    loop
        invariant
            start == old(w)@,
            start + unsigned_leb128(value as nat) == w@ + unsigned_leb128(rest as nat),
        decreases rest,
    {
        let byte = (rest % 128) as u8;
        if rest < 128 {
            w.push(byte);
            assert(w@ =~= start + unsigned_leb128(value as nat));
            return;
        }
        let ghost before = w@;
        w.push(byte + 128);
        assert(unsigned_leb128(rest as nat) == seq![(rest % 128 + 128) as u8] + unsigned_leb128((rest / 128) as nat));
        assert(before + unsigned_leb128(rest as nat) =~= w@ + unsigned_leb128((rest / 128) as nat));
        rest = rest / 128;
    }
}

/// Appends the signed LEB128 encoding of `value`.
pub fn write_signed(w: &mut Vec<u8>, value: i64)
    ensures
        final(w)@ == old(w)@ + signed_leb128(value as int),
{
    let ghost start = w@;
    let mut rest: i64 = value;
    loop
        invariant
            start == old(w)@,
            start + signed_leb128(value as int) == w@ + signed_leb128(rest as int),
        decreases signed_size(rest as int),
    {
        let r = rest % 128;
        let byte: i64 = if r < 0 { r + 128 } else { r };
        assert(byte == rest as int % 128);
        let next: i64 = (rest - byte) / 128;
        proof {
            assert(rest as int == 128 * (rest as int / 128) + rest as int % 128) by (nonlinear_arith);
            assert((rest - byte) as int == 128 * (rest as int / 128));
            assert(next == rest as int / 128) by (nonlinear_arith)
                requires
                    (rest - byte) as int == 128 * (rest as int / 128),
                    next == (rest - byte) as int / 128,
            ;
        }
        if (next == 0 && byte < 64) || (next == -1 && byte >= 64) {
            w.push(byte as u8);
            assert(w@ =~= start + signed_leb128(value as int));
            return;
        }
        let ghost before = w@;
        w.push((byte + 128) as u8);
        proof {
            lemma_signed_rest_smaller(rest as int);
            assert(signed_leb128(rest as int) == seq![(byte + 128) as u8] + signed_leb128(next as int));
            assert(before + signed_leb128(rest as int) =~= w@ + signed_leb128(next as int));
        }
        rest = next;
    }
}

/// Values that write themselves in LEB128.
pub trait WriteLeb128 {
    fn write_leb128(&self, w: &mut Vec<u8>);
}

impl WriteLeb128 for bool {
    /// One for true, zero for false, unsigned.
    fn write_leb128(&self, w: &mut Vec<u8>)
        ensures
            final(w)@ == old(w)@ + unsigned_leb128(if *self { 1 } else { 0 }),
    {
        write_unsigned(w, if *self { 1 } else { 0 });
    }
}

impl WriteLeb128 for i8 {
    fn write_leb128(&self, w: &mut Vec<u8>)
        ensures
            final(w)@ == old(w)@ + signed_leb128(*self as int),
    {
        write_signed(w, *self as i64);
    }
}

impl WriteLeb128 for u8 {
    fn write_leb128(&self, w: &mut Vec<u8>)
        ensures
            final(w)@ == old(w)@ + unsigned_leb128(*self as nat),
    {
        write_unsigned(w, *self as u64);
    }
}

impl WriteLeb128 for i32 {
    fn write_leb128(&self, w: &mut Vec<u8>)
        ensures
            final(w)@ == old(w)@ + signed_leb128(*self as int),
    {
        write_signed(w, *self as i64);
    }
}

impl WriteLeb128 for u32 {
    /// Written in the signed encoding, as a non-negative number.
    fn write_leb128(&self, w: &mut Vec<u8>)
        ensures
            final(w)@ == old(w)@ + signed_leb128(*self as int),
    {
        write_signed(w, *self as i64);
    }
}

impl WriteLeb128 for i64 {
    fn write_leb128(&self, w: &mut Vec<u8>)
        ensures
            final(w)@ == old(w)@ + signed_leb128(*self as int),
    {
        write_signed(w, *self);
    }
}

} // verus!
