//! Value types and function signatures.

use vstd::prelude::*;
use super::leb128::{WriteLeb128, signed_leb128, unsigned_leb128};

verus! {

pub enum Type {
    Func(FuncSignature),
    Value(ValueType),
}

pub struct FuncSignature {
    pub params: Vec<ValueType>,
    pub result: Option<ValueType>,
}

#[derive(Debug, Clone, Copy, PartialEq, Eq, Structural)]
pub enum ValueType {
    I32,
    Void,
}

/// The type code of a value type.
pub open spec fn opcode_of(t: ValueType) -> i8 {
    match t {
        ValueType::I32 => -0x1i8,
        ValueType::Void => -0x40i8,
    }
}

pub open spec fn value_type_bytes(t: ValueType) -> Seq<u8> {
    signed_leb128(opcode_of(t) as int)
}

pub open spec fn value_types_bytes(ts: Seq<ValueType>) -> Seq<u8>
    decreases ts.len(),
{
    if ts.len() == 0 {
        Seq::empty()
    } else {
        value_types_bytes(ts.drop_last()) + value_type_bytes(ts.last())
    }
}

/// A function signature: the function type code, the parameters counted and listed, then
/// whether there is a result and which.
pub open spec fn func_signature_bytes(params: Seq<ValueType>, result: Option<ValueType>) -> Seq<u8> {
    signed_leb128(-0x20) + signed_leb128((params.len() as u32) as int) + value_types_bytes(params)
        + match result {
            Some(t) => unsigned_leb128(1) + value_type_bytes(t),
            None => unsigned_leb128(0),
        }
}

pub open spec fn type_bytes(t: Type) -> Seq<u8> {
    match t {
        Type::Func(f) => func_signature_bytes(f.params@, f.result),
        Type::Value(v) => value_type_bytes(v),
    }
}

impl ValueType {
    fn opcode(&self) -> (r: i8)
        ensures
            r == opcode_of(*self),
    {
        match self {
            ValueType::I32 => -0x1,
            ValueType::Void => -0x40,
        }
    }

    pub fn write(&self, w: &mut Vec<u8>)
        ensures
            final(w)@ == old(w)@ + value_type_bytes(*self),
    {
        self.opcode().write_leb128(w);
    }
}

impl FuncSignature {
    pub fn write(&self, w: &mut Vec<u8>)
        ensures
            final(w)@ == old(w)@ + func_signature_bytes(self.params@, self.result),
    {
        (-0x20i32).write_leb128(w);
        let params_len = self.params.len() as u32;
        params_len.write_leb128(w);
        let ghost mid = w@;
        let mut i: usize = 0;
        assert(self.params@.take(0) =~= Seq::<ValueType>::empty());
        assert(mid + value_types_bytes(self.params@.take(0)) =~= mid);
        while i < self.params.len()
            invariant
                i <= self.params@.len(),
                w@ == mid + value_types_bytes(self.params@.take(i as int)),
            decreases self.params@.len() - i,
        {
            self.params[i].write(w);
            proof {
                assert(self.params@.take(i + 1).drop_last() =~= self.params@.take(i as int));
                assert(self.params@.take(i + 1).last() == self.params@[i as int]);
            }
            i = i + 1;
            assert(w@ =~= mid + value_types_bytes(self.params@.take(i as int)));
        }
        assert(self.params@.take(self.params@.len() as int) =~= self.params@);
        match &self.result {
            Some(result) => {
                true.write_leb128(w);
                result.write(w);
            },
            None => {
                false.write_leb128(w);
            },
        }
        assert(w@ =~= old(w)@ + func_signature_bytes(self.params@, self.result));
    }
}

impl Type {
    pub fn write(&self, w: &mut Vec<u8>)
        ensures
            final(w)@ == old(w)@ + type_bytes(*self),
    {
        match self {
            Type::Func(func_signature) => func_signature.write(w),
            Type::Value(value_type) => value_type.write(w),
        }
    }
}

} // verus!
