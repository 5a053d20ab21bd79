//! Function bodies, held as their finished encoding.

use vstd::prelude::*;

verus! {

/// The encoding of one function body (its size, locals and code), ready to be written.
pub struct FunctionBody {
    pub bytes: Vec<u8>,
}

impl FunctionBody {
    pub fn write(&self, w: &mut Vec<u8>)
        ensures
            final(w)@ == old(w)@ + self.bytes@,
    {
        let mut i: usize = 0;
        let ghost start = w@;
        while i < self.bytes.len()
            invariant
                i <= self.bytes@.len(),
                w@ == start + self.bytes@.take(i as int),
            decreases self.bytes@.len() - i,
        {
            w.push(self.bytes[i]);
            i = i + 1;
            assert(w@ =~= start + self.bytes@.take(i as int));
        }
        assert(self.bytes@.take(self.bytes@.len() as int) =~= self.bytes@);
    }
}

} // verus!
