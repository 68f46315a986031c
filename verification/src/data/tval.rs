use vstd::prelude::*;

verus! {

/// A value of some component, event or resource type, kept as its bytes.
#[derive(Debug)]
pub struct TVal {
    size: usize,
    val: Vec<u8>,
}

impl TVal {
    /// The bytes of the value.
    pub closed spec fn bytes(&self) -> Seq<u8> {
        self.val@
    }

    /// The size of the value in bytes.
    pub closed spec fn size(&self) -> usize {
        self.size
    }

    /// Copies the first `size` bytes of `val`.
    pub fn create(size: usize, val: &[u8]) -> (t: Self)
        requires
            size <= val@.len(),
        ensures
            t.size() == size,
            t.bytes() == val@.subrange(0, size as int),
    {
        let mut v: Vec<u8> = Vec::with_capacity(size);
        let mut i: usize = 0;
        while i < size
            invariant
                i <= size,
                size <= val@.len(),
                v@ == val@.subrange(0, i as int),
            decreases size - i,
        {
            v.push(val[i]);
            i = i + 1;
            assert(v@ =~= val@.subrange(0, i as int));
        }
        TVal { size, val: v }
    }

    /// The bytes of the value.
    pub fn get(&self) -> (r: &[u8])
        ensures
            r@ == self.bytes(),
    {
        self.val.as_slice()
    }

    pub fn get_size(&self) -> (r: usize)
        ensures
            r == self.size(),
    {
        self.size
    }

    /// Consumes the value without running anything on it.
    pub fn take(self) {
    }
}

} // verus!
