use vstd::prelude::*;

verus! {

/// A small concatenation buffer for building attribute-file paths without
/// repeated allocation: two byte strings joined in a bounded buffer.
pub struct GhettoConcat {
    buffer: Vec<u8>,
}

impl View for GhettoConcat {
    type V = Seq<u8>;

    closed spec fn view(&self) -> Seq<u8> {
        self.buffer@
    }
}

impl GhettoConcat {
    /// Joins `s1` and `s2`.  The two parts together must fit the fixed
    /// buffer size of 32 bytes.
    #[verifier::loop_isolation(false)]
    pub fn new(s1: &[u8], s2: &[u8]) -> (r: Self)
        requires
            s1@.len() + s2@.len() <= 32,
        ensures
            r@ == s1@ + s2@,
            r@.len() <= 32,
    {
        let mut buffer: Vec<u8> = Vec::new();
        let mut i: usize = 0;
        while i < s1.len()
            invariant
                i <= s1@.len(),
                buffer@ =~= s1@.subrange(0, i as int),
            decreases s1@.len() - i,
        {
            buffer.push(s1[i]);
            i = i + 1;
        }
        let mut j: usize = 0;
        while j < s2.len()
            invariant
                j <= s2@.len(),
                buffer@ =~= s1@ + s2@.subrange(0, j as int),
            decreases s2@.len() - j,
        {
            buffer.push(s2[j]);
            j = j + 1;
        }
        proof {
            assert(buffer@ =~= s1@ + s2@);
        }
        GhettoConcat { buffer }
    }

    /// The joined bytes.
    pub fn as_slice(&self) -> (r: &[u8])
        ensures
            r@ == self@,
    {
        self.buffer.as_slice()
    }
}

} // verus!
