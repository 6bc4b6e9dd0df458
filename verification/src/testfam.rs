//! Named test families and the bit-vector signatures their predicates
//! produce.
//!
//! A test carries a normalized identifier; the predicate behavior itself is
//! caller-supplied and opaque, so the contracts relate each signature bit
//! to a possible outcome of the predicate on that element and test index.

use vstd::prelude::*;

verus! {

/// One named test of a family.
pub struct Test {
    pub id_norm: String,
}

/// An ordered family of named tests.
pub struct TestFamily {
    pub tests: Vec<Test>,
}

/// The normalized identifiers of a family, in order.
pub open spec fn family_ids(tf: &TestFamily) -> Seq<Seq<char>> {
    Seq::new(tf.tests@.len(), |i: int| tf.tests@[i].id_norm@)
}

impl TestFamily {
    pub fn new(tests: Vec<Test>) -> (r: Self)
        ensures
            r.tests@ == tests@,
    {
        TestFamily { tests }
    }

    /// The ordered bit vector of predicate results for one element: one bit
    /// per test, in list order. The predicate is consulted with the element
    /// and each test's index.
    pub fn signature<E: Copy, F: Fn(E, usize) -> bool>(&self, x: E, pred: F) -> (r: Vec<bool>)
        requires
            forall|j: usize| j < self.tests@.len() ==> call_requires(pred, (x, j)),
        ensures
            r@.len() == self.tests@.len(),
            forall|j: int|
                0 <= j < r@.len() ==> call_ensures(pred, (x, j as usize), #[trigger] r@[j]),
    {
        let mut bits: Vec<bool> = Vec::new();
        let mut j: usize = 0;
        while j < self.tests.len()
            invariant
                j <= self.tests@.len(),
                bits@.len() == j,
                forall|k: usize| k < self.tests@.len() ==> call_requires(pred, (x, k)),
                forall|k: int|
                    0 <= k < j ==> call_ensures(pred, (x, k as usize), #[trigger] bits@[k]),
            decreases self.tests@.len() - j,
        {
            bits.push(pred(x, j));
            j = j + 1;
        }
        bits
    }
}

} // verus!
