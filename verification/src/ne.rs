//! The bounded natural domain: plain unsigned scalars from zero up to a cap.

use vstd::prelude::*;
use vstd::string::StringExecFns;
use crate::decimal::{dec_u64_chars, u64_dec_string};
use crate::digest::{hex_of, sha256_of};
use crate::canon::encode_canon;
use crate::qe::{canon_domain_digest_hex_u64, u64_domain_canon};

verus! {

/// A natural experiment value.
#[derive(Clone, Copy, Debug, Eq, PartialEq, Ord, PartialOrd, Hash)]
pub struct NE(pub u64);

impl NE {
    pub fn new(n: u64) -> (r: Self)
        ensures
            r.0 == n,
    {
        NE(n)
    }

    pub fn value(&self) -> (r: u64)
        ensures
            r == self.0,
    {
        self.0
    }
}

/// The values held by a natural domain, in order.
pub open spec fn ne_values(s: Seq<NE>) -> Seq<u64> {
    Seq::new(s.len(), |i: int| s[i].0)
}

/// The domain `{0, 1, ..., nmax}`.
pub fn domain_ne(nmax: u64) -> (r: Vec<NE>)
    ensures
        r@.len() == nmax as int + 1,
        forall|i: int| 0 <= i <= nmax as int ==> (#[trigger] r@[i]).0 == i,
{
    let mut v: Vec<NE> = Vec::new();
    let mut n: u64 = 0;
    loop
        invariant_except_break
            0 <= n <= nmax,
            v@.len() == n as int,
            forall|i: int| 0 <= i < n as int ==> (#[trigger] v@[i]).0 == i,
        ensures
            v@.len() == nmax as int + 1,
            forall|i: int| 0 <= i <= nmax as int ==> (#[trigger] v@[i]).0 == i,
        decreases nmax - n,
    {
        v.push(NE(n));
        if n == nmax {
            break ;
        }
        n = n + 1;
    }
    v
}

/// Stable digest of a natural domain: the hash of its canonical value array.
pub fn domain_digest_hex_ne(domain: &[NE]) -> (r: String)
    ensures
        r@ == hex_of(sha256_of(encode_canon(u64_domain_canon(ne_values(domain@))))),
{
    let mut raw: Vec<u64> = Vec::new();
    let mut i: usize = 0;
    while i < domain.len()
        invariant
            i <= domain@.len(),
            raw@.len() == i,
            forall|k: int| 0 <= k < i ==> raw@[k] == (#[trigger] domain@[k]).0,
        decreases domain@.len() - i,
    {
        raw.push(domain[i].0);
        i = i + 1;
    }
    proof {
        assert(raw@ =~= ne_values(domain@));
    }
    canon_domain_digest_hex_u64(raw.as_slice())
}

/// A short legible summary of a natural domain, keyed in ascending order.
pub fn domain_view_ne(domain: &[NE]) -> (r: Vec<(String, String)>)
    ensures
        domain@.len() == 0 ==> r@.len() == 2 && r@[0].0@ == "kind"@ && r@[0].1@ == "N_E"@
            && r@[1].0@ == "size"@ && r@[1].1@ == dec_u64_chars(domain@.len()),
        domain@.len() > 0 ==> r@.len() == 4 && r@[0].0@ == "first"@ && r@[0].1@ == dec_u64_chars(
            domain@[0].0 as nat,
        ) && r@[1].0@ == "kind"@ && r@[1].1@ == "N_E"@ && r@[2].0@ == "last"@ && r@[2].1@
            == dec_u64_chars(domain@.last().0 as nat) && r@[3].0@ == "size"@ && r@[3].1@
            == dec_u64_chars(domain@.len()),
{
    let mut m: Vec<(String, String)> = Vec::new();
    if domain.len() > 0 {
        m.push((String::from_str("first"), u64_dec_string(domain[0].0)));
    }
    m.push((String::from_str("kind"), String::from_str("N_E")));
    if domain.len() > 0 {
        m.push((String::from_str("last"), u64_dec_string(domain[domain.len() - 1].0)));
    }
    m.push((String::from_str("size"), u64_dec_string(domain.len() as u64)));
    m
}

} // verus!
