//! The bounded integer domain: plain signed scalars symmetric around zero.

use vstd::prelude::*;
use vstd::string::StringExecFns;
use crate::decimal::{dec_i64_chars, dec_u64_chars, i64_dec_string, u64_dec_string};
use crate::digest::{hex_of, sha256_of};
use crate::canon::encode_canon;
use crate::qe::{canon_domain_digest_hex_i64, i64_domain_canon};

verus! {

/// An integer experiment value.
#[derive(Clone, Copy, Debug, Eq, PartialEq, Ord, PartialOrd, Hash)]
pub struct ZE(pub i64);

impl ZE {
    pub fn new(z: i64) -> (r: Self)
        ensures
            r.0 == z,
    {
        ZE(z)
    }

    pub fn value(&self) -> (r: i64)
        ensures
            r == self.0,
    {
        self.0
    }
}

/// The values held by an integer domain, in order.
pub open spec fn ze_values(s: Seq<ZE>) -> Seq<i64> {
    Seq::new(s.len(), |i: int| s[i].0)
}

/// The domain `{-zmax, ..., 0, ..., zmax}`.
pub fn domain_ze(zmax: i64) -> (r: Vec<ZE>)
    requires
        zmax > i64::MIN,
    ensures
        zmax < 0 ==> r@.len() == 0,
        zmax >= 0 ==> r@.len() == 2 * (zmax as int) + 1,
        forall|i: int| 0 <= i < r@.len() ==> (#[trigger] r@[i]).0 as int == -(zmax as int) + i,
{
    let mut v: Vec<ZE> = Vec::new();
    if zmax >= 0 {
        let mut z: i64 = -zmax;
        loop
            invariant_except_break
                zmax >= 0,
                -zmax <= z <= zmax,
                v@.len() == z as int + zmax as int,
                forall|i: int|
                    0 <= i < v@.len() ==> (#[trigger] v@[i]).0 as int == -(zmax as int) + i,
            ensures
                v@.len() == 2 * (zmax as int) + 1,
                forall|i: int|
                    0 <= i < v@.len() ==> (#[trigger] v@[i]).0 as int == -(zmax as int) + i,
            decreases zmax - z,
        {
            v.push(ZE(z));
            if z == zmax {
                break ;
            }
            z = z + 1;
        }
    }
    v
}

/// Stable digest of an integer domain: the hash of its canonical value array.
pub fn domain_digest_hex_ze(domain: &[ZE]) -> (r: String)
    ensures
        r@ == hex_of(sha256_of(encode_canon(i64_domain_canon(ze_values(domain@))))),
{
    let mut raw: Vec<i64> = Vec::new();
    let mut i: usize = 0;
    while i < domain.len()
        invariant
            i <= domain@.len(),
            raw@.len() == i,
            forall|k: int| 0 <= k < i ==> raw@[k] == (#[trigger] domain@[k]).0,
        decreases domain@.len() - i,
    {
        raw.push(domain[i].0);
        i = i + 1;
    }
    proof {
        assert(raw@ =~= ze_values(domain@));
    }
    canon_domain_digest_hex_i64(raw.as_slice())
}

/// A short legible summary of an integer domain, keyed in ascending order.
pub fn domain_view_ze(domain: &[ZE]) -> (r: Vec<(String, String)>)
    ensures
        domain@.len() == 0 ==> r@.len() == 2 && r@[0].0@ == "kind"@ && r@[0].1@ == "Z_E"@
            && r@[1].0@ == "size"@ && r@[1].1@ == dec_u64_chars(domain@.len()),
        domain@.len() > 0 ==> r@.len() == 4 && r@[0].0@ == "first"@ && r@[0].1@ == dec_i64_chars(
            domain@[0].0 as int,
        ) && r@[1].0@ == "kind"@ && r@[1].1@ == "Z_E"@ && r@[2].0@ == "last"@ && r@[2].1@
            == dec_i64_chars(domain@.last().0 as int) && r@[3].0@ == "size"@ && r@[3].1@
            == dec_u64_chars(domain@.len()),
{
    let mut m: Vec<(String, String)> = Vec::new();
    if domain.len() > 0 {
        m.push((String::from_str("first"), i64_dec_string(domain[0].0)));
    }
    m.push((String::from_str("kind"), String::from_str("Z_E")));
    if domain.len() > 0 {
        m.push((String::from_str("last"), i64_dec_string(domain[domain.len() - 1].0)));
    }
    m.push((String::from_str("size"), u64_dec_string(domain.len() as u64)));
    m
}

} // verus!
