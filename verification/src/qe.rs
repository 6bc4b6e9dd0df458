//! Canonical rationals: a signed numerator over a positive denominator,
//! always stored fully reduced, with a total order by value and then by the
//! stored fields.

use vstd::prelude::*;
use vstd::arithmetic::div_mod::{
    lemma_fundamental_div_mod, lemma_mod_adds, lemma_mod_division_less_than_divisor,
    lemma_mod_multiples_basic,
};
use crate::canon::{canon_view, canon_view_pairs, canon_view_seq, lemma_canon_view_pairs_index,
    lemma_canon_view_seq_index, canon_bytes, encode_canon, Canon, CanonView};
use crate::digest::{hex_of, sha256_bytes, sha256_hex, sha256_of};
use vstd::string::StringExecFns;

verus! {

/// The greatest common divisor of two non-negative values.
pub open spec fn spec_gcd(a: nat, b: nat) -> nat
    decreases b,
{
    if b == 0 {
        a
    } else {
        spec_gcd(b, a % b)
    }
}

/// Relies on num_integer::gcd: the greatest common divisor of its two
/// arguments, always non-negative.
#[verifier::external_body]
fn gcd_i64(a: i64, b: i64) -> (r: i64)
    requires
        0 <= a,
        0 <= b,
    ensures
        r as int == spec_gcd(a as nat, b as nat),
{
    num_integer::gcd(a, b)
}

pub proof fn lemma_gcd_pos(a: nat, b: nat)
    requires
        a > 0 || b > 0,
    ensures
        spec_gcd(a, b) > 0,
    decreases b,
{
    if b > 0 {
        lemma_mod_division_less_than_divisor(a as int, b as int);
        if a % b > 0 {
            lemma_gcd_pos(b, a % b);
        }
    }
}

pub proof fn lemma_gcd_divides(a: nat, b: nat)
    requires
        a > 0 || b > 0,
    ensures
        a as int % (spec_gcd(a, b) as int) == 0,
        b as int % (spec_gcd(a, b) as int) == 0,
    decreases b,
{
    lemma_gcd_pos(a, b);
    if b == 0 {
        lemma_mod_multiples_basic(0, a as int);
        assert(a as int % (a as int) == 0) by {
            lemma_mod_multiples_basic(1, a as int);
        }
    } else {
        lemma_mod_division_less_than_divisor(a as int, b as int);
        lemma_gcd_divides(b, a % b);
        let g = spec_gcd(b, a % b) as int;
        // a == b * (a / b) + a % b, and g divides both addends.
        lemma_fundamental_div_mod(a as int, b as int);
        assert((b as int * (a as int / b as int)) % g == 0) by {
            lemma_mod_breakdown_multiple(b as int, a as int / b as int, g);
        }
        lemma_mod_adds(b as int * (a as int / b as int), (a % b) as int, g);
        assert(a as int % g == 0);
    }
}

/// If d divides x, then d divides x * y.
proof fn lemma_mod_breakdown_multiple(x: int, y: int, d: int)
    requires
        d > 0,
        x % d == 0,
    ensures
        (x * y) % d == 0,
{
    lemma_fundamental_div_mod(x, d);
    assert(x == d * (x / d));
    assert(x * y == d * ((x / d) * y)) by (nonlinear_arith)
        requires
            x == d * (x / d),
    ;
    lemma_mod_multiples_basic((x / d) * y, d);
}

/// A canonical rational: `num / den` with `den > 0`, fully reduced.
#[derive(Clone, Copy, Debug, Eq, PartialEq)]
pub struct QE {
    num: i64,
    den: i64,
}

/// The reduced canonical pair for the rational `n / d`: the denominator's
/// sign is folded into the numerator, then both are divided by their
/// greatest common divisor.
pub open spec fn spec_qe_new(n: int, d: int) -> (int, int)
    recommends
        d != 0,
{
    let n1 = if d < 0 {
        -n
    } else {
        n
    };
    let d1 = if d < 0 {
        -d
    } else {
        d
    };
    let m = if n1 < 0 {
        -n1
    } else {
        n1
    };
    let g = spec_gcd(m as nat, d1 as nat) as int;
    let q = m / g;
    (
        if n1 < 0 {
            -q
        } else {
            q
        },
        d1 / g,
    )
}

impl QE {
    /// Builds the reduced rational `n / d`. A zero denominator is a caller
    /// contract violation; the extreme negative values are excluded so that
    /// the sign folding cannot overflow.
    pub fn new(n: i64, d: i64) -> (r: QE)
        requires
            d != 0,
            n > i64::MIN,
            d > i64::MIN,
        ensures
            (r.spec_num(), r.spec_den()) == spec_qe_new(n as int, d as int),
            r.spec_den() > 0,
            r.spec_num() * d as int == n as int * r.spec_den(),
    {
        let n1: i64 = if d < 0 {
            -n
        } else {
            n
        };
        let d1: i64 = if d < 0 {
            -d
        } else {
            d
        };
        let m: i64 = if n1 < 0 {
            -n1
        } else {
            n1
        };
        let g: i64 = gcd_i64(m, d1);
        proof {
            lemma_gcd_pos(m as nat, d1 as nat);
            lemma_gcd_divides(m as nat, d1 as nat);
        }
        let q: i64 = m / g;
        let den: i64 = d1 / g;
        let num: i64 = if n1 < 0 {
            -q
        } else {
            q
        };
        proof {
            let gi = g as int;
            lemma_fundamental_div_mod(m as int, gi);
            lemma_fundamental_div_mod(d1 as int, gi);
            assert(m as int == gi * (m as int / gi));
            assert(d1 as int == gi * (d1 as int / gi));
            assert(den as int >= 1) by (nonlinear_arith)
                requires
                    d1 as int == gi * (den as int),
                    d1 >= 1,
                    gi >= 1,
            ;
            assert(num as int * d as int == n as int * den as int) by (nonlinear_arith)
                requires
                    m as int == gi * (q as int),
                    d1 as int == gi * (den as int),
                    gi >= 1,
                    (d < 0 ==> n1 as int == -(n as int) && d1 as int == -(d as int)),
                    (d >= 0 ==> n1 as int == n as int && d1 as int == d as int),
                    (n1 < 0 ==> m as int == -(n1 as int) && num as int == -(q as int)),
                    (n1 >= 0 ==> m as int == n1 as int && num as int == q as int),
                    d != 0,
            ;
        }
        QE { num, den }
    }

    pub fn num(&self) -> (r: i64)
        ensures
            r as int == self.spec_num(),
    {
        self.num
    }

    pub fn den(&self) -> (r: i64)
        ensures
            r as int == self.spec_den(),
    {
        self.den
    }

    /// The stored numerator, in specifications.
    pub closed spec fn spec_num(&self) -> int {
        self.num as int
    }

    /// The stored denominator, in specifications.
    pub closed spec fn spec_den(&self) -> int {
        self.den as int
    }
}

/// The product of two machine-word values stays within the doubled word.
proof fn lemma_i64_prod_fits(a: int, b: int)
    requires
        -0x8000000000000000 <= a < 0x8000000000000000,
        -0x8000000000000000 <= b < 0x8000000000000000,
    ensures
        -0x40000000000000000000000000000000 <= a * b
            <= 0x40000000000000000000000000000000,
{
    assert(-0x40000000000000000000000000000000 <= a * b
        <= 0x40000000000000000000000000000000) by (nonlinear_arith)
        requires
            -0x8000000000000000 <= a < 0x8000000000000000,
            -0x8000000000000000 <= b < 0x8000000000000000,
    ;
}

/// Strict total order: by value via cross multiplication, ties broken by
/// denominator, then numerator.
pub open spec fn qe_lt(a: QE, b: QE) -> bool {
    let l = a.spec_num() * b.spec_den();
    let r = b.spec_num() * a.spec_den();
    l < r || (l == r && (a.spec_den() < b.spec_den() || (a.spec_den() == b.spec_den()
        && a.spec_num() < b.spec_num())))
}

/// Non-strict companion of [`qe_lt`].
pub open spec fn qe_le(a: QE, b: QE) -> bool {
    qe_lt(a, b) || (a.spec_num() == b.spec_num() && a.spec_den() == b.spec_den())
}

impl QE {
    /// Comparison in the order of [`qe_le`].
    pub fn le(&self, other: &QE) -> (r: bool)
        ensures
            r == qe_le(*self, *other),
    {
        proof {
            lemma_i64_prod_fits(self.num as int, other.den as int);
            lemma_i64_prod_fits(other.num as int, self.den as int);
        }
        let l: i128 = (self.num as i128) * (other.den as i128);
        let r: i128 = (other.num as i128) * (self.den as i128);
        if l < r {
            true
        } else if l == r {
            if self.den != other.den {
                self.den < other.den
            } else {
                self.num <= other.num
            }
        } else {
            false
        }
    }
}

/// Two rationals with the same stored fields are the same value.
pub proof fn lemma_qe_eq(a: QE, b: QE)
    requires
        a.spec_num() == b.spec_num(),
        a.spec_den() == b.spec_den(),
    ensures
        a == b,
{
}

/// The order is total.
pub proof fn lemma_qe_order_total(a: QE, b: QE)
    ensures
        qe_le(a, b) || qe_le(b, a),
        qe_le(a, b) && qe_le(b, a) ==> a.spec_num() == b.spec_num() && a.spec_den()
            == b.spec_den(),
{
}

/// The order is transitive; the denominators must be positive, as the type
/// invariant guarantees for constructed values.
pub proof fn lemma_qe_order_trans(a: QE, b: QE, c: QE)
    requires
        a.spec_den() > 0,
        b.spec_den() > 0,
        c.spec_den() > 0,
        qe_le(a, b),
        qe_le(b, c),
    ensures
        qe_le(a, c),
{
    let ab_l = a.spec_num() * b.spec_den();
    let ab_r = b.spec_num() * a.spec_den();
    let bc_l = b.spec_num() * c.spec_den();
    let bc_r = c.spec_num() * b.spec_den();
    let ac_l = a.spec_num() * c.spec_den();
    let ac_r = c.spec_num() * a.spec_den();
    assert(ab_l <= ab_r && bc_l <= bc_r ==> ac_l <= ac_r) by (nonlinear_arith)
        requires
            a.spec_den() > 0,
            b.spec_den() > 0,
            c.spec_den() > 0,
            ab_l == a.spec_num() * b.spec_den(),
            ab_r == b.spec_num() * a.spec_den(),
            bc_l == b.spec_num() * c.spec_den(),
            bc_r == c.spec_num() * b.spec_den(),
            ac_l == a.spec_num() * c.spec_den(),
            ac_r == c.spec_num() * a.spec_den(),
    ;
    assert(ab_l == ab_r && bc_l < bc_r ==> ac_l < ac_r) by (nonlinear_arith)
        requires
            a.spec_den() > 0,
            b.spec_den() > 0,
            c.spec_den() > 0,
            ab_l == a.spec_num() * b.spec_den(),
            ab_r == b.spec_num() * a.spec_den(),
            bc_l == b.spec_num() * c.spec_den(),
            bc_r == c.spec_num() * b.spec_den(),
            ac_l == a.spec_num() * c.spec_den(),
            ac_r == c.spec_num() * a.spec_den(),
    ;
    assert(ab_l < ab_r && bc_l <= bc_r ==> ac_l < ac_r) by (nonlinear_arith)
        requires
            a.spec_den() > 0,
            b.spec_den() > 0,
            c.spec_den() > 0,
            ab_l == a.spec_num() * b.spec_den(),
            ab_r == b.spec_num() * a.spec_den(),
            bc_l == b.spec_num() * c.spec_den(),
            bc_r == c.spec_num() * b.spec_den(),
            ac_l == a.spec_num() * c.spec_den(),
            ac_r == c.spec_num() * a.spec_den(),
    ;
    if ab_l == ab_r && bc_l == bc_r {
        assert(ac_l == ac_r) by (nonlinear_arith)
            requires
                a.spec_den() > 0,
                b.spec_den() > 0,
                c.spec_den() > 0,
                ab_l == ab_r,
                bc_l == bc_r,
                ab_l == a.spec_num() * b.spec_den(),
                ab_r == b.spec_num() * a.spec_den(),
                bc_l == b.spec_num() * c.spec_den(),
                bc_r == c.spec_num() * b.spec_den(),
                ac_l == a.spec_num() * c.spec_den(),
                ac_r == c.spec_num() * a.spec_den(),
        ;
    }
}

/// The canonical array of `{den, num}` objects over a rational domain.
pub open spec fn qe_domain_canon(qs: Seq<QE>) -> CanonView {
    CanonView::Arr(
        Seq::new(
            qs.len(),
            |i: int|
                CanonView::Obj(
                    seq![
                        ("den"@, CanonView::I64(qs[i].spec_den())),
                        ("num"@, CanonView::I64(qs[i].spec_num())),
                    ],
                ),
        ),
    )
}

/// Canonical domain digest: the hash of the canonical array of each
/// element's fields, in the domain's given order.
pub fn domain_digest_hex(domain: &[QE]) -> (r: String)
    ensures
        r@ == hex_of(sha256_of(encode_canon(qe_domain_canon(domain@)))),
{
    let mut arr: Vec<Canon> = Vec::new();
    let mut i: usize = 0;
    while i < domain.len()
        invariant
            i <= domain@.len(),
            arr@.len() == i,
            forall|k: int|
                0 <= k < i ==> canon_view(#[trigger] arr@[k]) == qe_domain_canon(
                    domain@,
                )->Arr_0[k],
        decreases domain@.len() - i,
    {
        let mut obj: Vec<(String, Canon)> = Vec::new();
        obj.push((String::from_str("den"), Canon::I64(domain[i].den())));
        obj.push((String::from_str("num"), Canon::I64(domain[i].num())));
        let c = Canon::Obj(obj);
        proof {
            lemma_canon_view_pairs_index(obj@);
            assert(canon_view_pairs(obj@) =~= qe_domain_canon(domain@)->Arr_0[i as int]->Obj_0);
        }
        arr.push(c);
        i = i + 1;
    }
    let a = Canon::Arr(arr);
    proof {
        lemma_canon_view_seq_index(arr@);
        assert(canon_view_seq(arr@) =~= qe_domain_canon(domain@)->Arr_0);
    }
    let bytes = canon_bytes(&a);
    sha256_hex(sha256_bytes(bytes.as_slice()))
}

/// The canonical array of plain unsigned values.
pub open spec fn u64_domain_canon(xs: Seq<u64>) -> CanonView {
    CanonView::Arr(Seq::new(xs.len(), |i: int| CanonView::U64(xs[i] as int)))
}

/// The canonical array of plain signed values.
pub open spec fn i64_domain_canon(xs: Seq<i64>) -> CanonView {
    CanonView::Arr(Seq::new(xs.len(), |i: int| CanonView::I64(xs[i] as int)))
}

pub fn canon_domain_digest_hex_u64(domain: &[u64]) -> (r: String)
    ensures
        r@ == hex_of(sha256_of(encode_canon(u64_domain_canon(domain@)))),
{
    let mut arr: Vec<Canon> = Vec::new();
    let mut i: usize = 0;
    while i < domain.len()
        invariant
            i <= domain@.len(),
            arr@.len() == i,
            forall|k: int|
                0 <= k < i ==> canon_view(#[trigger] arr@[k]) == u64_domain_canon(
                    domain@,
                )->Arr_0[k],
        decreases domain@.len() - i,
    {
        arr.push(Canon::U64(domain[i]));
        i = i + 1;
    }
    let a = Canon::Arr(arr);
    proof {
        lemma_canon_view_seq_index(arr@);
        assert(canon_view_seq(arr@) =~= u64_domain_canon(domain@)->Arr_0);
    }
    let bytes = canon_bytes(&a);
    sha256_hex(sha256_bytes(bytes.as_slice()))
}

pub fn canon_domain_digest_hex_i64(domain: &[i64]) -> (r: String)
    ensures
        r@ == hex_of(sha256_of(encode_canon(i64_domain_canon(domain@)))),
{
    let mut arr: Vec<Canon> = Vec::new();
    let mut i: usize = 0;
    while i < domain.len()
        invariant
            i <= domain@.len(),
            arr@.len() == i,
            forall|k: int|
                0 <= k < i ==> canon_view(#[trigger] arr@[k]) == i64_domain_canon(
                    domain@,
                )->Arr_0[k],
        decreases domain@.len() - i,
    {
        arr.push(Canon::I64(domain[i]));
        i = i + 1;
    }
    let a = Canon::Arr(arr);
    proof {
        lemma_canon_view_seq_index(arr@);
        assert(canon_view_seq(arr@) =~= i64_domain_canon(domain@)->Arr_0);
    }
    let bytes = canon_bytes(&a);
    sha256_hex(sha256_bytes(bytes.as_slice()))
}

} // verus!
