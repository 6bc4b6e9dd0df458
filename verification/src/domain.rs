//! The bounded rational domain: every reduced fraction with numerator and
//! denominator in a caller-given window, sorted ascending and without
//! duplicates.

use vstd::prelude::*;
use crate::qe::{lemma_qe_eq, lemma_qe_order_trans, qe_le, qe_lt, spec_qe_new, QE};

verus! {

broadcast use vstd::seq_lib::group_to_multiset_ensures;

/// The element is the reduced form of some fraction of the bounded grid.
pub open spec fn in_qe_grid(q: QE, nmax: int, dmax: int) -> bool {
    exists|n: int, d: int|
        1 <= d <= dmax && -nmax <= n <= nmax && (q.spec_num(), q.spec_den()) == spec_qe_new(n, d)
}

/// Some element of `s` is the reduced form of `n / d`.
pub open spec fn covers(s: Seq<QE>, n: int, d: int) -> bool {
    exists|i: int|
        0 <= i < s.len() && ((#[trigger] s[i]).spec_num(), s[i].spec_den()) == spec_qe_new(n, d)
}

proof fn lemma_covers_push(s: Seq<QE>, x: QE, n: int, d: int)
    requires
        covers(s, n, d),
    ensures
        covers(s.push(x), n, d),
{
    let i = choose|i: int|
        0 <= i < s.len() && ((#[trigger] s[i]).spec_num(), s[i].spec_den()) == spec_qe_new(n, d);
    assert(s.push(x)[i] == s[i]);
}

proof fn lemma_covers_transfer(s1: Seq<QE>, s2: Seq<QE>, n: int, d: int)
    requires
        covers(s1, n, d),
        forall|i: int| 0 <= i < s1.len() ==> s2.contains(#[trigger] s1[i]),
    ensures
        covers(s2, n, d),
{
    let i = choose|i: int|
        0 <= i < s1.len() && ((#[trigger] s1[i]).spec_num(), s1[i].spec_den()) == spec_qe_new(
            n,
            d,
        );
    assert(s2.contains(s1[i]));
    let j = choose|j: int| 0 <= j < s2.len() && s2[j] == s1[i];
    assert(0 <= j < s2.len() && ((s2[j]).spec_num(), s2[j].spec_den()) == spec_qe_new(n, d));
}

/// Selection sort in the order of [`qe_le`].
fn sort_qe(v: Vec<QE>) -> (out: Vec<QE>)
    requires
        forall|i: int| 0 <= i < v@.len() ==> (#[trigger] v@[i]).spec_den() > 0,
    ensures
        out@.len() == v@.len(),
        forall|i: int, j: int| 0 <= i < j < out@.len() ==> qe_le(out@[i], out@[j]),
        forall|i: int| 0 <= i < out@.len() ==> (#[trigger] out@[i]).spec_den() > 0,
        forall|i: int| 0 <= i < out@.len() ==> v@.contains(#[trigger] out@[i]),
        forall|i: int| 0 <= i < v@.len() ==> out@.contains(#[trigger] v@[i]),
{
    let ghost orig = v@.to_multiset();
    let mut rest = v;
    let mut out: Vec<QE> = Vec::new();
    while rest.len() > 0
        invariant
            out@.to_multiset().add(rest@.to_multiset()) == orig,
            forall|i: int, j: int| 0 <= i < j < out@.len() ==> qe_le(out@[i], out@[j]),
            forall|i: int, j: int|
                0 <= i < out@.len() && 0 <= j < rest@.len() ==> qe_le(
                    #[trigger] out@[i],
                    #[trigger] rest@[j],
                ),
            forall|i: int| 0 <= i < out@.len() ==> (#[trigger] out@[i]).spec_den() > 0,
            forall|i: int| 0 <= i < rest@.len() ==> (#[trigger] rest@[i]).spec_den() > 0,
        decreases rest@.len(),
    {
        let mut mi: usize = 0;
        let mut k: usize = 1;
        while k < rest.len()
            invariant
                mi < k <= rest@.len(),
                rest@.len() > 0,
                forall|j: int| 0 <= j < k ==> qe_le(rest@[mi as int], #[trigger] rest@[j]),
                forall|i: int| 0 <= i < rest@.len() ==> (#[trigger] rest@[i]).spec_den() > 0,
            decreases rest@.len() - k,
        {
            if rest[k].le(&rest[mi]) {
                proof {
                    assert forall|j: int| 0 <= j < k implies qe_le(
                        rest@[k as int],
                        #[trigger] rest@[j],
                    ) by {
                        lemma_qe_order_trans(rest@[k as int], rest@[mi as int], rest@[j]);
                    }
                }
                mi = k;
            }
            k = k + 1;
        }
        let ghost rest_before = rest@;
        let ghost out_before = out@;
        let x = rest.remove(mi);
        out.push(x);
        proof {
            assert(rest@.to_multiset() =~= rest_before.to_multiset().remove(x));
            assert(out@.to_multiset() =~= out_before.to_multiset().insert(x));
            assert(rest_before.to_multiset().contains(x));
            assert(out@.to_multiset().add(rest@.to_multiset()) =~= orig);
        }
    }
    proof {
        assert(rest@ =~= Seq::<QE>::empty());
        assert(out@.to_multiset() =~= orig);
        assert(out@.to_multiset().len() == out@.len());
        assert(v@.to_multiset().len() == v@.len());
        assert forall|i: int| 0 <= i < out@.len() implies v@.contains(#[trigger] out@[i]) by {
            assert(out@.contains(out@[i]));
            assert(out@.to_multiset().contains(out@[i]));
            assert(v@.to_multiset().contains(out@[i]));
        }
        assert forall|i: int| 0 <= i < v@.len() implies out@.contains(#[trigger] v@[i]) by {
            assert(v@.contains(v@[i]));
            assert(v@.to_multiset().contains(v@[i]));
            assert(out@.to_multiset().contains(v@[i]));
        }
    }
    out
}

/// Removes adjacent equal values from a sorted list, leaving it strictly
/// ascending.
fn dedup_qe(v: Vec<QE>) -> (out: Vec<QE>)
    requires
        forall|i: int, j: int| 0 <= i < j < v@.len() ==> qe_le(v@[i], v@[j]),
        forall|i: int| 0 <= i < v@.len() ==> (#[trigger] v@[i]).spec_den() > 0,
    ensures
        forall|i: int, j: int| 0 <= i < j < out@.len() ==> qe_lt(out@[i], out@[j]),
        forall|i: int| 0 <= i < out@.len() ==> v@.contains(#[trigger] out@[i]),
        forall|j: int| 0 <= j < v@.len() ==> out@.contains(#[trigger] v@[j]),
        forall|i: int| 0 <= i < out@.len() ==> (#[trigger] out@[i]).spec_den() > 0,
{
    let mut out: Vec<QE> = Vec::new();
    let mut i: usize = 0;
    while i < v.len()
        invariant
            i <= v@.len(),
            forall|a: int, b: int| 0 <= a < b < out@.len() ==> qe_lt(out@[a], out@[b]),
            forall|a: int| 0 <= a < out@.len() ==> v@.contains(#[trigger] out@[a]),
            forall|j: int| 0 <= j < i ==> out@.contains(#[trigger] v@[j]),
            forall|a: int| 0 <= a < out@.len() ==> (#[trigger] out@[a]).spec_den() > 0,
            i > 0 ==> out@.len() > 0 && out@.last() == v@[i - 1],
            i == 0 ==> out@.len() == 0,
            forall|i2: int, j2: int| 0 <= i2 < j2 < v@.len() ==> qe_le(v@[i2], v@[j2]),
            forall|i2: int| 0 <= i2 < v@.len() ==> (#[trigger] v@[i2]).spec_den() > 0,
        decreases v@.len() - i,
    {
        let push_it: bool = if out.len() == 0 {
            true
        } else {
            let last = &out[out.len() - 1];
            !(last.num() == v[i].num() && last.den() == v[i].den())
        };
        let ghost out_before = out@;
        if push_it {
            proof {
                if out@.len() > 0 {
                    let last = out@.last();
                    assert(last == v@[i - 1]);
                    assert(qe_le(last, v@[i as int]));
                    assert(qe_lt(last, v@[i as int]));
                    assert forall|a: int| 0 <= a < out@.len() - 1 implies qe_lt(
                        #[trigger] out@[a],
                        v@[i as int],
                    ) by {
                        lemma_qe_order_trans(out@[a], last, v@[i as int]);
                        if !qe_lt(out@[a], v@[i as int]) {
                            assert(out@[a].spec_num() == v@[i as int].spec_num()
                                && out@[a].spec_den() == v@[i as int].spec_den());
                            lemma_qe_eq(out@[a], v@[i as int]);
                            assert(qe_lt(out@[a], last));
                        }
                    }
                }
            }
            let item = v[i];
            out.push(item);
            proof {
                assert(out@.last() == v@[i as int]);
                assert forall|a: int| 0 <= a < out@.len() implies v@.contains(
                    #[trigger] out@[a],
                ) by {
                    if a < out@.len() - 1 {
                        assert(out@[a] == out_before[a]);
                    } else {
                        assert(out@[a] == v@[i as int]);
                    }
                }
                assert forall|j: int| 0 <= j < i + 1 implies out@.contains(#[trigger] v@[j]) by {
                    if j < i {
                        let a = choose|a: int| 0 <= a < out_before.len() && out_before[a] == v@[j];
                        assert(out@[a] == v@[j]);
                    } else {
                        assert(out@[out@.len() - 1] == v@[j]);
                    }
                }
            }
        } else {
            proof {
                let last = out@.last();
                assert(last == v@[i - 1]);
                assert(last.spec_num() == v@[i as int].spec_num() && last.spec_den()
                    == v@[i as int].spec_den());
                lemma_qe_eq(last, v@[i as int]);
                assert(out@[out@.len() - 1] == v@[i as int]);
                assert(out@.contains(v@[i as int]));
            }
        }
        i = i + 1;
    }
    out
}

/// Every reduced fraction with denominator in `[1, dmax]` and numerator in
/// `[-nmax, nmax]`, sorted strictly ascending by value with ties broken by
/// the stored fields: no duplicate pairs remain.
pub fn domain_qe_bounded(nmax: i64, dmax: i64) -> (out: Vec<QE>)
    ensures
        forall|i: int, j: int| 0 <= i < j < out@.len() ==> qe_lt(out@[i], out@[j]),
        forall|i: int|
            0 <= i < out@.len() ==> in_qe_grid(#[trigger] out@[i], nmax as int, dmax as int),
        forall|n: int, d: int|
            1 <= d <= dmax as int && -(nmax as int) <= n <= nmax as int ==> #[trigger] covers(
                out@,
                n,
                d,
            ),
        forall|i: int| 0 <= i < out@.len() ==> (#[trigger] out@[i]).spec_den() > 0,
{
    let mut raw: Vec<QE> = Vec::new();
    if dmax >= 1 && nmax >= 0 {
        let mut den: i64 = 1;
        loop
            invariant
                1 <= den <= dmax,
                nmax >= 0,
                dmax >= 1,
                forall|i: int|
                    0 <= i < raw@.len() ==> in_qe_grid(
                        #[trigger] raw@[i],
                        nmax as int,
                        dmax as int,
                    ),
                forall|i: int| 0 <= i < raw@.len() ==> (#[trigger] raw@[i]).spec_den() > 0,
                forall|n: int, d: int|
                    1 <= d < den as int && -(nmax as int) <= n <= nmax as int
                        ==> #[trigger] covers(raw@, n, d),
            ensures
                forall|i: int|
                    0 <= i < raw@.len() ==> in_qe_grid(
                        #[trigger] raw@[i],
                        nmax as int,
                        dmax as int,
                    ),
                forall|i: int| 0 <= i < raw@.len() ==> (#[trigger] raw@[i]).spec_den() > 0,
                forall|n: int, d: int|
                    1 <= d <= dmax as int && -(nmax as int) <= n <= nmax as int
                        ==> #[trigger] covers(raw@, n, d),
            decreases dmax - den,
        {
            let ghost den_snap = den as int;
            let mut num: i64 = -nmax;
            loop
                invariant
                    1 <= den <= dmax,
                    den as int == den_snap,
                    nmax >= 0,
                    -nmax <= num <= nmax,
                    forall|i: int|
                        0 <= i < raw@.len() ==> in_qe_grid(
                            #[trigger] raw@[i],
                            nmax as int,
                            dmax as int,
                        ),
                    forall|i: int| 0 <= i < raw@.len() ==> (#[trigger] raw@[i]).spec_den() > 0,
                    forall|n: int, d: int|
                        1 <= d < den as int && -(nmax as int) <= n <= nmax as int
                            ==> #[trigger] covers(raw@, n, d),
                    forall|n: int|
                        -(nmax as int) <= n < num as int ==> #[trigger] covers(
                            raw@,
                            n,
                            den as int,
                        ),
                ensures
                    1 <= den <= dmax,
                    den as int == den_snap,
                    nmax >= 0,
                    dmax >= 1,
                    forall|i: int|
                        0 <= i < raw@.len() ==> in_qe_grid(
                            #[trigger] raw@[i],
                            nmax as int,
                            dmax as int,
                        ),
                    forall|i: int| 0 <= i < raw@.len() ==> (#[trigger] raw@[i]).spec_den() > 0,
                    forall|n: int, d: int|
                        1 <= d < den as int && -(nmax as int) <= n <= nmax as int
                            ==> #[trigger] covers(raw@, n, d),
                    forall|n: int|
                        -(nmax as int) <= n <= nmax as int ==> #[trigger] covers(
                            raw@,
                            n,
                            den as int,
                        ),
                decreases nmax - num,
            {
                let ghost raw_before = raw@;
                let q = QE::new(num, den);
                raw.push(q);
                proof {
                    assert(raw@[raw@.len() - 1] == q);
                    assert(covers(raw@, num as int, den as int));
                    assert(in_qe_grid(q, nmax as int, dmax as int));
                    assert forall|n: int, d: int|
                        1 <= d < den as int && -(nmax as int) <= n <= nmax as int implies #[trigger]
                    covers(raw@, n, d) by {
                        lemma_covers_push(raw_before, q, n, d);
                    }
                    assert forall|n: int| -(nmax as int) <= n < num as int + 1 implies #[trigger]
                    covers(raw@, n, den as int) by {
                        if n < num as int {
                            lemma_covers_push(raw_before, q, n, den as int);
                        }
                    }
                }
                if num == nmax {
                    break ;
                }
                num = num + 1;
            }
            if den == dmax {
                break ;
            }
            den = den + 1;
        }
    }
    let sorted = sort_qe(raw);
    let out = dedup_qe(sorted);
    proof {
        assert forall|i: int| 0 <= i < out@.len() implies in_qe_grid(
            #[trigger] out@[i],
            nmax as int,
            dmax as int,
        ) by {
            assert(sorted@.contains(out@[i]));
            let a = choose|a: int| 0 <= a < sorted@.len() && sorted@[a] == out@[i];
            assert(raw@.contains(sorted@[a]));
            let b = choose|b: int| 0 <= b < raw@.len() && raw@[b] == sorted@[a];
            assert(in_qe_grid(raw@[b], nmax as int, dmax as int));
        }
        assert forall|n: int, d: int|
            1 <= d <= dmax as int && -(nmax as int) <= n <= nmax as int implies #[trigger] covers(
            out@,
            n,
            d,
        ) by {
            lemma_covers_transfer(raw@, sorted@, n, d);
            lemma_covers_transfer(sorted@, out@, n, d);
        }
    }
    out
}

} // verus!
