//! The standard instantiation of the quotient engine: bit signatures from a
//! test family, the hashes that authenticate tests and partitions, and the
//! summarizing kernel certificate.

use vstd::prelude::*;
use vstd::string::StringExecFns;
use crate::canon::{canon_view, canon_view_pairs, canon_view_seq, encode_canon,
    lemma_canon_view_pairs_index, lemma_canon_view_seq_index, Canon, CanonView};
use crate::cert::KernelCert;
use crate::digest::{hex_of, sha256_bytes, sha256_hex, sha256_of};
use crate::quotient::{q_view, sig_view, sig_view_seq, lemma_sig_view_seq_index, spec_quotient,
    Quotient, SigView, Signature};
use crate::testfam::TestFamily;

verus! {

/// The canonical payload behind the tests hash: every normalized test
/// identifier in order, then the free-form implementation tag.
pub open spec fn tests_hash_canon(ids: Seq<Seq<char>>, tag: Seq<char>) -> CanonView {
    CanonView::Arr(
        Seq::new(
            ids.len() + 1,
            |i: int|
                if i < ids.len() {
                    CanonView::Str(ids[i])
                } else {
                    CanonView::Str(tag)
                },
        ),
    )
}

/// Hash over the ordered test identifiers plus an implementation tag. This
/// authenticates which named tests and which revision produced a
/// signature; the predicate logic itself is opaque and uncovered.
pub fn tests_hash_hex(tf: &TestFamily, impl_tag: &str) -> (r: String)
    ensures
        r@ == hex_of(
            sha256_of(encode_canon(tests_hash_canon(crate::testfam::family_ids(tf), impl_tag@))),
        ),
{
    let mut arr: Vec<Canon> = Vec::new();
    let mut i: usize = 0;
    while i < tf.tests.len()
        invariant
            i <= tf.tests@.len(),
            arr@.len() == i,
            forall|k: int|
                0 <= k < i ==> canon_view(#[trigger] arr@[k]) == CanonView::Str(
                    tf.tests@[k].id_norm@,
                ),
        decreases tf.tests@.len() - i,
    {
        arr.push(Canon::Str(tf.tests[i].id_norm.clone()));
        i = i + 1;
    }
    arr.push(Canon::Str(String::from_str(impl_tag)));
    let a = Canon::Arr(arr);
    proof {
        lemma_canon_view_seq_index(arr@);
        assert(canon_view_seq(arr@) =~= tests_hash_canon(
            crate::testfam::family_ids(tf),
            impl_tag@,
        )->Arr_0);
    }
    let bytes = crate::canon::canon_bytes(&a);
    sha256_hex(sha256_bytes(bytes.as_slice()))
}

/// The canonical form of one signature.
pub open spec fn sig_canon(s: SigView) -> CanonView
    decreases s,
{
    match s {
        SigView::Bits(bs) => CanonView::Arr(Seq::new(bs.len(), |i: int| CanonView::Bool(bs[i]))),
        SigView::Text(t) => CanonView::Str(t),
        SigView::PairI64(a, b) => CanonView::Obj(
            seq![("a"@, CanonView::I64(a)), ("b"@, CanonView::I64(b))],
        ),
        SigView::Tuple(xs) => CanonView::Arr(sig_canon_seq(xs)),
    }
}

pub open spec fn sig_canon_seq(xs: Seq<SigView>) -> Seq<CanonView>
    decreases xs,
{
    if xs.len() == 0 {
        Seq::empty()
    } else {
        seq![sig_canon(xs[0])] + sig_canon_seq(xs.drop_first())
    }
}

pub broadcast proof fn lemma_sig_canon_seq_index(xs: Seq<SigView>)
    ensures
        (#[trigger] sig_canon_seq(xs)).len() == xs.len(),
        forall|i: int| 0 <= i < xs.len() ==> sig_canon_seq(xs)[i] == sig_canon(xs[i]),
    decreases xs,
{
    if xs.len() > 0 {
        lemma_sig_canon_seq_index(xs.drop_first());
        assert forall|i: int| 0 <= i < xs.len() implies sig_canon_seq(xs)[i] == sig_canon(
            xs[i],
        ) by {
            if i > 0 {
                assert(xs.drop_first()[i - 1] == xs[i]);
            }
        }
    }
}

/// Renders one signature as a canonical value.
fn sig_to_canon(sig: &Signature) -> (r: Canon)
    ensures
        r@ == sig_canon(sig@),
    decreases sig,
{
    match sig {
        Signature::Bits(bs) => {
            let mut arr: Vec<Canon> = Vec::new();
            let mut i: usize = 0;
            while i < bs.len()
                invariant
                    i <= bs@.len(),
                    arr@.len() == i,
                    forall|k: int|
                        0 <= k < i ==> canon_view(#[trigger] arr@[k]) == CanonView::Bool(bs@[k]),
                decreases bs@.len() - i,
            {
                arr.push(Canon::Bool(bs[i]));
                i = i + 1;
            }
            let r = Canon::Arr(arr);
            proof {
                lemma_canon_view_seq_index(arr@);
                assert(canon_view_seq(arr@) =~= sig_canon(sig@)->Arr_0);
            }
            r
        },
        Signature::Text(t) => Canon::Str(t.clone()),
        Signature::PairI64(a, b) => {
            let mut obj: Vec<(String, Canon)> = Vec::new();
            obj.push((String::from_str("a"), Canon::I64(*a)));
            obj.push((String::from_str("b"), Canon::I64(*b)));
            let r = Canon::Obj(obj);
            proof {
                lemma_canon_view_pairs_index(obj@);
                assert(canon_view_pairs(obj@) =~= sig_canon(sig@)->Obj_0);
            }
            r
        },
        Signature::Tuple(xs) => {
            let mut arr: Vec<Canon> = Vec::new();
            let ghost xv = sig_view_seq(xs@);
            proof {
                lemma_sig_view_seq_index(xs@);
                lemma_sig_canon_seq_index(xv);
            }
            let mut i: usize = 0;
            while i < xs.len()
                invariant
                    *sig == Signature::Tuple(*xs),
                    i <= xs@.len(),
                    arr@.len() == i,
                    xv == sig_view_seq(xs@),
                    xv.len() == xs@.len(),
                    forall|k: int| 0 <= k < xs@.len() ==> xv[k] == sig_view(xs@[k]),
                    forall|k: int|
                        0 <= k < i ==> canon_view(#[trigger] arr@[k]) == sig_canon(xv[k]),
                decreases xs@.len() - i,
            {
                proof {
                    assert(decreases_to!(*sig => sig->Tuple_0));
                    assert(decreases_to!(*xs => xs@[i as int]));
                }
                arr.push(sig_to_canon(&xs[i]));
                i = i + 1;
            }
            let r = Canon::Arr(arr);
            proof {
                lemma_canon_view_seq_index(arr@);
                lemma_sig_canon_seq_index(xv);
                assert(canon_view_seq(arr@) =~= sig_canon_seq(xv));
            }
            r
        },
    }
}

/// The shape of a quotient: each class's signature beside its member count,
/// in class order. The concrete members do not appear.
pub open spec fn q_shape<U>(q: Seq<(SigView, Seq<U>)>) -> Seq<(SigView, int)> {
    Seq::new(q.len(), |i: int| (q[i].0, q[i].1.len() as int))
}

/// The canonical payload behind the quotient digest: one object per class,
/// holding the signature and the member count, keys ascending.
pub open spec fn quotient_digest_canon(shape: Seq<(SigView, int)>) -> CanonView {
    CanonView::Arr(
        Seq::new(
            shape.len(),
            |i: int|
                CanonView::Obj(
                    seq![
                        ("count"@, CanonView::U64(shape[i].1)),
                        ("sig"@, sig_canon(shape[i].0)),
                    ],
                ),
        ),
    )
}

/// Hash over the ordered (signature, member count) pairs of a quotient. By
/// design it depends only on the partition's shape.
pub fn quotient_digest_hex<E>(q: &Quotient<E>) -> (r: String)
    ensures
        r@ == hex_of(sha256_of(encode_canon(quotient_digest_canon(q_shape(q_view(q)))))),
{
    let mut arr: Vec<Canon> = Vec::new();
    let mut i: usize = 0;
    while i < q.classes.len()
        invariant
            i <= q.classes@.len(),
            arr@.len() == i,
            forall|k: int|
                0 <= k < i ==> canon_view(#[trigger] arr@[k]) == quotient_digest_canon(
                    q_shape(q_view(q)),
                )->Arr_0[k],
        decreases q.classes@.len() - i,
    {
        let mut obj: Vec<(String, Canon)> = Vec::new();
        let count: u64 = q.classes[i].1.len() as u64;
        obj.push((String::from_str("count"), Canon::U64(count)));
        obj.push((String::from_str("sig"), sig_to_canon(&q.classes[i].0)));
        let c = Canon::Obj(obj);
        proof {
            lemma_canon_view_pairs_index(obj@);
            assert(canon_view_pairs(obj@) =~= quotient_digest_canon(
                q_shape(q_view(q)),
            )->Arr_0[i as int]->Obj_0);
        }
        arr.push(c);
        i = i + 1;
    }
    let a = Canon::Arr(arr);
    proof {
        lemma_canon_view_seq_index(arr@);
        assert(canon_view_seq(arr@) =~= quotient_digest_canon(q_shape(q_view(q)))->Arr_0);
    }
    let bytes = crate::canon::canon_bytes(&a);
    sha256_hex(sha256_bytes(bytes.as_slice()))
}

/// The quotient digest is invariant under relabeling the domain elements:
/// two quotients with the same signatures and the same member counts hash
/// over the very same bytes, whatever their members are.
pub proof fn lemma_quotient_digest_shape_only<E1, E2>(
    q1: Seq<(SigView, Seq<E1>)>,
    q2: Seq<(SigView, Seq<E2>)>,
)
    requires
        q_shape(q1) == q_shape(q2),
    ensures
        encode_canon(quotient_digest_canon(q_shape(q1))) == encode_canon(
            quotient_digest_canon(q_shape(q2)),
        ),
{
}

/// Bit signatures of every domain element, one per element in order.
pub fn element_signatures<E: Copy, F: Fn(E, usize) -> bool>(
    domain: &[E],
    tf: &TestFamily,
    pred: F,
) -> (r: Vec<Signature>)
    requires
        forall|i: int, j: usize|
            0 <= i < domain@.len() && j < tf.tests@.len() ==> #[trigger] call_requires(
                pred,
                (domain@[i], j),
            ),
    ensures
        r@.len() == domain@.len(),
        forall|i: int| 0 <= i < r@.len() ==> (#[trigger] r@[i])@ is Bits,
        forall|i: int|
            0 <= i < r@.len() ==> (#[trigger] r@[i])@->Bits_0.len() == tf.tests@.len(),
        forall|i: int, j: int|
            0 <= i < r@.len() && 0 <= j < tf.tests@.len() ==> #[trigger] call_ensures(
                pred,
                (domain@[i], j as usize),
                r@[i]@->Bits_0[j],
            ),
{
    let mut sigs: Vec<Signature> = Vec::new();
    let mut i: usize = 0;
    while i < domain.len()
        invariant
            i <= domain@.len(),
            sigs@.len() == i,
            forall|i2: int, j: usize|
                0 <= i2 < domain@.len() && j < tf.tests@.len() ==> #[trigger] call_requires(
                    pred,
                    (domain@[i2], j),
                ),
            forall|k: int| 0 <= k < i ==> (#[trigger] sigs@[k])@ is Bits,
            forall|k: int|
                0 <= k < i ==> (#[trigger] sigs@[k])@->Bits_0.len() == tf.tests@.len(),
            forall|k: int, j: int|
                0 <= k < i && 0 <= j < tf.tests@.len() ==> #[trigger] call_ensures(
                    pred,
                    (domain@[k], j as usize),
                    sigs@[k]@->Bits_0[j],
                ),
        decreases domain@.len() - i,
    {
        let bits = tf.signature(domain[i], &pred);
        sigs.push(Signature::Bits(bits));
        i = i + 1;
    }
    sigs
}

/// The standard instantiation: partitions the domain by the bit signatures
/// that the family's predicates produce.
pub fn sembit_quotient<E: Copy, F: Fn(E, usize) -> bool>(
    domain: &[E],
    tf: &TestFamily,
    pred: F,
) -> (r: Quotient<E>)
    requires
        forall|i: int, j: usize|
            0 <= i < domain@.len() && j < tf.tests@.len() ==> #[trigger] call_requires(
                pred,
                (domain@[i], j),
            ),
    ensures
        exists|bits: Seq<Seq<bool>>|
            {
                &&& bits.len() == domain@.len()
                &&& (forall|i: int|
                    0 <= i < bits.len() ==> (#[trigger] bits[i]).len() == tf.tests@.len())
                &&& (forall|i: int, j: int|
                    0 <= i < bits.len() && 0 <= j < tf.tests@.len() ==> #[trigger] call_ensures(
                        pred,
                        (domain@[i], j as usize),
                        bits[i][j],
                    ))
                &&& q_view(&r) == spec_quotient(
                    domain@,
                    Seq::new(bits.len(), |i: int| SigView::Bits(bits[i])),
                    domain@.len() as int,
                )
            },
{
    let sigs = element_signatures(domain, tf, pred);
    let r = Quotient::from_signatures(domain, sigs.as_slice());
    proof {
        let bits = Seq::new(sigs@.len(), |i: int| sigs@[i]@->Bits_0);
        assert(Seq::new(sigs@.len(), |i: int| sigs@[i]@) =~= Seq::new(
            bits.len(),
            |i: int| SigView::Bits(bits[i]),
        ));
    }
    r
}

/// The canonical payload of the summarizing certificate, keys ascending.
pub open spec fn sembit_payload(
    asc7_hash: Seq<char>,
    confusables_hash: Seq<char>,
    tests_hash: Seq<char>,
    domain_digest: Seq<char>,
    classes: int,
    h_sem_microbits: int,
    quotient_digest: Seq<char>,
) -> CanonView {
    CanonView::Obj(
        seq![
            ("asc7_graph_hash"@, CanonView::Str(asc7_hash)),
            ("classes"@, CanonView::U64(classes)),
            ("confusables_graph_hash"@, CanonView::Str(confusables_hash)),
            ("domain_digest"@, CanonView::Str(domain_digest)),
            ("h_sem_microbits"@, CanonView::I64(h_sem_microbits)),
            ("quotient_digest"@, CanonView::Str(quotient_digest)),
            ("tests_hash"@, CanonView::Str(tests_hash)),
        ],
    )
}

/// The summarizing kernel certificate over the upstream hashes, the class
/// count, and the entropy scaled to integral microbits.
pub fn sembit_kernel_cert(
    asc7_graph_hash_hex: &str,
    confusables_graph_hash_hex: &str,
    tests_hash_hex: &str,
    domain_digest_hex: &str,
    q_classes: usize,
    h_sem_microbits: i64,
    quotient_digest_hex: &str,
) -> (r: KernelCert)
    ensures
        r.kernel_name@ == "sembit"@,
        r.kernel_version@ == "1.0.0"@,
        r.payload@ == sembit_payload(
            asc7_graph_hash_hex@,
            confusables_graph_hash_hex@,
            tests_hash_hex@,
            domain_digest_hex@,
            q_classes as int,
            h_sem_microbits as int,
            quotient_digest_hex@,
        ),
        r.kernel_hash.0@ == sha256_of(
            encode_canon(
                sembit_payload(
                    asc7_graph_hash_hex@,
                    confusables_graph_hash_hex@,
                    tests_hash_hex@,
                    domain_digest_hex@,
                    q_classes as int,
                    h_sem_microbits as int,
                    quotient_digest_hex@,
                ),
            ),
        ),
{
    let mut obj: Vec<(String, Canon)> = Vec::new();
    obj.push((String::from_str("asc7_graph_hash"), Canon::Str(String::from_str(
        asc7_graph_hash_hex,
    ))));
    obj.push((String::from_str("classes"), Canon::U64(q_classes as u64)));
    obj.push((String::from_str("confusables_graph_hash"), Canon::Str(String::from_str(
        confusables_graph_hash_hex,
    ))));
    obj.push((String::from_str("domain_digest"), Canon::Str(String::from_str(
        domain_digest_hex,
    ))));
    obj.push((String::from_str("h_sem_microbits"), Canon::I64(h_sem_microbits)));
    obj.push((String::from_str("quotient_digest"), Canon::Str(String::from_str(
        quotient_digest_hex,
    ))));
    obj.push((String::from_str("tests_hash"), Canon::Str(String::from_str(tests_hash_hex))));
    let payload = Canon::Obj(obj);
    proof {
        lemma_canon_view_pairs_index(obj@);
        assert(canon_view_pairs(obj@) =~= sembit_payload(
            asc7_graph_hash_hex@,
            confusables_graph_hash_hex@,
            tests_hash_hex@,
            domain_digest_hex@,
            q_classes as int,
            h_sem_microbits as int,
            quotient_digest_hex@,
        )->Obj_0);
    }
    KernelCert::new("sembit", "1.0.0", payload)
}

} // verus!
