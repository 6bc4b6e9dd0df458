use collapse_kernel::cert::{cert_chain_hash, CertChain, CertItem};
use collapse_kernel::confusables::confusables_kernel_cert;
use collapse_kernel::domain::domain_qe_bounded;
use collapse_kernel::normalize::normalize_str;
use collapse_kernel::profile::{asc7_kernel_cert, Asc7Profile};
use collapse_kernel::qe::{domain_digest_hex, QE};
use collapse_kernel::quotient::{Quotient, Signature};
use collapse_kernel::sembit::{quotient_digest_hex, sembit_kernel_cert, sembit_quotient,
    tests_hash_hex};
use collapse_kernel::testfam::{Test, TestFamily};

#[test]
fn from_signatures_groups_by_signature_in_order() {
    let items: Vec<u64> = vec![10, 11, 12, 13];
    let sigs = vec![
        Signature::Bits(vec![true]),
        Signature::Bits(vec![false]),
        Signature::Bits(vec![true]),
        Signature::Bits(vec![false]),
    ];
    let q = Quotient::from_signatures(&items, &sigs);
    assert_eq!(q.size(), 2);
    // classes in signature order: [false] before [true]
    assert_eq!(q.classes[0].1, vec![11, 13]);
    assert_eq!(q.classes[1].1, vec![10, 12]);
}

#[test]
fn signature_order_ranks_variants_then_contents() {
    let bits = Signature::Bits(vec![true, true]);
    let text = Signature::Text("a".to_string());
    let pair = Signature::PairI64(0, 0);
    let tup = Signature::Tuple(vec![Signature::PairI64(1, 2)]);
    assert_eq!(bits.cmp_sig(&text), -1);
    assert_eq!(text.cmp_sig(&pair), -1);
    assert_eq!(pair.cmp_sig(&tup), -1);
    assert_eq!(tup.cmp_sig(&bits), 1);
    // within Bits: false < true, then shorter first
    assert_eq!(
        Signature::Bits(vec![false]).cmp_sig(&Signature::Bits(vec![true])),
        -1
    );
    assert_eq!(
        Signature::Bits(vec![true]).cmp_sig(&Signature::Bits(vec![true, false])),
        -1
    );
    // within Text: byte order
    assert_eq!(
        Signature::Text("ab".to_string()).cmp_sig(&Signature::Text("b".to_string())),
        -1
    );
    // within PairI64: lexicographic
    assert_eq!(Signature::PairI64(1, 9).cmp_sig(&Signature::PairI64(2, 0)), -1);
    assert_eq!(Signature::PairI64(2, 0).cmp_sig(&Signature::PairI64(2, 1)), -1);
    // tuples element-wise, then shorter first
    assert_eq!(
        Signature::Tuple(vec![Signature::PairI64(1, 1)])
            .cmp_sig(&Signature::Tuple(vec![Signature::PairI64(1, 1), Signature::PairI64(0, 0)])),
        -1
    );
    assert_eq!(bits.cmp_sig(&Signature::Bits(vec![true, true])), 0);
}

#[test]
fn quotient_digest_depends_on_shape_alone() {
    // two different domains whose partitions have the same shape
    let d1: Vec<QE> = domain_qe_bounded(1, 1); // -1, 0, 1
    let tf = TestFamily::new(vec![Test { id_norm: "positive".to_string() }]);
    let q1 = sembit_quotient(&d1, &tf, |x: QE, _j: usize| x.num() > 0);

    let d2: Vec<QE> = vec![QE::new(10, 1), QE::new(20, 1), QE::new(30, 1)];
    let q2 = sembit_quotient(&d2, &tf, |x: QE, _j: usize| x.num() > 25);

    assert_eq!(quotient_digest_hex(&q1), quotient_digest_hex(&q2));

    // changing a predicate outcome changes the shape, hence the digest
    let q3 = sembit_quotient(&d2, &tf, |x: QE, _j: usize| x.num() > 5);
    assert_ne!(quotient_digest_hex(&q2), quotient_digest_hex(&q3));
}

#[test]
fn tests_hash_covers_identifiers_and_tag() {
    let tf1 = TestFamily::new(vec![Test { id_norm: "alpha".to_string() }]);
    let tf2 = TestFamily::new(vec![Test { id_norm: "beta".to_string() }]);
    assert_ne!(tests_hash_hex(&tf1, "tag"), tests_hash_hex(&tf2, "tag"));
    assert_ne!(tests_hash_hex(&tf1, "tag"), tests_hash_hex(&tf1, "gat"));
    assert_eq!(tests_hash_hex(&tf1, "tag"), tests_hash_hex(&tf1, "tag"));
}

#[test]
fn sem_entropy_is_zero_for_one_class_and_increasing() {
    assert_eq!((1u64 as f64).log2(), 0.0);
    let mut prev = (1u64 as f64).log2();
    for k in 2u64..30 {
        let h = (k as f64).log2();
        assert!(h > prev);
        prev = h;
    }
}

#[test]
fn chain_hash_is_order_and_content_sensitive() {
    let items = vec![
        CertItem { name: "asc7".to_string(), hash_hex: "aa".repeat(32) },
        CertItem { name: "sembit".to_string(), hash_hex: "bb".repeat(32) },
    ];
    let reordered = vec![items[1].clone(), items[0].clone()];
    let changed = vec![
        CertItem { name: "asc7".to_string(), hash_hex: "ac".repeat(32) },
        items[1].clone(),
    ];
    let h = cert_chain_hash(&items);
    assert_eq!(h, cert_chain_hash(&items));
    assert_ne!(h, cert_chain_hash(&reordered));
    assert_ne!(h, cert_chain_hash(&changed));
    assert_eq!(h.len(), 64);
}

fn spine_pred(x: QE, j: usize) -> bool {
    match j {
        0 => x.num() > 0,
        1 => x.den() == 1,
        _ => x.den() > 3,
    }
}

fn build_spine_chain() -> CertChain {
    let profile = Asc7Profile::code_safe();
    let asc7_hash = asc7_kernel_cert(&profile).kernel_hash_hex();
    let conf_hash = confusables_kernel_cert().kernel_hash_hex();
    let domain: Vec<QE> = domain_qe_bounded(6, 6);
    let domain_digest = domain_digest_hex(&domain);
    let id1 = normalize_str(&profile, "sign", true).unwrap();
    let id2 = normalize_str(&profile, "is_int", true).unwrap();
    let id3 = normalize_str(&profile, "den>3", true).unwrap();
    let tf = TestFamily::new(vec![
        Test { id_norm: id1 },
        Test { id_norm: id2 },
        Test { id_norm: id3 },
    ]);
    let tests_hash = tests_hash_hex(&tf, "impl:static_v1");
    let q = sembit_quotient(&domain, &tf, spine_pred);
    let h_micro = (((q.size() as f64).log2()) * 1_000_000.0).round() as i64;
    let qdig = quotient_digest_hex(&q);
    let sembit_hash = sembit_kernel_cert(
        &asc7_hash,
        &conf_hash,
        &tests_hash,
        &domain_digest,
        q.size(),
        h_micro,
        &qdig,
    )
    .kernel_hash_hex();
    CertChain::build(vec![
        CertItem { name: "asc7".to_string(), hash_hex: asc7_hash },
        CertItem { name: "asc7_confusables".to_string(), hash_hex: conf_hash },
        CertItem { name: "sembit".to_string(), hash_hex: sembit_hash },
    ])
}

#[test]
fn spine_chain_is_reproducible_and_hash_sensitive() {
    let c1 = build_spine_chain();
    let c2 = build_spine_chain();
    assert_eq!(c1.chain_hash_hex, c2.chain_hash_hex);

    let mut tampered = c1.items.clone();
    tampered[0].hash_hex = "00".repeat(32);
    assert_ne!(cert_chain_hash(&tampered), c1.chain_hash_hex);
}
