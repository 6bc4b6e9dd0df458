use collapse_kernel::domain::domain_qe_bounded;
use collapse_kernel::confusables::confusables_kernel_cert;
use collapse_kernel::profile::{asc7_kernel_cert, Asc7Profile};
use collapse_kernel::normalize::{normalize_str, verify_terminal};
use collapse_kernel::cert::{cert_chain_hash, CertChain, CertItem};
use collapse_kernel::qe::{domain_digest_hex, QE};
use collapse_kernel::sembit::{quotient_digest_hex, sembit_kernel_cert, sembit_quotient,
    tests_hash_hex};
use collapse_kernel::testfam::{Test, TestFamily};

fn spine_pred(x: QE, j: usize) -> bool {
    match j {
        0 => x.num() > 0,
        1 => x.den() == 1,
        _ => x.den() > 3,
    }
}

#[test]
fn gate_asc7_idempotent_and_terminal() {
    let p = Asc7Profile::code_safe();
    let s = "Hell0 W0r1d (O0I1)";
    let s1 = normalize_str(&p, s, true).unwrap();
    let s2 = normalize_str(&p, &s1, true).unwrap();
    assert_eq!(s1, s2);
    assert!(verify_terminal(&p, &s1));
}

#[test]
fn gate_spine_chain_contains_asc7_hash() {
    let profile = Asc7Profile::code_safe();
    let asc7_cert = asc7_kernel_cert(&profile);
    let asc7_hash = asc7_cert.kernel_hash_hex();
    let conf_cert = confusables_kernel_cert();
    let conf_hash = conf_cert.kernel_hash_hex();

    let domain: Vec<QE> = domain_qe_bounded(10, 10);
    let domain_digest = domain_digest_hex(&domain);

    let id1 = normalize_str(&profile, "sign", true).unwrap();
    let id2 = normalize_str(&profile, "is_int", true).unwrap();
    let id3 = normalize_str(&profile, "den>3", true).unwrap();

    let tf = TestFamily::new(vec![
        Test { id_norm: id1 },
        Test { id_norm: id2 },
        Test { id_norm: id3 },
    ]);

    let tests_hash = tests_hash_hex(&tf, "impl:static_v1");
    let q = sembit_quotient(&domain, &tf, spine_pred);
    let h = (q.size() as f64).log2();
    let h_micro = (h * 1_000_000.0).round() as i64;
    let qdig = quotient_digest_hex(&q);

    let sembit_cert = sembit_kernel_cert(
        &asc7_hash,
        &conf_hash,
        &tests_hash,
        &domain_digest,
        q.size(),
        h_micro,
        &qdig,
    );

    let chain = CertChain::build(vec![
        CertItem { name: "asc7".to_string(), hash_hex: asc7_hash.clone() },
        CertItem { name: "asc7_confusables".to_string(), hash_hex: conf_hash.clone() },
        CertItem { name: "sembit".to_string(), hash_hex: sembit_cert.kernel_hash_hex() },
    ]);

    // The chain hash must depend on asc7 hash; change asc7 hash => chain changes.
    let mut chain2 = chain.clone();
    chain2.items[0].hash_hex = "deadbeef".to_string();
    chain2.chain_hash_hex = cert_chain_hash(&chain2.items);
    assert_ne!(chain.chain_hash_hex, chain2.chain_hash_hex);
    assert!(chain.items[0].hash_hex.len() == 64);
}
