use collapse_kernel::domain::domain_qe_bounded;
use collapse_kernel::ne::{domain_digest_hex_ne, domain_ne, domain_view_ne, NE};
use collapse_kernel::ze::{domain_digest_hex_ze, domain_ze, domain_view_ze, ZE};
use collapse_kernel::qe::domain_digest_hex;
use collapse_kernel::profile::{ascii_universe, Asc7Profile};
use collapse_kernel::normalize::{normalize_str, verify_terminal};
use collapse_kernel::confusables::confusables_min_table;
use collapse_kernel::role::{classify_role, CharRole};

#[test]
fn bounded_qe_domain_is_sorted_and_duplicate_free() {
    let d = domain_qe_bounded(2, 2);
    let pairs: Vec<(i64, i64)> = d.iter().map(|q| (q.num(), q.den())).collect();
    assert_eq!(pairs, vec![(-2, 1), (-1, 1), (-1, 2), (0, 1), (1, 2), (1, 1), (2, 1)]);
    for w in d.windows(2) {
        assert!(w[0].le(&w[1]));
        assert!(!(w[0].num() == w[1].num() && w[0].den() == w[1].den()));
    }
    assert!(domain_qe_bounded(-1, 5).is_empty());
    assert!(domain_qe_bounded(5, 0).is_empty());
}

#[test]
fn qe_domain_digest_depends_on_the_domain() {
    let d1 = domain_qe_bounded(2, 2);
    let d2 = domain_qe_bounded(3, 2);
    assert_eq!(domain_digest_hex(&d1), domain_digest_hex(&d1));
    assert_ne!(domain_digest_hex(&d1), domain_digest_hex(&d2));
    assert_eq!(domain_digest_hex(&d1).len(), 64);
}

#[test]
fn ne_domain_and_view() {
    let d = domain_ne(3);
    let values: Vec<u64> = d.iter().map(|x| x.value()).collect();
    assert_eq!(values, vec![0, 1, 2, 3]);
    assert_eq!(NE::new(7).value(), 7);
    let view = domain_view_ne(&d);
    assert_eq!(view, vec![
        ("first".to_string(), "0".to_string()),
        ("kind".to_string(), "N_E".to_string()),
        ("last".to_string(), "3".to_string()),
        ("size".to_string(), "4".to_string()),
    ]);
    assert_eq!(domain_digest_hex_ne(&d).len(), 64);
    assert_ne!(domain_digest_hex_ne(&d), domain_digest_hex_ne(&domain_ne(4)));
}

#[test]
fn ze_domain_and_view() {
    let d = domain_ze(2);
    let values: Vec<i64> = d.iter().map(|x| x.value()).collect();
    assert_eq!(values, vec![-2, -1, 0, 1, 2]);
    assert_eq!(ZE::new(-7).value(), -7);
    let view = domain_view_ze(&d);
    assert_eq!(view, vec![
        ("first".to_string(), "-2".to_string()),
        ("kind".to_string(), "Z_E".to_string()),
        ("last".to_string(), "2".to_string()),
        ("size".to_string(), "5".to_string()),
    ]);
    assert_eq!(domain_digest_hex_ze(&d).len(), 64);
}

#[test]
fn roles_follow_the_fixed_table() {
    assert_eq!(classify_role('a'), CharRole::Letter);
    assert_eq!(classify_role('Z'), CharRole::Letter);
    assert_eq!(classify_role('7'), CharRole::Digit);
    assert_eq!(classify_role('('), CharRole::Delimiter);
    assert_eq!(classify_role('}'), CharRole::Delimiter);
    assert_eq!(classify_role(' '), CharRole::Space);
    assert_eq!(classify_role('\t'), CharRole::Space);
    assert_eq!(classify_role('|'), CharRole::Punctuation);
    assert_eq!(classify_role('`'), CharRole::Punctuation);
    assert_eq!(classify_role('é'), CharRole::Other);
}

#[test]
fn universe_is_the_95_printables() {
    let u = ascii_universe();
    assert_eq!(u.len(), 95);
    assert_eq!(u[0], ' ');
    assert_eq!(u[94], '~');
}

#[test]
fn code_safe_profile_merges_the_confusable_glyphs() {
    let p = Asc7Profile::code_safe();
    assert_eq!(p.rep('0'), p.rep('O'));
    assert_eq!(p.rep('0'), p.rep('o'));
    assert_eq!(p.rep('1'), p.rep('l'));
    assert_eq!(p.rep('1'), p.rep('I'));
    assert_eq!(p.rep('1'), p.rep('|'));
    assert_eq!(p.rep('\''), p.rep('`'));
    // no case folding: 'A' and 'a' stay apart
    assert_ne!(p.rep('A'), p.rep('a'));
    // outside the universe there is no mapping
    assert_eq!(p.rep('é'), None);
    assert_eq!(p.graph_hash.len(), 32);
}

#[test]
fn auth_safe_profile_adds_case_folding() {
    let p = Asc7Profile::auth_safe();
    assert_eq!(p.rep('A'), p.rep('a'));
    assert_eq!(p.rep('Z'), p.rep('z'));
    assert_eq!(p.rep('0'), p.rep('O'));
    let q = Asc7Profile::code_safe();
    assert_ne!(
        collapse_kernel::digest::digest_bytes_hex(&p.graph_hash),
        collapse_kernel::digest::digest_bytes_hex(&q.graph_hash)
    );
}

#[test]
fn strict_normalization_reports_the_offending_character() {
    let p = Asc7Profile::code_safe();
    let err = normalize_str(&p, "ab\u{00e9}cd", true).unwrap_err();
    assert_eq!(err.ch, '\u{00e9}');
    // non-strict mode passes the character through unchanged
    let out = normalize_str(&p, "ab\u{00e9}cd", false).unwrap();
    assert!(out.contains('\u{00e9}'));
}

#[test]
fn normalization_maps_to_the_class_representatives() {
    let p = Asc7Profile::code_safe();
    // the zero-like class picks its first lowercase member as representative
    assert_eq!(normalize_str(&p, "O", true).unwrap(), "o");
    assert_eq!(normalize_str(&p, "0", true).unwrap(), "o");
    assert_eq!(normalize_str(&p, "1I|", true).unwrap(), "lll");
    assert_eq!(
        normalize_str(&p, "Hell0 W0r1d (O0I1)", true).unwrap(),
        "Hello World (ooll)"
    );
}

#[test]
fn verify_terminal_rejects_non_representatives() {
    let p = Asc7Profile::code_safe();
    // 'O' maps away from itself under code_safe, so it is not terminal
    assert!(!verify_terminal(&p, "O"));
    let norm = normalize_str(&p, "O", true).unwrap();
    assert!(verify_terminal(&p, &norm));
    assert!(verify_terminal(&p, ""));
}

#[test]
fn confusables_table_is_sorted_and_complete() {
    let t = confusables_min_table();
    assert_eq!(t.len(), 19);
    for w in t.windows(2) {
        assert!(w[0].0 < w[1].0);
    }
    assert_eq!(t[0], ("A".to_string(), "\u{0391}".to_string()));
    assert_eq!(t[18], ("y".to_string(), "\u{0443}".to_string()));
}
