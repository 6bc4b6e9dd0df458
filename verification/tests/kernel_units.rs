use collapse_kernel::canon::{canon_bytes, Canon};
use collapse_kernel::cert::KernelCert;
use collapse_kernel::decimal::{i64_dec_string, u64_dec_string};
use collapse_kernel::digest::{digest_bytes_hex, sha256_bytes, sha256_hex};
use collapse_kernel::qe::QE;

#[test]
fn canon_scalars_render_as_json_text() {
    assert_eq!(canon_bytes(&Canon::Null), b"null");
    assert_eq!(canon_bytes(&Canon::Bool(true)), b"true");
    assert_eq!(canon_bytes(&Canon::Bool(false)), b"false");
    assert_eq!(canon_bytes(&Canon::I64(-42)), b"-42");
    assert_eq!(canon_bytes(&Canon::I64(i64::MIN)), b"-9223372036854775808");
    assert_eq!(canon_bytes(&Canon::U64(0)), b"0");
    assert_eq!(canon_bytes(&Canon::U64(u64::MAX)), b"18446744073709551615");
}

#[test]
fn canon_strings_escape_the_five_special_bytes() {
    let v = Canon::Str("a\\b\"c\nd\re\tf".to_string());
    assert_eq!(canon_bytes(&v), b"\"a\\\\b\\\"c\\nd\\re\\tf\"");
}

#[test]
fn canon_compound_values_render_in_order() {
    let arr = Canon::Arr(vec![Canon::I64(1), Canon::Str("x".to_string()), Canon::Null]);
    assert_eq!(canon_bytes(&arr), b"[1,\"x\",null]");
    let obj = Canon::Obj(vec![
        ("a".to_string(), Canon::I64(-5)),
        ("b".to_string(), Canon::Arr(vec![])),
    ]);
    assert_eq!(canon_bytes(&obj), b"{\"a\":-5,\"b\":[]}");
    let empty = Canon::Obj(vec![]);
    assert_eq!(canon_bytes(&empty), b"{}");
}

#[test]
fn canon_deep_clone_preserves_bytes() {
    let obj = Canon::Obj(vec![
        ("k".to_string(), Canon::Arr(vec![Canon::U64(7), Canon::Str("v".to_string())])),
    ]);
    assert_eq!(canon_bytes(&obj.deep_clone()), canon_bytes(&obj));
}

#[test]
fn sha256_known_vectors() {
    assert_eq!(
        sha256_hex(sha256_bytes(b"")),
        "e3b0c44298fc1c149afbf4c8996fb92427ae41e4649b934ca495991b7852b855"
    );
    assert_eq!(
        sha256_hex(sha256_bytes(b"abc")),
        "ba7816bf8f01cfea414140de5dae2223b00361a396177a9cb410ff61f20015ad"
    );
}

#[test]
fn hex_rendering_is_two_lowercase_digits_per_byte() {
    let mut raw = [0u8; 32];
    raw[0] = 0x00;
    raw[1] = 0x0f;
    raw[2] = 0xa5;
    raw[31] = 0xff;
    let hex = digest_bytes_hex(&raw);
    assert_eq!(hex.len(), 64);
    assert!(hex.starts_with("000fa5"));
    assert!(hex.ends_with("ff"));
}

#[test]
fn decimal_rendering_matches_display() {
    assert_eq!(u64_dec_string(0), "0");
    assert_eq!(u64_dec_string(1234567890), "1234567890");
    assert_eq!(u64_dec_string(u64::MAX), format!("{}", u64::MAX));
    assert_eq!(i64_dec_string(-42), "-42");
    assert_eq!(i64_dec_string(0), "0");
    assert_eq!(i64_dec_string(i64::MIN), format!("{}", i64::MIN));
}

#[test]
fn kernel_cert_hash_covers_only_the_payload() {
    let a = KernelCert::new("one", "1.0.0", Canon::U64(7));
    let b = KernelCert::new("two", "9.9.9", Canon::U64(7));
    let c = KernelCert::new("one", "1.0.0", Canon::U64(8));
    assert_eq!(a.kernel_hash_hex(), b.kernel_hash_hex());
    assert_ne!(a.kernel_hash_hex(), c.kernel_hash_hex());
    assert_eq!(a.kernel_hash_hex().len(), 64);
}

#[test]
fn kernel_cert_to_canon_embeds_the_hash() {
    let cert = KernelCert::new("asc7", "1.0.0", Canon::Bool(true));
    let rendered = canon_bytes(&cert.to_canon());
    let text = String::from_utf8(rendered).unwrap();
    assert!(text.contains(&cert.kernel_hash_hex()));
    assert!(text.contains("\"kernel_name\":\"asc7\""));
    assert!(text.contains("\"payload\":true"));
}

#[test]
fn qe_construction_reduces_and_folds_signs() {
    let q = QE::new(2, 4);
    assert_eq!((q.num(), q.den()), (1, 2));
    let q = QE::new(-2, -4);
    assert_eq!((q.num(), q.den()), (1, 2));
    let q = QE::new(3, -6);
    assert_eq!((q.num(), q.den()), (-1, 2));
    let q = QE::new(0, -7);
    assert_eq!((q.num(), q.den()), (0, 1));
    let q = QE::new(6, 4);
    assert_eq!((q.num(), q.den()), (3, 2));
}

#[test]
fn qe_order_is_by_value_then_fields() {
    let a = QE::new(-1, 2);
    let b = QE::new(1, 3);
    let c = QE::new(1, 3);
    assert!(a.le(&b));
    assert!(!b.le(&a));
    assert!(b.le(&c) && c.le(&b));
}
