//! A deterministic certification pipeline: canonical byte encoding of
//! structured values, content-addressed kernel certificates chained into one
//! digest, a union-find based character-normalization profile, a
//! signature/quotient engine over finite numeric domains, and the domain
//! generators that feed it.

pub mod decimal;
pub mod canon;
pub mod digest;
pub mod cert;
pub mod qe;
pub mod domain;
pub mod role;
pub mod dsu;
pub mod profile;
pub mod normalize;
pub mod confusables;
pub mod quotient;
pub mod testfam;
pub mod sembit;
pub mod ne;
pub mod ze;

pub use canon::{canon_bytes, Canon};
pub use cert::{cert_chain_hash, CertChain, CertItem, KernelCert};
pub use confusables::{confusables_kernel_cert, confusables_min_table};
pub use digest::{sha256_bytes, sha256_hex, Sha256Digest};
pub use domain::domain_qe_bounded;
pub use ne::{domain_digest_hex_ne, domain_ne, domain_view_ne, NE};
pub use normalize::{normalize_str, verify_terminal, NormalizeError};
pub use profile::{ascii_universe, asc7_kernel_cert, Asc7Profile, Asc7ProfileParams};
pub use qe::{canon_domain_digest_hex_i64, canon_domain_digest_hex_u64, domain_digest_hex, QE};
pub use quotient::{Quotient, Signature};
pub use role::{classify_role, CharRole};
pub use sembit::{quotient_digest_hex, sembit_kernel_cert, sembit_quotient, tests_hash_hex};
pub use testfam::{Test, TestFamily};
pub use ze::{domain_digest_hex_ze, domain_ze, domain_view_ze, ZE};
