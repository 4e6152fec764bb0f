//! Manage name-constrained cross-certificates for third-party CAs.
//!
//! Trusting a third-party CA normally lets it vouch for any hostname. This crate narrows
//! that: a foreign self-signed root is re-issued under a locally generated root with an
//! X.509 `nameConstraints` extension attached, and only the local root is trusted. Chains
//! from the foreign CA then validate for the permitted domains and fail everywhere else.
//!
//! The workspace on disk holds `roots/` (foreign roots), `constrained/` (one
//! cross-certificate each), the local root, and `rucerts.toml`. This crate reads and writes
//! none of them: it says what is to be written, given what was read.
pub mod cli;
pub mod config;
pub mod crypto;
pub mod domains;
pub mod encoding;
pub mod error;
pub mod local_root;
pub mod path;
pub mod probe;
pub mod roots;
pub mod session;
pub mod signing;
pub mod stage;
pub mod text;
pub mod verify;
pub mod workspace;
pub mod x509;
