# rucerts

Trust a third-party CA for a **fixed list of domains only**, instead of for the whole
internet.

A foreign self-signed root is re-issued under a locally generated root with an X.509
`nameConstraints` extension, and only the local root is trusted. Chains from the foreign CA
then validate for the permitted domains and fail everywhere else.

## Layout

| Path | What |
|---|---|
| `src/` | The library, verified with Verus. It reads and writes no file: it says what is to be written, given what was read. |
| `src/crypto.rs`, `src/encoding.rs` | What is asked of OpenSSL, Base64 and JSON. The contracts there are trusted. |
| `src/x509.rs` | Local roots, cross-certificates, and what can be read out of a certificate. |
| `src/roots.rs` | Listing, adding and retiring foreign roots. |
| `src/domains.rs`, `src/config.rs` | The permitted domains. |
| `src/signing.rs` | Signing every cross-certificate. |
| `src/stage.rs` | The installer and the browser policy. |
| `src/verify.rs`, `src/probe.rs` | The audit. |
| `src/session.rs`, `src/cli.rs`, `src/local_root.rs` | What each command does, step by step. |
| `src/workspace.rs`, `src/path.rs`, `src/text.rs`, `src/error.rs` | Places, paths, text, errors. |
| `tests/` | Tests, with the real outside crates. |
| `app/` | The command line program around the library. |

## What is proved

Every function of the library meets its contract and does not panic. The laws that span
functions stand next to them as public proof functions. Among them: a cross-certificate keeps
the subject, the public key and the key identifier of the root it stands in for; the permitted
list is never emptied; the negative control passes only for a permitted subtree violation; a
command that changed the workspace is not over before the certificates were signed and the
artifacts generated.
