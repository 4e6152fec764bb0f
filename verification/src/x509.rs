//! Certificate loading, cross-signing and inspection.
//!
//! The central operation is [`cross_sign`], which re-issues a foreign self-signed root
//! under a local root while adding an X.509 `nameConstraints` extension.
//!
//! Two properties of the output are load-bearing:
//!
//! - The **Subject DN must be byte-identical** to the original's. Chain building matches a
//!   sub-CA's `issuer` field against it; any re-encoding breaks every chain.
//! - The **Subject Key Identifier must be unchanged**, because sub-CAs carry an
//!   `authorityKeyIdentifier` pointing at it. The public key is copied verbatim, and the
//!   identifier is computed from it.
use crate::config::{Constraints, MAX_CN_BYTES, MAX_DAYS};
use crate::crypto::{
    append_extension, authority_key_id_extension, ca_constraints, ca_constraints_with_path_len,
    common_name_of, digest_sha256, generate_rsa, hash_sha256, issuer_name, key_id_extension,
    name_constraints_extension, name_of_common_name, new_builder, not_after, public_half,
    public_key, random_bytes, read_der, read_key_pem, read_pem, render_text, set_issuer,
    set_not_after, set_not_before, set_public_key, set_serial, set_subject, set_version,
    sign_and_build, signing_key_usage, subject_key_id, subject_name, verifies, write_key_pem,
    write_pem, CertFields, Extension,
};
use crate::error::{checked, Error, Operation};
use crate::text::{
    chars_of, has_prefix, join, same_bytes, same_text, split_lines, string_of, strip_prefix, trim,
    utf8_text,
};
use openssl::x509::X509Extension;
use vstd::prelude::*;

verus! {

/// Key size for generated local roots.
///
/// Changing it invalidates every previously issued cross-certificate, since the root key
/// changes with it.
pub const ROOT_KEY_BITS: u32 = 4096;

/// A certificate, in DER.
#[derive(Debug)]
pub struct Certificate {
    der: Vec<u8>,
}

impl View for Certificate {
    type V = Seq<u8>;

    /// The DER encoding.
    closed spec fn view(&self) -> Seq<u8> {
        self.der@
    }
}

impl Certificate {
    /// The encoding reads back as itself.
    #[verifier::type_invariant]
    spec fn reads_back(self) -> bool {
        crate::crypto::der_certificate(self.der@) == Some(self.der@)
    }

    /// The DER encoding.
    pub fn der(&self) -> (r: &Vec<u8>)
        ensures
            r@ == self@,
    {
        &self.der
    }

    /// A copy of the certificate.
    pub fn duplicate(&self) -> (r: Certificate)
        ensures
            r@ == self@,
    {
        proof {
            use_type_invariant(self);
        }
        let der = self.der.clone();
        assert(der@ =~= self.der@);
        Certificate { der }
    }

    /// The certificate in PEM. It loads back as this certificate.
    pub fn to_pem(&self) -> (r: Result<Vec<u8>, Error>)
        ensures
            match r {
                Ok(pem) => crate::crypto::certificate_pem(self@) == Some(pem@) && loaded(pem@)
                    == Some(self@),
                Err(e) => crate::crypto::certificate_pem(self@) is None && e.is_openssl(
                    Operation::EncodeCertificate,
                ),
            },
    {
        proof {
            use_type_invariant(self);
        }
        checked(write_pem(&self.der), Operation::EncodeCertificate)
    }
}

/// A private key, as PKCS#8.
pub struct PrivateKey {
    pkcs8: Vec<u8>,
}

impl View for PrivateKey {
    type V = Seq<u8>;

    /// The PKCS#8 encoding.
    closed spec fn view(&self) -> Seq<u8> {
        self.pkcs8@
    }
}

/// Whether `pem` holds the private key `pkcs8`: unencrypted, and where `Rsa::generate` drew
/// the key, so that it loads back as it is.
pub open spec fn saves_key(pkcs8: Seq<u8>, pem: Seq<u8>) -> bool {
    &&& crate::crypto::private_key_pem(pkcs8) == Some(pem)
    &&& !crate::crypto::key_may_ask_passphrase(pem)
    &&& forall|bits: u32| #[trigger]
        crate::crypto::rsa_generated(bits, pkcs8) ==> crate::crypto::plain_private_key(pem)
            == Some(pkcs8)
}

/// Whether loading `pem` may give the private key `pkcs8`. Where nobody is asked for a
/// passphrase, it is the one that `pem` holds.
pub open spec fn loads_key(pem: Seq<u8>, pkcs8: Seq<u8>) -> bool {
    &&& crate::crypto::private_key_read(pem, pkcs8)
    &&& !crate::crypto::key_may_ask_passphrase(pem) ==> crate::crypto::plain_private_key(pem)
        == Some(pkcs8)
}

/// Whether loading `pem` may fail: it holds no private key, or somebody is asked for a
/// passphrase.
pub open spec fn may_not_load(pem: Seq<u8>) -> bool {
    crate::crypto::key_may_ask_passphrase(pem) || crate::crypto::plain_private_key(pem) is None
}

impl PrivateKey {
    /// The key in PEM.
    pub fn to_pem(&self) -> (r: Result<Vec<u8>, Error>)
        ensures
            match r {
                Ok(pem) => saves_key(self@, pem@),
                Err(e) => crate::crypto::private_key_pem(self@) is None && e.is_openssl(
                    Operation::EncodeKey,
                ),
            },
    {
        checked(write_key_pem(&self.pkcs8), Operation::EncodeKey)
    }
}

/// The certificate that a file's bytes hold: in PEM, or else in DER.
pub open spec fn loaded(bytes: Seq<u8>) -> Option<Seq<u8>> {
    match crate::crypto::pem_certificate(bytes) {
        Some(der) => Some(der),
        None => crate::crypto::der_certificate(bytes),
    }
}

/// Whether a file is short enough for OpenSSL, which counts its bytes in a C `int`.
pub open spec fn file_fits(bytes: Seq<u8>) -> bool {
    bytes.len() <= i32::MAX
}

/// Whether a certificate can be loaded from a file without asking anybody: it is short
/// enough, and not an encrypted PEM block.
pub open spec fn is_readable(bytes: Seq<u8>) -> bool {
    file_fits(bytes) && !crate::crypto::may_ask_passphrase(bytes)
}

/// Whether that holds of a file, if there is such a file.
pub open spec fn any_readable(file: Option<Vec<u8>>) -> bool {
    file matches Some(bytes) ==> is_readable(bytes@)
}

/// Whether that holds of each file of a list.
pub open spec fn all_readable(files: Seq<Option<Vec<u8>>>) -> bool {
    forall|i: int| 0 <= i < files.len() ==> any_readable(#[trigger] files[i])
}

/// Whether `word` stands in `bytes` at position `at`.
fn bytes_at(bytes: &Vec<u8>, word: &[u8], at: usize) -> (r: bool)
    requires
        at + word@.len() <= bytes@.len(),
    ensures
        r == (bytes@.subrange(at as int, at + word@.len()) == word@),
{
    let total: usize = bytes.len();
    for i in 0..word.len()
        invariant
            total == bytes@.len(),
            at + word@.len() <= total,
            forall|j: int| 0 <= j < i ==> bytes@[at + j] == word@[j],
    {
        if bytes[at + i] != word[i] {
            assert(bytes@.subrange(at as int, at + word@.len())[i as int] != word@[i as int]);
            return false;
        }
    }
    assert(bytes@.subrange(at as int, at + word@.len()) =~= word@);
    true
}

/// Whether `word` stands in `bytes`.
fn find_bytes(bytes: &Vec<u8>, word: &[u8]) -> (r: bool)
    ensures
        r == crate::crypto::holds_bytes(bytes@, word@),
{
    let total: usize = bytes.len();
    if total < word.len() {
        return false;
    }
    let last: usize = total - word.len();
    let mut at: usize = 0;
    while at < last
        invariant
            total == bytes@.len(),
            last == total - word@.len(),
            at <= last,
            forall|j: int|
                0 <= j < at ==> #[trigger] bytes@.subrange(j, j + word@.len() as int) != word@,
        decreases last - at,
    {
        if bytes_at(bytes, word, at) {
            return true;
        }
        at = at + 1;
    }
    bytes_at(bytes, word, at)
}

/// Whether loading a certificate from a file may ask for a passphrase.
pub fn asks_passphrase(bytes: &Vec<u8>) -> (r: bool)
    ensures
        r == crate::crypto::may_ask_passphrase(bytes@),
{
    find_bytes(bytes, "-----BEGIN ".as_bytes()) && find_bytes(bytes, "Proc-Type:".as_bytes())
}

/// Loads a certificate from PEM, falling back to DER.
///
/// # Errors
/// If the bytes are a certificate in neither encoding.
pub fn load_cert(bytes: &Vec<u8>) -> (r: Result<Certificate, Error>)
    requires
        is_readable(bytes@),
    ensures
        match r {
            Ok(cert) => loaded(bytes@) == Some(cert@),
            Err(e) => loaded(bytes@) is None && e is NotACertificate,
        },
{
    match read_pem(bytes) {
        Ok(der) => Ok(Certificate { der }),
        Err(_) => match read_der(bytes) {
            Ok(der) => Ok(Certificate { der }),
            Err(_) => Err(Error::NotACertificate),
        },
    }
}

/// Loads a private key from PEM. An encrypted key also needs a passphrase, which OpenSSL asks
/// for.
///
/// # Errors
/// If the bytes hold no PEM private key.
pub fn load_key(bytes: &Vec<u8>) -> (r: Result<PrivateKey, Error>)
    requires
        file_fits(bytes@),
    ensures
        match r {
            Ok(key) => loads_key(bytes@, key@),
            Err(e) => e is NotAPrivateKey && may_not_load(bytes@),
        },
{
    match read_key_pem(bytes) {
        Ok(pkcs8) => Ok(PrivateKey { pkcs8 }),
        Err(_) => Err(Error::NotAPrivateKey),
    }
}

/// Whether all bytes of a number are zero.
pub open spec fn is_zero(bytes: Seq<u8>) -> bool {
    forall|i: int| 0 <= i < bytes.len() ==> #[trigger] bytes[i] == 0
}

/// Whether `serial` is a positive number of 64 bits: its sign bit is clear, and it is not
/// zero.
pub open spec fn is_positive_serial(serial: Seq<u8>) -> bool {
    serial.len() == 8 && serial[0] < 0x80 && !is_zero(serial)
}

/// The serial number made of random bytes: their sign bit is cleared. Zero, which is not
/// positive, counts as one.
pub open spec fn serial_of(drawn: Seq<u8>) -> Seq<u8> {
    let cleared = drawn.update(0, drawn[0] & 0x7f);
    if is_zero(cleared) {
        cleared.update(cleared.len() - 1, 1)
    } else {
        cleared
    }
}

/// Whether `serial` is a positive number made of bytes that were drawn at random.
pub open spec fn is_drawn_serial(serial: Seq<u8>) -> bool {
    &&& is_positive_serial(serial)
    &&& exists|drawn: Seq<u8>|
        drawn.len() == 8 && #[trigger] crate::crypto::randomly_drawn(drawn) && serial == serial_of(
            drawn,
        )
}

/// Whether all bytes of a number are zero.
fn all_zero(bytes: &Vec<u8>) -> (r: bool)
    ensures
        r == is_zero(bytes@),
{
    for i in 0..bytes.len()
        invariant
            forall|j: int| 0 <= j < i ==> #[trigger] bytes@[j] == 0,
    {
        if bytes[i] != 0 {
            return false;
        }
    }
    true
}

/// Makes a positive serial number of eight random bytes.
pub fn make_serial(bytes: &mut Vec<u8>)
    requires
        old(bytes)@.len() == 8,
    ensures
        final(bytes)@ == serial_of(old(bytes)@),
        is_positive_serial(final(bytes)@),
{
    clear_sign_bit(bytes);  // keep the DER INTEGER positive
    if all_zero(bytes) {
        bytes.set(7, 1);
        assert(bytes@[7] != 0);
    }
}

/// Clears the sign bit of a serial number.
pub fn clear_sign_bit(bytes: &mut Vec<u8>)
    requires
        old(bytes)@.len() > 0,
    ensures
        final(bytes)@ == old(bytes)@.update(0, old(bytes)@[0] & 0x7f),
        final(bytes)@[0] < 0x80,
{
    let first: u8 = bytes[0];
    let cleared: u8 = first & 0x7f;
    assert(cleared < 0x80) by (bit_vector)
        requires
            cleared == first & 0x7f,
    ;
    bytes.set(0, cleared);
}

/// Generates a positive 64-bit serial number.
fn random_serial() -> (r: Result<Vec<u8>, Error>)
    ensures
        match r {
            Ok(serial) => is_drawn_serial(serial@),
            Err(e) => e.is_openssl(Operation::DrawSerial),
        },
{
    match random_bytes(8) {
        Ok(mut bytes) => {
            make_serial(&mut bytes);
            Ok(bytes)
        },
        Err(cause) => Err(Error::OpenSsl { operation: Operation::DrawSerial, cause }),
    }
}

/// What a local root is made of.
pub open spec fn root_fields(name: Seq<u8>, key: Seq<u8>, serial: Seq<u8>, days: u32) -> CertFields {
    CertFields {
        version: Some(2),
        subject: Some(name),
        issuer: Some(name),
        public_key: Some(key),
        serial: Some(serial),
        not_before: Some(0),
        not_after: Some(days),
        extensions: seq![
            Extension::BasicConstraints { critical: true, ca: true, path_len: None },
            Extension::SubjectKeyId { key },
        ],
    }
}

/// What a cross-certificate is made of.
pub open spec fn cross_fields(
    root: Seq<u8>,
    root_name: Seq<u8>,
    subject: Seq<u8>,
    key: Seq<u8>,
    serial: Seq<u8>,
    value: Seq<char>,
    days: u32,
    path_len: u32,
) -> CertFields {
    CertFields {
        version: Some(2),
        subject: Some(subject),
        issuer: Some(root_name),
        public_key: Some(key),
        serial: Some(serial),
        not_before: Some(0),
        not_after: Some(days),
        extensions: seq![
            Extension::BasicConstraints { critical: true, ca: true, path_len: Some(path_len) },
            Extension::KeyUsage { critical: true, key_cert_sign: true, crl_sign: true },
            Extension::SubjectKeyId { key },
            Extension::AuthorityKeyId { issuer: root },
            Extension::NameConstraints { value },
        ],
    }
}

/// A certificate with the fields that local roots and cross-certificates have alike, and no
/// extension yet.
fn start_certificate(
    subject: &Vec<u8>,
    issuer: &Vec<u8>,
    key: &Vec<u8>,
    serial: &Vec<u8>,
    days: u32,
) -> (r: Result<openssl::x509::X509Builder, Error>)
    requires
        crate::crypto::is_name_der(subject@),
        crate::crypto::is_name_der(issuer@),
        crate::crypto::is_public_key_der(key@),
        serial@.len() == 8,
        days <= MAX_DAYS,
    ensures
        match r {
            Ok(builder) => crate::crypto::builder_fields(builder) == (CertFields {
                version: Some(2),
                subject: Some(subject@),
                issuer: Some(issuer@),
                public_key: Some(key@),
                serial: Some(serial@),
                not_before: Some(0),
                not_after: Some(days),
                extensions: Seq::empty(),
            }),
            Err(e) => e.is_openssl(Operation::BuildCertificate),
        },
{
    let mut builder = checked(new_builder(), Operation::BuildCertificate)?;
    checked(set_version(&mut builder, 2), Operation::BuildCertificate)?;  // X.509 v3
    checked(set_subject(&mut builder, subject), Operation::BuildCertificate)?;
    checked(set_issuer(&mut builder, issuer), Operation::BuildCertificate)?;
    checked(set_public_key(&mut builder, key), Operation::BuildCertificate)?;
    checked(set_serial(&mut builder, serial), Operation::BuildCertificate)?;
    checked(set_not_before(&mut builder, 0), Operation::BuildCertificate)?;
    checked(set_not_after(&mut builder, days), Operation::BuildCertificate)?;
    Ok(builder)
}

/// Whether the signature on `der` verifies with the public half of the private key `pkcs8`,
/// where `Rsa::generate` drew that key. Of other keys nothing is said: reading one does not
/// check that its halves belong together.
pub open spec fn signature_holds(der: Seq<u8>, pkcs8: Seq<u8>) -> bool {
    forall|bits: u32| #[trigger]
        crate::crypto::rsa_generated(bits, pkcs8) ==> (crate::crypto::private_key_public(pkcs8)
            matches Some(key) ==> crate::crypto::certificate_verifies(der, key))
}

/// Whether `der` is a local root with the Common Name `cn`, valid for `days` days, made for
/// the private key `pkcs8` and signed with it.
pub open spec fn is_local_root(der: Seq<u8>, pkcs8: Seq<u8>, cn: Seq<char>, days: u32) -> bool {
    &&& crate::crypto::common_name_dn(cn) matches Some(name)
    &&& crate::crypto::private_key_public(pkcs8) matches Some(key)
    &&& exists|serial: Seq<u8>|
        is_drawn_serial(serial) && #[trigger] crate::crypto::certificate_signed(
            root_fields(name, key, serial, days),
            pkcs8,
            der,
        )
}

/// Whether `e` may be why OpenSSL makes no local root with the Common Name `cn`.
pub open spec fn is_root_fault(cn: Seq<char>, e: Error) -> bool {
    ||| e.is_openssl(Operation::GenerateKey)
    ||| e.is_openssl(Operation::SetCommonName) && crate::crypto::common_name_dn(cn) is None
    ||| e.is_openssl(Operation::ReadPublicKey)
    ||| e.is_openssl(Operation::DrawSerial)
    ||| e.is_openssl(Operation::BuildCertificate)
    ||| e.is_openssl(Operation::SignRoot)
}

/// Generates a self-signed local root with the given Common Name.
///
/// The result is self-signed, its Common Name reads back as `cn`, its public key is the
/// public half of the key, and its key identifier belongs to it. That it shows as one of a CA
/// is not stated: how OpenSSL renders its basic constraints is not.
///
/// # Errors
/// If `cn` is empty, exceeds [`MAX_CN_BYTES`], or OpenSSL reports an error.
pub fn generate_root(cn: &str, days: u32) -> (r: Result<(Certificate, PrivateKey), Error>)
    requires
        days <= MAX_DAYS,
    ensures
        cn@.len() == 0 ==> (r matches Err(e) && e is EmptyCommonName),
        cn@.len() > 0 && vstd::utf8::encode_utf8(cn@).len() > MAX_CN_BYTES ==> (r matches Err(e)
            && e matches Error::CommonNameTooLong { bytes } && bytes == vstd::utf8::encode_utf8(
            cn@,
        ).len()),
        cn@.len() > 0 && vstd::utf8::encode_utf8(cn@).len() <= MAX_CN_BYTES ==> match r {
            Ok((cert, key)) => {
                &&& crate::crypto::rsa_generated(ROOT_KEY_BITS, key@)
                &&& is_local_root(cert@, key@, cn@, days)
                &&& self_signed(cert@) == Some(true)
                &&& common_name(cert@) == Some(cn@)
                &&& crate::crypto::certificate_public_key(cert@)
                    == crate::crypto::private_key_public(key@)
                &&& crate::crypto::certificate_public_key(cert@) matches Some(public)
                    && crate::crypto::certificate_key_id(cert@) == Some(
                    crate::crypto::key_identifier(public),
                )
            },
            Err(e) => is_root_fault(cn@, e),
        },
{
    if cn.is_empty() {
        return Err(Error::EmptyCommonName);
    }
    let bytes: usize = cn.as_bytes().len();
    if bytes > MAX_CN_BYTES {
        return Err(Error::CommonNameTooLong { bytes });
    }
    let pkcs8 = checked(generate_rsa(ROOT_KEY_BITS), Operation::GenerateKey)?;
    // Always UTF-8, whatever the characters.
    let name = checked(name_of_common_name(cn), Operation::SetCommonName)?;
    let key = checked(public_half(&pkcs8), Operation::ReadPublicKey)?;
    let serial = random_serial()?;
    let mut builder = start_certificate(&name, &name, &key, &serial, days)?;
    let ca = checked(ca_constraints(), Operation::BuildCertificate)?;
    checked(append_extension(&mut builder, ca), Operation::BuildCertificate)?;
    let key_id = checked(key_id_extension(&builder), Operation::BuildCertificate)?;
    checked(append_extension(&mut builder, key_id), Operation::BuildCertificate)?;
    let ghost fields = crate::crypto::builder_fields(builder);
    assert(fields.extensions =~= root_fields(name@, key@, serial@, days).extensions);
    assert(fields.extensions[1] == (Extension::SubjectKeyId { key: key@ }));
    assert(fields.extensions.contains(Extension::SubjectKeyId { key: key@ }));
    let der = checked(sign_and_build(builder, &pkcs8), Operation::SignRoot)?;
    proof {
        vstd::utf8::encode_utf8_valid_utf8(cn@);
        vstd::utf8::encode_utf8_decode_utf8(cn@);
    }
    Ok((Certificate { der }, PrivateKey { pkcs8 }))
}

/// Whether `der` re-issues `original` under `root` with the name constraints `value`: it
/// carries the original's subject and public key, the root's name as issuer, and the
/// extensions of a constrained certificate authority, and its signature holds.
pub open spec fn is_cross_certificate(
    der: Seq<u8>,
    root: Seq<u8>,
    pkcs8: Seq<u8>,
    original: Seq<u8>,
    value: Seq<char>,
    days: u32,
    path_len: u32,
) -> bool {
    &&& signature_holds(der, pkcs8)
    &&& crate::crypto::certificate_subject(root) matches Some(root_name)
    &&& crate::crypto::certificate_subject(original) matches Some(subject)
    &&& crate::crypto::certificate_public_key(original) matches Some(key)
    &&& exists|serial: Seq<u8>|
        is_drawn_serial(serial) && #[trigger] crate::crypto::certificate_signed(
            cross_fields(
                root,
                root_name,
                subject,
                key,
                serial,
                value,
                days,
                path_len,
            ),
            pkcs8,
            der,
        )
}

/// Whether no permitted name holds a NUL character, which OpenSSL's binding cannot take.
pub open spec fn nul_free(constraints: Constraints) -> bool {
    forall|i: int|
        0 <= i < constraints.names().len() ==> !(#[trigger] constraints.names()[i]).contains('\0')
}

/// Whether no permitted name holds a comma, which separates the items of the value.
pub open spec fn comma_free(constraints: Constraints) -> bool {
    forall|i: int|
        0 <= i < constraints.names().len() ==> !(#[trigger] constraints.names()[i]).contains(',')
}

/// Whether `e` may be why `original` is not re-issued under `root`.
pub open spec fn is_cross_fault(
    root: Seq<u8>,
    original: Seq<u8>,
    constraints: Constraints,
    e: Error,
) -> bool {
    ||| e is NoPermittedNames && constraints.names().len() == 0
    ||| e.is_openssl(Operation::ReadSubject) && (crate::crypto::certificate_subject(original)
        is None || crate::crypto::certificate_subject(root) is None)
    ||| e.is_openssl(Operation::ReadPublicKey) && crate::crypto::certificate_public_key(original)
        is None
    ||| e.is_openssl(Operation::DrawSerial)
    ||| e.is_openssl(Operation::BuildCertificate)
    ||| {
        &&& e.is_openssl(Operation::EncodeNameConstraints)
        &&& constraints.names().len() > 0
        &&& comma_free(constraints) ==> !crate::crypto::name_constraints_encode(
            constraints_value(constraints),
        )
    }
    ||| e.is_openssl(Operation::SignCross)
}

/// Re-issues `original` under `root`, adding name constraints.
///
/// The Subject DN and public key are copied from `original`, so the result is a drop-in
/// replacement in any chain that previously terminated at `original`.
///
/// # Errors
/// If no DNS name is permitted, or OpenSSL reports an error.
pub fn cross_sign(
    root: &Certificate,
    root_key: &PrivateKey,
    original: &Certificate,
    constraints: &Constraints,
    days: u32,
    path_len: u32,
) -> (r: Result<Certificate, Error>)
    requires
        nul_free(*constraints),
        days <= MAX_DAYS,
    ensures
        match r {
            Ok(cert) => {
                &&& constraints.names().len() > 0
                &&& comma_free(*constraints) ==> crate::crypto::name_constraints_encode(
                    constraints_value(*constraints),
                )
                &&& is_cross_certificate(
                    cert@,
                    root@,
                    root_key@,
                    original@,
                    constraints_value(*constraints),
                    days,
                    path_len,
                )
                &&& crate::crypto::certificate_subject(cert@)
                    == crate::crypto::certificate_subject(original@)
                &&& crate::crypto::certificate_public_key(cert@)
                    == crate::crypto::certificate_public_key(original@)
                &&& crate::crypto::certificate_issuer(cert@) == crate::crypto::certificate_subject(
                    root@,
                )
                &&& crate::crypto::certificate_key_id(cert@) == Some(
                    crate::crypto::key_identifier(
                        crate::crypto::certificate_public_key(original@)->0,
                    ),
                )
                &&& crate::crypto::certificate_key_id(original@) == Some(
                    crate::crypto::key_identifier(
                        crate::crypto::certificate_public_key(original@)->0,
                    ),
                ) ==> key_id_text(cert@) == key_id_text(original@)
                &&& key_fingerprint(cert@) == key_fingerprint(original@)
                &&& signature_holds(cert@, root_key@)
            },
            Err(e) => is_cross_fault(root@, original@, *constraints, e),
        },
{
    let subject = checked(subject_name(&original.der), Operation::ReadSubject)?;
    let issuer = checked(subject_name(&root.der), Operation::ReadSubject)?;
    let key = checked(public_key(&original.der), Operation::ReadPublicKey)?;
    let serial = random_serial()?;
    let mut builder = start_certificate(&subject, &issuer, &key, &serial, days)?;
    let ca = checked(ca_constraints_with_path_len(path_len), Operation::BuildCertificate)?;
    checked(append_extension(&mut builder, ca), Operation::BuildCertificate)?;
    let usage = checked(signing_key_usage(), Operation::BuildCertificate)?;
    checked(append_extension(&mut builder, usage), Operation::BuildCertificate)?;
    let key_id = checked(key_id_extension(&builder), Operation::BuildCertificate)?;
    let authority = checked(
        authority_key_id_extension(&builder, &root.der),
        Operation::BuildCertificate,
    )?;
    checked(append_extension(&mut builder, key_id), Operation::BuildCertificate)?;
    checked(append_extension(&mut builder, authority), Operation::BuildCertificate)?;
    let names = name_constraints_ext(constraints)?;
    checked(append_extension(&mut builder, names), Operation::BuildCertificate)?;
    let ghost fields = crate::crypto::builder_fields(builder);
    let ghost expected = cross_fields(
        root@,
        issuer@,
        subject@,
        key@,
        serial@,
        constraints_value(*constraints),
        days,
        path_len,
    );
    assert(fields.extensions =~= expected.extensions);
    proof {
        assert(fields.extensions[2] == (Extension::SubjectKeyId { key: key@ }));
        assert(fields.extensions.contains(Extension::SubjectKeyId { key: key@ }));
    }
    let der = checked(sign_and_build(builder, &root_key.pkcs8), Operation::SignCross)?;
    Ok(Certificate { der })
}

/// Builds the critical `nameConstraints` extension.
///
/// # Errors
/// If the permitted list is empty, or OpenSSL rejects the encoded value.
pub fn name_constraints_ext(constraints: &Constraints) -> (r: Result<X509Extension, Error>)
    requires
        nul_free(*constraints),
    ensures
        match r {
            Ok(extension) => {
                &&& constraints.names().len() > 0
                &&& comma_free(*constraints) ==> crate::crypto::name_constraints_encode(
                    constraints_value(*constraints),
                )
                &&& crate::crypto::extension_contents(extension) == (Extension::NameConstraints {
                    value: constraints_value(*constraints),
                })
            },
            Err(e) => {
                ||| e is NoPermittedNames && constraints.names().len() == 0
                ||| {
                    &&& e.is_openssl(Operation::EncodeNameConstraints)
                    &&& constraints.names().len() > 0
                    &&& comma_free(*constraints) ==> !crate::crypto::name_constraints_encode(
                        constraints_value(*constraints),
                    )
                }
            },
        },
{
    let value = name_constraints_value(constraints)?;
    proof {
        lemma_value_is_nul_free(*constraints);
        if comma_free(*constraints) {
            lemma_value_is_plain(*constraints);
        }
    }
    checked(name_constraints_extension(value.as_str()), Operation::EncodeNameConstraints)
}

/// One item of the value per permitted name.
pub open spec fn permitted_items(names: Seq<Seq<char>>) -> Seq<Seq<char>> {
    names.map_values(|n: Seq<char>| "permitted;DNS:"@ + n)
}

/// The items that exclude what is not listed. A constraint type that is absent is
/// unconstrained, not forbidden.
pub open spec fn excluded_items(ip: bool, email: bool, uri: bool) -> Seq<Seq<char>> {
    (if ip {
        seq!["excluded;IP:0.0.0.0/0.0.0.0"@, "excluded;IP:::/::"@]
    } else {
        Seq::empty()
    }) + (if email {
        seq!["excluded;email:."@]
    } else {
        Seq::empty()
    }) + (if uri {
        seq!["excluded;URI:."@]
    } else {
        Seq::empty()
    })
}

/// The items of the `nameConstraints` value that permits `names`.
pub open spec fn constraint_items(
    names: Seq<Seq<char>>,
    ip: bool,
    email: bool,
    uri: bool,
) -> Seq<Seq<char>> {
    seq!["critical"@] + permitted_items(names) + excluded_items(ip, email, uri)
}

/// The value with the exclusions of `constraints` that permits `names`.
pub open spec fn value_permitting(constraints: Constraints, names: Seq<Seq<char>>) -> Seq<char> {
    crate::text::joined(
        constraint_items(
            names,
            constraints.exclude_ip,
            constraints.exclude_email,
            constraints.exclude_uri,
        ),
        ","@,
    )
}

/// The OpenSSL configuration value for `nameConstraints`.
pub open spec fn constraints_value(constraints: Constraints) -> Seq<char> {
    value_permitting(constraints, constraints.names())
}

/// Renders the OpenSSL configuration value for `nameConstraints`.
///
/// # Errors
/// If no permitted DNS names are configured. A cross-certificate permitting nothing
/// rejects every host, which presents as a broken chain rather than as a policy.
pub fn name_constraints_value(constraints: &Constraints) -> (r: Result<String, Error>)
    ensures
        match r {
            Ok(value) => constraints.names().len() > 0 && value@ == constraints_value(*constraints),
            Err(e) => constraints.names().len() == 0 && e is NoPermittedNames,
        },
{
    if constraints.permitted_dns.len() == 0 {
        return Err(Error::NoPermittedNames);
    }
    let mut parts: Vec<String> = Vec::new();
    parts.push("critical".to_owned());
    let ghost head = seq!["critical"@];
    let ghost names = constraints.names();
    assert(crate::text::texts(parts@) =~= head + permitted_items(names.take(0)));
    for i in 0..constraints.permitted_dns.len()
        invariant
            names == constraints.names(),
            head == seq!["critical"@],
            crate::text::texts(parts@) == head + permitted_items(names.take(i as int)),
    {
        let mut item = "permitted;DNS:".to_owned();
        item.append(constraints.permitted_dns[i].as_str());
        let ghost before = crate::text::texts(parts@);
        parts.push(item);
        assert(crate::text::texts(parts@) =~= before.push(item@));
        assert(names[i as int] == constraints.permitted_dns@[i as int]@);
        assert(permitted_items(names.take(i + 1)) =~= permitted_items(names.take(i as int)).push(
            item@,
        ));
        assert(crate::text::texts(parts@) =~= head + permitted_items(names.take(i + 1)));
    }
    assert(names.take(names.len() as int) =~= names);
    // A constraint type that is absent is unconstrained, not forbidden. Without these the
    // CA would still be free to vouch for bare-IP, email and URI names.
    if constraints.exclude_ip {
        parts.push("excluded;IP:0.0.0.0/0.0.0.0".to_owned());
        parts.push("excluded;IP:::/::".to_owned());
    }
    if constraints.exclude_email {
        parts.push("excluded;email:.".to_owned());
    }
    if constraints.exclude_uri {
        parts.push("excluded;URI:.".to_owned());
    }
    assert(crate::text::texts(parts@) =~= constraint_items(
        names,
        constraints.exclude_ip,
        constraints.exclude_email,
        constraints.exclude_uri,
    ));
    Ok(join(&parts, ","))
}

/// Where no permitted name holds a comma, the value is plain.
proof fn lemma_value_is_plain(constraints: Constraints)
    requires
        comma_free(constraints),
    ensures
        crate::crypto::is_plain_value(constraints_value(constraints)),
{
    lemma_value_says_what_is_configured(constraints);
    let names = constraints.names();
    let items = constraint_items(
        names,
        constraints.exclude_ip,
        constraints.exclude_email,
        constraints.exclude_uri,
    );
    assert forall|i: int| 0 <= i < items.len() implies crate::crypto::is_plain_item(
        #[trigger] items[i],
    ) by {
        if 0 < i <= names.len() {
            let prefix = "permitted;DNS:"@;
            assert(items[i] == prefix + names[i - 1]);
            assert(items[i].subrange(0, prefix.len() as int) =~= prefix);
        }
    }
}

/// A joined text holds only characters of its parts and its separator.
proof fn lemma_joined_lacks(parts: Seq<Seq<char>>, separator: Seq<char>, c: char)
    requires
        !separator.contains(c),
        forall|i: int| 0 <= i < parts.len() ==> !(#[trigger] parts[i]).contains(c),
    ensures
        !crate::text::joined(parts, separator).contains(c),
    decreases parts.len(),
{
    if parts.len() > 1 {
        let init = parts.drop_last();
        assert forall|i: int| 0 <= i < init.len() implies !(#[trigger] init[i]).contains(c) by {
            assert(init[i] == parts[i]);
        }
        lemma_joined_lacks(init, separator, c);
        let all = crate::text::joined(parts, separator);
        let front = crate::text::joined(init, separator);
        assert(!parts[parts.len() - 1].contains(c));
        if all.contains(c) {
            let i = choose|i: int| 0 <= i < all.len() && all[i] == c;
            if i < front.len() {
                assert(front[i] == c);
            } else if i < front.len() + separator.len() {
                assert(separator[i - front.len()] == c);
            } else {
                assert(parts.last()[i - front.len() - separator.len()] == c);
            }
        }
    }
}

/// Where no permitted name holds a NUL character, neither does the value.
proof fn lemma_value_is_nul_free(constraints: Constraints)
    requires
        nul_free(constraints),
    ensures
        !constraints_value(constraints).contains('\0'),
{
    reveal_strlit("critical");
    reveal_strlit("permitted;DNS:");
    reveal_strlit("excluded;IP:0.0.0.0/0.0.0.0");
    reveal_strlit("excluded;IP:::/::");
    reveal_strlit("excluded;email:.");
    reveal_strlit("excluded;URI:.");
    reveal_strlit(",");
    let names = constraints.names();
    let items = constraint_items(
        names,
        constraints.exclude_ip,
        constraints.exclude_email,
        constraints.exclude_uri,
    );
    assert forall|i: int| 0 <= i < items.len() implies !(#[trigger] items[i]).contains('\0') by {
        if 0 < i <= names.len() {
            assert(items[i] == "permitted;DNS:"@ + names[i - 1]);
            assert(!names[i - 1].contains('\0'));
            if items[i].contains('\0') {
                let j = choose|j: int| 0 <= j < items[i].len() && items[i][j] == '\0';
                if j >= "permitted;DNS:"@.len() {
                    assert(names[i - 1][j - "permitted;DNS:"@.len()] == '\0');
                }
            }
        }
    }
    lemma_joined_lacks(items, ","@, '\0');
}

/// Whether a certificate is self-signed: its subject and issuer are the same, and its
/// signature verifies with its own key. `None` where that cannot be told.
pub open spec fn self_signed(der: Seq<u8>) -> Option<bool> {
    match (crate::crypto::certificate_subject(der), crate::crypto::certificate_issuer(der)) {
        (Some(subject), Some(issuer)) => if subject != issuer {
            Some(false)
        } else {
            match crate::crypto::certificate_public_key(der) {
                Some(key) => Some(crate::crypto::certificate_verifies(der, key)),
                None => None,
            }
        },
        _ => None,
    }
}

/// Whether `e` says why it cannot be told whether a certificate is self-signed.
pub open spec fn not_told(der: Seq<u8>, e: Error) -> bool {
    &&& self_signed(der) is None
    &&& if crate::crypto::certificate_subject(der) is None {
        e.is_openssl(Operation::ReadSubject)
    } else if crate::crypto::certificate_issuer(der) is None {
        e.is_openssl(Operation::ReadIssuer)
    } else {
        e.is_openssl(Operation::ReadPublicKey)
    }
}

/// The Common Name of a certificate, where it has one in UTF-8.
pub open spec fn common_name(der: Seq<u8>) -> Option<Seq<char>> {
    match crate::crypto::certificate_subject(der) {
        Some(name) => match crate::crypto::dn_common_name(name) {
            Some(bytes) if vstd::utf8::valid_utf8(bytes) => Some(vstd::utf8::decode_utf8(bytes)),
            _ => None,
        },
        None => None,
    }
}

/// A hexadecimal digit.
pub open spec fn hex_digit(value: int, upper: bool) -> char {
    if value < 10 {
        (48 + value) as char
    } else if upper {
        (55 + value) as char
    } else {
        (87 + value) as char
    }
}

/// A byte as two hexadecimal digits.
pub open spec fn hex_pair(byte: u8, upper: bool) -> Seq<char> {
    seq![hex_digit(byte as int / 16, upper), hex_digit(byte as int % 16, upper)]
}

/// Each byte of `bytes` as two hexadecimal digits.
pub open spec fn hex_pairs(bytes: Seq<u8>, upper: bool) -> Seq<Seq<char>> {
    bytes.map_values(|b: u8| hex_pair(b, upper))
}

/// Bytes in hexadecimal: upper case with colons between the bytes, or lower case without.
pub open spec fn hex_text(bytes: Seq<u8>, colons: bool) -> Seq<char> {
    crate::text::joined(
        hex_pairs(bytes, colons),
        if colons {
            ":"@
        } else {
            ""@
        },
    )
}

/// A hexadecimal digit.
fn hex_digit_of(value: u8, upper: bool) -> (r: char)
    requires
        value < 16,
    ensures
        r == hex_digit(value as int, upper),
{
    let code: u8 = if value < 10 {
        48 + value
    } else if upper {
        55 + value
    } else {
        87 + value
    };
    code as char
}

/// Renders bytes as hex, optionally uppercase and colon-separated.
pub fn hex(bytes: &[u8], colons: bool) -> (r: String)
    ensures
        r@ == hex_text(bytes@, colons),
{
    let mut pairs: Vec<String> = Vec::new();
    for i in 0..bytes.len()
        invariant
            crate::text::texts(pairs@) == hex_pairs(bytes@.take(i as int), colons),
    {
        let byte: u8 = bytes[i];
        let mut pair = String::new();
        pair.push(hex_digit_of(byte / 16, colons));
        pair.push(hex_digit_of(byte % 16, colons));
        assert(pair@ =~= hex_pair(byte, colons));
        let ghost before = crate::text::texts(pairs@);
        pairs.push(pair);
        assert(crate::text::texts(pairs@) =~= before.push(pair@));
        assert(hex_pairs(bytes@.take(i + 1), colons) =~= hex_pairs(
            bytes@.take(i as int),
            colons,
        ).push(pair@));
    }
    assert(bytes@.take(bytes@.len() as int) =~= bytes@);
    if colons {
        join(&pairs, ":")
    } else {
        join(&pairs, "")
    }
}

/// Two hexadecimal digits determine the byte.
proof fn lemma_hex_pair_injective(a: u8, b: u8, upper: bool)
    requires
        hex_pair(a, upper) == hex_pair(b, upper),
    ensures
        a == b,
{
    let x = hex_pair(a, upper);
    let y = hex_pair(b, upper);
    assert(x[0] == y[0] && x[1] == y[1]);
    assert(hex_digit(a as int / 16, upper) as int == hex_digit(b as int / 16, upper) as int);
    assert(hex_digit(a as int % 16, upper) as int == hex_digit(b as int % 16, upper) as int);
}

/// How long bytes are in hexadecimal.
pub proof fn lemma_hex_length(bytes: Seq<u8>, colons: bool)
    ensures
        bytes.len() == 0 ==> hex_text(bytes, colons).len() == 0,
        bytes.len() > 0 ==> hex_text(bytes, colons).len() == if colons {
            3 * bytes.len() - 1
        } else {
            2 * bytes.len() as int
        },
    decreases bytes.len(),
{
    reveal_strlit(":");
    reveal_strlit("");
    if bytes.len() > 1 {
        lemma_hex_length(bytes.drop_last(), colons);
        assert(hex_pairs(bytes, colons).drop_last() =~= hex_pairs(bytes.drop_last(), colons));
    }
}

/// Different byte strings never have the same hexadecimal form, so equal fingerprints mean
/// equal digests.
pub proof fn lemma_hex_injective(a: Seq<u8>, b: Seq<u8>, colons: bool)
    requires
        hex_text(a, colons) == hex_text(b, colons),
    ensures
        a == b,
    decreases a.len(),
{
    reveal_strlit(":");
    reveal_strlit("");
    lemma_hex_length(a, colons);
    lemma_hex_length(b, colons);
    assert(a.len() == b.len());
    if a.len() == 0 {
        assert(a =~= b);
    } else {
        let x = hex_text(a, colons);
        let last = hex_pair(a.last(), colons);
        let last_b = hex_pair(b.last(), colons);
        let pairs_a = hex_pairs(a, colons);
        let pairs_b = hex_pairs(b, colons);
        assert(pairs_a.last() == last && pairs_b.last() == last_b);
        assert(pairs_a.drop_last() =~= hex_pairs(a.drop_last(), colons));
        assert(pairs_b.drop_last() =~= hex_pairs(b.drop_last(), colons));
        assert(x.subrange(x.len() - 2, x.len() as int) =~= last);
        assert(x.subrange(x.len() - 2, x.len() as int) =~= last_b);
        lemma_hex_pair_injective(a.last(), b.last(), colons);
        if a.len() > 1 {
            let front = x.len() - 2 - (if colons {
                1int
            } else {
                0int
            });
            assert(x.take(front) =~= hex_text(a.drop_last(), colons));
            assert(x.take(front) =~= hex_text(b.drop_last(), colons));
            lemma_hex_injective(a.drop_last(), b.drop_last(), colons);
        } else {
            assert(a.drop_last() =~= b.drop_last());
        }
        assert(a =~= a.drop_last().push(a.last()));
        assert(b =~= b.drop_last().push(b.last()));
    }
}

/// The Subject Key Identifier of a certificate in hexadecimal, where it has one.
pub open spec fn key_id_text(der: Seq<u8>) -> Option<Seq<char>> {
    match crate::crypto::certificate_key_id(der) {
        Some(id) => Some(hex_text(id, true)),
        None => None,
    }
}

/// Returns the Subject Key Identifier as uppercase colon-separated hex.
pub fn ski_hex(cert: &Certificate) -> (r: Option<String>)
    ensures
        match r {
            Some(text) => key_id_text(cert@) == Some(text@),
            None => key_id_text(cert@) is None,
        },
{
    match subject_key_id(&cert.der) {
        Some(id) => Some(hex(id.as_slice(), true)),
        None => None,
    }
}

/// The text dump of a certificate, where OpenSSL renders it in UTF-8.
pub open spec fn dump(der: Seq<u8>) -> Option<Seq<char>> {
    match crate::crypto::certificate_text(der) {
        Some(bytes) if vstd::utf8::valid_utf8(bytes) => Some(vstd::utf8::decode_utf8(bytes)),
        _ => None,
    }
}

/// Whether `e` says why a certificate has no text dump.
pub open spec fn no_dump(der: Seq<u8>, e: Error) -> bool {
    match crate::crypto::certificate_text(der) {
        Some(bytes) => !vstd::utf8::valid_utf8(bytes) && e is TextNotUtf8,
        None => e.is_openssl(Operation::RenderText),
    }
}

/// Renders a certificate as text.
pub fn certificate_text_of(cert: &Certificate) -> (r: Result<String, Error>)
    ensures
        match r {
            Ok(text) => dump(cert@) == Some(text@),
            Err(e) => dump(cert@) is None && no_dump(cert@, e),
        },
{
    let bytes = checked(render_text(&cert.der), Operation::RenderText)?;
    match utf8_text(bytes) {
        Some(text) => Ok(text),
        None => Err(Error::TextNotUtf8),
    }
}

/// Extracts the permitted DNS names recorded in a certificate's `nameConstraints`.
///
/// Read back from the signed certificate rather than from configuration, so anything
/// derived from it (notably the Chrome policy) cannot drift from what was actually issued.
/// How OpenSSL lays out the text it is read from is not stated.
///
/// # Errors
/// If the certificate cannot be rendered as text.
pub fn permitted_dns(cert: &Certificate) -> (r: Result<Vec<String>, Error>)
    ensures
        match r {
            Ok(names) => dump(cert@) matches Some(text) && crate::text::texts(names@)
                == dumped_names(text),
            Err(e) => dump(cert@) is None && no_dump(cert@, e),
        },
{
    let text = certificate_text_of(cert)?;
    Ok(parse_permitted_dns(text.as_str()))
}

/// The permitted DNS names in what remains of a text dump. `inside` says whether the name
/// constraints have begun, `permitted` whether their permitted part has.
pub open spec fn names_in(lines: Seq<Seq<char>>, inside: bool, permitted: bool) -> Seq<Seq<char>>
    decreases lines.len(),
{
    if lines.len() == 0 {
        Seq::empty()
    } else {
        let line = crate::text::trimmed(lines[0]);
        let rest = lines.skip(1);
        if crate::text::starts_with(line, "X509v3 Name Constraints"@) {
            names_in(rest, true, permitted)
        } else if !inside {
            names_in(rest, false, permitted)
        } else if line == "Permitted:"@ {
            names_in(rest, true, true)
        } else if line == "Excluded:"@ {
            names_in(rest, true, false)
        } else if crate::text::starts_with(line, "DNS:"@) {
            if permitted {
                seq![line.skip("DNS:"@.len() as int)] + names_in(rest, true, true)
            } else {
                names_in(rest, true, false)
            }
        } else if crate::text::starts_with(line, "X509v3 "@) {
            // A following extension ends the block.
            Seq::empty()
        } else {
            names_in(rest, true, permitted)
        }
    }
}

/// The permitted DNS names in a text dump.
pub open spec fn dumped_names(text: Seq<char>) -> Seq<Seq<char>> {
    names_in(crate::text::lines(text), false, false)
}

/// Parses the `Permitted:` DNS entries out of an OpenSSL text dump.
pub fn parse_permitted_dns(text: &str) -> (r: Vec<String>)
    ensures
        crate::text::texts(r@) == dumped_names(text@),
{
    let lines = split_lines(&chars_of(text));
    let ghost all = crate::text::char_lists(lines@);
    let mut out: Vec<String> = Vec::new();
    let mut in_constraints = false;
    let mut in_permitted = false;
    assert(all.skip(0) =~= all);
    assert(crate::text::texts(out@) + names_in(all, false, false) =~= names_in(all, false, false));
    let mut i: usize = 0;
    while i < lines.len()
        invariant
            i <= lines@.len(),
            all == crate::text::char_lists(lines@),
            all == crate::text::lines(text@),
            crate::text::texts(out@) + names_in(all.skip(i as int), in_constraints, in_permitted)
                == names_in(all, false, false),
        decreases lines@.len() - i,
    {
        let ghost rest = all.skip(i as int);
        assert(rest.skip(1) =~= all.skip(i + 1));
        assert(rest[0] == lines@[i as int]@);
        let line = trim(&lines[i]);
        i = i + 1;
        if has_prefix(&line, "X509v3 Name Constraints") {
            in_constraints = true;
        } else if in_constraints {
            let text = string_of(&line);
            if same_text(text.as_str(), "Permitted:") {
                in_permitted = true;
            } else if same_text(text.as_str(), "Excluded:") {
                in_permitted = false;
            } else if let Some(name) = strip_prefix(&line, "DNS:") {
                if in_permitted {
                    let ghost before = crate::text::texts(out@);
                    out.push(string_of(&name));
                    assert(crate::text::texts(out@) =~= before.push(name@));
                    assert(crate::text::texts(out@) + names_in(all.skip(i as int), true, true)
                        =~= before + (seq![name@] + names_in(all.skip(i as int), true, true)));
                }
            } else if has_prefix(&line, "X509v3 ") {
                // A following extension ends the block.
                assert(crate::text::texts(out@) =~= crate::text::texts(out@) + names_in(
                    rest,
                    true,
                    in_permitted,
                ));
                return out;
            }
        }
    }
    assert(crate::text::texts(out@) =~= names_in(all, false, false));
    out
}

/// Returns true when the certificate is self-signed.
///
/// Both halves matter: matching names alone can be forged, and a valid signature over a
/// different DN is not a root. An intermediate cannot be cross-signed by [`cross_sign`].
///
/// # Errors
/// If either distinguished name or the public key cannot be encoded.
pub fn is_self_signed(cert: &Certificate) -> (r: Result<bool, Error>)
    ensures
        match r {
            Ok(answer) => self_signed(cert@) == Some(answer),
            Err(e) => not_told(cert@, e),
        },
{
    let subject = checked(subject_name(&cert.der), Operation::ReadSubject)?;
    let issuer = checked(issuer_name(&cert.der), Operation::ReadIssuer)?;
    if !same_bytes(&subject, &issuer) {
        return Ok(false);
    }
    let key = checked(public_key(&cert.der), Operation::ReadPublicKey)?;
    match verifies(&cert.der, &key) {
        Ok(answer) => Ok(answer),
        Err(_) => Ok(false),
    }
}

/// Whether a line of a text dump begins with `prefix`, white space aside.
pub open spec fn line_begins(line: Seq<char>, prefix: Seq<char>) -> bool {
    crate::text::starts_with(crate::text::trimmed(line), prefix)
}

/// Whether a line of a text dump begins with `prefix`.
pub open spec fn shows_line(text: Seq<char>, prefix: Seq<char>) -> bool {
    exists|i: int|
        0 <= i < crate::text::lines(text).len() && line_begins(
            #[trigger] crate::text::lines(text)[i],
            prefix,
        )
}

/// Whether a text dump shows basic constraints with `CA:TRUE`: the line behind their header
/// begins with it.
pub open spec fn shows_ca(text: Seq<char>) -> bool {
    exists|i: int|
        {
            &&& 0 <= i < crate::text::lines(text).len() - 1
            &&& line_begins(
                #[trigger] crate::text::lines(text)[i],
                "X509v3 Basic Constraints"@,
            )
            &&& line_begins(crate::text::lines(text)[i + 1], "CA:TRUE"@)
        }
}

/// Looks for a line of a text dump that begins with `prefix`.
pub fn text_shows_line(text: &str, prefix: &str) -> (r: bool)
    ensures
        r == shows_line(text@, prefix@),
{
    let lines = split_lines(&chars_of(text));
    let ghost all = crate::text::lines(text@);
    for i in 0..lines.len()
        invariant
            all == crate::text::lines(text@),
            all == crate::text::char_lists(lines@),
            forall|j: int| 0 <= j < i ==> !line_begins(#[trigger] all[j], prefix@),
    {
        assert(all[i as int] == lines@[i as int]@);
        if has_prefix(&trim(&lines[i]), prefix) {
            return true;
        }
    }
    false
}

/// Looks for basic constraints with `CA:TRUE` in a text dump.
pub fn text_shows_ca(text: &str) -> (r: bool)
    ensures
        r == shows_ca(text@),
{
    let lines = split_lines(&chars_of(text));
    let ghost all = crate::text::lines(text@);
    let mut i: usize = 1;
    while i < lines.len()
        invariant
            1 <= i,
            all == crate::text::lines(text@),
            all == crate::text::char_lists(lines@),
            forall|j: int|
                0 <= j < i - 1 && j < all.len() - 1 ==> !(line_begins(
                    #[trigger] all[j],
                    "X509v3 Basic Constraints"@,
                ) && line_begins(all[j + 1], "CA:TRUE"@)),
        decreases lines@.len() - i,
    {
        assert(all[i - 1] == lines@[i - 1]@);
        assert(all[i as int] == lines@[i as int]@);
        if has_prefix(&trim(&lines[i - 1]), "X509v3 Basic Constraints") && has_prefix(
            &trim(&lines[i]),
            "CA:TRUE",
        ) {
            return true;
        }
        i = i + 1;
    }
    false
}

/// Whether a certificate is one of a CA: it carries basic constraints with `CA:TRUE`. `None`
/// where it has no text dump.
pub open spec fn ca_certificate(der: Seq<u8>) -> Option<bool> {
    match dump(der) {
        Some(text) => Some(shows_ca(text)),
        None => None,
    }
}

/// Returns true when the certificate carries `basicConstraints` with `CA:TRUE`.
///
/// # Errors
/// If the certificate cannot be rendered as text.
pub fn is_ca(cert: &Certificate) -> (r: Result<bool, Error>)
    ensures
        match r {
            Ok(answer) => ca_certificate(cert@) == Some(answer),
            Err(e) => ca_certificate(cert@) is None && no_dump(cert@, e),
        },
{
    let text = certificate_text_of(cert)?;
    Ok(text_shows_ca(text.as_str()))
}

/// The SHA-256 digest of a certificate's public key, where it has one that OpenSSL reads and
/// hashes.
pub open spec fn key_digest(der: Seq<u8>) -> Option<Seq<u8>> {
    match crate::crypto::certificate_public_key(der) {
        Some(key) => crate::crypto::sha256(key),
        None => None,
    }
}

/// That digest in hexadecimal.
pub open spec fn key_fingerprint(der: Seq<u8>) -> Option<Seq<char>> {
    match key_digest(der) {
        Some(digest) => Some(hex_text(digest, false)),
        None => None,
    }
}

/// Whether `e` says why a certificate has no key fingerprint.
pub open spec fn no_fingerprint(der: Seq<u8>, e: Error) -> bool {
    &&& key_fingerprint(der) is None
    &&& if crate::crypto::certificate_public_key(der) is None {
        e.is_openssl(Operation::ReadPublicKey)
    } else {
        e.is_openssl(Operation::HashKey)
    }
}

/// Returns a SHA-256 fingerprint over the `SubjectPublicKeyInfo`.
///
/// Identifies a CA key across re-issuances: a renewal keeps this value, a rotation changes
/// it. That distinction decides whether any action is needed at all.
///
/// # Errors
/// If the public key cannot be read, encoded or hashed.
pub fn pubkey_fingerprint(cert: &Certificate) -> (r: Result<String, Error>)
    ensures
        match r {
            Ok(text) => key_fingerprint(cert@) == Some(text@) && text@.len() == 64,
            Err(e) => no_fingerprint(cert@, e),
        },
{
    let key = checked(public_key(&cert.der), Operation::ReadPublicKey)?;
    let digest = checked(hash_sha256(&key), Operation::HashKey)?;
    proof {
        lemma_hex_length(digest@, false);
    }
    Ok(hex(digest.as_slice(), false))
}

/// The SHA-256 digest of a certificate in hexadecimal.
pub open spec fn certificate_fingerprint(der: Seq<u8>) -> Option<Seq<char>> {
    match crate::crypto::certificate_sha256(der) {
        Some(digest) => Some(hex_text(digest, true)),
        None => None,
    }
}

/// Returns a SHA-256 fingerprint over the whole certificate, colon-separated.
///
/// # Errors
/// If the certificate cannot be hashed.
pub fn fingerprint(cert: &Certificate) -> (r: Result<String, Error>)
    ensures
        match r {
            Ok(text) => certificate_fingerprint(cert@) == Some(text@),
            Err(e) => certificate_fingerprint(cert@) is None && e.is_openssl(
                Operation::HashCertificate,
            ),
        },
{
    let digest = checked(digest_sha256(&cert.der), Operation::HashCertificate)?;
    Ok(hex(digest.as_slice(), true))
}

/// Returns the certificate's Common Name, if it has one.
pub fn subject_cn(cert: &Certificate) -> (r: Option<String>)
    ensures
        match r {
            Some(cn) => common_name(cert@) == Some(cn@),
            None => common_name(cert@) is None,
        },
{
    let name = match subject_name(&cert.der) {
        Ok(name) => name,
        Err(_) => return None,
    };
    match common_name_of(&name) {
        Some(bytes) => utf8_text(bytes),
        None => None,
    }
}

/// Returns the end of the certificate's validity, as OpenSSL displays it.
///
/// # Errors
/// If the certificate cannot be read.
pub fn expiry(cert: &Certificate) -> (r: Result<String, Error>)
    ensures
        match r {
            Ok(text) => crate::crypto::certificate_not_after(cert@) == Some(text@),
            Err(e) => crate::crypto::certificate_not_after(cert@) is None && e.is_openssl(
                Operation::ReadValidity,
            ),
        },
{
    checked(not_after(&cert.der), Operation::ReadValidity)
}

/// Whether a line of a text dump begins the name constraints.
pub open spec fn is_header(line: Seq<char>) -> bool {
    crate::text::starts_with(crate::text::trimmed(line), "X509v3 Name Constraints"@)
}

/// The names that stand in a list of lines `DNS:<name>`.
pub open spec fn listed_in(lines: Seq<Seq<char>>, names: Seq<Seq<char>>) -> bool {
    &&& lines.len() == names.len()
    &&& forall|i: int|
        0 <= i < lines.len() ==> crate::text::trimmed(#[trigger] lines[i]) == "DNS:"@ + names[i]
}

/// Lines before the name constraints permit nothing.
proof fn lemma_names_before(before: Seq<Seq<char>>, rest: Seq<Seq<char>>, permitted: bool)
    requires
        forall|i: int| 0 <= i < before.len() ==> !is_header(#[trigger] before[i]),
    ensures
        names_in(before + rest, false, permitted) == names_in(rest, false, permitted),
    decreases before.len(),
{
    let all = before + rest;
    if before.len() == 0 {
        assert(all =~= rest);
    } else {
        assert(!is_header(before[0]));
        assert(all[0] == before[0]);
        assert(all.skip(1) =~= before.skip(1) + rest);
        assert forall|i: int| 0 <= i < before.skip(1).len() implies !is_header(
            #[trigger] before.skip(1)[i],
        ) by {
            assert(before.skip(1)[i] == before[i + 1]);
        }
        lemma_names_before(before.skip(1), rest, permitted);
    }
}

/// What a line with a DNS name is not.
proof fn lemma_dns_line(line: Seq<char>, name: Seq<char>)
    requires
        line == "DNS:"@ + name,
    ensures
        !crate::text::starts_with(line, "X509v3 Name Constraints"@),
        line != "Permitted:"@,
        line != "Excluded:"@,
        crate::text::starts_with(line, "DNS:"@),
        line.skip("DNS:"@.len() as int) == name,
{
    reveal_strlit("X509v3 Name Constraints");
    reveal_strlit("Permitted:");
    reveal_strlit("Excluded:");
    reveal_strlit("DNS:");
    assert(line[0] == 'D');
    assert(line.subrange(0, 4) =~= "DNS:"@);
    assert(line.skip(4) =~= name);
    if crate::text::starts_with(line, "X509v3 Name Constraints"@) {
        assert(line.subrange(0, "X509v3 Name Constraints"@.len() as int)[0] == 'X');
    }
}

/// The DNS lines of the permitted part are taken up, one by one.
proof fn lemma_names_listed(
    listed: Seq<Seq<char>>,
    names: Seq<Seq<char>>,
    rest: Seq<Seq<char>>,
)
    requires
        listed_in(listed, names),
    ensures
        names_in(listed + rest, true, true) == names + names_in(rest, true, true),
    decreases listed.len(),
{
    let all = listed + rest;
    if listed.len() == 0 {
        assert(all =~= rest);
        assert(names + names_in(rest, true, true) =~= names_in(rest, true, true));
    } else {
        lemma_dns_line(crate::text::trimmed(listed[0]), names[0]);
        assert(all[0] == listed[0]);
        assert(all.skip(1) =~= listed.skip(1) + rest);
        assert forall|i: int| 0 <= i < listed.skip(1).len() implies crate::text::trimmed(
            #[trigger] listed.skip(1)[i],
        ) == "DNS:"@ + names.skip(1)[i] by {
            assert(listed.skip(1)[i] == listed[i + 1]);
        }
        lemma_names_listed(listed.skip(1), names.skip(1), rest);
        assert(names_in(all, true, true) =~= names + names_in(rest, true, true));
    }
}

/// Outside the permitted part nothing is taken up.
proof fn lemma_nothing_excluded(rest: Seq<Seq<char>>)
    requires
        forall|i: int|
            0 <= i < rest.len() ==> crate::text::trimmed(#[trigger] rest[i]) != "Permitted:"@,
    ensures
        names_in(rest, true, false) == Seq::<Seq<char>>::empty(),
    decreases rest.len(),
{
    if rest.len() > 0 {
        assert(crate::text::trimmed(rest[0]) != "Permitted:"@);
        assert forall|i: int| 0 <= i < rest.skip(1).len() implies crate::text::trimmed(
            #[trigger] rest.skip(1)[i],
        ) != "Permitted:"@ by {
            assert(rest.skip(1)[i] == rest[i + 1]);
        }
        lemma_nothing_excluded(rest.skip(1));
    }
}

/// Permitted names are read back, excluded ones are not: of a dump with name constraints in
/// the form that OpenSSL prints, exactly the names in the permitted part are taken, whatever
/// stands before the constraints and whatever is excluded.
pub proof fn lemma_permitted_part_is_read(
    before: Seq<Seq<char>>,
    header: Seq<char>,
    permitted: Seq<char>,
    listed: Seq<Seq<char>>,
    names: Seq<Seq<char>>,
    excluded: Seq<char>,
    rest: Seq<Seq<char>>,
)
    requires
        forall|i: int| 0 <= i < before.len() ==> !is_header(#[trigger] before[i]),
        is_header(header),
        crate::text::trimmed(permitted) == "Permitted:"@,
        listed_in(listed, names),
        crate::text::trimmed(excluded) == "Excluded:"@,
        forall|i: int|
            0 <= i < rest.len() ==> crate::text::trimmed(#[trigger] rest[i]) != "Permitted:"@,
    ensures
        names_in(
            before + (seq![header, permitted] + (listed + (seq![excluded] + rest))),
            false,
            false,
        ) == names,
{
    reveal_strlit("X509v3 Name Constraints");
    reveal_strlit("Permitted:");
    reveal_strlit("Excluded:");
    let tail = seq![excluded] + rest;
    let block = listed + tail;
    let from_permitted = seq![permitted] + block;
    let from_header = seq![header, permitted] + block;
    lemma_names_before(before, from_header, false);
    assert(from_header[0] == header);
    assert(from_header.skip(1) =~= from_permitted);
    assert(from_permitted[0] == permitted);
    assert(from_permitted.skip(1) =~= block);
    assert(!is_header(permitted)) by {
        if is_header(permitted) {
            assert("Permitted:"@.len() < "X509v3 Name Constraints"@.len());
        }
    }
    assert(names_in(from_header, false, false) == names_in(from_permitted, true, false));
    assert(names_in(from_permitted, true, false) == names_in(block, true, true));
    lemma_names_listed(listed, names, tail);
    assert(tail[0] == excluded);
    assert(tail.skip(1) =~= rest);
    assert(!is_header(excluded)) by {
        if is_header(excluded) {
            assert("Excluded:"@.len() < "X509v3 Name Constraints"@.len());
        }
    }
    lemma_nothing_excluded(rest);
    assert(names_in(tail, true, true) == Seq::<Seq<char>>::empty());
    assert(names + Seq::<Seq<char>>::empty() =~= names);
}

/// The value says exactly what is configured: taken apart at its commas it is `critical`,
/// one item for each permitted name in order, and the exclusions. A name with a comma is
/// left out: it would read as two items.
pub proof fn lemma_value_says_what_is_configured(constraints: Constraints)
    requires
        comma_free(constraints),
    ensures
        crate::text::parts_between(constraints_value(constraints), ',') == constraint_items(
            constraints.names(),
            constraints.exclude_ip,
            constraints.exclude_email,
            constraints.exclude_uri,
        ),
{
    reveal_strlit("critical");
    reveal_strlit("permitted;DNS:");
    reveal_strlit("excluded;IP:0.0.0.0/0.0.0.0");
    reveal_strlit("excluded;IP:::/::");
    reveal_strlit("excluded;email:.");
    reveal_strlit("excluded;URI:.");
    reveal_strlit(",");
    assert(","@ =~= seq![',']);
    let names = constraints.names();
    let items = constraint_items(
        names,
        constraints.exclude_ip,
        constraints.exclude_email,
        constraints.exclude_uri,
    );
    assert forall|i: int| 0 <= i < items.len() implies !(#[trigger] items[i]).contains(',') by {
        if 0 < i <= names.len() {
            assert(items[i] == "permitted;DNS:"@ + names[i - 1]);
            assert(!names[i - 1].contains(','));
            if items[i].contains(',') {
                let j = choose|j: int| 0 <= j < items[i].len() && items[i][j] == ',';
                if j >= "permitted;DNS:"@.len() {
                    assert(names[i - 1][j - "permitted;DNS:"@.len()] == ',');
                }
            }
        }
    }
    crate::text::lemma_joined_comes_apart(items, ',');
}

/// A local root that was generated, saved and loaded again signs certificates that verify
/// with the key in its own certificate.
pub proof fn lemma_saved_root_signs(
    root: Seq<u8>,
    pkcs8: Seq<u8>,
    bits: u32,
    pem: Seq<u8>,
    read: Seq<u8>,
    cross: Seq<u8>,
)
    requires
        crate::crypto::rsa_generated(bits, pkcs8),
        crate::crypto::certificate_public_key(root) == crate::crypto::private_key_public(pkcs8),
        saves_key(pkcs8, pem),
        loads_key(pem, read),
        signature_holds(cross, read),
    ensures
        read == pkcs8,
        crate::crypto::certificate_public_key(root) matches Some(key)
            ==> crate::crypto::certificate_verifies(cross, key),
{
}

/// The value of a hexadecimal digit, in either case.
pub open spec fn hex_value(c: char) -> Option<int> {
    if '0' <= c <= '9' {
        Some(c as int - 48)
    } else if 'A' <= c <= 'F' {
        Some(c as int - 55)
    } else if 'a' <= c <= 'f' {
        Some(c as int - 87)
    } else {
        None
    }
}

/// The byte that the digits `2 * i` and `2 * i + 1` of `text` stand for.
pub open spec fn hex_byte(text: Seq<char>, i: int) -> Option<int> {
    match (hex_value(text[2 * i]), hex_value(text[2 * i + 1])) {
        (Some(high), Some(low)) => Some(high * 16 + low),
        _ => None,
    }
}

/// A hexadecimal digit has the value it was made of, and its case does not matter.
pub proof fn lemma_hex_digit_decodes(value: int)
    requires
        0 <= value < 16,
    ensures
        hex_value(hex_digit(value, true)) == Some(value),
        hex_value(hex_digit(value, false)) == Some(value),
        crate::text::ascii_lower(hex_digit(value, true)) == hex_digit(value, false),
        hex_digit(value, true) != ':',
{
}

/// Where the digits of a byte stand in the form without colons.
proof fn lemma_hex_places(bytes: Seq<u8>, i: int)
    requires
        0 <= i < bytes.len(),
    ensures
        hex_text(bytes, false).len() == 2 * bytes.len(),
        hex_text(bytes, false)[2 * i] == hex_digit(bytes[i] as int / 16, false),
        hex_text(bytes, false)[2 * i + 1] == hex_digit(bytes[i] as int % 16, false),
    decreases bytes.len(),
{
    reveal_strlit("");
    lemma_hex_length(bytes, false);
    let pairs = hex_pairs(bytes, false);
    let init = bytes.drop_last();
    assert(pairs.last() == hex_pair(bytes.last(), false));
    if bytes.len() > 1 {
        lemma_hex_length(init, false);
        assert(pairs.drop_last() =~= hex_pairs(init, false));
        assert(hex_text(bytes, false) =~= hex_text(init, false) + hex_pair(bytes.last(), false));
        if i < init.len() {
            lemma_hex_places(init, i);
        }
    } else {
        assert(hex_text(bytes, false) == pairs[0]);
    }
}

/// Taking one character out of a text goes piece by piece.
proof fn lemma_removed_joined(a: Seq<char>, b: Seq<char>, c: char)
    ensures
        crate::text::replaced(a + b, seq![c], Seq::empty()) == crate::text::replaced(
            a,
            seq![c],
            Seq::empty(),
        ) + crate::text::replaced(b, seq![c], Seq::empty()),
    decreases a.len(),
{
    let none = Seq::<char>::empty();
    let pattern = seq![c];
    if a.len() == 0 {
        assert(a + b =~= b);
        assert(crate::text::replaced(a, pattern, none) + crate::text::replaced(b, pattern, none)
            =~= crate::text::replaced(b, pattern, none));
    } else {
        let all = a + b;
        lemma_removed_joined(a.skip(1), b, c);
        assert(all.skip(1) =~= a.skip(1) + b);
        if a[0] == c {
            assert(all.subrange(0, 1) =~= pattern);
            assert(a.subrange(0, 1) =~= pattern);
        } else {
            assert(all.subrange(0, 1)[0] != pattern[0]);
            assert(a.subrange(0, 1)[0] != pattern[0]);
        }
        assert(crate::text::replaced(all, pattern, none) =~= crate::text::replaced(
            a,
            pattern,
            none,
        ) + crate::text::replaced(b, pattern, none));
    }
}

/// Taking out a character that does not occur changes nothing.
proof fn lemma_nothing_removed(s: Seq<char>, c: char)
    requires
        !s.contains(c),
    ensures
        crate::text::replaced(s, seq![c], Seq::empty()) == s,
    decreases s.len(),
{
    if s.len() > 0 {
        assert(s[0] != c) by {
            assert(s.contains(s[0]));
        }
        assert(!s.skip(1).contains(c)) by {
            if s.skip(1).contains(c) {
                let i = choose|i: int| 0 <= i < s.skip(1).len() && s.skip(1)[i] == c;
                assert(s[i + 1] == c);
            }
        }
        lemma_nothing_removed(s.skip(1), c);
        assert(s.subrange(0, 1)[0] != seq![c][0]);
        assert(seq![s[0]] + s.skip(1) =~= s);
    }
}

/// The form with colons is the form without, but for the colons and the case.
proof fn lemma_hex_forms(bytes: Seq<u8>)
    ensures
        crate::text::ascii_lowered(
            crate::text::replaced(hex_text(bytes, true), ":"@, ""@),
        ) == hex_text(bytes, false),
    decreases bytes.len(),
{
    reveal_strlit(":");
    reveal_strlit("");
    let none = Seq::<char>::empty();
    assert(":"@ =~= seq![':']);
    assert(""@ =~= none);
    let upper = hex_text(bytes, true);
    let lower = hex_text(bytes, false);
    let pairs = hex_pairs(bytes, true);
    let small = hex_pairs(bytes, false);
    if bytes.len() == 0 {
        assert(upper =~= none && lower =~= none);
        assert(crate::text::ascii_lowered(crate::text::replaced(upper, ":"@, ""@)) =~= lower);
    } else {
        let pair = hex_pair(bytes.last(), true);
        lemma_hex_digit_decodes(bytes.last() as int / 16);
        lemma_hex_digit_decodes(bytes.last() as int % 16);
        assert(!pair.contains(':'));
        lemma_nothing_removed(pair, ':');
        assert(crate::text::ascii_lowered(pair) =~= hex_pair(bytes.last(), false));
        assert(pairs.last() == pair);
        assert(small.last() == hex_pair(bytes.last(), false));
        if bytes.len() > 1 {
            let init = bytes.drop_last();
            let front = hex_text(init, true);
            assert(pairs.drop_last() =~= hex_pairs(init, true));
            assert(small.drop_last() =~= hex_pairs(init, false));
            lemma_hex_forms(init);
            assert(upper =~= front + seq![':'] + pair);
            lemma_removed_joined(front + seq![':'], pair, ':');
            lemma_removed_joined(front, seq![':'], ':');
            assert(seq![':'].subrange(0, 1) =~= seq![':']);
            assert(seq![':'].skip(1) =~= none);
            assert(crate::text::replaced(none, seq![':'], none) == none);
            assert(crate::text::starts_with(seq![':'], seq![':']));
            assert(crate::text::replaced(seq![':'], seq![':'], none) =~= none);
            let kept = crate::text::replaced(front, seq![':'], none);
            assert(crate::text::replaced(upper, seq![':'], none) =~= kept + pair);
            assert(crate::text::ascii_lowered(kept + pair) =~= crate::text::ascii_lowered(kept)
                + crate::text::ascii_lowered(pair));
            assert(lower =~= hex_text(init, false) + hex_pair(bytes.last(), false));
        } else {
            assert(upper == pair);
            assert(lower == hex_pair(bytes.last(), false));
        }
    }
}

/// Hexadecimal text says what its bytes are: two digits each, which decode to the byte. The
/// form with colons has one between each two bytes, and is otherwise the same in upper case.
pub proof fn lemma_hex_decodes_back(bytes: Seq<u8>)
    ensures
        hex_text(bytes, false).len() == 2 * bytes.len(),
        hex_text(bytes, true).len() == if bytes.len() == 0 {
            0int
        } else {
            3 * bytes.len() - 1
        },
        forall|i: int|
            0 <= i < bytes.len() ==> #[trigger] hex_byte(hex_text(bytes, false), i) == Some(
                bytes[i] as int,
            ),
        crate::text::ascii_lowered(
            crate::text::replaced(hex_text(bytes, true), ":"@, ""@),
        ) == hex_text(bytes, false),
{
    lemma_hex_length(bytes, false);
    lemma_hex_length(bytes, true);
    lemma_hex_forms(bytes);
    assert forall|i: int| 0 <= i < bytes.len() implies #[trigger] hex_byte(
        hex_text(bytes, false),
        i,
    ) == Some(bytes[i] as int) by {
        lemma_hex_places(bytes, i);
        lemma_hex_digit_decodes(bytes[i] as int / 16);
        lemma_hex_digit_decodes(bytes[i] as int % 16);
    }
}

/// Every configured name has its item, and every exclusion that is on: taken apart at its
/// commas, the value is `critical`, then `permitted;DNS:` and the name for each permitted
/// name, in order and however many there are, then the exclusions, and nothing else. A name
/// with a comma is left out: it would read as two items.
pub proof fn lemma_every_name_has_its_item(constraints: Constraints)
    requires
        comma_free(constraints),
    ensures
        ({
            let parts = crate::text::parts_between(constraints_value(constraints), ',');
            let n = constraints.permitted_dns@.len() as int;
            let ip = if constraints.exclude_ip {
                2int
            } else {
                0
            };
            let email = if constraints.exclude_email {
                1int
            } else {
                0
            };
            let uri = if constraints.exclude_uri {
                1int
            } else {
                0
            };
            &&& parts.len() == 1 + n + ip + email + uri
            &&& parts[0] == "critical"@
            &&& forall|i: int|
                0 <= i < n ==> parts[i + 1] == "permitted;DNS:"@ + (
                #[trigger] constraints.permitted_dns@[i])@
            &&& constraints.exclude_ip ==> parts[n + 1] == "excluded;IP:0.0.0.0/0.0.0.0"@
                && parts[n + 2] == "excluded;IP:::/::"@
            &&& constraints.exclude_email ==> parts[n + 1 + ip] == "excluded;email:."@
            &&& constraints.exclude_uri ==> parts[n + 1 + ip + email] == "excluded;URI:."@
        }),
{
    lemma_value_says_what_is_configured(constraints);
    assert forall|i: int| 0 <= i < constraints.permitted_dns@.len() implies constraint_items(
        constraints.names(),
        constraints.exclude_ip,
        constraints.exclude_email,
        constraints.exclude_uri,
    )[i + 1] == "permitted;DNS:"@ + (#[trigger] constraints.permitted_dns@[i])@ by {
        assert(constraints.names()[i] == constraints.permitted_dns@[i]@);
    }
}

/// One more name makes the value longer by its item, and by nothing else: this fixes the
/// value for every list, whatever its names hold.
pub proof fn lemma_value_grows_by_one_item(
    constraints: Constraints,
    names: Seq<Seq<char>>,
    name: Seq<char>,
)
    requires
        !constraints.exclude_ip && !constraints.exclude_email && !constraints.exclude_uri,
    ensures
        value_permitting(constraints, Seq::empty()) == "critical"@,
        value_permitting(constraints, names.push(name)) == value_permitting(constraints, names)
            + ",permitted;DNS:"@ + name,
{
    reveal_strlit(",");
    reveal_strlit("permitted;DNS:");
    reveal_strlit(",permitted;DNS:");
    let none = Seq::<Seq<char>>::empty();
    assert(constraint_items(none, false, false, false) =~= seq!["critical"@]);
    let before = constraint_items(names, false, false, false);
    let after = constraint_items(names.push(name), false, false, false);
    assert(permitted_items(names.push(name)) =~= permitted_items(names).push(
        "permitted;DNS:"@ + name,
    ));
    assert(after.drop_last() =~= before);
    assert(after.last() == "permitted;DNS:"@ + name);
    assert(value_permitting(constraints, names.push(name)) =~= value_permitting(constraints, names)
        + ",permitted;DNS:"@ + name);
}

/// The exclusions stand behind the permitted names, and change nothing before them.
pub proof fn lemma_exclusions_come_last(constraints: Constraints, names: Seq<Seq<char>>)
    ensures
        ({
            let open = Constraints {
                exclude_ip: false,
                exclude_email: false,
                exclude_uri: false,
                ..constraints
            };
            value_permitting(constraints, names) == value_permitting(open, names) + (
            if constraints.exclude_ip {
                ",excluded;IP:0.0.0.0/0.0.0.0,excluded;IP:::/::"@
            } else {
                Seq::empty()
            }) + (if constraints.exclude_email {
                ",excluded;email:."@
            } else {
                Seq::empty()
            }) + (if constraints.exclude_uri {
                ",excluded;URI:."@
            } else {
                Seq::empty()
            })
        }),
{
    reveal_strlit(",");
    reveal_strlit("excluded;IP:0.0.0.0/0.0.0.0");
    reveal_strlit("excluded;IP:::/::");
    reveal_strlit("excluded;email:.");
    reveal_strlit("excluded;URI:.");
    reveal_strlit(",excluded;IP:0.0.0.0/0.0.0.0,excluded;IP:::/::");
    reveal_strlit(",excluded;email:.");
    reveal_strlit(",excluded;URI:.");
    let comma = ","@;
    let plain = constraint_items(names, false, false, false);
    let first = "excluded;IP:0.0.0.0/0.0.0.0"@;
    let second = "excluded;IP:::/::"@;
    let with_ip = if constraints.exclude_ip {
        plain.push(first).push(second)
    } else {
        plain
    };
    let with_email = if constraints.exclude_email {
        with_ip.push("excluded;email:."@)
    } else {
        with_ip
    };
    let with_uri = if constraints.exclude_uri {
        with_email.push("excluded;URI:."@)
    } else {
        with_email
    };
    assert(constraint_items(
        names,
        constraints.exclude_ip,
        constraints.exclude_email,
        constraints.exclude_uri,
    ) =~= with_uri);
    lemma_joined_push(plain, comma, first);
    lemma_joined_push(plain.push(first), comma, second);
    lemma_joined_push(with_ip, comma, "excluded;email:."@);
    lemma_joined_push(with_email, comma, "excluded;URI:."@);
    assert(",excluded;IP:0.0.0.0/0.0.0.0,excluded;IP:::/::"@ =~= comma + first + comma + second);
    assert(",excluded;email:."@ =~= comma + "excluded;email:."@);
    assert(",excluded;URI:."@ =~= comma + "excluded;URI:."@);
    let open = Constraints {
        exclude_ip: false,
        exclude_email: false,
        exclude_uri: false,
        ..constraints
    };
    assert(value_permitting(constraints, names) =~= value_permitting(open, names) + (
    if constraints.exclude_ip {
        ",excluded;IP:0.0.0.0/0.0.0.0,excluded;IP:::/::"@
    } else {
        Seq::empty()
    }) + (if constraints.exclude_email {
        ",excluded;email:."@
    } else {
        Seq::empty()
    }) + (if constraints.exclude_uri {
        ",excluded;URI:."@
    } else {
        Seq::empty()
    }));
}

/// One more part is joined behind a separator.
proof fn lemma_joined_push(parts: Seq<Seq<char>>, separator: Seq<char>, part: Seq<char>)
    requires
        parts.len() > 0,
    ensures
        crate::text::joined(parts.push(part), separator) == crate::text::joined(parts, separator)
            + separator + part,
{
    assert(parts.push(part).drop_last() =~= parts);
}

/// What a cross-certificate was made of: a version 3 certificate with the original's subject
/// and key, the root's name as issuer, a positive serial number of eight bytes, a validity
/// from now for `days` days, and five extensions. It may sign certificates and CRLs, with
/// `path_len` further authorities below it, and carries the name constraints.
pub proof fn lemma_cross_certificate_is_made_of(
    der: Seq<u8>,
    root: Seq<u8>,
    pkcs8: Seq<u8>,
    original: Seq<u8>,
    value: Seq<char>,
    days: u32,
    path_len: u32,
)
    requires
        is_cross_certificate(der, root, pkcs8, original, value, days, path_len),
    ensures
        exists|fields: CertFields|
            {
                &&& #[trigger] crate::crypto::certificate_signed(fields, pkcs8, der)
                &&& fields.version == Some(2int)
                &&& fields.subject == crate::crypto::certificate_subject(original)
                &&& fields.subject is Some
                &&& fields.issuer == crate::crypto::certificate_subject(root)
                &&& fields.issuer is Some
                &&& fields.public_key == crate::crypto::certificate_public_key(original)
                &&& fields.public_key is Some
                &&& fields.serial matches Some(serial)
                &&& serial.len() == 8 && serial[0] < 0x80 && exists|j: int|
                    0 <= j < 8 && #[trigger] serial[j] != 0
                &&& fields.not_before == Some(0u32)
                &&& fields.not_after == Some(days)
                &&& fields.extensions.len() == 5
                &&& fields.extensions[0] == (Extension::BasicConstraints {
                    critical: true,
                    ca: true,
                    path_len: Some(path_len),
                })
                &&& fields.extensions[1] == (Extension::KeyUsage {
                    critical: true,
                    key_cert_sign: true,
                    crl_sign: true,
                })
                &&& fields.extensions[2] == (Extension::SubjectKeyId {
                    key: crate::crypto::certificate_public_key(original)->0,
                })
                &&& fields.extensions[3] == (Extension::AuthorityKeyId { issuer: root })
                &&& fields.extensions[4] == (Extension::NameConstraints { value })
            },
{
    let name = crate::crypto::certificate_subject(root)->0;
    let subject = crate::crypto::certificate_subject(original)->0;
    let key = crate::crypto::certificate_public_key(original)->0;
    let serial = choose|serial: Seq<u8>|
        is_drawn_serial(serial) && #[trigger] crate::crypto::certificate_signed(
            cross_fields(root, name, subject, key, serial, value, days, path_len),
            pkcs8,
            der,
        );
    let fields = cross_fields(root, name, subject, key, serial, value, days, path_len);
    assert(crate::crypto::certificate_signed(fields, pkcs8, der));
    assert(fields.extensions.len() == 5);
    assert(fields.extensions[0] == (Extension::BasicConstraints {
        critical: true,
        ca: true,
        path_len: Some(path_len),
    }));
    assert(fields.extensions[1] == (Extension::KeyUsage {
        critical: true,
        key_cert_sign: true,
        crl_sign: true,
    }));
    assert(fields.extensions[2] == (Extension::SubjectKeyId { key }));
    assert(fields.extensions[3] == (Extension::AuthorityKeyId { issuer: root }));
    assert(fields.extensions[4] == (Extension::NameConstraints { value }));
    assert(fields.serial == Some(serial) && serial.len() == 8 && serial[0] < 0x80);
    let j = choose|j: int| 0 <= j < serial.len() && #[trigger] serial[j] != 0;
    assert(0 <= j < 8 && serial[j] != 0);
}

/// What a local root was made of: a version 3 certificate whose subject and issuer are the
/// name with the Common Name `cn`, for the public half of the key, with a positive serial
/// number of eight bytes, a validity from now for `days` days, and two extensions, which make
/// it one of a CA and identify its key.
pub proof fn lemma_local_root_is_made_of(der: Seq<u8>, pkcs8: Seq<u8>, cn: Seq<char>, days: u32)
    requires
        is_local_root(der, pkcs8, cn, days),
    ensures
        exists|fields: CertFields|
            {
                &&& #[trigger] crate::crypto::certificate_signed(fields, pkcs8, der)
                &&& fields.version == Some(2int)
                &&& fields.subject == crate::crypto::common_name_dn(cn)
                &&& fields.subject is Some
                &&& fields.issuer == fields.subject
                &&& fields.public_key == crate::crypto::private_key_public(pkcs8)
                &&& fields.public_key is Some
                &&& fields.serial matches Some(serial)
                &&& serial.len() == 8 && serial[0] < 0x80 && exists|j: int|
                    0 <= j < 8 && #[trigger] serial[j] != 0
                &&& fields.not_before == Some(0u32)
                &&& fields.not_after == Some(days)
                &&& fields.extensions.len() == 2
                &&& fields.extensions[0] == (Extension::BasicConstraints {
                    critical: true,
                    ca: true,
                    path_len: None,
                })
                &&& fields.extensions[1] == (Extension::SubjectKeyId {
                    key: crate::crypto::private_key_public(pkcs8)->0,
                })
            },
{
    let name = crate::crypto::common_name_dn(cn)->0;
    let key = crate::crypto::private_key_public(pkcs8)->0;
    let serial = choose|serial: Seq<u8>|
        is_drawn_serial(serial) && #[trigger] crate::crypto::certificate_signed(
            root_fields(name, key, serial, days),
            pkcs8,
            der,
        );
    let fields = root_fields(name, key, serial, days);
    assert(crate::crypto::certificate_signed(fields, pkcs8, der));
    assert(fields.extensions.len() == 2);
    assert(fields.extensions[0] == (Extension::BasicConstraints {
        critical: true,
        ca: true,
        path_len: None,
    }));
    assert(fields.extensions[1] == (Extension::SubjectKeyId { key }));
    assert(fields.serial == Some(serial) && serial.len() == 8 && serial[0] < 0x80);
    let j = choose|j: int| 0 <= j < serial.len() && #[trigger] serial[j] != 0;
    assert(0 <= j < 8 && serial[j] != 0);
}

/// A serial number is the number that was drawn, without its sign bit: all bytes but the
/// first are kept, and of the first all bits but the highest. Only where nothing is left of
/// it, it is one.
pub proof fn lemma_serial_is_what_was_drawn(drawn: Seq<u8>)
    requires
        drawn.len() == 8,
    ensures
        serial_of(drawn).len() == 8,
        (exists|j: int| 1 <= j < 8 && #[trigger] drawn[j] != 0) ==> {
            &&& forall|j: int| 1 <= j < 8 ==> #[trigger] serial_of(drawn)[j] == drawn[j]
            &&& serial_of(drawn)[0] == drawn[0] % 128
        },
        drawn[0] % 128 != 0 ==> {
            &&& forall|j: int| 1 <= j < 8 ==> #[trigger] serial_of(drawn)[j] == drawn[j]
            &&& serial_of(drawn)[0] == drawn[0] % 128
        },
        drawn[0] % 128 == 0 && (forall|j: int| 1 <= j < 8 ==> #[trigger] drawn[j] == 0) ==> {
            &&& forall|j: int| 0 <= j < 7 ==> #[trigger] serial_of(drawn)[j] == 0
            &&& serial_of(drawn)[7] == 1
        },
{
    let first = drawn[0];
    assert(first & 0x7f == first % 128) by (bit_vector);
    let cleared = drawn.update(0, first & 0x7f);
    assert(cleared[0] == first % 128);
    assert forall|j: int| 1 <= j < 8 implies cleared[j] == drawn[j] by {}
    if exists|j: int| 1 <= j < 8 && #[trigger] drawn[j] != 0 {
        let j = choose|j: int| 1 <= j < 8 && #[trigger] drawn[j] != 0;
        assert(cleared[j] != 0);
    }
    if first % 128 == 0 && (forall|j: int| 1 <= j < 8 ==> #[trigger] drawn[j] == 0) {
        assert forall|j: int| 0 <= j < cleared.len() implies #[trigger] cleared[j] == 0 by {
            if j > 0 {
                assert(drawn[j] == 0);
            }
        }
        assert(is_zero(cleared));
    }
}

/// Where the digits of a byte stand in the form with colons.
pub proof fn lemma_colon_hex_decodes(bytes: Seq<u8>, i: int)
    requires
        0 <= i < bytes.len(),
    ensures
        hex_text(bytes, true).len() == 3 * bytes.len() - 1,
        hex_value(hex_text(bytes, true)[3 * i]) == Some(bytes[i] as int / 16),
        hex_value(hex_text(bytes, true)[3 * i + 1]) == Some(bytes[i] as int % 16),
        i + 1 < bytes.len() ==> hex_text(bytes, true)[3 * i + 2] == ':',
    decreases bytes.len(),
{
    reveal_strlit(":");
    lemma_hex_length(bytes, true);
    let pairs = hex_pairs(bytes, true);
    let init = bytes.drop_last();
    let last = hex_pair(bytes.last(), true);
    assert(pairs.last() == last);
    lemma_hex_digit_decodes(bytes[i] as int / 16);
    lemma_hex_digit_decodes(bytes[i] as int % 16);
    if bytes.len() > 1 {
        lemma_hex_length(init, true);
        assert(pairs.drop_last() =~= hex_pairs(init, true));
        assert(hex_text(bytes, true) =~= hex_text(init, true) + seq![':'] + last);
        if i < init.len() {
            lemma_colon_hex_decodes(init, i);
        }
    } else {
        assert(hex_text(bytes, true) == pairs[0]);
    }
}

/// A certificate's fingerprint is its SHA-256 digest, two digits for each byte with colons
/// between them.
pub proof fn lemma_fingerprint_is_the_digest(der: Seq<u8>, text: Seq<char>)
    requires
        certificate_fingerprint(der) == Some(text),
    ensures
        crate::crypto::certificate_sha256(der) matches Some(digest) && {
            &&& digest.len() == 0 ==> text.len() == 0
            &&& digest.len() > 0 ==> text.len() == 3 * digest.len() - 1
            &&& forall|i: int|
                0 <= i < digest.len() ==> hex_value(text[3 * i]) == Some(
                    (#[trigger] digest[i]) as int / 16,
                ) && hex_value(text[3 * i + 1]) == Some(digest[i] as int % 16)
            &&& forall|i: int|
                0 <= i < digest.len() - 1 ==> (#[trigger] digest[i] >= 0 && text[3 * i + 2] == ':')
        },
{
    let digest = crate::crypto::certificate_sha256(der)->0;
    lemma_hex_length(digest, true);
    assert forall|i: int| 0 <= i < digest.len() implies hex_value(text[3 * i]) == Some(
        (#[trigger] digest[i]) as int / 16,
    ) && hex_value(text[3 * i + 1]) == Some(digest[i] as int % 16) by {
        lemma_colon_hex_decodes(digest, i);
    }
    assert forall|i: int| 0 <= i < digest.len() - 1 implies (#[trigger] digest[i] >= 0 && text[3 * i
        + 2] == ':') by {
        lemma_colon_hex_decodes(digest, i);
    }
}

/// A key identifier is shown byte by byte, with colons between the bytes, wherever a
/// certificate has one.
pub proof fn lemma_key_id_is_shown(der: Seq<u8>)
    ensures
        key_id_text(der) is Some == crate::crypto::certificate_key_id(der) is Some,
        crate::crypto::certificate_key_id(der) matches Some(id) ==> forall|i: int|
            0 <= i < id.len() ==> hex_value((key_id_text(der)->0)[3 * i]) == Some(
                (#[trigger] id[i]) as int / 16,
            ) && hex_value((key_id_text(der)->0)[3 * i + 1]) == Some(id[i] as int % 16),
{
    if let Some(id) = crate::crypto::certificate_key_id(der) {
        assert forall|i: int| 0 <= i < id.len() implies hex_value((key_id_text(der)->0)[3 * i])
            == Some((#[trigger] id[i]) as int / 16) && hex_value((key_id_text(der)->0)[3 * i + 1])
            == Some(id[i] as int % 16) by {
            lemma_colon_hex_decodes(id, i);
        }
    }
}

/// A key fingerprint is the SHA-256 digest of the certificate's own public key, two digits
/// for each byte.
pub proof fn lemma_key_fingerprint_is_the_digest(der: Seq<u8>, text: Seq<char>)
    requires
        key_fingerprint(der) == Some(text),
    ensures
        crate::crypto::certificate_public_key(der) is Some,
        crate::crypto::sha256(crate::crypto::certificate_public_key(der)->0) matches Some(digest)
            && {
            &&& text.len() == 2 * digest.len()
            &&& forall|i: int|
                0 <= i < digest.len() ==> #[trigger] hex_byte(text, i) == Some(digest[i] as int)
        },
{
    let digest = crate::crypto::sha256(crate::crypto::certificate_public_key(der)->0)->0;
    lemma_hex_decodes_back(digest);
}

/// A certificate counts as self-signed exactly if its issuer is its subject and its signature
/// verifies with its own key.
pub proof fn lemma_self_signed_means(der: Seq<u8>)
    ensures
        self_signed(der) == Some(true) <==> {
            &&& crate::crypto::certificate_subject(der) is Some
            &&& crate::crypto::certificate_issuer(der) == crate::crypto::certificate_subject(der)
            &&& crate::crypto::certificate_public_key(der) matches Some(key)
            &&& crate::crypto::certificate_verifies(der, key)
        },
{
}

/// A name in UTF-8 is the Common Name of every certificate whose subject has it.
pub proof fn lemma_common_name_means(der: Seq<u8>, name: Seq<u8>, cn: Seq<char>)
    requires
        crate::crypto::certificate_subject(der) == Some(name),
        crate::crypto::dn_common_name(name) == Some(vstd::utf8::encode_utf8(cn)),
    ensures
        common_name(der) == Some(cn),
{
    vstd::utf8::encode_utf8_valid_utf8(cn);
    vstd::utf8::encode_utf8_decode_utf8(cn);
}

/// What is loaded from a file is what its PEM holds, and only where it is no PEM certificate,
/// what it holds in DER.
pub proof fn lemma_pem_goes_before_der(bytes: Seq<u8>)
    ensures
        crate::crypto::pem_certificate(bytes) is Some ==> loaded(bytes)
            == crate::crypto::pem_certificate(bytes),
        crate::crypto::pem_certificate(bytes) is None ==> loaded(bytes)
            == crate::crypto::der_certificate(bytes),
{
}

/// A following extension ends the permitted part: of a dump with name constraints exactly
/// the names up to it are taken, however many there are and whatever comes behind it.
pub proof fn lemma_next_extension_ends_the_names(
    before: Seq<Seq<char>>,
    header: Seq<char>,
    permitted: Seq<char>,
    listed: Seq<Seq<char>>,
    names: Seq<Seq<char>>,
    next: Seq<char>,
    rest: Seq<Seq<char>>,
)
    requires
        forall|i: int|
            0 <= i < before.len() ==> !crate::text::starts_with(
                crate::text::trimmed(#[trigger] before[i]),
                "X509v3 Name Constraints"@,
            ),
        crate::text::starts_with(crate::text::trimmed(header), "X509v3 Name Constraints"@),
        crate::text::trimmed(permitted) == "Permitted:"@,
        listed.len() == names.len(),
        forall|i: int|
            0 <= i < listed.len() ==> crate::text::trimmed(#[trigger] listed[i]) == "DNS:"@
                + names[i],
        crate::text::starts_with(crate::text::trimmed(next), "X509v3 "@),
        !crate::text::starts_with(crate::text::trimmed(next), "X509v3 Name Constraints"@),
    ensures
        names_in(
            before + (seq![header, permitted] + (listed + (seq![next] + rest))),
            false,
            false,
        ) == names,
{
    reveal_strlit("X509v3 Name Constraints");
    reveal_strlit("X509v3 ");
    reveal_strlit("Permitted:");
    reveal_strlit("Excluded:");
    reveal_strlit("DNS:");
    let tail = seq![next] + rest;
    let block = listed + tail;
    let from_permitted = seq![permitted] + block;
    let from_header = seq![header, permitted] + block;
    assert forall|i: int| 0 <= i < before.len() implies !is_header(#[trigger] before[i]) by {}
    lemma_names_before(before, from_header, false);
    assert(from_header[0] == header);
    assert(from_header.skip(1) =~= from_permitted);
    assert(from_permitted[0] == permitted);
    assert(from_permitted.skip(1) =~= block);
    assert(!is_header(permitted)) by {
        if is_header(permitted) {
            assert("Permitted:"@.len() < "X509v3 Name Constraints"@.len());
        }
    }
    assert(names_in(from_header, false, false) == names_in(from_permitted, true, false));
    assert(names_in(from_permitted, true, false) == names_in(block, true, true));
    lemma_names_listed(listed, names, tail);
    assert(tail[0] == next);
    let line = crate::text::trimmed(next);
    assert(line.subrange(0, 7)[0] == 'X');
    assert(line[0] == 'X');
    assert("Permitted:"@[0] == 'P' && "Excluded:"@[0] == 'E');
    if crate::text::starts_with(line, "DNS:"@) {
        assert(line.subrange(0, 4)[0] == 'D');
    }
    assert(names_in(tail, true, true) == Seq::<Seq<char>>::empty());
    assert(names + Seq::<Seq<char>>::empty() =~= names);
}

/// A dump shows a CA exactly if the line behind a header of basic constraints begins with
/// `CA:TRUE`.
pub proof fn lemma_ca_is_shown_behind_its_header(
    before: Seq<Seq<char>>,
    header: Seq<char>,
    answer: Seq<char>,
    after: Seq<Seq<char>>,
    text: Seq<char>,
)
    requires
        crate::text::lines(text) == before + (seq![header, answer] + after),
        crate::text::starts_with(crate::text::trimmed(header), "X509v3 Basic Constraints"@),
        forall|i: int|
            0 <= i < before.len() ==> !crate::text::starts_with(
                crate::text::trimmed(#[trigger] before[i]),
                "X509v3 Basic Constraints"@,
            ),
        forall|i: int|
            0 <= i < after.len() ==> !crate::text::starts_with(
                crate::text::trimmed(#[trigger] after[i]),
                "X509v3 Basic Constraints"@,
            ),
    ensures
        crate::text::starts_with(crate::text::trimmed(answer), "CA:TRUE"@) ==> shows_ca(text),
        !crate::text::starts_with(crate::text::trimmed(answer), "CA:TRUE"@)
            && !crate::text::starts_with(
            crate::text::trimmed(answer),
            "X509v3 Basic Constraints"@,
        ) ==> !shows_ca(text),
{
    let all = crate::text::lines(text);
    let at = before.len() as int;
    assert(all[at] == header && all[at + 1] == answer);
    if !crate::text::starts_with(crate::text::trimmed(answer), "CA:TRUE"@)
        && !crate::text::starts_with(
        crate::text::trimmed(answer),
        "X509v3 Basic Constraints"@,
    ) && shows_ca(text) {
        let i = choose|i: int|
            {
                &&& 0 <= i < all.len() - 1
                &&& line_begins(#[trigger] all[i], "X509v3 Basic Constraints"@)
                &&& line_begins(all[i + 1], "CA:TRUE"@)
            };
        if i < at {
            assert(all[i] == before[i]);
        } else if i > at + 1 {
            assert(all[i] == after[i - at - 2]);
        }
    }
}

/// Where nobody is asked for a passphrase, what is loaded is the key that the file holds.
pub proof fn lemma_plain_key_is_loaded(pem: Seq<u8>, pkcs8: Seq<u8>)
    requires
        loads_key(pem, pkcs8),
        !crate::crypto::key_may_ask_passphrase(pem),
    ensures
        crate::crypto::plain_private_key(pem) == Some(pkcs8),
{
}

/// A saved key is the PEM that OpenSSL writes, and no passphrase is asked for it.
pub proof fn lemma_saved_key_means(pkcs8: Seq<u8>, pem: Seq<u8>)
    requires
        saves_key(pkcs8, pem),
    ensures
        crate::crypto::private_key_pem(pkcs8) == Some(pem),
        !crate::crypto::may_ask_passphrase(pem),
{
}

/// Whether a line of a dump begins with some words does not depend on where it stands.
pub proof fn lemma_shown_lines_are_found(text: Seq<char>, prefix: Seq<char>)
    ensures
        shows_line(text, prefix) <==> exists|i: int|
            0 <= i < crate::text::lines(text).len() && crate::text::starts_with(
                crate::text::trimmed(#[trigger] crate::text::lines(text)[i]),
                prefix,
            ),
{
}

/// What each line of a dump does, one by one: a header begins the name constraints, and
/// nothing counts before it; `Permitted:` and `Excluded:` begin their parts; a DNS line adds
/// its name in the permitted part only; another extension ends everything; and every other
/// line changes nothing.
pub proof fn lemma_names_line_by_line(
    line: Seq<char>,
    rest: Seq<Seq<char>>,
    permitted: bool,
    name: Seq<char>,
)
    ensures
        crate::text::starts_with(crate::text::trimmed(line), "X509v3 Name Constraints"@) ==> {
            &&& names_in(seq![line] + rest, false, permitted) == names_in(rest, true, permitted)
            &&& names_in(seq![line] + rest, true, permitted) == names_in(rest, true, permitted)
        },
        !crate::text::starts_with(crate::text::trimmed(line), "X509v3 Name Constraints"@)
            ==> names_in(seq![line] + rest, false, permitted) == names_in(rest, false, permitted),
        crate::text::trimmed(line) == "Permitted:"@ ==> names_in(seq![line] + rest, true, permitted)
            == names_in(rest, true, true),
        crate::text::trimmed(line) == "Excluded:"@ ==> names_in(seq![line] + rest, true, permitted)
            == names_in(rest, true, false),
        crate::text::trimmed(line) == "DNS:"@ + name ==> {
            &&& names_in(seq![line] + rest, true, true) == seq![name] + names_in(rest, true, true)
            &&& names_in(seq![line] + rest, true, false) == names_in(rest, true, false)
        },
        names_in(Seq::empty(), true, permitted).len() == 0,
{
    reveal_strlit("X509v3 Name Constraints");
    reveal_strlit("Permitted:");
    reveal_strlit("Excluded:");
    let all = seq![line] + rest;
    let text = crate::text::trimmed(line);
    assert(all[0] == line);
    assert(all.skip(1) =~= rest);
    if text == "DNS:"@ + name {
        lemma_dns_line(text, name);
    }
    if text == "Permitted:"@ || text == "Excluded:"@ {
        assert(!crate::text::starts_with(text, "X509v3 Name Constraints"@));
        assert("Permitted:"@[0] != "Excluded:"@[0]);
    }
}

} // verus!
