//! What this crate asks of OpenSSL.
//!
//! A certificate, a distinguished name and a key are handed over and taken back as bytes:
//! certificates and names in DER, public keys as DER `SubjectPublicKeyInfo`, private keys
//! as unencrypted DER PKCS#8. Each function below makes one request of OpenSSL. None of
//! their bodies is verified: what their contracts say is what the crate relies on. The names
//! below speak of the one OpenSSL library that is loaded, with the configuration it has.
use crate::config::MAX_DAYS;
use openssl::asn1::Asn1Time;
use openssl::bn::BigNum;
use openssl::error::ErrorStack;
use openssl::hash::MessageDigest;
use openssl::nid::Nid;
use openssl::pkey::PKey;
use openssl::rsa::Rsa;
use openssl::stack::Stack;
use openssl::x509::extension::{
    AuthorityKeyIdentifier, BasicConstraints, KeyUsage, SubjectKeyIdentifier,
};
use openssl::x509::store::X509StoreBuilder;
use openssl::x509::{X509Builder, X509Extension, X509Name, X509NameBuilder, X509StoreContext, X509};
use vstd::prelude::*;
use vstd::utf8::encode_utf8;

verus! {

/// The errors that an OpenSSL call reports.
#[verifier::external_type_specification]
#[verifier::external_body]
pub struct ExErrorStack(openssl::error::ErrorStack);

/// A certificate under construction.
#[verifier::external_type_specification]
#[verifier::external_body]
pub struct ExX509Builder(openssl::x509::X509Builder);

/// One X.509 extension, ready to be put into a certificate.
#[verifier::external_type_specification]
#[verifier::external_body]
pub struct ExX509Extension(openssl::x509::X509Extension);

/// What an X.509 extension was made of.
pub enum Extension {
    /// `basicConstraints`.
    BasicConstraints { critical: bool, ca: bool, path_len: Option<u32> },
    /// `keyUsage` with no usage but those given.
    KeyUsage { critical: bool, key_cert_sign: bool, crl_sign: bool },
    /// `subjectKeyIdentifier`: the hash of the public key `key`.
    SubjectKeyId { key: Seq<u8> },
    /// `authorityKeyIdentifier` with the key identifier of the certificate `issuer`.
    AuthorityKeyId { issuer: Seq<u8> },
    /// `nameConstraints`, in OpenSSL's configuration syntax.
    NameConstraints { value: Seq<char> },
}

/// What has been put into a certificate under construction.
pub struct CertFields {
    /// The version, counted from zero.
    pub version: Option<int>,
    /// The subject name.
    pub subject: Option<Seq<u8>>,
    /// The issuer name.
    pub issuer: Option<Seq<u8>>,
    /// The public key.
    pub public_key: Option<Seq<u8>>,
    /// The serial number, most significant byte first.
    pub serial: Option<Seq<u8>>,
    /// The start of the validity, in days from the moment it was set.
    pub not_before: Option<u32>,
    /// The end of the validity, in days from the moment it was set.
    pub not_after: Option<u32>,
    /// The extensions, in the order they were appended.
    pub extensions: Seq<Extension>,
}

/// The bytes of each vector of a list.
pub open spec fn byte_lists(list: Seq<Vec<u8>>) -> Seq<Seq<u8>> {
    list.map_values(|v: Vec<u8>| v@)
}

/// Nothing put in yet.
pub open spec fn no_fields() -> CertFields {
    CertFields {
        version: None,
        subject: None,
        issuer: None,
        public_key: None,
        serial: None,
        not_before: None,
        not_after: None,
        extensions: Seq::empty(),
    }
}

/// The kinds of extensions, told apart by number.
pub open spec fn extension_kind(extension: Extension) -> int {
    match extension {
        Extension::BasicConstraints { .. } => 0,
        Extension::KeyUsage { .. } => 1,
        Extension::SubjectKeyId { .. } => 2,
        Extension::AuthorityKeyId { .. } => 3,
        Extension::NameConstraints { .. } => 4,
    }
}

/// Whether no kind of extension occurs twice.
pub open spec fn kinds_differ(extensions: Seq<Extension>) -> bool {
    forall|i: int, j: int|
        #![trigger extensions[i], extensions[j]]
        0 <= i < j < extensions.len() ==> extension_kind(extensions[i]) != extension_kind(
            extensions[j],
        )
}

/// Whether everything that a certificate needs has been put in, and no kind of extension
/// twice.
pub open spec fn is_complete(fields: CertFields) -> bool {
    &&& fields.version is Some
    &&& fields.subject is Some
    &&& fields.issuer is Some
    &&& fields.public_key is Some
    &&& fields.serial is Some
    &&& fields.not_before is Some
    &&& fields.not_after is Some
    &&& kinds_differ(fields.extensions)
}

/// Whether `word` stands in `bytes`.
pub open spec fn holds_bytes(bytes: Seq<u8>, word: Seq<u8>) -> bool {
    exists|at: int|
        0 <= at && at + word.len() <= bytes.len() && #[trigger] bytes.subrange(
            at,
            at + word.len() as int,
        ) == word
}

/// Whether a file may hold an encrypted PEM block: it has the line that begins a block and
/// the header that announces encryption. Reading it would ask for a passphrase.
pub open spec fn may_ask_passphrase(bytes: Seq<u8>) -> bool {
    holds_bytes(bytes, encode_utf8("-----BEGIN "@)) && holds_bytes(
        bytes,
        encode_utf8("Proc-Type:"@),
    )
}

/// Whether a file may hold an encrypted private key, in either of the forms that PEM has for
/// one. Reading it would ask for a passphrase.
pub open spec fn key_may_ask_passphrase(bytes: Seq<u8>) -> bool {
    may_ask_passphrase(bytes) || holds_bytes(bytes, encode_utf8("-----BEGIN ENCRYPTED "@))
}

/// Whether an item of a name constraints value names nothing but DNS subtrees, or one of the
/// ranges that exclude everything.
pub open spec fn is_plain_item(item: Seq<char>) -> bool {
    ||| item == "critical"@
    ||| crate::text::starts_with(item, "permitted;DNS:"@)
    ||| item == "excluded;IP:0.0.0.0/0.0.0.0"@
    ||| item == "excluded;IP:::/::"@
    ||| item == "excluded;email:."@
    ||| item == "excluded;URI:."@
}

/// Whether a name constraints value is made of such items only. OpenSSL's configuration
/// syntax can say more, and then it depends on more than the value what it stands for.
pub open spec fn is_plain_value(value: Seq<char>) -> bool {
    forall|i: int|
        0 <= i < crate::text::parts_between(value, ',').len() ==> is_plain_item(
            #[trigger] crate::text::parts_between(value, ',')[i],
        )
}

// Names for what OpenSSL computes.

/// The certificate, in DER, that `X509::from_pem` reads where it needs no passphrase.
pub uninterp spec fn pem_certificate(bytes: Seq<u8>) -> Option<Seq<u8>>;

/// The certificate, in DER, that `X509::from_der` reads.
pub uninterp spec fn der_certificate(bytes: Seq<u8>) -> Option<Seq<u8>>;

/// The certificate `der` as `X509Ref::to_pem` writes it.
pub uninterp spec fn certificate_pem(der: Seq<u8>) -> Option<Seq<u8>>;

/// The private key as `PKeyRef::private_key_to_pem_pkcs8` writes it.
pub uninterp spec fn private_key_pem(pkcs8: Seq<u8>) -> Option<Seq<u8>>;

/// Whether `PKey::private_key_from_pem` may read the key `pkcs8` from `pem`. For an encrypted
/// key that also depends on the passphrase typed at the terminal.
pub uninterp spec fn private_key_read(pem: Seq<u8>, pkcs8: Seq<u8>) -> bool;

/// The private key, as PKCS#8, that `PKey::private_key_from_pem` reads where it needs no
/// passphrase.
pub uninterp spec fn plain_private_key(pem: Seq<u8>) -> Option<Seq<u8>>;

/// Whether `rand_bytes` may draw `bytes`.
pub uninterp spec fn randomly_drawn(bytes: Seq<u8>) -> bool;

/// Whether `Rsa::generate` may draw the key `pkcs8` when asked for `bits` bits.
pub uninterp spec fn rsa_generated(bits: u32, pkcs8: Seq<u8>) -> bool;

/// The public half of a private key, as `PKeyRef::public_key_to_der` writes it.
pub uninterp spec fn private_key_public(pkcs8: Seq<u8>) -> Option<Seq<u8>>;

/// Whether `X509Name::from_der` reads a name whose encoding is exactly `bytes`.
pub uninterp spec fn is_name_der(bytes: Seq<u8>) -> bool;

/// Whether `PKey::public_key_from_der` reads a key whose encoding is exactly `bytes`.
pub uninterp spec fn is_public_key_der(bytes: Seq<u8>) -> bool;

/// The subject name of a certificate (`X509Ref::subject_name`).
pub uninterp spec fn certificate_subject(der: Seq<u8>) -> Option<Seq<u8>>;

/// The issuer name of a certificate (`X509Ref::issuer_name`).
pub uninterp spec fn certificate_issuer(der: Seq<u8>) -> Option<Seq<u8>>;

/// The public key of a certificate (`X509Ref::public_key`).
pub uninterp spec fn certificate_public_key(der: Seq<u8>) -> Option<Seq<u8>>;

/// The subject key identifier of a certificate (`X509Ref::subject_key_id`).
pub uninterp spec fn certificate_key_id(der: Seq<u8>) -> Option<Seq<u8>>;

/// The human readable dump of a certificate (`X509Ref::to_text`).
pub uninterp spec fn certificate_text(der: Seq<u8>) -> Option<Seq<u8>>;

/// Whether a certificate carries a signature made with `public_key` (`X509Ref::verify`).
pub uninterp spec fn certificate_verifies(der: Seq<u8>, public_key: Seq<u8>) -> bool;

/// The SHA-256 digest of a certificate (`X509Ref::digest`).
pub uninterp spec fn certificate_sha256(der: Seq<u8>) -> Option<Seq<u8>>;

/// The end of a certificate's validity, as `X509Ref::not_after` displays it.
pub uninterp spec fn certificate_not_after(der: Seq<u8>) -> Option<Seq<char>>;

/// The entries of a certificate's `subjectAltName` (`X509Ref::subject_alt_names`), each
/// with its text where it is a DNS name.
pub uninterp spec fn certificate_alt_names(der: Seq<u8>) -> Option<Seq<Option<Seq<char>>>>;

/// The SHA-256 digest of `data` (`openssl::hash::hash`), where OpenSSL offers it.
pub uninterp spec fn sha256(data: Seq<u8>) -> Option<Seq<u8>>;

/// The name made of one Common Name (`X509NameBuilder`).
pub uninterp spec fn common_name_dn(cn: Seq<char>) -> Option<Seq<u8>>;

/// The bytes of the first Common Name in a name (`X509NameRef::entries_by_nid`).
pub uninterp spec fn dn_common_name(name: Seq<u8>) -> Option<Seq<u8>>;

/// The identifier that `SubjectKeyIdentifier` computes for a public key.
pub uninterp spec fn key_identifier(public_key: Seq<u8>) -> Seq<u8>;

/// Whether `X509Extension::new_nid` encodes the plain value `value` as name constraints.
pub uninterp spec fn name_constraints_encode(value: Seq<char>) -> bool;

/// What an extension holds.
pub uninterp spec fn extension_contents(extension: X509Extension) -> Extension;

/// What a certificate under construction holds.
pub uninterp spec fn builder_fields(builder: X509Builder) -> CertFields;

/// Whether signing a certificate that holds `fields` with the private key `pkcs8` and
/// SHA-256 may give `der`.
pub uninterp spec fn certificate_signed(fields: CertFields, pkcs8: Seq<u8>, der: Seq<u8>) -> bool;

/// Whether validating `leaf` against the trust anchor `anchor`, with `untrusted` to build
/// the chain from, may have the outcome `valid` with the reason `reason`. The outcome also
/// depends on the time of day.
pub uninterp spec fn chain_checked(
    anchor: Seq<u8>,
    untrusted: Seq<Seq<u8>>,
    leaf: Seq<u8>,
    valid: bool,
    reason: Seq<char>,
) -> bool;

// Reading certificates and keys.

/// `X509::from_pem`: reads a PEM certificate, and succeeds exactly where
/// [`pem_certificate`] is defined. The DER handed over reads back as itself. OpenSSL's
/// binding panics on more bytes than a C `int` counts, and an encrypted block would have
/// OpenSSL ask for a passphrase at the terminal.
#[verifier::external_body]
pub(crate) fn read_pem(bytes: &Vec<u8>) -> (r: Result<Vec<u8>, ErrorStack>)
    requires
        bytes@.len() <= i32::MAX,
        !may_ask_passphrase(bytes@),
    ensures
        r is Ok == pem_certificate(bytes@) is Some,
        r matches Ok(der) ==> pem_certificate(bytes@) == Some(der@) && der_certificate(der@)
            == Some(der@),
{
    X509::from_pem(bytes)?.to_der()
}

/// `X509::from_der`: reads a DER certificate, and succeeds exactly where
/// [`der_certificate`] is defined. The DER handed over reads back as itself.
#[verifier::external_body]
pub(crate) fn read_der(bytes: &Vec<u8>) -> (r: Result<Vec<u8>, ErrorStack>)
    ensures
        r is Ok == der_certificate(bytes@) is Some,
        r matches Ok(der) ==> der_certificate(bytes@) == Some(der@) && der_certificate(der@)
            == Some(der@),
{
    X509::from_der(bytes)?.to_der()
}

/// `X509Ref::to_pem`: writes a certificate as PEM. What it writes reads back as the
/// certificate that was written.
#[verifier::external_body]
pub(crate) fn write_pem(der: &Vec<u8>) -> (r: Result<Vec<u8>, ErrorStack>)
    ensures
        r is Ok == certificate_pem(der@) is Some,
        r matches Ok(pem) ==> certificate_pem(der@) == Some(pem@) && pem_certificate(pem@)
            == der_certificate(der@),
{
    X509::from_der(der)?.to_pem()
}

/// `PKey::private_key_from_pem`: reads a PEM private key. What it reads is one of the keys
/// that may be read from `pem`. Where no passphrase can be asked for, it succeeds exactly
/// where [`plain_private_key`] is defined, and reads that key; otherwise which key, and
/// whether any, depends on the passphrase. OpenSSL's binding panics on more bytes than a C
/// `int` counts.
#[verifier::external_body]
pub(crate) fn read_key_pem(pem: &Vec<u8>) -> (r: Result<Vec<u8>, ErrorStack>)
    requires
        pem@.len() <= i32::MAX,
    ensures
        r matches Ok(pkcs8) ==> private_key_read(pem@, pkcs8@),
        !key_may_ask_passphrase(pem@) ==> r is Ok == plain_private_key(pem@) is Some,
        !key_may_ask_passphrase(pem@) ==> (r matches Ok(pkcs8) ==> plain_private_key(pem@)
            == Some(pkcs8@)),
{
    PKey::private_key_from_pem(pem)?.private_key_to_pkcs8()
}

/// `PKeyRef::private_key_to_pem_pkcs8`: writes a private key as PEM, unencrypted. A key that
/// `Rsa::generate` drew reads back as it was written; of other keys that is not said.
#[verifier::external_body]
pub(crate) fn write_key_pem(pkcs8: &Vec<u8>) -> (r: Result<Vec<u8>, ErrorStack>)
    ensures
        r is Ok == private_key_pem(pkcs8@) is Some,
        r matches Ok(pem) ==> {
            &&& private_key_pem(pkcs8@) == Some(pem@)
            &&& !key_may_ask_passphrase(pem@)
            &&& forall|bits: u32| #[trigger]
                rsa_generated(bits, pkcs8@) ==> plain_private_key(pem@) == Some(pkcs8@)
        },
{
    PKey::private_key_from_pkcs8(pkcs8)?.private_key_to_pem_pkcs8()
}

/// `Rsa::generate`: draws a new RSA key pair of `bits` bits. Nothing else is claimed of the
/// key, which is random.
#[verifier::external_body]
pub(crate) fn generate_rsa(bits: u32) -> (r: Result<Vec<u8>, ErrorStack>)
    ensures
        r matches Ok(pkcs8) ==> rsa_generated(bits, pkcs8@),
{
    PKey::from_rsa(Rsa::generate(bits)?)?.private_key_to_pkcs8()
}

/// `PKeyRef::public_key_to_der`: the public half of a private key.
#[verifier::external_body]
pub(crate) fn public_half(pkcs8: &Vec<u8>) -> (r: Result<Vec<u8>, ErrorStack>)
    ensures
        r is Ok == private_key_public(pkcs8@) is Some,
        r matches Ok(key) ==> private_key_public(pkcs8@) == Some(key@) && is_public_key_der(key@),
{
    PKey::private_key_from_pkcs8(pkcs8)?.public_key_to_der()
}

/// `X509Ref::subject_name`: the subject of a certificate, a name in DER.
#[verifier::external_body]
pub(crate) fn subject_name(der: &Vec<u8>) -> (r: Result<Vec<u8>, ErrorStack>)
    ensures
        r is Ok == certificate_subject(der@) is Some,
        r matches Ok(name) ==> certificate_subject(der@) == Some(name@) && is_name_der(name@),
{
    X509::from_der(der)?.subject_name().to_der()
}

/// `X509Ref::issuer_name`: the issuer of a certificate, a name in DER.
#[verifier::external_body]
pub(crate) fn issuer_name(der: &Vec<u8>) -> (r: Result<Vec<u8>, ErrorStack>)
    ensures
        r is Ok == certificate_issuer(der@) is Some,
        r matches Ok(name) ==> certificate_issuer(der@) == Some(name@),
{
    X509::from_der(der)?.issuer_name().to_der()
}

/// `X509Ref::public_key`: the public key of a certificate.
#[verifier::external_body]
pub(crate) fn public_key(der: &Vec<u8>) -> (r: Result<Vec<u8>, ErrorStack>)
    ensures
        r is Ok == certificate_public_key(der@) is Some,
        r matches Ok(key) ==> certificate_public_key(der@) == Some(key@) && is_public_key_der(key@),
{
    X509::from_der(der)?.public_key()?.public_key_to_der()
}

/// `X509Ref::subject_key_id`: the subject key identifier, where a certificate has one.
#[verifier::external_body]
pub(crate) fn subject_key_id(der: &Vec<u8>) -> (r: Option<Vec<u8>>)
    ensures
        r is Some == certificate_key_id(der@) is Some,
        r matches Some(id) ==> certificate_key_id(der@) == Some(id@),
{
    X509::from_der(der).ok()?.subject_key_id().map(|id| id.as_slice().to_vec())
}

/// `X509Ref::to_text`: the human readable dump of a certificate. Nothing is said of how
/// OpenSSL lays it out, so neither is it said that the names put into a certificate are
/// those that its dump shows.
#[verifier::external_body]
pub(crate) fn render_text(der: &Vec<u8>) -> (r: Result<Vec<u8>, ErrorStack>)
    ensures
        r is Ok == certificate_text(der@) is Some,
        r matches Ok(text) ==> certificate_text(der@) == Some(text@),
{
    X509::from_der(der)?.to_text()
}

/// `X509Ref::verify`: whether a certificate was signed with the private half of
/// `public_key`. A failure to check counts as no.
#[verifier::external_body]
pub(crate) fn verifies(der: &Vec<u8>, public_key: &Vec<u8>) -> (r: Result<bool, ErrorStack>)
    ensures
        (r matches Ok(true)) == certificate_verifies(der@, public_key@),
{
    let key = PKey::public_key_from_der(public_key)?;
    X509::from_der(der)?.verify(&key)
}

/// `X509Ref::digest` with SHA-256: the digest of a certificate, 32 bytes long.
#[verifier::external_body]
pub(crate) fn digest_sha256(der: &Vec<u8>) -> (r: Result<Vec<u8>, ErrorStack>)
    ensures
        r is Ok == certificate_sha256(der@) is Some,
        r matches Ok(digest) ==> certificate_sha256(der@) == Some(digest@) && digest@.len() == 32,
{
    Ok(X509::from_der(der)?.digest(MessageDigest::sha256())?.to_vec())
}

/// `openssl::hash::hash` with SHA-256: the digest of `data`, 32 bytes long. It succeeds
/// exactly where [`sha256`] is defined.
#[verifier::external_body]
pub(crate) fn hash_sha256(data: &Vec<u8>) -> (r: Result<Vec<u8>, ErrorStack>)
    ensures
        r is Ok == sha256(data@) is Some,
        r matches Ok(digest) ==> sha256(data@) == Some(digest@) && digest@.len() == 32,
{
    Ok(openssl::hash::hash(MessageDigest::sha256(), data)?.to_vec())
}

/// `X509Ref::not_after`: the end of the validity, as OpenSSL displays it.
#[verifier::external_body]
pub(crate) fn not_after(der: &Vec<u8>) -> (r: Result<String, ErrorStack>)
    ensures
        r is Ok == certificate_not_after(der@) is Some,
        r matches Ok(text) ==> certificate_not_after(der@) == Some(text@),
{
    Ok(X509::from_der(der)?.not_after().to_string())
}

/// The texts of a list of names, where they are known.
pub open spec fn known_texts(names: Seq<Option<String>>) -> Seq<Option<Seq<char>>> {
    names.map_values(
        |n: Option<String>|
            match n {
                Some(s) => Some(s@),
                None => None,
            },
    )
}

/// `X509Ref::subject_alt_names`: the entries of the extension where a certificate has it,
/// in order, each with its text where it is a DNS name.
#[verifier::external_body]
pub(crate) fn alt_names(der: &Vec<u8>) -> (r: Option<Vec<Option<String>>>)
    ensures
        r is Some == certificate_alt_names(der@) is Some,
        r matches Some(names) ==> certificate_alt_names(der@) == Some(known_texts(names@)),
{
    let names = X509::from_der(der).ok()?.subject_alt_names()?;
    Some(names.iter().map(|name| name.dnsname().map(str::to_owned)).collect())
}

/// `X509NameBuilder::append_entry_by_nid`: the name whose only entry is the Common Name
/// `cn`. OpenSSL takes the text as UTF-8, and the entry reads back as those bytes.
#[verifier::external_body]
pub(crate) fn name_of_common_name(cn: &str) -> (r: Result<Vec<u8>, ErrorStack>)
    requires
        encode_utf8(cn@).len() <= i32::MAX,
    ensures
        r is Ok == common_name_dn(cn@) is Some,
        r matches Ok(name) ==> {
            &&& common_name_dn(cn@) == Some(name@)
            &&& is_name_der(name@)
            &&& dn_common_name(name@) == Some(encode_utf8(cn@))
        },
{
    let mut name = X509NameBuilder::new()?;
    name.append_entry_by_nid(Nid::COMMONNAME, cn)?;
    name.build().to_der()
}

/// `X509NameRef::entries_by_nid`: the bytes of the first Common Name in a name.
#[verifier::external_body]
pub(crate) fn common_name_of(name: &Vec<u8>) -> (r: Option<Vec<u8>>)
    ensures
        r is Some == dn_common_name(name@) is Some,
        r matches Some(cn) ==> dn_common_name(name@) == Some(cn@),
{
    let name = X509Name::from_der(name).ok()?;
    let entry = name.entries_by_nid(Nid::COMMONNAME).next()?;
    Some(entry.data().as_slice().to_vec())
}

/// `openssl::rand::rand_bytes`: `count` random bytes. Nothing else is claimed of them.
#[verifier::external_body]
pub(crate) fn random_bytes(count: usize) -> (r: Result<Vec<u8>, ErrorStack>)
    requires
        count <= i32::MAX,
    ensures
        r matches Ok(bytes) ==> bytes@.len() == count && randomly_drawn(bytes@),
{
    let mut bytes = vec![0; count];
    openssl::rand::rand_bytes(&mut bytes)?;
    Ok(bytes)
}

// Building certificates.

/// `X509Builder::new`: a certificate with nothing put in yet.
#[verifier::external_body]
pub(crate) fn new_builder() -> (r: Result<X509Builder, ErrorStack>)
    ensures
        r matches Ok(builder) ==> builder_fields(builder) == no_fields(),
{
    X509Builder::new()
}

/// `X509Builder::set_version`: sets the version, counted from zero.
#[verifier::external_body]
pub(crate) fn set_version(builder: &mut X509Builder, version: i32) -> (r: Result<(), ErrorStack>)
    ensures
        r is Ok ==> builder_fields(*final(builder)) == (CertFields {
            version: Some(version as int),
            ..builder_fields(*old(builder))
        }),
{
    builder.set_version(version)
}

/// `X509Builder::set_subject_name`: sets the subject to the name encoded in `name`.
#[verifier::external_body]
pub(crate) fn set_subject(builder: &mut X509Builder, name: &Vec<u8>) -> (r: Result<(), ErrorStack>)
    requires
        is_name_der(name@),
    ensures
        r is Ok ==> builder_fields(*final(builder)) == (CertFields {
            subject: Some(name@),
            ..builder_fields(*old(builder))
        }),
{
    let name = X509Name::from_der(name)?;
    builder.set_subject_name(&name)
}

/// `X509Builder::set_issuer_name`: sets the issuer to the name encoded in `name`.
#[verifier::external_body]
pub(crate) fn set_issuer(builder: &mut X509Builder, name: &Vec<u8>) -> (r: Result<(), ErrorStack>)
    requires
        is_name_der(name@),
    ensures
        r is Ok ==> builder_fields(*final(builder)) == (CertFields {
            issuer: Some(name@),
            ..builder_fields(*old(builder))
        }),
{
    let name = X509Name::from_der(name)?;
    builder.set_issuer_name(&name)
}

/// `X509Builder::set_pubkey`: sets the public key to the one encoded in `key`.
#[verifier::external_body]
pub(crate) fn set_public_key(builder: &mut X509Builder, key: &Vec<u8>) -> (r: Result<
    (),
    ErrorStack,
>)
    requires
        is_public_key_der(key@),
    ensures
        r is Ok ==> builder_fields(*final(builder)) == (CertFields {
            public_key: Some(key@),
            ..builder_fields(*old(builder))
        }),
{
    let key = PKey::public_key_from_der(key)?;
    builder.set_pubkey(&key)
}

/// `X509Builder::set_serial_number`: sets the serial number to the number written in
/// `serial`, most significant byte first.
#[verifier::external_body]
pub(crate) fn set_serial(builder: &mut X509Builder, serial: &Vec<u8>) -> (r: Result<(), ErrorStack>)
    requires
        serial@.len() <= i32::MAX,
    ensures
        r is Ok ==> builder_fields(*final(builder)) == (CertFields {
            serial: Some(serial@),
            ..builder_fields(*old(builder))
        }),
{
    let number = BigNum::from_slice(serial)?.to_asn1_integer()?;
    builder.set_serial_number(&number)
}

/// `X509Builder::set_not_before`: lets the validity start `days` days from now, which
/// OpenSSL's binding counts in seconds in a C `long`.
#[verifier::external_body]
pub(crate) fn set_not_before(builder: &mut X509Builder, days: u32) -> (r: Result<(), ErrorStack>)
    requires
        days <= MAX_DAYS,
    ensures
        r is Ok ==> builder_fields(*final(builder)) == (CertFields {
            not_before: Some(days),
            ..builder_fields(*old(builder))
        }),
{
    let time = Asn1Time::days_from_now(days)?;
    builder.set_not_before(&time)
}

/// `X509Builder::set_not_after`: lets the validity end `days` days from now, which OpenSSL's
/// binding counts in seconds in a C `long`.
#[verifier::external_body]
pub(crate) fn set_not_after(builder: &mut X509Builder, days: u32) -> (r: Result<(), ErrorStack>)
    requires
        days <= MAX_DAYS,
    ensures
        r is Ok ==> builder_fields(*final(builder)) == (CertFields {
            not_after: Some(days),
            ..builder_fields(*old(builder))
        }),
{
    let time = Asn1Time::days_from_now(days)?;
    builder.set_not_after(&time)
}

/// `BasicConstraints::build`: critical basic constraints of a certificate authority.
#[verifier::external_body]
pub(crate) fn ca_constraints() -> (r: Result<X509Extension, ErrorStack>)
    ensures
        r matches Ok(extension) ==> extension_contents(extension) == (Extension::BasicConstraints {
            critical: true,
            ca: true,
            path_len: None,
        }),
{
    BasicConstraints::new().critical().ca().build()
}

/// `BasicConstraints::build`: critical basic constraints of a certificate authority below
/// which at most `path_len` others may stand.
#[verifier::external_body]
pub(crate) fn ca_constraints_with_path_len(path_len: u32) -> (r: Result<X509Extension, ErrorStack>)
    ensures
        r matches Ok(extension) ==> extension_contents(extension) == (Extension::BasicConstraints {
            critical: true,
            ca: true,
            path_len: Some(path_len),
        }),
{
    BasicConstraints::new().critical().ca().pathlen(path_len).build()
}

/// `KeyUsage::build`: a critical key usage that allows signing certificates and CRLs.
#[verifier::external_body]
pub(crate) fn signing_key_usage() -> (r: Result<X509Extension, ErrorStack>)
    ensures
        r matches Ok(extension) ==> extension_contents(extension) == (Extension::KeyUsage {
            critical: true,
            key_cert_sign: true,
            crl_sign: true,
        }),
{
    KeyUsage::new().critical().key_cert_sign().crl_sign().build()
}

/// `SubjectKeyIdentifier::build`: the identifier of the public key put in so far.
#[verifier::external_body]
pub(crate) fn key_id_extension(builder: &X509Builder) -> (r: Result<X509Extension, ErrorStack>)
    requires
        builder_fields(*builder).public_key is Some,
    ensures
        r matches Ok(extension) ==> extension_contents(extension) == (Extension::SubjectKeyId {
            key: builder_fields(*builder).public_key->0,
        }),
{
    let context = builder.x509v3_context(None, None);
    SubjectKeyIdentifier::new().build(&context)
}

/// `AuthorityKeyIdentifier::build` with a mandatory key identifier, taken from `issuer`.
#[verifier::external_body]
pub(crate) fn authority_key_id_extension(builder: &X509Builder, issuer: &Vec<u8>) -> (r: Result<
    X509Extension,
    ErrorStack,
>)
    ensures
        r matches Ok(extension) ==> extension_contents(extension) == (Extension::AuthorityKeyId {
            issuer: issuer@,
        }),
{
    let issuer = X509::from_der(issuer)?;
    let context = builder.x509v3_context(Some(&issuer), None);
    AuthorityKeyIdentifier::new().keyid(true).build(&context)
}

/// `X509Extension::new_nid`: name constraints from OpenSSL's configuration syntax. The
/// text may hold no NUL character, on which OpenSSL's binding panics. Of a value that is not
/// plain it is not said when it is encoded: what it stands for may lie outside of it.
#[verifier::external_body]
#[allow(deprecated)]
pub(crate) fn name_constraints_extension(value: &str) -> (r: Result<X509Extension, ErrorStack>)
    requires
        !value@.contains('\0'),
    ensures
        is_plain_value(value@) ==> r is Ok == name_constraints_encode(value@),
        r matches Ok(extension) ==> extension_contents(extension) == (Extension::NameConstraints {
            value: value@,
        }),
{
    X509Extension::new_nid(None, None, Nid::NAME_CONSTRAINTS, value)
}

/// `X509Builder::append_extension`: adds an extension behind those put in so far.
#[verifier::external_body]
pub(crate) fn append_extension(builder: &mut X509Builder, extension: X509Extension) -> (r: Result<
    (),
    ErrorStack,
>)
    ensures
        r is Ok ==> builder_fields(*final(builder)) == (CertFields {
            extensions: builder_fields(*old(builder)).extensions.push(
                extension_contents(extension),
            ),
            ..builder_fields(*old(builder))
        }),
{
    builder.append_extension(extension)
}

/// `X509Builder::sign` and `X509Builder::build`: signs with the private key `pkcs8` and
/// SHA-256, and hands the certificate over in DER, which reads back as itself. Its subject,
/// issuer and public key read back as they were put in, and its key identifier as the one of
/// the key it was made for. Where the signing key was drawn by `Rsa::generate`, the signature
/// verifies with its public half; of other keys that is not said, since reading one does not
/// check that its halves belong together.
#[verifier::external_body]
pub(crate) fn sign_and_build(builder: X509Builder, pkcs8: &Vec<u8>) -> (r: Result<
    Vec<u8>,
    ErrorStack,
>)
    requires
        is_complete(builder_fields(builder)),
    ensures
        r matches Ok(der) ==> {
            let fields = builder_fields(builder);
            &&& certificate_signed(fields, pkcs8@, der@)
            &&& der_certificate(der@) == Some(der@)
            &&& certificate_subject(der@) == fields.subject
            &&& certificate_issuer(der@) == fields.issuer
            &&& certificate_public_key(der@) == fields.public_key
            &&& forall|key: Seq<u8>|
                #![trigger fields.extensions.contains(Extension::SubjectKeyId { key })]
                fields.extensions.contains(Extension::SubjectKeyId { key })
                    ==> certificate_key_id(der@) == Some(key_identifier(key))
            &&& forall|bits: u32| #[trigger]
                rsa_generated(bits, pkcs8@) ==> (private_key_public(pkcs8@) matches Some(key)
                    ==> certificate_verifies(der@, key))
        },
{
    let mut builder = builder;
    let key = PKey::private_key_from_pkcs8(pkcs8)?;
    builder.sign(&key, MessageDigest::sha256())?;
    builder.build().to_der()
}

// Checking chains.

/// `X509StoreContextRef::verify_cert`: validates `leaf` against the one trust anchor
/// `anchor`, with `untrusted` to build the chain from, and hands over the outcome with
/// OpenSSL's reason. The outcome is one that these certificates may have; which one depends
/// on the time of day.
#[verifier::external_body]
pub(crate) fn verify_leaf(anchor: &Vec<u8>, untrusted: &Vec<Vec<u8>>, leaf: &Vec<u8>) -> (r: Result<
    (bool, String),
    ErrorStack,
>)
    ensures
        r matches Ok((valid, reason)) ==> chain_checked(
            anchor@,
            byte_lists(untrusted@),
            leaf@,
            valid,
            reason@,
        ),
{
    let mut store = X509StoreBuilder::new()?;
    store.add_cert(X509::from_der(anchor)?)?;
    let mut stack = Stack::new()?;
    for der in untrusted {
        stack.push(X509::from_der(der)?)?;
    }
    let leaf = X509::from_der(leaf)?;
    X509StoreContext::new()?.init(&store.build(), &leaf, &stack, |context| {
        let valid = context.verify_cert()?;
        Ok((valid, context.error().error_string().to_owned()))
    })
}

} // verus!
