//! Signing every cross-certificate, and telling what there is.
use crate::config::{Config, MAX_DAYS};
use crate::error::{Error, FileError, Operation};
use crate::roots::{FileWrite, ForeignRoot, RootModel};
use crate::text::{chars_of, holds_char, slice_of, string_of};
use crate::verify::same_key_id;
use crate::workspace::Workspace;
use crate::x509::{
    cross_sign, expiry, load_cert, pubkey_fingerprint, ski_hex, subject_cn, Certificate, PrivateKey,
};
use vstd::prelude::*;

verus! {

/// Whether there is anything to sign.
#[derive(Debug, Clone, Copy, PartialEq, Eq, Structural)]
pub enum Readiness {
    /// There are no roots: signing is an error.
    NoRoots,
    /// A fresh workspace has roots but no domains yet. Signing would fail on an empty
    /// permitted list, so what is missing is said instead.
    NothingPermitted,
    /// There are roots and domains.
    Ready,
}

/// Says whether there is anything to sign.
pub fn readiness(cfg: &Config, roots: &Vec<ForeignRoot>) -> (r: Readiness)
    ensures
        r == (if roots@.len() == 0 {
            Readiness::NoRoots
        } else if cfg.constraints.permitted_dns@.len() == 0 {
            Readiness::NothingPermitted
        } else {
            Readiness::Ready
        }),
{
    if roots.len() == 0 {
        Readiness::NoRoots
    } else if cfg.constraints.permitted_dns.len() == 0 {
        Readiness::NothingPermitted
    } else {
        Readiness::Ready
    }
}

/// Whether certificates can be signed under a configuration: OpenSSL takes neither a NUL
/// character in a name nor more days than it can count.
pub open spec fn is_signable(cfg: Config) -> bool {
    crate::x509::nul_free(cfg.constraints) && cfg.signing.cross_days <= MAX_DAYS
}

/// Says whether certificates can be signed under a configuration.
pub fn can_sign(cfg: &Config) -> (r: bool)
    ensures
        r == is_signable(*cfg),
{
    let ghost names = cfg.constraints.names();
    for i in 0..cfg.constraints.permitted_dns.len()
        invariant
            names == cfg.constraints.names(),
            forall|j: int| 0 <= j < i ==> !(#[trigger] names[j]).contains('\0'),
    {
        assert(names[i as int] == cfg.constraints.permitted_dns@[i as int]@);
        if holds_char(&chars_of(cfg.constraints.permitted_dns[i].as_str()), '\0') {
            return false;
        }
    }
    cfg.signing.cross_days <= MAX_DAYS
}

/// A cross-certificate that was signed.
#[derive(Debug)]
pub struct Signed {
    /// The file to write.
    pub write: FileWrite,
    /// Its key identifier.
    pub key_id: Option<String>,
}

/// Why a cross-certificate was not signed.
#[derive(Debug)]
pub enum SignError {
    /// The key identifier changed. Sub-CAs would no longer find their issuer.
    KeyIdChanged {
        /// The name of the root.
        name: String,
        /// The key identifier of the root.
        before: Option<String>,
        /// The key identifier of the cross-certificate.
        after: Option<String>,
    },
    /// A certificate cannot be signed or encoded.
    Certificate(Error),
}

/// The text of a key identifier, if there is one.
pub open spec fn id_text(id: Option<String>) -> Option<Seq<char>> {
    match id {
        Some(text) => Some(text@),
        None => None,
    }
}

/// A key identifier as an error shows it.
pub open spec fn id_words(id: Option<String>) -> Seq<char> {
    match id {
        Some(text) => "Some(\""@ + text@ + "\")"@,
        None => "None"@,
    }
}

/// Appends a key identifier to a text.
fn push_id(out: &mut String, id: &Option<String>)
    ensures
        final(out)@ == old(out)@ + id_words(*id),
{
    match id {
        Some(text) => {
            out.append("Some(\"");
            out.append(text.as_str());
            out.append("\")");
        },
        None => out.append("None"),
    }
    assert(out@ =~= old(out)@ + id_words(*id));
}

impl SignError {
    /// The error in words.
    pub open spec fn words(self) -> Seq<char> {
        match self {
            SignError::KeyIdChanged { name, before, after } => "SKI изменился у "@ + name@ + " ("@
                + id_words(before) + " -> "@ + id_words(after)
                + ") -- построение цепочки сломается"@,
            SignError::Certificate(cause) => cause.words(),
        }
    }

    /// The error in words, without what OpenSSL says of it.
    pub fn describe(&self) -> (r: String)
        ensures
            r@ == self.words(),
    {
        match self {
            SignError::KeyIdChanged { name, before, after } => {
                let mut out = "SKI изменился у ".to_owned();
                out.append(name.as_str());
                out.append(" (");
                push_id(&mut out, before);
                out.append(" -> ");
                push_id(&mut out, after);
                out.append(") -- построение цепочки сломается");
                assert(out@ =~= self.words());
                out
            },
            SignError::Certificate(cause) => cause.describe(),
        }
    }
}

/// Whether `der` is a cross-certificate for `root` under the configuration.
pub open spec fn constrains(
    der: Seq<u8>,
    local: Seq<u8>,
    pkcs8: Seq<u8>,
    cfg: Config,
    root: RootModel,
) -> bool {
    &&& crate::x509::is_cross_certificate(
        der,
        local,
        pkcs8,
        root.cert,
        crate::x509::constraints_value(cfg.constraints),
        cfg.signing.cross_days,
        cfg.signing.path_len,
    )
    &&& crate::crypto::certificate_subject(der) == crate::crypto::certificate_subject(root.cert)
    &&& crate::crypto::certificate_public_key(der) == crate::crypto::certificate_public_key(
        root.cert,
    )
    &&& crate::crypto::certificate_issuer(der) == crate::crypto::certificate_subject(local)
}

/// Whether `signed` is the file of a cross-certificate for `root` that kept its key
/// identifier.
pub open spec fn is_signed(
    ws: Seq<char>,
    local: Seq<u8>,
    pkcs8: Seq<u8>,
    cfg: Config,
    root: RootModel,
    signed: Signed,
) -> bool {
    exists|der: Seq<u8>|
        {
            &&& #[trigger] constrains(der, local, pkcs8, cfg, root)
            &&& is_cross_file(ws, root, der, signed)
            &&& keeps_key_id(der, root)
        }
}

/// Whether a cross-certificate can stand in for its root: its key identifier is that of the
/// root. Sub-CAs find their issuer by it.
pub open spec fn keeps_key_id(cross: Seq<u8>, root: RootModel) -> bool {
    crate::x509::key_id_text(cross) == crate::x509::key_id_text(root.cert)
}

/// Whether `e` says that the key identifier of the cross-certificate differs from the root's.
pub open spec fn says_key_id_changed(cross: Seq<u8>, root: RootModel, e: SignError) -> bool {
    &&& e matches SignError::KeyIdChanged { name, before, after }
    &&& name@ == root.name
    &&& id_text(before) == crate::x509::key_id_text(root.cert)
    &&& id_text(after) == crate::x509::key_id_text(cross)
}

/// Whether `signed` is the file of the cross-certificate `cross` for `root`.
pub open spec fn is_cross_file(
    ws: Seq<char>,
    root: RootModel,
    cross: Seq<u8>,
    signed: Signed,
) -> bool {
    &&& crate::roots::holds_certificate(signed.write, cross)
    &&& signed.write.path@ == crate::workspace::cross_cert_path(ws, root.name)
    &&& id_text(signed.key_id) == crate::x509::key_id_text(cross)
}

/// Whether `e` says why there is no file of the cross-certificate `cross` for `root`.
pub open spec fn is_file_fault(root: RootModel, cross: Seq<u8>, e: SignError) -> bool {
    if !keeps_key_id(cross, root) {
        says_key_id_changed(cross, root, e)
    } else {
        &&& crate::crypto::certificate_pem(cross) is None
        &&& e matches SignError::Certificate(cause)
        &&& cause.is_openssl(Operation::EncodeCertificate)
    }
}

/// The file of a cross-certificate, once it was signed.
///
/// # Errors
/// If its key identifier is not the root's, or OpenSSL cannot encode it.
pub fn cross_file(ws: &Workspace, root: &ForeignRoot, cross: &Certificate) -> (r: Result<
    Signed,
    SignError,
>)
    ensures
        r is Ok == (keeps_key_id(cross@, root@) && crate::crypto::certificate_pem(cross@) is Some),
        match r {
            Ok(signed) => is_cross_file(ws@, root@, cross@, signed),
            Err(e) => is_file_fault(root@, cross@, e),
        },
{
    // Fatal, never a warning: a changed SKI means sub-CA authorityKeyIdentifier no
    // longer resolves and chains silently fail to build.
    let before = ski_hex(&root.cert);
    let after = ski_hex(cross);
    if !same_key_id(&before, &after) {
        return Err(SignError::KeyIdChanged { name: root.name.clone(), before, after });
    }
    match cross.to_pem() {
        Ok(contents) => Ok(
            Signed {
                write: FileWrite { path: ws.cross_cert(root.name.as_str()), contents },
                key_id: after,
            },
        ),
        Err(cause) => Err(SignError::Certificate(cause)),
    }
}

/// Whether `e` may be why there is no cross-certificate for `root`: OpenSSL did not sign one,
/// or there is no file of the one it signed.
pub open spec fn is_sign_fault(
    local: Seq<u8>,
    pkcs8: Seq<u8>,
    cfg: Config,
    root: RootModel,
    e: SignError,
) -> bool {
    ||| e matches SignError::Certificate(cause) && crate::x509::is_cross_fault(
        local,
        root.cert,
        cfg.constraints,
        cause,
    )
    ||| exists|der: Seq<u8>|
        {
            &&& #[trigger] constrains(der, local, pkcs8, cfg, root)
            &&& is_file_fault(root, der, e)
            // The identifier of a root that OpenSSL would give it is kept.
            &&& e is KeyIdChanged ==> crate::crypto::certificate_key_id(root.cert) != Some(
                crate::crypto::key_identifier(
                    crate::crypto::certificate_public_key(root.cert)->0,
                ),
            )
        }
}

/// Signs the cross-certificate of one root.
///
/// # Errors
/// If OpenSSL reports an error, or the key identifier changed.
pub fn sign_one(
    ws: &Workspace,
    cfg: &Config,
    root: &ForeignRoot,
    local: &Certificate,
    key: &PrivateKey,
) -> (r: Result<Signed, SignError>)
    requires
        is_signable(*cfg),
    ensures
        match r {
            Ok(signed) => is_signed(ws@, local@, key@, *cfg, root@, signed),
            Err(e) => is_sign_fault(local@, key@, *cfg, root@, e),
        },
{
    let cross = match cross_sign(
        local,
        key,
        &root.cert,
        &cfg.constraints,
        cfg.signing.cross_days,
        cfg.signing.path_len,
    ) {
        Ok(cross) => cross,
        Err(cause) => return Err(SignError::Certificate(cause)),
    };
    assert(constrains(cross@, local@, key@, *cfg, root@));
    cross_file(ws, root, &cross)
}

/// What signing the cross-certificates came to.
#[derive(Debug)]
pub struct Resigned {
    /// The cross-certificates that were signed, in the order of the roots. They are written
    /// whether or not a later one failed.
    pub signed: Vec<Signed>,
    /// Why the next one was not signed, if there is a next one.
    pub failure: Option<SignError>,
}

/// Signs the cross-certificate of every root, up to the first that fails.
pub fn resign(
    ws: &Workspace,
    cfg: &Config,
    roots: &Vec<ForeignRoot>,
    local: &Certificate,
    key: &PrivateKey,
) -> (r: Resigned)
    requires
        is_signable(*cfg),
    ensures
        r.signed@.len() <= roots@.len(),
        forall|i: int|
            0 <= i < r.signed@.len() ==> is_signed(
                ws@,
                local@,
                key@,
                *cfg,
                roots@[i]@,
                #[trigger] r.signed@[i],
            ),
        match r.failure {
            None => r.signed@.len() == roots@.len(),
            Some(e) => r.signed@.len() < roots@.len() && is_sign_fault(
                local@,
                key@,
                *cfg,
                roots@[r.signed@.len() as int]@,
                e,
            ),
        },
{
    let mut signed: Vec<Signed> = Vec::new();
    for i in 0..roots.len()
        invariant
            is_signable(*cfg),
            signed@.len() == i,
            forall|j: int|
                0 <= j < i ==> is_signed(
                    ws@,
                    local@,
                    key@,
                    *cfg,
                    roots@[j]@,
                    #[trigger] signed@[j],
                ),
    {
        match sign_one(ws, cfg, &roots[i], local, key) {
            Ok(one) => signed.push(one),
            Err(e) => return Resigned { signed, failure: Some(e) },
        }
    }
    Resigned { signed, failure: None }
}

/// Whatever is written for a root loads back as a certificate with the subject, the public
/// key and the key identifier of that root, issued by the local root and with a signature
/// that holds.
pub proof fn lemma_signed_files_stand_in_for_their_roots(
    ws: Seq<char>,
    local: Seq<u8>,
    pkcs8: Seq<u8>,
    cfg: Config,
    root: RootModel,
    signed: Signed,
)
    requires
        is_signed(ws, local, pkcs8, cfg, root, signed),
    ensures
        crate::x509::loaded(signed.write.contents@) matches Some(der) && {
            &&& crate::crypto::certificate_subject(der) == crate::crypto::certificate_subject(
                root.cert,
            )
            &&& crate::crypto::certificate_public_key(der)
                == crate::crypto::certificate_public_key(root.cert)
            &&& crate::x509::key_id_text(der) == crate::x509::key_id_text(root.cert)
            &&& crate::x509::key_fingerprint(der) == crate::x509::key_fingerprint(root.cert)
            &&& crate::crypto::certificate_issuer(der) == crate::crypto::certificate_subject(local)
            &&& crate::x509::signature_holds(der, pkcs8)
        },
{
}

/// What there is to say of a cross-certificate.
#[derive(Debug)]
pub struct CrossFacts {
    /// Where it stands.
    pub path: String,
    /// When it expires.
    pub expiry: String,
}

/// What there is to say of a root.
#[derive(Debug)]
pub struct RootFacts {
    /// Its name.
    pub name: String,
    /// Its Common Name, empty where it has none.
    pub cn: String,
    /// When it expires.
    pub expiry: String,
    /// The first half of the fingerprint of its key.
    pub key: String,
    /// Its cross-certificate, if it has one.
    pub cross: Option<CrossFacts>,
}

/// Whether `facts` are those of the cross-certificate in a file.
pub open spec fn are_cross_facts(path: Seq<char>, cert: Seq<u8>, facts: CrossFacts) -> bool {
    &&& facts.path@ == path
    &&& crate::crypto::certificate_not_after(cert) == Some(facts.expiry@)
}

/// Whether `facts` are those of a root and the file of its cross-certificate.
pub open spec fn are_facts(
    ws: Seq<char>,
    root: RootModel,
    file: Option<Vec<u8>>,
    facts: RootFacts,
) -> bool {
    &&& facts.name@ == root.name
    &&& facts.cn@ == match crate::x509::common_name(root.cert) {
        Some(cn) => cn,
        None => Seq::empty(),
    }
    &&& crate::crypto::certificate_not_after(root.cert) == Some(facts.expiry@)
    &&& crate::x509::key_fingerprint(root.cert) matches Some(fingerprint)
    &&& facts.key@ == fingerprint.take(32)
    &&& match file {
        None => facts.cross is None,
        Some(bytes) => {
            &&& crate::x509::loaded(bytes@) matches Some(cert)
            &&& facts.cross matches Some(cross)
            &&& are_cross_facts(crate::workspace::cross_cert_path(ws, root.name), cert, cross)
        },
    }
}

/// Whether `e` says that OpenSSL cannot tell when a certificate expires.
pub open spec fn no_expiry(cert: Seq<u8>, e: FileError) -> bool {
    &&& crate::crypto::certificate_not_after(cert) is None
    &&& e matches FileError::Certificate(cause)
    &&& cause.is_openssl(Operation::ReadValidity)
}

/// Whether `e` says why there are no facts of a root and the file of its cross-certificate.
pub open spec fn no_facts(
    ws: Seq<char>,
    root: RootModel,
    file: Option<Vec<u8>>,
    e: FileError,
) -> bool {
    if crate::crypto::certificate_not_after(root.cert) is None {
        no_expiry(root.cert, e)
    } else if crate::x509::key_fingerprint(root.cert) is None {
        e matches FileError::Certificate(cause) && crate::x509::no_fingerprint(root.cert, cause)
    } else {
        &&& file matches Some(bytes)
        &&& match crate::x509::loaded(bytes@) {
            None => e matches FileError::NotACertificate { path } && path@
                == crate::workspace::cross_cert_path(ws, root.name),
            Some(cert) => no_expiry(cert, e),
        }
    }
}

/// Tells what there is to say of a root, given what the file of its cross-certificate holds,
/// if there is such a file.
///
/// # Errors
/// If that file holds no certificate, or OpenSSL reports an error.
pub fn root_facts(ws: &Workspace, root: &ForeignRoot, file: &Option<Vec<u8>>) -> (r: Result<
    RootFacts,
    FileError,
>)
    requires
        crate::x509::any_readable(*file),
    ensures
        match r {
            Ok(facts) => are_facts(ws@, root@, *file, facts),
            Err(e) => no_facts(ws@, root@, *file, e),
        },
{
    let cn = match subject_cn(&root.cert) {
        Some(cn) => cn,
        None => String::new(),
    };
    assert(crate::x509::common_name(root.cert@) is None ==> cn@ =~= Seq::empty());
    let end = match expiry(&root.cert) {
        Ok(end) => end,
        Err(cause) => return Err(FileError::Certificate(cause)),
    };
    let fingerprint = match pubkey_fingerprint(&root.cert) {
        Ok(fingerprint) => fingerprint,
        Err(cause) => return Err(FileError::Certificate(cause)),
    };
    let half = slice_of(&chars_of(fingerprint.as_str()), 0, 32);
    assert(half@ =~= fingerprint@.take(32));
    let key = string_of(&half);
    let cross = match file {
        None => None,
        Some(bytes) => {
            let path = ws.cross_cert(root.name.as_str());
            match load_cert(bytes) {
                Ok(cert) => match expiry(&cert) {
                    Ok(cross_end) => Some(CrossFacts { path, expiry: cross_end }),
                    Err(cause) => return Err(FileError::Certificate(cause)),
                },
                Err(_) => return Err(FileError::NotACertificate { path }),
            }
        },
    };
    Ok(RootFacts { name: root.name.clone(), cn, expiry: end, key, cross })
}

/// What is written for a root stands in the place of its cross-certificate, loads back as a
/// certificate that re-issues that root under the local root, and kept its key identifier.
/// The certificate permits the configured names, for the configured time and path length.
pub proof fn lemma_signed_file_means(
    ws: Seq<char>,
    local: Seq<u8>,
    pkcs8: Seq<u8>,
    cfg: Config,
    root: RootModel,
    signed: Signed,
)
    requires
        is_signed(ws, local, pkcs8, cfg, root, signed),
    ensures
        signed.write.path@ == crate::path::path_joined(
            crate::path::path_joined(ws, "constrained"@),
            root.name + ".pem"@,
        ),
        crate::x509::loaded(signed.write.contents@) matches Some(der) && {
            &&& crate::x509::is_cross_certificate(
                der,
                local,
                pkcs8,
                root.cert,
                crate::x509::value_permitting(
                    cfg.constraints,
                    crate::text::texts(cfg.constraints.permitted_dns@),
                ),
                cfg.signing.cross_days,
                cfg.signing.path_len,
            )
            &&& crate::crypto::certificate_key_id(der) == crate::crypto::certificate_key_id(
                root.cert,
            )
            &&& match signed.key_id {
                Some(shown) => crate::crypto::certificate_key_id(der) matches Some(id)
                    && crate::verify::shows_bytes(shown@, id),
                None => crate::crypto::certificate_key_id(der) is None,
            }
        },
{
    let der = crate::x509::loaded(signed.write.contents@)->0;
    let ours = crate::crypto::certificate_key_id(der);
    let theirs = crate::crypto::certificate_key_id(root.cert);
    if ours is Some && theirs is Some {
        crate::x509::lemma_hex_injective(ours->0, theirs->0, true);
    }
    if let Some(id) = ours {
        let shown = crate::x509::hex_text(id, true);
        crate::x509::lemma_hex_length(id, true);
        assert forall|j: int| 0 <= j < id.len() implies crate::x509::hex_value(shown[3 * j])
            == Some((#[trigger] id[j]) as int / 16) && crate::x509::hex_value(shown[3 * j + 1])
            == Some(id[j] as int % 16) by {
            crate::x509::lemma_colon_hex_decodes(id, j);
        }
        assert forall|j: int| 0 <= j < id.len() - 1 implies (#[trigger] id[j] >= 0 && shown[3 * j
            + 2] == ':') by {
            crate::x509::lemma_colon_hex_decodes(id, j);
        }
    }
}

/// A changed key identifier is always an error, and an unchanged one never is: the file is
/// there exactly where the identifiers are the same and the certificate can be encoded.
pub proof fn lemma_changed_identifier_is_fatal(root: RootModel, cross: Seq<u8>, e: SignError)
    requires
        is_file_fault(root, cross, e),
    ensures
        e is KeyIdChanged <==> crate::crypto::certificate_key_id(cross)
            != crate::crypto::certificate_key_id(root.cert),
        e matches SignError::KeyIdChanged { name, .. } ==> name@ == root.name,
        e is Certificate ==> crate::crypto::certificate_pem(cross) is None,
{
    let ours = crate::crypto::certificate_key_id(cross);
    let theirs = crate::crypto::certificate_key_id(root.cert);
    if ours is Some && theirs is Some && crate::x509::key_id_text(cross)
        == crate::x509::key_id_text(root.cert) {
        crate::x509::lemma_hex_injective(ours->0, theirs->0, true);
    }
}

/// What the list says of a root: its name, its Common Name, when it expires, the first 32
/// digits of the digest of its key, and where its cross-certificate stands and when that
/// expires.
pub proof fn lemma_facts_means(
    ws: Seq<char>,
    root: RootModel,
    file: Option<Vec<u8>>,
    facts: RootFacts,
)
    requires
        are_facts(ws, root, file, facts),
    ensures
        facts.name@ == root.name,
        crate::x509::common_name(root.cert) matches Some(cn) ==> facts.cn@ == cn,
        crate::x509::common_name(root.cert) is None ==> facts.cn@.len() == 0,
        crate::crypto::certificate_not_after(root.cert) == Some(facts.expiry@),
        crate::crypto::certificate_public_key(root.cert) is Some,
        crate::crypto::sha256(crate::crypto::certificate_public_key(root.cert)->0)
            matches Some(digest) && (digest.len() == 32 ==> facts.key@.len() == 32 && forall|i: int|
            0 <= i < 16 ==> #[trigger] crate::x509::hex_byte(facts.key@, i) == Some(
                digest[i] as int,
            )),
        file is None ==> facts.cross is None,
        file matches Some(bytes) ==> crate::x509::loaded(bytes@) matches Some(cert) && (facts.cross
            matches Some(cross) && cross.path@ == crate::path::path_joined(
            crate::path::path_joined(ws, "constrained"@),
            root.name + ".pem"@,
        ) && crate::crypto::certificate_not_after(cert) == Some(cross.expiry@)),
{
    let digest = crate::crypto::sha256(
        crate::crypto::certificate_public_key(root.cert)->0,
    )->0;
    let text = crate::x509::key_fingerprint(root.cert)->0;
    crate::x509::lemma_hex_decodes_back(digest);
    if digest.len() == 32 {
        assert forall|i: int| 0 <= i < 16 implies #[trigger] crate::x509::hex_byte(
            facts.key@,
            i,
        ) == Some(digest[i] as int) by {
            assert(crate::x509::hex_byte(text, i) == Some(digest[i] as int));
            assert(facts.key@[2 * i] == text[2 * i] && facts.key@[2 * i + 1] == text[2 * i + 1]);
        }
    }
}

} // verus!
