//! What can go wrong.
use crate::text::{decimal, decimal_text};
use openssl::error::ErrorStack;
use vstd::prelude::*;

verus! {

/// What OpenSSL was asked for when it reported an error.
#[derive(Debug, Clone, Copy, PartialEq, Eq, Structural)]
pub enum Operation {
    /// Generating the key of a local root.
    GenerateKey,
    /// Making a name of a Common Name.
    SetCommonName,
    /// Putting a certificate together.
    BuildCertificate,
    /// Drawing the random bytes of a serial number.
    DrawSerial,
    /// Signing a local root.
    SignRoot,
    /// Signing a cross-certificate.
    SignCross,
    /// Reading the subject of a certificate.
    ReadSubject,
    /// Reading the issuer of a certificate.
    ReadIssuer,
    /// Reading a public key.
    ReadPublicKey,
    /// Hashing a public key.
    HashKey,
    /// Hashing a certificate.
    HashCertificate,
    /// Rendering a certificate as text.
    RenderText,
    /// Encoding name constraints.
    EncodeNameConstraints,
    /// Encoding a certificate.
    EncodeCertificate,
    /// Encoding a private key.
    EncodeKey,
    /// Reading the validity of a certificate.
    ReadValidity,
    /// Validating a chain.
    VerifyChain,
}

impl Operation {
    /// The operation in words.
    pub open spec fn words(self) -> Seq<char> {
        match self {
            Operation::GenerateKey => "generating root key"@,
            Operation::SetCommonName => "setting common name"@,
            Operation::BuildCertificate => "building certificate"@,
            Operation::DrawSerial => "drawing serial bytes"@,
            Operation::SignRoot => "self-signing root"@,
            Operation::SignCross => "signing cross-certificate"@,
            Operation::ReadSubject => "subject DN"@,
            Operation::ReadIssuer => "issuer DN"@,
            Operation::ReadPublicKey => "public key"@,
            Operation::HashKey => "hashing key"@,
            Operation::HashCertificate => "hashing cert"@,
            Operation::RenderText => "rendering certificate"@,
            Operation::EncodeNameConstraints => "encoding nameConstraints"@,
            Operation::EncodeCertificate => "encoding certificate"@,
            Operation::EncodeKey => "encoding key"@,
            Operation::ReadValidity => "reading validity"@,
            Operation::VerifyChain => "verifying chain"@,
        }
    }

    /// The operation in words.
    pub fn describe(self) -> (r: &'static str)
        ensures
            r@ == self.words(),
    {
        match self {
            Operation::GenerateKey => "generating root key",
            Operation::SetCommonName => "setting common name",
            Operation::BuildCertificate => "building certificate",
            Operation::DrawSerial => "drawing serial bytes",
            Operation::SignRoot => "self-signing root",
            Operation::SignCross => "signing cross-certificate",
            Operation::ReadSubject => "subject DN",
            Operation::ReadIssuer => "issuer DN",
            Operation::ReadPublicKey => "public key",
            Operation::HashKey => "hashing key",
            Operation::HashCertificate => "hashing cert",
            Operation::RenderText => "rendering certificate",
            Operation::EncodeNameConstraints => "encoding nameConstraints",
            Operation::EncodeCertificate => "encoding certificate",
            Operation::EncodeKey => "encoding key",
            Operation::ReadValidity => "reading validity",
            Operation::VerifyChain => "verifying chain",
        }
    }
}

/// An error of this library.
#[derive(Debug)]
pub enum Error {
    /// The bytes are no certificate, neither in PEM nor in DER.
    NotACertificate,
    /// The bytes are no PEM private key.
    NotAPrivateKey,
    /// A Common Name must not be empty.
    EmptyCommonName,
    /// A Common Name of `bytes` bytes is too long.
    CommonNameTooLong { bytes: usize },
    /// No DNS name is permitted.
    NoPermittedNames,
    /// The text of a certificate is not UTF-8.
    TextNotUtf8,
    /// OpenSSL reported `cause`.
    OpenSsl { operation: Operation, cause: ErrorStack },
}

impl Error {
    /// Whether this is an error that OpenSSL reported during `operation`.
    pub open spec fn is_openssl(self, operation: Operation) -> bool {
        self matches Error::OpenSsl { operation: o, .. } && o == operation
    }

    /// The error in words.
    pub open spec fn words(self) -> Seq<char> {
        match self {
            Error::NotACertificate => "not a PEM or DER certificate"@,
            Error::NotAPrivateKey => "parsing key"@,
            Error::EmptyCommonName => "common name must not be empty"@,
            Error::CommonNameTooLong { bytes } => "common name is "@ + decimal(bytes as nat)
                + " bytes; the X.509 upper bound is 64"@,
            Error::NoPermittedNames => "no permitted DNS names -- the certificate would trust nothing"@,
            Error::TextNotUtf8 => "certificate text was not UTF-8"@,
            Error::OpenSsl { operation, .. } => operation.words(),
        }
    }

    /// The error in words, without what OpenSSL says of it.
    pub fn describe(&self) -> (r: String)
        ensures
            r@ == self.words(),
    {
        match self {
            Error::NotACertificate => "not a PEM or DER certificate".to_owned(),
            Error::NotAPrivateKey => "parsing key".to_owned(),
            Error::EmptyCommonName => "common name must not be empty".to_owned(),
            Error::CommonNameTooLong { bytes } => {
                let mut out = "common name is ".to_owned();
                out.append(decimal_text(*bytes).as_str());
                out.append(" bytes; the X.509 upper bound is 64");
                out
            },
            Error::NoPermittedNames =>
                "no permitted DNS names -- the certificate would trust nothing".to_owned(),
            Error::TextNotUtf8 => "certificate text was not UTF-8".to_owned(),
            Error::OpenSsl { operation, .. } => operation.describe().to_owned(),
        }
    }
}

/// What is wrong with a file.
#[derive(Debug)]
pub enum FileError {
    /// A file holds no certificate.
    NotACertificate {
        /// Where the file stands.
        path: String,
    },
    /// A file cannot be read.
    Unreadable {
        /// Where the file stands.
        path: String,
    },
    /// A certificate or a key cannot be used.
    Certificate(Error),
}

impl FileError {
    /// The error in words.
    pub open spec fn words(self) -> Seq<char> {
        match self {
            FileError::NotACertificate { path } => path@ + " is not a PEM or DER certificate"@,
            FileError::Unreadable { path } => "reading "@ + path@,
            FileError::Certificate(cause) => cause.words(),
        }
    }

    /// The error in words, without what OpenSSL says of it.
    pub fn describe(&self) -> (r: String)
        ensures
            r@ == self.words(),
    {
        let mut out = String::new();
        match self {
            FileError::NotACertificate { path } => {
                out.append(path.as_str());
                out.append(" is not a PEM or DER certificate");
            },
            FileError::Unreadable { path } => {
                out.append("reading ");
                out.append(path.as_str());
            },
            FileError::Certificate(cause) => return cause.describe(),
        }
        assert(out@ =~= self.words());
        out
    }
}

/// Turns an outcome of an OpenSSL call into one of this library.
pub(crate) fn checked<T>(outcome: Result<T, ErrorStack>, operation: Operation) -> (r: Result<
    T,
    Error,
>)
    ensures
        match outcome {
            Ok(value) => r == Ok::<T, Error>(value),
            Err(_) => r matches Err(e) && e.is_openssl(operation),
        },
{
    match outcome {
        Ok(value) => Ok(value),
        Err(cause) => Err(Error::OpenSsl { operation, cause }),
    }
}

/// A message about a file names it, and one about a Common Name says how long it is.
pub proof fn lemma_messages_say_what_they_are_about(e: Error, f: FileError)
    ensures
        e matches Error::CommonNameTooLong { bytes } ==> e.words() == "common name is "@ + decimal(
            bytes as nat,
        ) + " bytes; the X.509 upper bound is 64"@,
        f matches FileError::NotACertificate { path } ==> f.words() == path@
            + " is not a PEM or DER certificate"@,
        f matches FileError::Unreadable { path } ==> f.words() == "reading "@ + path@,
        f matches FileError::Certificate(cause) ==> f.words() == cause.words(),
{
}

} // verus!
