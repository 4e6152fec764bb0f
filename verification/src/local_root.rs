//! Making and replacing the local root.
use crate::config::{Config, MAX_CN_BYTES};
use crate::error::Error;
use crate::roots::FileWrite;
use crate::text::{chars_of, decimal_text, holds_char, same_text, string_of, trim};
use crate::workspace::Workspace;
use crate::x509::{Certificate, PrivateKey};
use vstd::prelude::*;

verus! {

/// What a new workspace begins with.
#[derive(Debug)]
pub struct Beginning {
    /// The directories to create, in order.
    pub create: Vec<String>,
    /// The configuration to save then.
    pub config: Config,
}

/// Begins a new workspace with no permitted domains, unless it has a local root already.
pub fn init(ws: &Workspace, has_root: bool) -> (r: Option<Beginning>)
    ensures
        r is None == has_root,
        r matches Some(beginning) ==> {
            &&& crate::text::texts(beginning.create@) == seq![
                crate::workspace::roots_path(ws@),
                crate::workspace::constrained_path(ws@),
            ]
            &&& beginning.config.constraints.permitted_dns@.len() == 0
            &&& beginning.config.constraints.exclude_ip
            &&& beginning.config.constraints.exclude_email
            &&& beginning.config.constraints.exclude_uri
            &&& beginning.config.signing == (crate::config::Signing {
                cross_days: crate::config::DEFAULT_CROSS_DAYS,
                root_days: crate::config::DEFAULT_ROOT_DAYS,
                path_len: crate::config::DEFAULT_PATH_LEN,
            })
        },
{
    if has_root {
        return None;
    }
    let create = ws.ensure_dirs();
    assert(crate::text::texts(create@) =~= seq![
        crate::workspace::roots_path(ws@),
        crate::workspace::constrained_path(ws@),
    ]);
    Some(Beginning { create, config: Config::new(Vec::new()) })
}

/// The files of a local root.
#[derive(Debug)]
pub struct RootFiles {
    /// The certificate.
    pub cert: FileWrite,
    /// The private key. Nobody but its owner may read it.
    pub key: FileWrite,
}

/// Renders the files of a local root, the certificate first.
///
/// # Errors
/// If OpenSSL cannot encode the certificate or the key.
pub fn root_files(ws: &Workspace, cert: &Certificate, key: &PrivateKey) -> (r: Result<
    RootFiles,
    Error,
>)
    ensures
        match r {
            Ok(files) => {
                &&& files.cert.path@ == crate::workspace::root_cert_path(ws@)
                &&& crate::roots::holds_certificate(files.cert, cert@)
                &&& files.key.path@ == crate::workspace::root_key_path(ws@)
                &&& crate::x509::saves_key(key@, files.key.contents@)
            },
            Err(e) => {
                ||| crate::crypto::certificate_pem(cert@) is None && e.is_openssl(
                    crate::error::Operation::EncodeCertificate,
                )
                ||| crate::crypto::private_key_pem(key@) is None && e.is_openssl(
                    crate::error::Operation::EncodeKey,
                )
            },
        },
{
    let cert_pem = cert.to_pem()?;
    let key_pem = key.to_pem()?;
    Ok(
        RootFiles {
            cert: FileWrite { path: ws.root_cert(), contents: cert_pem },
            key: FileWrite { path: ws.root_key(), contents: key_pem },
        },
    )
}

/// Why a Common Name is not accepted.
#[derive(Debug, Clone, Copy, PartialEq, Eq, Structural)]
pub enum CnError {
    /// It holds a slash.
    Slash,
    /// It holds an equals sign: it looks like a whole DN.
    Equals,
    /// It is too long, with this number of bytes.
    TooLong(usize),
}

impl CnError {
    /// The error in words.
    pub open spec fn words(self) -> Seq<char> {
        match self {
            CnError::Slash => "common name не должен содержать '/'"@,
            CnError::Equals =>
                "common name не должен содержать '=' -- передайте только имя, а не полный DN"@,
            CnError::TooLong(bytes) => "длина common name -- "@ + crate::text::decimal(
                bytes as nat,
            ) + " байт; предел X.509 -- 64"@,
        }
    }

    /// The error in words.
    pub fn describe(self) -> (r: String)
        ensures
            r@ == self.words(),
    {
        let mut out = String::new();
        match self {
            CnError::Slash => out.append("common name не должен содержать '/'"),
            CnError::Equals => out.append(
                "common name не должен содержать '=' -- передайте только имя, а не полный DN",
            ),
            CnError::TooLong(bytes) => {
                out.append("длина common name -- ");
                out.append(decimal_text(bytes).as_str());
                out.append(" байт; предел X.509 -- 64");
            },
        }
        assert(out@ =~= self.words());
        out
    }
}

/// Checks the Common Name for a new local root.
///
/// # Errors
/// If it holds a slash or an equals sign, or exceeds [`MAX_CN_BYTES`].
pub fn check_cn(cn: &str) -> (r: Result<(), CnError>)
    ensures
        r == (if cn@.contains('/') {
            Err::<(), CnError>(CnError::Slash)
        } else if cn@.contains('=') {
            Err(CnError::Equals)
        } else if vstd::utf8::encode_utf8(cn@).len() > MAX_CN_BYTES {
            Err(CnError::TooLong(vstd::utf8::encode_utf8(cn@).len() as usize))
        } else {
            Ok(())
        }),
{
    let chars = chars_of(cn);
    if holds_char(&chars, '/') {
        return Err(CnError::Slash);
    }
    if holds_char(&chars, '=') {
        return Err(CnError::Equals);
    }
    let bytes: usize = cn.as_bytes().len();
    if bytes > MAX_CN_BYTES {
        return Err(CnError::TooLong(bytes));
    }
    Ok(())
}

/// The lower case of the letters that an affirmative answer is made of.
pub open spec fn answer_lower(c: char) -> char {
    if c == 'Y' {
        'y'
    } else if c == 'E' {
        'e'
    } else if c == 'S' {
        's'
    } else if c == 'Д' {
        'д'
    } else if c == 'А' {
        'а'
    } else {
        c
    }
}

/// Whether an answer means yes: `y`, `yes`, `д` or `да`, in upper or lower case and with
/// white space around it.
pub open spec fn affirmative(line: Seq<char>) -> bool {
    let answer = crate::text::trimmed(line).map_values(|c: char| answer_lower(c));
    answer == "y"@ || answer == "yes"@ || answer == "д"@ || answer == "да"@
}

/// Returns true when an answer means yes.
///
/// Both the Latin and the Cyrillic affirmative are accepted: the prompt is Russian, but
/// `y` is what a keyboard left on the English layout produces.
pub fn is_affirmative(line: &str) -> (r: bool)
    ensures
        r == affirmative(line@),
{
    let trimmed = trim(&chars_of(line));
    let mut lower: Vec<char> = Vec::new();
    let ghost answer = trimmed@.map_values(|c: char| answer_lower(c));
    for i in 0..trimmed.len()
        invariant
            answer == trimmed@.map_values(|c: char| answer_lower(c)),
            lower@ == answer.take(i as int),
    {
        let c: char = trimmed[i];
        let folded: char = match c {
            'Y' => 'y',
            'E' => 'e',
            'S' => 's',
            'Д' => 'д',
            'А' => 'а',
            _ => c,
        };
        lower.push(folded);
        assert(answer.take(i + 1) =~= answer.take(i as int).push(folded));
    }
    assert(answer.take(answer.len() as int) =~= answer);
    let text = string_of(&lower);
    same_text(text.as_str(), "y") || same_text(text.as_str(), "yes") || same_text(
        text.as_str(),
        "д",
    ) || same_text(text.as_str(), "да")
}

/// Which answers mean yes: `y`, `yes`, `д` and `да`, each letter in upper or lower case, and
/// no others.
pub proof fn lemma_affirmative_means(line: Seq<char>)
    ensures
        affirmative(line) <==> {
            let answer = crate::text::trimmed(line);
            ||| answer.len() == 1 && (answer[0] == 'y' || answer[0] == 'Y' || answer[0] == 'д'
                || answer[0] == 'Д')
            ||| answer.len() == 2 && (answer[0] == 'д' || answer[0] == 'Д') && (answer[1] == 'а'
                || answer[1] == 'А')
            ||| answer.len() == 3 && (answer[0] == 'y' || answer[0] == 'Y') && (answer[1] == 'e'
                || answer[1] == 'E') && (answer[2] == 's' || answer[2] == 'S')
        },
{
    reveal_strlit("y");
    reveal_strlit("yes");
    reveal_strlit("д");
    reveal_strlit("да");
    let answer = crate::text::trimmed(line);
    let lower = answer.map_values(|c: char| answer_lower(c));
    if answer.len() == 1 {
        assert(lower[0] == answer_lower(answer[0]));
        assert(lower == "y"@ <==> lower[0] == 'y') by {
            if lower[0] == 'y' {
                assert(lower =~= "y"@);
            }
        }
        assert(lower == "д"@ <==> lower[0] == 'д') by {
            if lower[0] == 'д' {
                assert(lower =~= "д"@);
            }
        }
    } else if answer.len() == 2 {
        assert(lower[0] == answer_lower(answer[0]) && lower[1] == answer_lower(answer[1]));
        if lower[0] == 'д' && lower[1] == 'а' {
            assert(lower =~= "да"@);
        }
    } else if answer.len() == 3 {
        assert(lower[0] == answer_lower(answer[0]) && lower[1] == answer_lower(answer[1])
            && lower[2] == answer_lower(answer[2]));
        if lower[0] == 'y' && lower[1] == 'e' && lower[2] == 's' {
            assert(lower =~= "yes"@);
        }
    }
    assert(lower.len() == answer.len());
}

} // verus!
