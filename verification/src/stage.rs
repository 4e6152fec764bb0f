//! Produces the installable artifacts: policy and installer.
//!
//! Two things are written into the workspace:
//!
//! - `install-certs.ps1` with the certificates embedded, so it can be shared as one file,
//!   plus `install-certs.cmd`, a double-clickable wrapper that gets past the default
//!   execution policy without changing it.
//! - `constrained-ca-policy.reg`, applying `CACertificatesWithConstraints` to the
//!   *original* roots. Chrome and Edge need no cross-certificate at all.
//!
//! Loose `.crt` copies are deliberately not written: every certificate is already embedded
//! in the installer.
//!
//! The permitted list written into the policy is read back out of the **signed
//! certificates**, never from configuration. Deriving it from configuration allows a
//! config edit without a re-sign to produce a policy that does not match any certificate.
use crate::encoding::{
    base64_encode, json_array, json_object, json_render, json_string,
};
use crate::error::Error;
use crate::path::join_path;
use crate::roots::{FileWrite, ForeignRoot, RootModel};
use crate::text::{chars_of, cut, decimal_text, has_suffix, join, replace, same_text, same_texts};
use crate::workspace::Workspace;
use crate::x509::{load_cert, permitted_dns, Certificate};
use vstd::prelude::*;

verus! {

/// CIDR range allowed by the Chrome policy.
///
/// Chrome treats an absent constraint type as unconstrained, so omitting this would let
/// the CA vouch for any bare-IP certificate. Loopback is the narrowest range that is
/// unambiguously present.
pub open spec fn policy_permitted_cidr() -> Seq<char> {
    "127.0.0.1/32"@
}

/// Marker in the installer template replaced by the embedded certificate block.
pub open spec fn embed_marker() -> Seq<char> {
    "#<<<EMBEDDED>>>"@
}

/// Line width for embedded base64, matching PEM convention.
pub const B64_WRAP: usize = 76;

// Line endings.

/// `s` with every line ending, `\n` or `\r\n`, written as `\r\n`.
pub open spec fn crlf(s: Seq<char>) -> Seq<char>
    decreases s.len(),
{
    if s.len() == 0 {
        s
    } else if s.len() > 1 && s[0] == '\r' && s[1] == '\n' {
        seq!['\r', '\n'] + crlf(s.skip(2))
    } else if s[0] == '\n' {
        seq!['\r', '\n'] + crlf(s.skip(1))
    } else {
        seq![s[0]] + crlf(s.skip(1))
    }
}

/// Taking the carriage returns away and putting them back normalises line endings.
pub proof fn lemma_crlf_by_replacing(s: Seq<char>)
    ensures
        crate::text::replaced(crate::text::replaced(s, "\r\n"@, "\n"@), "\n"@, "\r\n"@) == crlf(s),
    decreases s.len(),
{
    reveal_strlit("\r\n");
    reveal_strlit("\n");
    let lf = "\n"@;
    let cr_lf = "\r\n"@;
    assert(cr_lf =~= seq!['\r', '\n']);
    assert(lf =~= seq!['\n']);
    if s.len() > 0 {
        let plain = crate::text::replaced(s, cr_lf, lf);
        if crate::text::starts_with(s, cr_lf) {
            assert(s.subrange(0, 2)[0] == s[0] && s.subrange(0, 2)[1] == s[1]);
            lemma_crlf_by_replacing(s.skip(2));
            let rest = crate::text::replaced(s.skip(2), cr_lf, lf);
            assert(plain == lf + rest);
            assert(plain.subrange(0, 1) =~= lf);
            assert(plain.skip(1) =~= rest);
        } else {
            assert(!(s.len() > 1 && s[0] == '\r' && s[1] == '\n')) by {
                if s.len() > 1 && s[0] == '\r' && s[1] == '\n' {
                    assert(s.subrange(0, 2) =~= cr_lf);
                }
            }
            lemma_crlf_by_replacing(s.skip(1));
            let rest = crate::text::replaced(s.skip(1), cr_lf, lf);
            assert(plain == seq![s[0]] + rest);
            assert(plain.skip(1) =~= rest);
            if s[0] == '\n' {
                assert(plain.subrange(0, 1) =~= lf);
            } else {
                assert(plain.subrange(0, 1)[0] != lf[0]);
            }
        }
    } else {
        assert(crate::text::replaced(s, cr_lf, lf) == s);
    }
}

/// Normalises line endings to CRLF, which both PowerShell and `cmd.exe` expect.
pub fn to_crlf(text: &str) -> (r: String)
    ensures
        r@ == crlf(text@),
{
    proof {
        reveal_strlit("\r\n");
        reveal_strlit("\n");
        lemma_crlf_by_replacing(text@);
    }
    replace(replace(text, "\r\n", "\n").as_str(), "\n", "\r\n")
}

/// Normalising line endings twice changes no more than doing it once.
pub proof fn lemma_crlf_is_idempotent(s: Seq<char>)
    ensures
        crlf(crlf(s)) == crlf(s),
    decreases s.len(),
{
    if s.len() > 0 {
        if s.len() > 1 && s[0] == '\r' && s[1] == '\n' {
            lemma_crlf_is_idempotent(s.skip(2));
            assert(crlf(s).skip(2) =~= crlf(s.skip(2)));
        } else if s[0] == '\n' {
            lemma_crlf_is_idempotent(s.skip(1));
            assert(crlf(s).skip(2) =~= crlf(s.skip(1)));
        } else {
            lemma_crlf_is_idempotent(s.skip(1));
            assert(crlf(s).skip(1) =~= crlf(s.skip(1)));
            // A carriage return on its own is not followed by a line feed.
            if s[0] == '\r' && s.len() > 1 {
                assert(s.skip(1)[0] != '\n');
                assert(crlf(s.skip(1))[0] != '\n');
            }
        }
    }
}

/// After normalising, a carriage return stands before every line feed.
pub proof fn lemma_crlf_has_no_bare_line_feed(s: Seq<char>)
    ensures
        forall|i: int|
            0 <= i < crlf(s).len() && #[trigger] crlf(s)[i] == '\n' ==> i > 0 && crlf(s)[i - 1]
                == '\r',
    decreases s.len(),
{
    if s.len() > 0 {
        let all = crlf(s);
        let (head, rest) = if s.len() > 1 && s[0] == '\r' && s[1] == '\n' {
            (2int, s.skip(2))
        } else if s[0] == '\n' {
            (2int, s.skip(1))
        } else {
            (1int, s.skip(1))
        };
        lemma_crlf_has_no_bare_line_feed(rest);
        assert forall|i: int| 0 <= i < all.len() && #[trigger] all[i] == '\n' implies i > 0 && all[i
            - 1] == '\r' by {
            if i >= head {
                assert(all[i] == crlf(rest)[i - head]);
                assert(i - head > 0);
                assert(all[i - 1] == crlf(rest)[i - head - 1]);
            }
        }
    }
}

// UTF-16.

/// The UTF-16 code units of a character.
pub open spec fn utf16_units(c: char) -> Seq<u16> {
    let code = c as u32;
    if code < 0x10000 {
        seq![code as u16]
    } else {
        seq![
            (0xd800 + (code - 0x10000) / 0x400) as u16,
            (0xdc00 + (code - 0x10000) % 0x400) as u16,
        ]
    }
}

/// The bytes of UTF-16 code units, the low byte of each first.
pub open spec fn little_endian(units: Seq<u16>) -> Seq<u8>
    decreases units.len(),
{
    if units.len() == 0 {
        Seq::empty()
    } else {
        little_endian(units.drop_last()) + seq![
            (units.last() % 256) as u8,
            (units.last() / 256) as u8,
        ]
    }
}

/// A text in UTF-16, the low byte of each code unit first.
pub open spec fn utf16_bytes(text: Seq<char>) -> Seq<u8>
    decreases text.len(),
{
    if text.len() == 0 {
        Seq::empty()
    } else {
        utf16_bytes(text.drop_last()) + little_endian(utf16_units(text.last()))
    }
}

/// Appends a UTF-16 code unit, its low byte first.
fn push_unit(out: &mut Vec<u8>, unit: u16)
    ensures
        final(out)@ == old(out)@ + little_endian(seq![unit]),
{
    proof {
        assert(seq![unit].drop_last() =~= Seq::<u16>::empty());
        assert(little_endian(seq![unit].drop_last()) =~= Seq::<u8>::empty());
    }
    out.push((unit % 256) as u8);
    out.push((unit / 256) as u8);
    assert(out@ =~= old(out)@ + little_endian(seq![unit]));
}

/// Encodes text as UTF-16 little-endian with a byte order mark.
///
/// `regedit` rejects a `.reg` file that is not UTF-16 with a BOM.
pub fn to_utf16le_with_bom(text: &str) -> (r: Vec<u8>)
    ensures
        r@ == seq![0xffu8, 0xfeu8] + utf16_bytes(text@),
{
    let chars = chars_of(text);
    let mut out: Vec<u8> = Vec::new();
    out.push(0xff);
    out.push(0xfe);
    let ghost bom = seq![0xffu8, 0xfeu8];
    assert(out@ =~= bom + utf16_bytes(text@.take(0)));
    for i in 0..chars.len()
        invariant
            chars@ == text@,
            out@ == bom + utf16_bytes(text@.take(i as int)),
    {
        let c: char = chars[i];
        let code: u32 = c as u32;
        let ghost before = out@;
        proof {
            vstd::utf8::char_is_scalar(c);
        }
        if code < 0x10000 {
            push_unit(&mut out, code as u16);
        } else {
            let high: u32 = 0xd800 + (code - 0x10000) / 0x400;
            let low: u32 = 0xdc00 + (code - 0x10000) % 0x400;
            push_unit(&mut out, high as u16);
            push_unit(&mut out, low as u16);
            proof {
                let pair = seq![high as u16, low as u16];
                assert(pair.drop_last() =~= seq![high as u16]);
                assert(seq![low as u16].drop_last() =~= Seq::<u16>::empty());
                assert(little_endian(Seq::<u16>::empty()) =~= Seq::<u8>::empty());
                assert(little_endian(pair) =~= little_endian(seq![high as u16]) + little_endian(
                    seq![low as u16],
                ));
            }
        }
        assert(out@ =~= before + little_endian(utf16_units(c)));
        assert(text@.take(i + 1).drop_last() =~= text@.take(i as int));
        assert(out@ =~= bom + utf16_bytes(text@.take(i + 1)));
    }
    assert(text@.take(text@.len() as int) =~= text@);
    out
}

// The registry.

/// How a character is written inside a registry string.
pub open spec fn registry_char(c: char) -> Seq<char> {
    if c == '\\' || c == '"' {
        seq!['\\', c]
    } else {
        seq![c]
    }
}

/// How a text is written inside a registry string.
pub open spec fn registry_escaped(s: Seq<char>) -> Seq<char>
    decreases s.len(),
{
    if s.len() == 0 {
        s
    } else {
        registry_char(s[0]) + registry_escaped(s.skip(1))
    }
}

/// `s` with its backslashes doubled.
spec fn backslashes_doubled(s: Seq<char>) -> Seq<char>
    decreases s.len(),
{
    if s.len() == 0 {
        s
    } else if s[0] == '\\' {
        seq!['\\', '\\'] + backslashes_doubled(s.skip(1))
    } else {
        seq![s[0]] + backslashes_doubled(s.skip(1))
    }
}

/// Doubling the backslashes is replacing each by two.
proof fn lemma_doubled_by_replacing(s: Seq<char>)
    ensures
        crate::text::replaced(s, "\\"@, "\\\\"@) == backslashes_doubled(s),
    decreases s.len(),
{
    reveal_strlit("\\");
    reveal_strlit("\\\\");
    assert("\\"@ =~= seq!['\\']);
    assert("\\\\"@ =~= seq!['\\', '\\']);
    if s.len() > 0 {
        lemma_doubled_by_replacing(s.skip(1));
        if s[0] == '\\' {
            assert(s.subrange(0, 1) =~= seq!['\\']);
        } else {
            assert(s.subrange(0, 1)[0] != seq!['\\'][0]);
        }
    }
}

/// Escaping is doubling the backslashes and then putting one before each quote.
proof fn lemma_escaped_by_replacing(s: Seq<char>)
    ensures
        crate::text::replaced(backslashes_doubled(s), "\""@, "\\\""@) == registry_escaped(s),
    decreases s.len(),
{
    reveal_strlit("\"");
    reveal_strlit("\\\"");
    let quote = "\""@;
    let escaped = "\\\""@;
    assert(quote =~= seq!['"']);
    assert(escaped =~= seq!['\\', '"']);
    if s.len() > 0 {
        lemma_escaped_by_replacing(s.skip(1));
        let doubled = backslashes_doubled(s);
        let rest = backslashes_doubled(s.skip(1));
        if s[0] == '\\' {
            let tail = seq!['\\'] + rest;
            assert(doubled.subrange(0, 1)[0] != quote[0]);
            assert(doubled.skip(1) =~= tail);
            assert(tail.subrange(0, 1)[0] != quote[0]);
            assert(tail.skip(1) =~= rest);
            assert(crate::text::replaced(tail, quote, escaped) == seq!['\\']
                + crate::text::replaced(rest, quote, escaped));
            assert(crate::text::replaced(doubled, quote, escaped) =~= registry_escaped(s));
        } else if s[0] == '"' {
            assert(doubled.subrange(0, 1) =~= quote);
            assert(doubled.skip(1) =~= rest);
        } else {
            assert(doubled.subrange(0, 1)[0] != quote[0]);
            assert(doubled.skip(1) =~= rest);
        }
    }
}

/// Escapes a text for a registry string.
pub fn registry_escape(text: &str) -> (r: String)
    ensures
        r@ == registry_escaped(text@),
{
    proof {
        reveal_strlit("\\");
        reveal_strlit("\"");
        lemma_doubled_by_replacing(text@);
        lemma_escaped_by_replacing(text@);
    }
    replace(replace(text, "\\", "\\\\").as_str(), "\"", "\\\"")
}

/// What a registry string stands for: escaped quotes, and then escaped backslashes, are
/// taken for what they are.
pub open spec fn registry_unescaped(s: Seq<char>) -> Seq<char> {
    crate::text::replaced(crate::text::replaced(s, "\\\""@, "\""@), "\\\\"@, "\\"@)
}

/// Taking the escapes of the quotes away leaves the doubled backslashes.
proof fn lemma_quotes_unescaped(s: Seq<char>)
    ensures
        crate::text::replaced(registry_escaped(s), "\\\""@, "\""@) == backslashes_doubled(s),
    decreases s.len(),
{
    reveal_strlit("\"");
    reveal_strlit("\\\"");
    let quote = "\""@;
    let escaped = "\\\""@;
    assert(quote =~= seq!['"']);
    assert(escaped =~= seq!['\\', '"']);
    if s.len() > 0 {
        lemma_quotes_unescaped(s.skip(1));
        let all = registry_escaped(s);
        let rest = registry_escaped(s.skip(1));
        if s[0] == '"' {
            assert(all.subrange(0, 2) =~= escaped);
            assert(all.skip(2) =~= rest);
        } else if s[0] == '\\' {
            let tail = seq!['\\'] + rest;
            assert(all.subrange(0, 2)[1] != escaped[1]);
            assert(all.skip(1) =~= tail);
            // No escaped text starts with a quote.
            if rest.len() > 0 {
                assert(s.skip(1).len() > 0);
                assert(rest[0] == registry_char(s.skip(1)[0])[0]);
                assert(tail.subrange(0, 2)[1] != escaped[1]);
            }
            assert(!crate::text::starts_with(tail, escaped));
            assert(tail.skip(1) =~= rest);
            assert(crate::text::replaced(tail, escaped, quote) == seq!['\\']
                + crate::text::replaced(rest, escaped, quote));
            assert(crate::text::replaced(all, escaped, quote) =~= backslashes_doubled(s));
        } else {
            assert(all[0] == s[0]);
            assert(!crate::text::starts_with(all, escaped)) by {
                if crate::text::starts_with(all, escaped) {
                    assert(all.subrange(0, 2)[0] == escaped[0]);
                }
            }
            assert(all.skip(1) =~= rest);
        }
    }
}

/// Halving doubled backslashes gives the text back.
proof fn lemma_doubled_undone(s: Seq<char>)
    ensures
        crate::text::replaced(backslashes_doubled(s), "\\\\"@, "\\"@) == s,
    decreases s.len(),
{
    reveal_strlit("\\");
    reveal_strlit("\\\\");
    let one = "\\"@;
    let two = "\\\\"@;
    assert(one =~= seq!['\\']);
    assert(two =~= seq!['\\', '\\']);
    if s.len() > 0 {
        lemma_doubled_undone(s.skip(1));
        let all = backslashes_doubled(s);
        let rest = backslashes_doubled(s.skip(1));
        if s[0] == '\\' {
            assert(all.subrange(0, 2) =~= two);
            assert(all.skip(2) =~= rest);
        } else {
            assert(all[0] == s[0]);
            assert(!crate::text::starts_with(all, two)) by {
                if crate::text::starts_with(all, two) {
                    assert(all.subrange(0, 2)[0] == two[0]);
                }
            }
            assert(all.skip(1) =~= rest);
        }
        assert(crate::text::replaced(all, two, one) =~= s);
    }
}

/// Registry escaping loses nothing: unescaping what was escaped gives the text back.
pub proof fn lemma_registry_round_trip(s: Seq<char>)
    ensures
        registry_unescaped(registry_escaped(s)) == s,
{
    lemma_quotes_unescaped(s);
    lemma_doubled_undone(s);
}

// The policy.

/// The policy for one certificate, given in Base64: it is trusted for `names` and for the
/// loopback address only.
pub open spec fn policy_object(certificate: Seq<char>, names: Seq<Seq<char>>) -> Seq<char> {
    crate::encoding::json_pair(
        "certificate"@,
        crate::encoding::json_quoted(certificate),
        "constraints"@,
        crate::encoding::json_pair(
            "permitted_cidrs"@,
            crate::encoding::json_listed(
                seq![crate::encoding::json_quoted(policy_permitted_cidr())],
            ),
            "permitted_dns_names"@,
            crate::encoding::json_listed(quoted_names(names)),
        ),
    )
}

/// Each name as a JSON string.
pub open spec fn quoted_names(names: Seq<Seq<char>>) -> Seq<Seq<char>> {
    names.map_values(|n: Seq<char>| crate::encoding::json_quoted(n))
}

/// The keys of the policy stand in their order.
proof fn lemma_policy_keys_ordered()
    ensures
        crate::text::precedes("certificate"@, "constraints"@),
        crate::text::precedes("permitted_cidrs"@, "permitted_dns_names"@),
{
    reveal_strlit("certificate");
    reveal_strlit("constraints");
    reveal_strlit("permitted_cidrs");
    reveal_strlit("permitted_dns_names");
    crate::text::lemma_precedes_at("certificate"@, "constraints"@, 1);
    crate::text::lemma_precedes_at("permitted_cidrs"@, "permitted_dns_names"@, 10);
}

/// Renders the policy for one certificate.
fn policy_for(original: &Certificate, permitted: &Vec<String>) -> (r: String)
    ensures
        r@ == policy_object(
            crate::encoding::base64_text(original@),
            crate::text::texts(permitted@),
        ),
{
    let ghost names = crate::text::texts(permitted@);
    let mut listed: Vec<serde_json::Value> = Vec::new();
    assert(crate::encoding::json_texts(listed@) =~= quoted_names(names.take(0)));
    for i in 0..permitted.len()
        invariant
            names == crate::text::texts(permitted@),
            crate::encoding::json_texts(listed@) == quoted_names(names.take(i as int)),
    {
        let name = json_string(permitted[i].as_str());
        let ghost before = crate::encoding::json_texts(listed@);
        listed.push(name);
        assert(crate::encoding::json_texts(listed@) =~= before.push(
            crate::encoding::json_text(name),
        ));
        assert(names[i as int] == permitted@[i as int]@);
        assert(quoted_names(names.take(i + 1)) =~= quoted_names(names.take(i as int)).push(
            crate::encoding::json_quoted(names[i as int]),
        ));
    }
    assert(names.take(names.len() as int) =~= names);
    let mut ranges: Vec<serde_json::Value> = Vec::new();
    ranges.push(json_string("127.0.0.1/32"));
    assert(crate::encoding::json_texts(ranges@) =~= seq![
        crate::encoding::json_quoted(policy_permitted_cidr()),
    ]);
    proof {
        lemma_policy_keys_ordered();
    }
    let constraints = json_object(
        "permitted_cidrs",
        json_array(ranges),
        "permitted_dns_names",
        json_array(listed),
    );
    let certificate = json_string(base64_encode(original.der()).as_str());
    json_render(&json_object("certificate", certificate, "constraints", constraints))
}

/// The policy for each certificate.
pub open spec fn policy_objects(originals: Seq<RootModel>, names: Seq<Seq<char>>) -> Seq<Seq<char>> {
    originals.map_values(
        |r: RootModel| policy_object(crate::encoding::base64_text(r.cert), names),
    )
}

/// The registry values for a list of policies, numbered from one.
pub open spec fn value_lines(objects: Seq<Seq<char>>) -> Seq<Seq<char>> {
    objects.map(
        |i: int, object: Seq<char>|
            "\""@ + crate::text::decimal((i + 1) as nat) + "\"=\""@ + registry_escaped(object)
                + "\""@,
    )
}

/// The registry lines that set the policies for one browser.
pub open spec fn vendor_lines(vendor: Seq<char>, objects: Seq<Seq<char>>) -> Seq<Seq<char>> {
    seq![
        "[HKEY_LOCAL_MACHINE\\SOFTWARE\\Policies\\"@ + vendor + "\\CACertificatesWithConstraints]"@,
    ] + value_lines(objects) + seq![Seq::empty()]
}

/// The lines of the policy file.
pub open spec fn policy_lines(objects: Seq<Seq<char>>) -> Seq<Seq<char>> {
    seq!["Windows Registry Editor Version 5.00"@, Seq::empty()] + vendor_lines(
        "Google\\Chrome"@,
        objects,
    ) + vendor_lines("Microsoft\\Edge"@, objects)
}

/// What the policy file holds.
pub open spec fn policy_bytes(originals: Seq<RootModel>, names: Seq<Seq<char>>) -> Seq<u8> {
    seq![0xffu8, 0xfeu8] + utf16_bytes(
        crate::text::joined(policy_lines(policy_objects(originals, names)), "\r\n"@),
    )
}

/// Appends the registry lines that set the policies for one browser.
fn push_vendor(lines: &mut Vec<String>, vendor: &str, objects: &Vec<String>)
    ensures
        crate::text::texts(final(lines)@) == crate::text::texts(old(lines)@) + vendor_lines(
            vendor@,
            crate::text::texts(objects@),
        ),
{
    let ghost policies = crate::text::texts(objects@);
    let ghost all = vendor_lines(vendor@, policies);
    let ghost start = crate::text::texts(lines@);
    let mut header = "[HKEY_LOCAL_MACHINE\\SOFTWARE\\Policies\\".to_owned();
    header.append(vendor);
    header.append("\\CACertificatesWithConstraints]");
    lines.push(header);
    assert(crate::text::texts(lines@) =~= start + all.take(1));
    for i in 0..objects.len()
        invariant
            policies == crate::text::texts(objects@),
            all == vendor_lines(vendor@, policies),
            crate::text::texts(lines@) == start + all.take(i + 1),
    {
        let mut line = "\"".to_owned();
        line.append(decimal_text(i + 1).as_str());
        line.append("\"=\"");
        line.append(registry_escape(objects[i].as_str()).as_str());
        line.append("\"");
        let ghost before = crate::text::texts(lines@);
        lines.push(line);
        assert(policies[i as int] == objects@[i as int]@);
        assert(all[i + 1] == value_lines(policies)[i as int]);
        assert(line@ =~= all[i + 1]);
        assert(crate::text::texts(lines@) =~= before.push(line@));
        assert(crate::text::texts(lines@) =~= start + all.take(i + 2));
    }
    let ghost before = crate::text::texts(lines@);
    lines.push(String::new());
    assert(crate::text::texts(lines@) =~= before.push(Seq::empty()));
    assert(crate::text::texts(lines@) =~= start + all);
}

/// Renders the Chrome and Edge policy file for the roots, each trusted for `permitted`.
pub fn policy_file(roots: &Vec<ForeignRoot>, permitted: &Vec<String>) -> (r: Vec<u8>)
    ensures
        r@ == policy_bytes(crate::roots::models(roots@), crate::text::texts(permitted@)),
{
    let ghost names = crate::text::texts(permitted@);
    let ghost originals = crate::roots::models(roots@);
    let mut objects: Vec<String> = Vec::new();
    assert(crate::text::texts(objects@) =~= policy_objects(originals.take(0), names));
    for i in 0..roots.len()
        invariant
            names == crate::text::texts(permitted@),
            originals == crate::roots::models(roots@),
            crate::text::texts(objects@) == policy_objects(originals.take(i as int), names),
    {
        let object = policy_for(&roots[i].cert, permitted);
        let ghost before = crate::text::texts(objects@);
        objects.push(object);
        assert(originals[i as int] == roots@[i as int]@);
        assert(crate::text::texts(objects@) =~= before.push(object@));
        assert(policy_objects(originals.take(i + 1), names) =~= policy_objects(
            originals.take(i as int),
            names,
        ).push(object@));
    }
    assert(originals.take(originals.len() as int) =~= originals);
    let mut lines: Vec<String> = Vec::new();
    lines.push("Windows Registry Editor Version 5.00".to_owned());
    lines.push(String::new());
    assert(crate::text::texts(lines@) =~= seq![
        "Windows Registry Editor Version 5.00"@,
        Seq::<char>::empty(),
    ]);
    push_vendor(&mut lines, "Google\\Chrome", &objects);
    push_vendor(&mut lines, "Microsoft\\Edge", &objects);
    to_utf16le_with_bom(join(&lines, "\r\n").as_str())
}

// The installer.

/// A certificate as a PowerShell hashtable literal, its Base64 wrapped.
pub open spec fn embedded_entry(name: Seq<char>, kind: Seq<char>, cert: Seq<u8>) -> Seq<char> {
    "@{Name='"@ + name + "';Kind='"@ + kind + "';B64=@'\n"@ + crate::text::joined(
        crate::text::chunks(crate::encoding::base64_text(cert), B64_WRAP as nat),
        "\n"@,
    ) + "\n'@}"@
}

/// Renders one PowerShell hashtable literal holding a certificate.
pub fn embed_entry(name: &str, kind: &str, cert: &Certificate) -> (r: String)
    ensures
        r@ == embedded_entry(name@, kind@, cert@),
{
    let encoded = base64_encode(cert.der());
    let mut out = "@{Name='".to_owned();
    out.append(name);
    out.append("';Kind='");
    out.append(kind);
    out.append("';B64=@'\n");
    out.append(join(&cut(encoded.as_str(), B64_WRAP), "\n").as_str());
    out.append("\n'@}");
    out
}

/// The entries of the roots: for each its cross-certificate, then the original.
pub open spec fn root_entries(roots: Seq<RootModel>, crosses: Seq<Seq<u8>>) -> Seq<Seq<char>>
    decreases roots.len(),
{
    if roots.len() == 0 || roots.len() != crosses.len() {
        Seq::empty()
    } else {
        let root = roots.last();
        root_entries(roots.drop_last(), crosses.drop_last()).push(
            embedded_entry(root.name, "constrained"@, crosses.last()),
        ).push(embedded_entry(root.name, "original"@, root.cert))
    }
}

/// The block of certificates in the installer.
pub open spec fn embedded_block(
    local: Seq<u8>,
    roots: Seq<RootModel>,
    crosses: Seq<Seq<u8>>,
) -> Seq<char> {
    crate::text::joined(
        seq![embedded_entry("myroot"@, "root"@, local)] + root_entries(roots, crosses),
        "\n"@,
    )
}

/// What the installer holds: a byte order mark, and the template in UTF-8 with the
/// certificates in the place of the marker and with CRLF line endings.
pub open spec fn installer_bytes(
    template: Seq<char>,
    local: Seq<u8>,
    roots: Seq<RootModel>,
    crosses: Seq<Seq<u8>>,
) -> Seq<u8> {
    seq![0xefu8, 0xbbu8, 0xbfu8] + vstd::utf8::encode_utf8(
        crlf(
            crate::text::replaced(template, embed_marker(), embedded_block(local, roots, crosses)),
        ),
    )
}

/// Renders the installer with certificates embedded.
pub fn installer_file(
    template: &str,
    local: &Certificate,
    roots: &Vec<ForeignRoot>,
    crosses: &Vec<Certificate>,
) -> (r: Vec<u8>)
    requires
        roots@.len() == crosses@.len(),
        crate::text::contains_text(template@, embed_marker()),
    ensures
        r@ == installer_bytes(
            template@,
            local@,
            crate::roots::models(roots@),
            crate::probe::ders(crosses@),
        ),
{
    let ghost all = crate::roots::models(roots@);
    let ghost issued = crate::probe::ders(crosses@);
    let mut entries: Vec<String> = Vec::new();
    entries.push(embed_entry("myroot", "root", local));
    let ghost first = seq![embedded_entry("myroot"@, "root"@, local@)];
    assert(crate::text::texts(entries@) =~= first + root_entries(all.take(0), issued.take(0)));
    for i in 0..roots.len()
        invariant
            roots@.len() == crosses@.len(),
            all == crate::roots::models(roots@),
            issued == crate::probe::ders(crosses@),
            crate::text::texts(entries@) == first + root_entries(
                all.take(i as int),
                issued.take(i as int),
            ),
    {
        let ghost before = crate::text::texts(entries@);
        let cross = embed_entry(roots[i].name.as_str(), "constrained", &crosses[i]);
        let original = embed_entry(roots[i].name.as_str(), "original", &roots[i].cert);
        entries.push(cross);
        entries.push(original);
        assert(crate::text::texts(entries@) =~= before.push(cross@).push(original@));
        assert(all.take(i + 1).drop_last() =~= all.take(i as int));
        assert(issued.take(i + 1).drop_last() =~= issued.take(i as int));
        assert(all.take(i + 1).last() == roots@[i as int]@);
        assert(issued.take(i + 1).last() == crosses@[i as int]@);
        assert(crate::text::texts(entries@) =~= first + root_entries(
            all.take(i + 1),
            issued.take(i + 1),
        ));
    }
    assert(all.take(all.len() as int) =~= all);
    assert(issued.take(issued.len() as int) =~= issued);
    proof {
        reveal_strlit("#<<<EMBEDDED>>>");
    }
    let filled = replace(template, "#<<<EMBEDDED>>>", join(&entries, "\n").as_str());
    // UTF-8 with BOM and CRLF: Windows PowerShell 5.1 assumes the ANSI code page for a
    // BOM-less file, which mangles a non-ASCII root Common Name.
    let mut bytes: Vec<u8> = Vec::new();
    bytes.push(0xef);
    bytes.push(0xbb);
    bytes.push(0xbf);
    let text = to_crlf(filled.as_str());
    bytes.extend_from_slice(text.as_str().as_bytes());
    assert(bytes@ =~= installer_bytes(template@, local@, all, issued));
    bytes
}

/// Renders the wrapper of the installer.
///
/// It carries no BOM: cmd.exe would try to execute those bytes as part of the first line.
pub fn wrapper_file(wrapper: &str) -> (r: Vec<u8>)
    ensures
        r@ == vstd::utf8::encode_utf8(crlf(wrapper@)),
{
    let text = to_crlf(wrapper);
    let mut bytes: Vec<u8> = Vec::new();
    bytes.extend_from_slice(text.as_str().as_bytes());
    assert(bytes@ =~= vstd::utf8::encode_utf8(crlf(wrapper@)));
    bytes
}

// Files of earlier versions.

/// Files written by earlier versions of this tool, no longer produced.
///
/// They are deleted on every run so a stale copy cannot be imported by mistake.
pub open spec fn legacy_files() -> Seq<Seq<char>> {
    seq!["russian-root-constrained.crt"@, "russian_trusted_root_ca.crt"@, "myroot.crt"@]
}

/// Whether a file name is that of a loose certificate copy for one root.
pub open spec fn is_loose_copy(name: Seq<char>) -> bool {
    crate::text::ends_with(name, "-constrained.crt"@) || crate::text::ends_with(
        name,
        "-original.crt"@,
    )
}

/// Whether a file of the workspace is left over from an earlier version.
pub open spec fn is_stale(name: Seq<char>) -> bool {
    legacy_files().contains(name) || is_loose_copy(name)
}

/// Where the left over files among `names` stand.
pub open spec fn stale_paths(ws: Seq<char>, names: Seq<Seq<char>>) -> Seq<Seq<char>>
    decreases names.len(),
{
    if names.len() == 0 {
        Seq::empty()
    } else {
        let before = stale_paths(ws, names.drop_last());
        if is_stale(names.last()) {
            before.push(crate::path::path_joined(ws, names.last()))
        } else {
            before
        }
    }
}

/// Whether a file of the workspace is left over from an earlier version.
fn is_left_over(name: &str) -> (r: bool)
    ensures
        r == is_stale(name@),
{
    let chars = chars_of(name);
    let legacy: bool = same_text(name, "russian-root-constrained.crt") || same_text(
        name,
        "russian_trusted_root_ca.crt",
    ) || same_text(name, "myroot.crt");
    proof {
        let files = legacy_files();
        assert(files[0] == "russian-root-constrained.crt"@);
        assert(files[1] == "russian_trusted_root_ca.crt"@);
        assert(files[2] == "myroot.crt"@);
        if files.contains(name@) {
            let i = choose|i: int| 0 <= i < files.len() && files[i] == name@;
            assert(i == 0 || i == 1 || i == 2);
        }
    }
    legacy || has_suffix(&chars, &chars_of("-constrained.crt")) || has_suffix(
        &chars,
        &chars_of("-original.crt"),
    )
}

/// The files to remove, given the names of the files in the workspace: per-root files plus
/// the filenames of earlier versions.
pub fn clean_stale(ws: &Workspace, names: &Vec<String>) -> (r: Vec<String>)
    ensures
        crate::text::texts(r@) == stale_paths(ws@, crate::text::texts(names@)),
{
    let ghost all = crate::text::texts(names@);
    let mut out: Vec<String> = Vec::new();
    assert(crate::text::texts(out@) =~= stale_paths(ws@, all.take(0)));
    for i in 0..names.len()
        invariant
            all == crate::text::texts(names@),
            crate::text::texts(out@) == stale_paths(ws@, all.take(i as int)),
    {
        assert(all.take(i + 1).drop_last() =~= all.take(i as int));
        assert(all.take(i + 1).last() == names@[i as int]@);
        if is_left_over(names[i].as_str()) {
            let ghost before = crate::text::texts(out@);
            let path = join_path(ws.dir(), names[i].as_str());
            out.push(path);
            assert(crate::text::texts(out@) =~= before.push(path@));
        }
    }
    assert(all.take(all.len() as int) =~= all);
    out
}

// Everything together.

/// What a generation run produced.
#[derive(Debug)]
pub struct Staged {
    /// Directory written to.
    pub dir: String,
    /// Number of roots covered.
    pub roots: usize,
    /// Permitted domains, as read back from the signed certificates.
    pub domains: Vec<String>,
}

/// The files of a generation run, in the order in which they are written.
#[derive(Debug)]
pub struct Artifacts {
    /// The Chrome and Edge policy.
    pub policy: FileWrite,
    /// The installer.
    pub installer: FileWrite,
    /// The wrapper of the installer.
    pub wrapper: FileWrite,
    /// What was produced.
    pub staged: Staged,
}

/// Why no artifacts are generated.
#[derive(Debug)]
pub enum StageError {
    /// There is no root to generate artifacts for.
    NoRoots,
    /// A file holds no certificate.
    NotACertificate {
        /// Where the file stands.
        path: String,
    },
    /// A root has no cross-certificate.
    MissingCross {
        /// The name of the root.
        name: String,
    },
    /// A cross-certificate permits no DNS name.
    NothingPermitted {
        /// Where the cross-certificate stands.
        path: String,
    },
    /// The cross-certificates permit different names.
    ListsDiffer,
    /// A certificate cannot be examined.
    Certificate(Error),
}

impl StageError {
    /// The error in words.
    pub open spec fn words(self) -> Seq<char> {
        match self {
            StageError::NoRoots =>
                "нет корневых сертификатов, для которых создавать файлы установки"@,
            StageError::NotACertificate { path } => path@ + " is not a PEM or DER certificate"@,
            StageError::MissingCross { name } => "нет кросс-сертификата для "@ + name@
                + " -- выполните `rucerts resign`"@,
            StageError::NothingPermitted { path } => path@
                + " не разрешает ни одного DNS-имени -- файлы установки не создаются"@,
            StageError::ListsDiffer =>
                "кросс-сертификаты расходятся в разрешённых именах; действующей политикой стало бы их объединение. Выполните `rucerts resign`."@,
            StageError::Certificate(cause) => cause.words(),
        }
    }

    /// The error in words, without what OpenSSL says of it.
    pub fn describe(&self) -> (r: String)
        ensures
            r@ == self.words(),
    {
        let mut out = String::new();
        match self {
            StageError::NoRoots => out.append(
                "нет корневых сертификатов, для которых создавать файлы установки",
            ),
            StageError::NotACertificate { path } => {
                out.append(path.as_str());
                out.append(" is not a PEM or DER certificate");
            },
            StageError::MissingCross { name } => {
                out.append("нет кросс-сертификата для ");
                out.append(name.as_str());
                out.append(" -- выполните `rucerts resign`");
            },
            StageError::NothingPermitted { path } => {
                out.append(path.as_str());
                out.append(" не разрешает ни одного DNS-имени -- файлы установки не создаются");
            },
            StageError::ListsDiffer => out.append(
                "кросс-сертификаты расходятся в разрешённых именах; действующей политикой стало бы их объединение. Выполните `rucerts resign`.",
            ),
            StageError::Certificate(cause) => return cause.describe(),
        }
        assert(out@ =~= self.words());
        out
    }
}

/// The DNS names that a certificate permits, read back out of it.
pub open spec fn permitted_names(cert: Seq<u8>) -> Option<Seq<Seq<char>>> {
    match crate::x509::dump(cert) {
        Some(text) => Some(crate::x509::dumped_names(text)),
        None => None,
    }
}

/// The certificate in a file, if there is such a file and it holds one.
pub open spec fn file_cert(file: Option<Vec<u8>>) -> Option<Seq<u8>> {
    match file {
        Some(bytes) => crate::x509::loaded(bytes@),
        None => None,
    }
}

/// Whether the cross-certificate at position `i` permits names, and the same ones as the
/// first.
pub open spec fn cross_sound(crosses: Seq<Option<Vec<u8>>>, i: int) -> bool {
    &&& file_cert(crosses[i]) matches Some(cert)
    &&& permitted_names(cert) matches Some(names)
    &&& names.len() > 0
    &&& Some(names) == permitted_names(file_cert(crosses[0])->0)
}

/// Whether `e` says what is wrong with the cross-certificate at position `i`.
pub open spec fn cross_fault(
    ws: Seq<char>,
    roots: Seq<RootModel>,
    crosses: Seq<Option<Vec<u8>>>,
    i: int,
    e: StageError,
) -> bool {
    let path = crate::workspace::cross_cert_path(ws, roots[i].name);
    match crosses[i] {
        None => e matches StageError::MissingCross { name } && name@ == roots[i].name,
        Some(bytes) => match crate::x509::loaded(bytes@) {
            None => e matches StageError::NotACertificate { path: at } && at@ == path,
            Some(cert) => match permitted_names(cert) {
                None => e matches StageError::Certificate(cause) && crate::x509::no_dump(
                    cert,
                    cause,
                ),
                Some(names) => if names.len() == 0 {
                    e matches StageError::NothingPermitted { path: at } && at@ == path
                } else {
                    &&& i > 0
                    &&& Some(names) != permitted_names(file_cert(crosses[0])->0)
                    &&& e is ListsDiffer
                },
            },
        },
    }
}

/// Whether every cross-certificate before position `n` is sound.
pub open spec fn crosses_sound(crosses: Seq<Option<Vec<u8>>>, n: int) -> bool {
    forall|i: int| 0 <= i < n ==> #[trigger] cross_sound(crosses, i)
}

/// The certificates in a list of files.
pub open spec fn file_certs(files: Seq<Option<Vec<u8>>>) -> Seq<Seq<u8>> {
    files.map_values(|f: Option<Vec<u8>>| file_cert(f)->0)
}

/// Loads the cross-certificates and the names they permit.
fn load_crosses(ws: &Workspace, roots: &Vec<ForeignRoot>, crosses: &Vec<Option<Vec<u8>>>) -> (r:
    Result<(Vec<Certificate>, Vec<String>), StageError>)
    requires
        roots@.len() == crosses@.len(),
        crate::x509::all_readable(crosses@),
    ensures
        match r {
            Ok((certs, domains)) => {
                &&& crosses_sound(crosses@, crosses@.len() as int)
                &&& crate::probe::ders(certs@) == file_certs(crosses@)
                &&& crosses@.len() > 0 ==> permitted_names(file_cert(crosses@[0])->0) == Some(
                    crate::text::texts(domains@),
                )
            },
            Err(e) => exists|i: int|
                0 <= i < crosses@.len() && crosses_sound(crosses@, i) && #[trigger] cross_fault(
                    ws@,
                    crate::roots::models(roots@),
                    crosses@,
                    i,
                    e,
                ),
        },
{
    let mut certs: Vec<Certificate> = Vec::new();
    let mut domains: Vec<String> = Vec::new();
    let ghost all = crate::roots::models(roots@);
    for i in 0..roots.len()
        invariant
            roots@.len() == crosses@.len(),
            crate::x509::all_readable(crosses@),
            all == crate::roots::models(roots@),
            crosses_sound(crosses@, i as int),
            crate::probe::ders(certs@) == file_certs(crosses@.take(i as int)),
            i > 0 ==> permitted_names(file_cert(crosses@[0])->0) == Some(
                crate::text::texts(domains@),
            ),
    {
        let root = &roots[i];
        assert(all[i as int] == root@);
        assert(crate::x509::any_readable(crosses@[i as int]));
        let bytes = match &crosses[i] {
            Some(bytes) => bytes,
            None => {
                let e = StageError::MissingCross { name: root.name.clone() };
                assert(cross_fault(ws@, all, crosses@, i as int, e));
                return Err(e);
            },
        };
        let cross = match load_cert(bytes) {
            Ok(cross) => cross,
            Err(_) => {
                let e = StageError::NotACertificate { path: ws.cross_cert(root.name.as_str()) };
                assert(cross_fault(ws@, all, crosses@, i as int, e));
                return Err(e);
            },
        };
        let permitted = match permitted_dns(&cross) {
            Ok(permitted) => permitted,
            Err(cause) => {
                let e = StageError::Certificate(cause);
                assert(cross_fault(ws@, all, crosses@, i as int, e));
                return Err(e);
            },
        };
        assert(permitted_names(cross@) == Some(crate::text::texts(permitted@)));
        if permitted.len() == 0 {
            let e = StageError::NothingPermitted { path: ws.cross_cert(root.name.as_str()) };
            assert(cross_fault(ws@, all, crosses@, i as int, e));
            return Err(e);
        }
        if i == 0 {
            domains = permitted;
        } else if !same_texts(&domains, &permitted) {
            let e = StageError::ListsDiffer;
            assert(cross_fault(ws@, all, crosses@, i as int, e));
            return Err(e);
        }
        assert(cross_sound(crosses@, i as int));
        let ghost before = crate::probe::ders(certs@);
        certs.push(cross);
        assert(crate::probe::ders(certs@) =~= before.push(cross@));
        assert(file_certs(crosses@.take(i + 1)) =~= file_certs(crosses@.take(i as int)).push(
            cross@,
        ));
    }
    assert(crosses@.take(crosses@.len() as int) =~= crosses@);
    Ok((certs, domains))
}

/// Whether `artifacts` are those of the local root, the roots and their cross-certificates.
pub open spec fn are_artifacts(
    ws: Seq<char>,
    local: Seq<u8>,
    roots: Seq<RootModel>,
    crosses: Seq<Seq<u8>>,
    template: Seq<char>,
    wrapper: Seq<char>,
    artifacts: Artifacts,
) -> bool {
    let names = crate::text::texts(artifacts.staged.domains@);
    &&& crosses.len() > 0 ==> permitted_names(crosses[0]) == Some(names)
    &&& artifacts.policy.path@ == crate::path::path_joined(ws, "constrained-ca-policy.reg"@)
    &&& artifacts.policy.contents@ == policy_bytes(roots, names)
    &&& artifacts.installer.path@ == crate::path::path_joined(ws, "install-certs.ps1"@)
    &&& artifacts.installer.contents@ == installer_bytes(template, local, roots, crosses)
    &&& artifacts.wrapper.path@ == crate::path::path_joined(ws, "install-certs.cmd"@)
    &&& artifacts.wrapper.contents@ == vstd::utf8::encode_utf8(crlf(wrapper))
    &&& artifacts.staged.dir@ == ws
    &&& artifacts.staged.roots == roots.len()
}

/// Renders every installable artifact for the workspace.
///
/// `local` holds the bytes of the local root's certificate, `crosses` for each root those of
/// its cross-certificate, if it has one. `template` and `wrapper` are the texts that the
/// installer and its wrapper are made of.
///
/// # Errors
/// If there are no roots, a cross-certificate is missing, or the certificates disagree about
/// which domains they permit.
pub fn stage(
    ws: &Workspace,
    roots: &Vec<ForeignRoot>,
    local: &Vec<u8>,
    crosses: &Vec<Option<Vec<u8>>>,
    template: &str,
    wrapper: &str,
) -> (r: Result<Artifacts, StageError>)
    requires
        crate::text::contains_text(template@, embed_marker()),
        roots@.len() == crosses@.len(),
        crate::x509::is_readable(local@),
        crate::x509::all_readable(crosses@),
    ensures
        roots@.len() == 0 ==> r matches Err(StageError::NoRoots),
        roots@.len() > 0 ==> match crate::x509::loaded(local@) {
            None => r matches Err(StageError::NotACertificate { path }) && path@
                == crate::workspace::root_cert_path(ws@),
            Some(cert) => match r {
                Ok(artifacts) => {
                    &&& crosses_sound(crosses@, crosses@.len() as int)
                    &&& are_artifacts(
                        ws@,
                        cert,
                        crate::roots::models(roots@),
                        file_certs(crosses@),
                        template@,
                        wrapper@,
                        artifacts,
                    )
                },
                Err(e) => exists|i: int|
                    0 <= i < crosses@.len() && crosses_sound(crosses@, i) && #[trigger] cross_fault(
                        ws@,
                        crate::roots::models(roots@),
                        crosses@,
                        i,
                        e,
                    ),
            },
        },
{
    if roots.len() == 0 {
        return Err(StageError::NoRoots);
    }
    let local_cert = match load_cert(local) {
        Ok(cert) => cert,
        Err(_) => return Err(StageError::NotACertificate { path: ws.root_cert() }),
    };
    let (certs, domains) = load_crosses(ws, roots, crosses)?;
    assert(certs@.len() == crate::probe::ders(certs@).len());
    let policy = FileWrite {
        path: join_path(ws.dir(), "constrained-ca-policy.reg"),
        contents: policy_file(roots, &domains),
    };
    let installer = FileWrite {
        path: ws.installer_template(),
        contents: installer_file(template, &local_cert, roots, &certs),
    };
    let wrapper_write = FileWrite {
        path: join_path(ws.dir(), "install-certs.cmd"),
        contents: wrapper_file(wrapper),
    };
    let staged = Staged { dir: ws.dir().to_owned(), roots: roots.len(), domains };
    Ok(Artifacts { policy, installer, wrapper: wrapper_write, staged })
}

// What holds of the generated files.

/// Whether `s` holds no control character, so that it stays on one line.
pub open spec fn is_one_line(s: Seq<char>) -> bool {
    forall|i: int| 0 <= i < s.len() ==> #[trigger] s[i] as u32 >= 32
}

/// Texts on one line stay on it when they are put together.
proof fn lemma_one_line_joined(parts: Seq<Seq<char>>, separator: Seq<char>)
    requires
        is_one_line(separator),
        forall|i: int| 0 <= i < parts.len() ==> is_one_line(#[trigger] parts[i]),
    ensures
        is_one_line(crate::text::joined(parts, separator)),
    decreases parts.len(),
{
    if parts.len() == 1 {
        assert(is_one_line(parts[0]));
    } else if parts.len() > 1 {
        let init = parts.drop_last();
        assert forall|i: int| 0 <= i < init.len() implies is_one_line(#[trigger] init[i]) by {
            assert(init[i] == parts[i]);
        }
        lemma_one_line_joined(init, separator);
        assert(is_one_line(parts[parts.len() - 1]));
        assert(is_one_line(crate::text::joined(init, separator)));
    }
}

/// Escaping for the registry brings in no control character.
proof fn lemma_one_line_escaped(s: Seq<char>)
    requires
        is_one_line(s),
    ensures
        is_one_line(registry_escaped(s)),
    decreases s.len(),
{
    if s.len() > 0 {
        let rest = s.skip(1);
        assert forall|i: int| 0 <= i < rest.len() implies #[trigger] rest[i] as u32 >= 32 by {
            assert(rest[i] == s[i + 1]);
        }
        lemma_one_line_escaped(rest);
        assert(s[0] as u32 >= 32);
        assert(is_one_line(registry_char(s[0])));
    }
}

/// Whatever names are permitted, each policy is one line of the policy file: no name can
/// break out of its registry value.
pub proof fn lemma_policy_is_one_line(certificate: Seq<char>, names: Seq<Seq<char>>)
    ensures
        is_one_line(registry_escaped(policy_object(certificate, names))),
{
    reveal_strlit(",");
    crate::encoding::lemma_json_is_one_line(certificate);
    crate::encoding::lemma_json_is_one_line("certificate"@);
    crate::encoding::lemma_json_is_one_line("constraints"@);
    crate::encoding::lemma_json_is_one_line("permitted_cidrs"@);
    crate::encoding::lemma_json_is_one_line("permitted_dns_names"@);
    crate::encoding::lemma_json_is_one_line(policy_permitted_cidr());
    let quoted = quoted_names(names);
    assert forall|i: int| 0 <= i < quoted.len() implies is_one_line(#[trigger] quoted[i]) by {
        crate::encoding::lemma_json_is_one_line(names[i]);
    }
    lemma_one_line_joined(quoted, ","@);
    let ranges = seq![crate::encoding::json_quoted(policy_permitted_cidr())];
    assert forall|i: int| 0 <= i < ranges.len() implies is_one_line(#[trigger] ranges[i]) by {}
    lemma_one_line_joined(ranges, ","@);
    assert(is_one_line(crate::encoding::json_listed(quoted)));
    assert(is_one_line(crate::encoding::json_listed(ranges)));
    let inner = crate::encoding::json_pair(
        "permitted_cidrs"@,
        crate::encoding::json_listed(ranges),
        "permitted_dns_names"@,
        crate::encoding::json_listed(quoted),
    );
    assert(is_one_line(inner));
    assert(is_one_line(policy_object(certificate, names)));
    lemma_one_line_escaped(policy_object(certificate, names));
}

/// The artifacts are made of what was signed: where the files of the cross-certificates are
/// those that signing wrote, the certificates in the installer are cross-certificates of the
/// roots under the configuration that was signed for.
pub proof fn lemma_staged_is_what_was_signed(
    ws: Seq<char>,
    local: Seq<u8>,
    pkcs8: Seq<u8>,
    cfg: crate::config::Config,
    roots: Seq<RootModel>,
    signed: Seq<crate::signing::Signed>,
    crosses: Seq<Option<Vec<u8>>>,
)
    requires
        signed.len() == roots.len(),
        crosses.len() == roots.len(),
        forall|i: int|
            0 <= i < signed.len() ==> crate::signing::is_signed(
                ws,
                local,
                pkcs8,
                cfg,
                roots[i],
                #[trigger] signed[i],
            ),
        forall|i: int|
            0 <= i < crosses.len() ==> (#[trigger] crosses[i] matches Some(bytes) && bytes@
                == signed[i].write.contents@),
    ensures
        forall|i: int|
            0 <= i < roots.len() ==> crate::signing::constrains(
                #[trigger] file_certs(crosses)[i],
                local,
                pkcs8,
                cfg,
                roots[i],
            ) && crate::x509::key_id_text(file_certs(crosses)[i]) == crate::x509::key_id_text(
                roots[i].cert,
            ),
{
    assert forall|i: int| 0 <= i < roots.len() implies crate::signing::constrains(
        #[trigger] file_certs(crosses)[i],
        local,
        pkcs8,
        cfg,
        roots[i],
    ) && crate::x509::key_id_text(file_certs(crosses)[i]) == crate::x509::key_id_text(
        roots[i].cert,
    ) by {
        assert(crate::signing::is_signed(ws, local, pkcs8, cfg, roots[i], signed[i]));
        assert(crosses[i] is Some);
    }
}

/// A text in UTF-16 code units.
pub open spec fn utf16(text: Seq<char>) -> Seq<u16>
    decreases text.len(),
{
    if text.len() == 0 {
        Seq::empty()
    } else {
        utf16(text.drop_last()) + utf16_units(text.last())
    }
}

/// The code units that bytes stand for, the low byte of each first.
pub open spec fn units_of(bytes: Seq<u8>) -> Seq<u16> {
    Seq::new(bytes.len() / 2, |i: int| (bytes[2 * i] + 256 * bytes[2 * i + 1]) as u16)
}

/// The text that UTF-16 code units stand for. `None` where a surrogate stands alone.
pub open spec fn utf16_decoded(units: Seq<u16>) -> Option<Seq<char>>
    decreases units.len(),
{
    if units.len() == 0 {
        Some(Seq::empty())
    } else if units[0] < 0xd800 || units[0] >= 0xe000 {
        match utf16_decoded(units.skip(1)) {
            Some(rest) => Some(seq![units[0] as char] + rest),
            None => None,
        }
    } else if units[0] < 0xdc00 && units.len() > 1 && 0xdc00 <= units[1] < 0xe000 {
        match utf16_decoded(units.skip(2)) {
            Some(rest) => Some(
                seq![(0x10000 + (units[0] - 0xd800) * 0x400 + (units[1] - 0xdc00)) as char] + rest,
            ),
            None => None,
        }
    } else {
        None
    }
}

/// The bytes of code units, put together.
proof fn lemma_little_endian_joined(a: Seq<u16>, b: Seq<u16>)
    ensures
        little_endian(a + b) == little_endian(a) + little_endian(b),
    decreases b.len(),
{
    if b.len() == 0 {
        assert(a + b =~= a);
        assert(little_endian(a) + little_endian(b) =~= little_endian(a));
    } else {
        assert((a + b).drop_last() =~= a + b.drop_last());
        lemma_little_endian_joined(a, b.drop_last());
        assert(little_endian(a + b) =~= little_endian(a) + little_endian(b));
    }
}

/// The bytes of a text in UTF-16 are those of its code units.
proof fn lemma_utf16_bytes_of_units(text: Seq<char>)
    ensures
        utf16_bytes(text) == little_endian(utf16(text)),
    decreases text.len(),
{
    if text.len() > 0 {
        lemma_utf16_bytes_of_units(text.drop_last());
        lemma_little_endian_joined(utf16(text.drop_last()), utf16_units(text.last()));
    }
}

/// The bytes of code units stand for them.
proof fn lemma_units_of_bytes(units: Seq<u16>)
    ensures
        little_endian(units).len() == 2 * units.len(),
        units_of(little_endian(units)) == units,
    decreases units.len(),
{
    let bytes = little_endian(units);
    if units.len() > 0 {
        let init = units.drop_last();
        let before = little_endian(init);
        lemma_units_of_bytes(init);
        assert forall|i: int| 0 <= i < units.len() implies units_of(bytes)[i] == units[i] by {
            if i < init.len() {
                assert(bytes[2 * i] == before[2 * i] && bytes[2 * i + 1] == before[2 * i + 1]);
                assert(units_of(before)[i] == init[i]);
            } else {
                assert(bytes[2 * i] == (units.last() % 256) as u8);
                assert(bytes[2 * i + 1] == (units.last() / 256) as u8);
            }
        }
    }
    assert(units_of(bytes) =~= units);
}

/// UTF-16 from the front.
proof fn lemma_utf16_front(text: Seq<char>)
    requires
        text.len() > 0,
    ensures
        utf16(text) == utf16_units(text[0]) + utf16(text.skip(1)),
    decreases text.len(),
{
    if text.len() == 1 {
        assert(text.drop_last() =~= Seq::empty());
        assert(text.skip(1) =~= Seq::empty());
        assert(utf16(text.drop_last()) =~= Seq::empty());
        assert(utf16(text) =~= utf16_units(text[0]) + utf16(text.skip(1)));
    } else {
        lemma_utf16_front(text.drop_last());
        assert(text.drop_last().skip(1) =~= text.skip(1).drop_last());
        assert(text.skip(1).last() == text.last());
        assert(utf16(text) =~= utf16_units(text[0]) + utf16(text.skip(1)));
    }
}

/// Decoding takes the code units of a character for it.
proof fn lemma_utf16_decodes(text: Seq<char>)
    ensures
        utf16_decoded(utf16(text)) == Some(text),
    decreases text.len(),
{
    if text.len() == 0 {
        assert(text =~= Seq::empty());
    } else {
        let c = text[0];
        let code = c as u32;
        let units = utf16(text);
        let rest = utf16(text.skip(1));
        lemma_utf16_front(text);
        lemma_utf16_decodes(text.skip(1));
        vstd::utf8::char_is_scalar(c);
        vstd::utf8::char_u32_cast(c, code);
        assert(text =~= seq![c] + text.skip(1));
        if code < 0x10000 {
            assert(units[0] == code as u16);
            assert(units.skip(1) =~= rest);
            assert(units[0] as char == c);
        } else {
            let above = code - 0x10000;
            assert(units[0] == 0xd800 + above / 0x400);
            assert(units[1] == 0xdc00 + above % 0x400);
            assert(units.skip(2) =~= rest);
            assert((0x10000 + (units[0] - 0xd800) * 0x400 + (units[1] - 0xdc00)) == code);
        }
    }
}

/// UTF-16 loses nothing: a file with a byte order mark is two bytes and two for each code
/// unit long, and what follows the mark decodes to the text.
pub proof fn lemma_utf16_decodes_back(text: Seq<char>)
    ensures
        utf16_bytes(text).len() == 2 * utf16(text).len(),
        utf16_decoded(units_of(utf16_bytes(text))) == Some(text),
{
    lemma_utf16_bytes_of_units(text);
    lemma_units_of_bytes(utf16(text));
    lemma_utf16_decodes(text);
}

/// Texts with the same bytes in UTF-16 are the same.
pub proof fn lemma_utf16_injective(a: Seq<char>, b: Seq<char>)
    requires
        utf16_bytes(a) == utf16_bytes(b),
    ensures
        a == b,
{
    lemma_utf16_decodes_back(a);
    lemma_utf16_decodes_back(b);
}

// What the generated files say.

/// What stands behind `prefix`, where `s` begins with it.
pub open spec fn read_word(s: Seq<char>, prefix: Seq<char>) -> Option<Seq<char>> {
    if crate::text::starts_with(s, prefix) {
        Some(s.skip(prefix.len() as int))
    } else {
        None
    }
}

/// What a policy says to a browser.
#[verifier::ext_equal]
pub struct PolicyModel {
    /// The certificate, in Base64.
    pub certificate: Seq<char>,
    /// The ranges of addresses it is trusted for.
    pub cidrs: Seq<Seq<char>>,
    /// The names it is trusted for.
    pub names: Seq<Seq<char>>,
}

/// Reads a policy the way a browser does: one object with a certificate and its constraints,
/// and nothing else.
pub open spec fn read_policy(s: Seq<char>) -> Option<PolicyModel> {
    match read_word(s, "{\"certificate\":\""@) {
        None => None,
        Some(s1) => match crate::encoding::json_read_text(s1) {
            None => None,
            Some((certificate, s2)) => match read_word(
                s2,
                ",\"constraints\":{\"permitted_cidrs\":"@,
            ) {
                None => None,
                Some(s3) => match crate::encoding::json_read_list(s3) {
                    None => None,
                    Some((cidrs, s4)) => match read_word(s4, ",\"permitted_dns_names\":"@) {
                        None => None,
                        Some(s5) => match crate::encoding::json_read_list(s5) {
                            None => None,
                            Some((names, s6)) => if s6 == "}}"@ {
                                Some(PolicyModel { certificate, cidrs, names })
                            } else {
                                None
                            },
                        },
                    },
                },
            },
        },
    }
}

/// A word at the beginning is read.
proof fn lemma_word_is_read(prefix: Seq<char>, rest: Seq<char>)
    ensures
        read_word(prefix + rest, prefix) == Some(rest),
{
    let s = prefix + rest;
    assert(s.subrange(0, prefix.len() as int) =~= prefix);
    assert(s.skip(prefix.len() as int) =~= rest);
}

/// The keys of the policy are written as they are.
proof fn lemma_policy_keys_are_plain()
    ensures
        crate::encoding::json_quoted("certificate"@) == "\"certificate\""@,
        crate::encoding::json_quoted("constraints"@) == "\"constraints\""@,
        crate::encoding::json_quoted("permitted_cidrs"@) == "\"permitted_cidrs\""@,
        crate::encoding::json_quoted("permitted_dns_names"@) == "\"permitted_dns_names\""@,
{
    reveal_strlit("certificate");
    reveal_strlit("constraints");
    reveal_strlit("permitted_cidrs");
    reveal_strlit("permitted_dns_names");
    reveal_strlit("\"certificate\"");
    reveal_strlit("\"constraints\"");
    reveal_strlit("\"permitted_cidrs\"");
    reveal_strlit("\"permitted_dns_names\"");
    crate::encoding::lemma_json_plain("certificate"@);
    crate::encoding::lemma_json_plain("constraints"@);
    crate::encoding::lemma_json_plain("permitted_cidrs"@);
    crate::encoding::lemma_json_plain("permitted_dns_names"@);
    assert("\"certificate\""@ =~= seq!['"'] + "certificate"@ + seq!['"']);
    assert("\"constraints\""@ =~= seq!['"'] + "constraints"@ + seq!['"']);
    assert("\"permitted_cidrs\""@ =~= seq!['"'] + "permitted_cidrs"@ + seq!['"']);
    assert("\"permitted_dns_names\""@ =~= seq!['"'] + "permitted_dns_names"@ + seq!['"']);
}

/// The text of a policy, piece by piece.
proof fn lemma_policy_text(certificate: Seq<char>, names: Seq<Seq<char>>)
    ensures
        policy_object(certificate, names) == "{\"certificate\":"@
            + crate::encoding::json_quoted(certificate) + (
        ",\"constraints\":{\"permitted_cidrs\":"@ + (crate::encoding::json_listed(
            seq!["127.0.0.1/32"@].map_values(|t: Seq<char>| crate::encoding::json_quoted(t)),
        ) + (",\"permitted_dns_names\":"@ + (crate::encoding::json_listed(
            names.map_values(|t: Seq<char>| crate::encoding::json_quoted(t)),
        ) + "}}"@)))),
{
    lemma_policy_keys_are_plain();
    reveal_strlit("{\"certificate\":");
    reveal_strlit(",\"constraints\":{\"permitted_cidrs\":");
    reveal_strlit(",\"permitted_dns_names\":");
    reveal_strlit("}}");
    reveal_strlit("\"certificate\"");
    reveal_strlit("\"constraints\"");
    reveal_strlit("\"permitted_cidrs\"");
    reveal_strlit("\"permitted_dns_names\"");
    let one = seq!["127.0.0.1/32"@];
    let quoted = one.map_values(|t: Seq<char>| crate::encoding::json_quoted(t));
    assert(quoted =~= seq![crate::encoding::json_quoted("127.0.0.1/32"@)]);
    assert(quoted_names(names) =~= names.map_values(
        |t: Seq<char>| crate::encoding::json_quoted(t),
    ));
    let ranges = crate::encoding::json_listed(quoted);
    let listed = crate::encoding::json_listed(quoted_names(names));
    let inner = crate::encoding::json_pair(
        "permitted_cidrs"@,
        ranges,
        "permitted_dns_names"@,
        listed,
    );
    assert(inner =~= seq!['{'] + "\"permitted_cidrs\""@ + seq![':'] + ranges
        + ",\"permitted_dns_names\":"@ + listed + seq!['}']);
    assert(policy_object(certificate, names) =~= "{\"certificate\":"@
        + crate::encoding::json_quoted(certificate) + (",\"constraints\":{\"permitted_cidrs\":"@ + (
    ranges + (",\"permitted_dns_names\":"@ + (listed + "}}"@)))));
}

/// A policy reads back as what it is for: the certificate, the loopback address as the only
/// range, and exactly the permitted names, in order.
pub proof fn lemma_policy_object_reads_back(certificate: Seq<char>, names: Seq<Seq<char>>)
    ensures
        read_policy(policy_object(certificate, names)) == Some(
            PolicyModel { certificate, cidrs: seq!["127.0.0.1/32"@], names },
        ),
{
    reveal_strlit("{\"certificate\":");
    reveal_strlit("{\"certificate\":\"");
    let one = seq!["127.0.0.1/32"@];
    let ranges = crate::encoding::json_listed(
        one.map_values(|t: Seq<char>| crate::encoding::json_quoted(t)),
    );
    let listed = crate::encoding::json_listed(
        names.map_values(|t: Seq<char>| crate::encoding::json_quoted(t)),
    );
    let s6 = "}}"@;
    let s5 = listed + s6;
    let s4 = ",\"permitted_dns_names\":"@ + s5;
    let s3 = ranges + s4;
    let s2 = ",\"constraints\":{\"permitted_cidrs\":"@ + s3;
    let quoted = crate::encoding::json_quoted(certificate);
    let s1 = (quoted + s2).skip(1);
    lemma_policy_text(certificate, names);
    crate::encoding::lemma_json_text_reads_back(certificate, s2);
    let all = policy_object(certificate, names);
    assert(all =~= "{\"certificate\":\""@ + s1) by {
        assert(all =~= "{\"certificate\":"@ + (quoted + s2));
        assert("{\"certificate\":\""@ =~= "{\"certificate\":"@ + seq!['"']);
        assert(quoted + s2 =~= seq!['"'] + s1);
    }
    lemma_word_is_read("{\"certificate\":\""@, s1);
    lemma_word_is_read(",\"constraints\":{\"permitted_cidrs\":"@, s3);
    crate::encoding::lemma_json_list_reads_back(one, s4);
    lemma_word_is_read(",\"permitted_dns_names\":"@, s5);
    crate::encoding::lemma_json_list_reads_back(names, s6);
}

/// A line of the registry that sets the value number `number` to `value`.
pub open spec fn sets_value(line: Seq<char>, number: nat, value: Seq<char>) -> bool {
    exists|escaped: Seq<char>|
        line == "\""@ + crate::text::decimal(number) + "\"=\""@ + escaped + "\""@
            && #[trigger] registry_unescaped(escaped) == value
}

/// The headings of the policy file.
proof fn lemma_policy_headings()
    ensures
        "[HKEY_LOCAL_MACHINE\\SOFTWARE\\Policies\\"@ + "Google\\Chrome"@
            + "\\CACertificatesWithConstraints]"@
            == "[HKEY_LOCAL_MACHINE\\SOFTWARE\\Policies\\Google\\Chrome\\CACertificatesWithConstraints]"@,
        "[HKEY_LOCAL_MACHINE\\SOFTWARE\\Policies\\"@ + "Microsoft\\Edge"@
            + "\\CACertificatesWithConstraints]"@
            == "[HKEY_LOCAL_MACHINE\\SOFTWARE\\Policies\\Microsoft\\Edge\\CACertificatesWithConstraints]"@,
{
    reveal_strlit("[HKEY_LOCAL_MACHINE\\SOFTWARE\\Policies\\");
    reveal_strlit("Google\\Chrome");
    reveal_strlit("Microsoft\\Edge");
    reveal_strlit("\\CACertificatesWithConstraints]");
    reveal_strlit(
        "[HKEY_LOCAL_MACHINE\\SOFTWARE\\Policies\\Google\\Chrome\\CACertificatesWithConstraints]",
    );
    reveal_strlit(
        "[HKEY_LOCAL_MACHINE\\SOFTWARE\\Policies\\Microsoft\\Edge\\CACertificatesWithConstraints]",
    );
    assert("[HKEY_LOCAL_MACHINE\\SOFTWARE\\Policies\\"@ + "Google\\Chrome"@
        + "\\CACertificatesWithConstraints]"@
        =~= "[HKEY_LOCAL_MACHINE\\SOFTWARE\\Policies\\Google\\Chrome\\CACertificatesWithConstraints]"@);
    assert("[HKEY_LOCAL_MACHINE\\SOFTWARE\\Policies\\"@ + "Microsoft\\Edge"@
        + "\\CACertificatesWithConstraints]"@
        =~= "[HKEY_LOCAL_MACHINE\\SOFTWARE\\Policies\\Microsoft\\Edge\\CACertificatesWithConstraints]"@);
}

/// The policy file is in UTF-16 with a byte order mark and CRLF line endings. It has one
/// section for Chrome and one for Edge, with one line for each root in each.
pub proof fn lemma_policy_file_has_two_sections(originals: Seq<RootModel>, names: Seq<Seq<char>>)
    ensures
        ({
            let lines = policy_lines(policy_objects(originals, names));
            let n = originals.len() as int;
            &&& policy_bytes(originals, names) == seq![0xffu8, 0xfeu8] + utf16_bytes(
                crate::text::joined(lines, "\r\n"@),
            )
            &&& lines.len() == 2 * n + 6
            &&& lines[0] == "Windows Registry Editor Version 5.00"@
            &&& lines[1].len() == 0
            &&& lines[2]
                == "[HKEY_LOCAL_MACHINE\\SOFTWARE\\Policies\\Google\\Chrome\\CACertificatesWithConstraints]"@
            &&& lines[n + 3].len() == 0
            &&& lines[n + 4]
                == "[HKEY_LOCAL_MACHINE\\SOFTWARE\\Policies\\Microsoft\\Edge\\CACertificatesWithConstraints]"@
            &&& lines[2 * n + 5].len() == 0
        }),
{
    lemma_policy_headings();
    let objects = policy_objects(originals, names);
    assert(objects.len() == originals.len());
    assert(value_lines(objects).len() == objects.len());
}

/// Where the line of a root stands in each section.
proof fn lemma_policy_value_lines(objects: Seq<Seq<char>>, i: int)
    requires
        0 <= i < objects.len(),
    ensures
        policy_lines(objects)[3 + i] == "\""@ + crate::text::decimal((i + 1) as nat) + "\"=\""@
            + registry_escaped(objects[i]) + "\""@,
        policy_lines(objects)[objects.len() + 5 + i] == policy_lines(objects)[3 + i],
{
    assert(value_lines(objects).len() == objects.len());
    assert(policy_lines(objects)[3 + i] == value_lines(objects)[i]);
    assert(policy_lines(objects)[objects.len() + 5 + i] == value_lines(objects)[i]);
}

/// The policy file sets, for Chrome and for Edge alike, one numbered value for each root,
/// however many there are. Read back out of the registry, the value is a policy for that
/// root's own certificate, the loopback address and no other range, and exactly the permitted
/// names.
pub proof fn lemma_policy_file_reads_back(
    originals: Seq<RootModel>,
    names: Seq<Seq<char>>,
    i: int,
)
    requires
        0 <= i < originals.len(),
    ensures
        exists|value: Seq<char>|
            {
                &&& #[trigger] sets_value(
                    policy_lines(policy_objects(originals, names))[3 + i],
                    (i + 1) as nat,
                    value,
                )
                &&& sets_value(
                    policy_lines(policy_objects(originals, names))[originals.len() + 5 + i],
                    (i + 1) as nat,
                    value,
                )
                &&& read_policy(value) == Some(
                    PolicyModel {
                        certificate: crate::encoding::base64_text(originals[i].cert),
                        cidrs: seq!["127.0.0.1/32"@],
                        names,
                    },
                )
            },
{
    let objects = policy_objects(originals, names);
    let value = policy_object(crate::encoding::base64_text(originals[i].cert), names);
    lemma_policy_object_reads_back(crate::encoding::base64_text(originals[i].cert), names);
    assert(objects[i] == value);
    lemma_registry_round_trip(value);
    lemma_policy_value_lines(objects, i);
    assert(registry_unescaped(registry_escaped(value)) == value);
    assert(sets_value(policy_lines(objects)[3 + i], (i + 1) as nat, value));
}

/// An entry of the installer says whose certificate it holds and of which kind, and holds
/// that certificate: its lines are at most 76 characters long, and together they are its
/// Base64.
pub proof fn lemma_entry_holds_the_certificate(name: Seq<char>, kind: Seq<char>, cert: Seq<u8>)
    ensures
        exists|lines: Seq<Seq<char>>|
            {
                &&& embedded_entry(name, kind, cert) == "@{Name='"@ + name + "';Kind='"@ + kind
                    + "';B64=@'\n"@ + #[trigger] crate::text::joined(lines, "\n"@) + "\n'@}"@
                &&& lines.flatten() == crate::encoding::base64_text(cert)
                &&& forall|i: int| 0 <= i < lines.len() ==> (#[trigger] lines[i]).len() <= 76
            },
{
    let text = crate::encoding::base64_text(cert);
    let lines = crate::text::chunks(text, 76);
    crate::text::lemma_chunks_make_the_text(text, 76);
    assert(embedded_entry(name, kind, cert) == "@{Name='"@ + name + "';Kind='"@ + kind
        + "';B64=@'\n"@ + crate::text::joined(lines, "\n"@) + "\n'@}"@);
}

/// The installer has two entries for each root, whatever their number: its cross-certificate
/// and the original, in the order of the roots.
pub proof fn lemma_every_root_is_embedded(
    roots: Seq<RootModel>,
    crosses: Seq<Seq<u8>>,
    i: int,
)
    requires
        roots.len() == crosses.len(),
        0 <= i < roots.len(),
    ensures
        root_entries(roots, crosses).len() == 2 * roots.len(),
        root_entries(roots, crosses)[2 * i] == embedded_entry(
            roots[i].name,
            "constrained"@,
            crosses[i],
        ),
        root_entries(roots, crosses)[2 * i + 1] == embedded_entry(
            roots[i].name,
            "original"@,
            roots[i].cert,
        ),
    decreases roots.len(),
{
    let init = roots.drop_last();
    let before = crosses.drop_last();
    if init.len() > 0 {
        lemma_every_root_is_embedded(init, before, 0);
    } else {
        assert(root_entries(init, before).len() == 0);
    }
    if i < init.len() {
        lemma_every_root_is_embedded(init, before, i);
        assert(init[i] == roots[i] && before[i] == crosses[i]);
    }
}

/// The block of the installer is the local root's entry and those of the roots, a line feed
/// between each two.
pub proof fn lemma_block_begins_with_the_local_root(
    local: Seq<u8>,
    roots: Seq<RootModel>,
    crosses: Seq<Seq<u8>>,
)
    ensures
        embedded_block(local, roots, crosses) == crate::text::joined(
            seq![embedded_entry("myroot"@, "root"@, local)] + root_entries(roots, crosses),
            "\n"@,
        ),
{
}

/// What does not hold a pattern keeps its text when the pattern behind it is replaced.
pub proof fn lemma_replaced_behind(
    before: Seq<char>,
    pattern: Seq<char>,
    with: Seq<char>,
    after: Seq<char>,
)
    requires
        pattern.len() > 0,
        forall|j: int|
            0 <= j < before.len() ==> !crate::text::stands_at(
                before + pattern + after,
                pattern,
                j,
            ),
    ensures
        crate::text::replaced(before + pattern + after, pattern, with) == before + with
            + crate::text::replaced(after, pattern, with),
    decreases before.len(),
{
    let all = before + pattern + after;
    if before.len() == 0 {
        assert(all =~= pattern + after);
        assert(all.subrange(0, pattern.len() as int) =~= pattern);
        assert(all.skip(pattern.len() as int) =~= after);
        assert(before + with + crate::text::replaced(after, pattern, with) =~= with
            + crate::text::replaced(after, pattern, with));
    } else {
        assert(!crate::text::stands_at(all, pattern, 0));
        let rest = before.skip(1);
        assert(all.skip(1) =~= rest + pattern + after);
        assert forall|j: int| 0 <= j < rest.len() implies !crate::text::stands_at(
            rest + pattern + after,
            pattern,
            j,
        ) by {
            if crate::text::stands_at(rest + pattern + after, pattern, j) {
                assert((rest + pattern + after).subrange(j, j + pattern.len()) =~= all.subrange(
                    j + 1,
                    j + 1 + pattern.len(),
                ));
                assert(crate::text::stands_at(all, pattern, j + 1));
            }
        }
        lemma_replaced_behind(rest, pattern, with, after);
        assert(crate::text::replaced(all, pattern, with) =~= before + with
            + crate::text::replaced(after, pattern, with));
    }
}

/// What does not hold a pattern is not changed by replacing it.
pub proof fn lemma_nothing_replaced(s: Seq<char>, pattern: Seq<char>, with: Seq<char>)
    requires
        !crate::text::contains_text(s, pattern),
    ensures
        crate::text::replaced(s, pattern, with) == s,
    decreases s.len(),
{
    if s.len() > 0 && pattern.len() > 0 {
        assert(!crate::text::stands_at(s, pattern, 0));
        let rest = s.skip(1);
        assert(!crate::text::contains_text(rest, pattern)) by {
            if crate::text::contains_text(rest, pattern) {
                let j = choose|j: int| crate::text::stands_at(rest, pattern, j);
                assert(rest.subrange(j, j + pattern.len()) =~= s.subrange(
                    j + 1,
                    j + 1 + pattern.len(),
                ));
                assert(crate::text::stands_at(s, pattern, j + 1));
            }
        }
        lemma_nothing_replaced(rest, pattern, with);
        assert(seq![s[0]] + rest =~= s);
    }
}

/// The installer is the template with the block in the place of the marker, and nothing else
/// of it changed but its line endings: in UTF-8, behind a byte order mark.
pub proof fn lemma_installer_is_the_filled_template(
    before: Seq<char>,
    after: Seq<char>,
    local: Seq<u8>,
    roots: Seq<RootModel>,
    crosses: Seq<Seq<u8>>,
)
    requires
        forall|j: int|
            0 <= j < before.len() ==> !crate::text::stands_at(
                before + "#<<<EMBEDDED>>>"@ + after,
                "#<<<EMBEDDED>>>"@,
                j,
            ),
        !crate::text::contains_text(after, "#<<<EMBEDDED>>>"@),
    ensures
        installer_bytes(before + "#<<<EMBEDDED>>>"@ + after, local, roots, crosses) == seq![
            0xefu8,
            0xbbu8,
            0xbfu8,
        ] + vstd::utf8::encode_utf8(
            crlf(
                before + crate::text::joined(
                    seq![embedded_entry("myroot"@, "root"@, local)] + root_entries(roots, crosses),
                    "\n"@,
                ) + after,
            ),
        ),
{
    reveal_strlit("#<<<EMBEDDED>>>");
    let block = embedded_block(local, roots, crosses);
    lemma_replaced_behind(before, "#<<<EMBEDDED>>>"@, block, after);
    lemma_nothing_replaced(after, "#<<<EMBEDDED>>>"@, block);
}

/// The artifacts stand in the workspace under their names, and say for how many roots and for
/// which names they are.
pub proof fn lemma_artifacts_stand_in_the_workspace(
    ws: Seq<char>,
    local: Seq<u8>,
    roots: Seq<RootModel>,
    crosses: Seq<Seq<u8>>,
    template: Seq<char>,
    wrapper: Seq<char>,
    artifacts: Artifacts,
)
    requires
        are_artifacts(ws, local, roots, crosses, template, wrapper, artifacts),
    ensures
        artifacts.policy.path@ == crate::path::path_joined(ws, "constrained-ca-policy.reg"@),
        artifacts.installer.path@ == crate::path::path_joined(ws, "install-certs.ps1"@),
        artifacts.wrapper.path@ == crate::path::path_joined(ws, "install-certs.cmd"@),
        artifacts.policy.contents@ == policy_bytes(
            roots,
            crate::text::texts(artifacts.staged.domains@),
        ),
        artifacts.installer.contents@ == installer_bytes(template, local, roots, crosses),
        artifacts.wrapper.contents@ == vstd::utf8::encode_utf8(crlf(wrapper)),
        artifacts.staged.dir@ == ws,
        artifacts.staged.roots == roots.len(),
        crosses.len() > 0 ==> (crate::x509::dump(crosses[0]) matches Some(text)
            && crate::x509::names_in(crate::text::lines(text), false, false)
            == crate::text::texts(artifacts.staged.domains@)),
{
}

/// Where artifacts are generated, every cross-certificate permits some names, and all of them
/// the same: those of the first.
pub proof fn lemma_staged_lists_agree(crosses: Seq<Option<Vec<u8>>>, i: int)
    requires
        crosses_sound(crosses, crosses.len() as int),
        0 <= i < crosses.len(),
    ensures
        crosses[i] matches Some(bytes) && crate::x509::loaded(bytes@) matches Some(cert)
            && crate::x509::dump(cert) matches Some(text) && crosses[0] matches Some(first)
            && crate::x509::loaded(first@) matches Some(other) && crate::x509::dump(other)
            matches Some(reference) && {
            let names = crate::x509::names_in(crate::text::lines(text), false, false);
            names.len() > 0 && names == crate::x509::names_in(
                crate::text::lines(reference),
                false,
                false,
            )
        },
{
    assert(cross_sound(crosses, i));
    assert(cross_sound(crosses, 0));
}

/// A file of the workspace is removed exactly if it is one that earlier versions wrote: by
/// its name, or as a copy of one root's certificate.
pub proof fn lemma_stale_means(ws: Seq<char>, names: Seq<Seq<char>>, path: Seq<char>)
    ensures
        stale_paths(ws, names).contains(path) <==> exists|i: int|
            {
                &&& 0 <= i < names.len()
                &&& path == crate::path::path_joined(ws, #[trigger] names[i])
                &&& {
                    ||| names[i] == "russian-root-constrained.crt"@
                    ||| names[i] == "russian_trusted_root_ca.crt"@
                    ||| names[i] == "myroot.crt"@
                    ||| crate::text::ends_with(names[i], "-constrained.crt"@)
                    ||| crate::text::ends_with(names[i], "-original.crt"@)
                }
            },
    decreases names.len(),
{
    if names.len() > 0 {
        let init = names.drop_last();
        let last = names.last();
        let before = stale_paths(ws, init);
        let after = stale_paths(ws, names);
        lemma_stale_means(ws, init, path);
        lemma_stale_names(last);
        if after.contains(path) {
            let k = choose|k: int| 0 <= k < after.len() && after[k] == path;
            if k < before.len() {
                assert(before[k] == path);
                let i = choose|i: int|
                    0 <= i < init.len() && path == crate::path::path_joined(
                        ws,
                        #[trigger] init[i],
                    ) && is_stale_name(init[i]);
                assert(names[i] == init[i]);
            } else {
                assert(names[names.len() - 1] == last);
            }
        }
        if exists|i: int|
            0 <= i < names.len() && path == crate::path::path_joined(ws, #[trigger] names[i])
                && is_stale_name(names[i]) {
            let i = choose|i: int|
                0 <= i < names.len() && path == crate::path::path_joined(ws, #[trigger] names[i])
                    && is_stale_name(names[i]);
            if i < init.len() {
                assert(init[i] == names[i]);
                let k = choose|k: int| 0 <= k < before.len() && before[k] == path;
                assert(after[k] == path);
            } else {
                assert(after[after.len() - 1] == path);
            }
        }
    }
}

/// Whether a file name is one that earlier versions wrote.
spec fn is_stale_name(name: Seq<char>) -> bool {
    ||| name == "russian-root-constrained.crt"@
    ||| name == "russian_trusted_root_ca.crt"@
    ||| name == "myroot.crt"@
    ||| crate::text::ends_with(name, "-constrained.crt"@)
    ||| crate::text::ends_with(name, "-original.crt"@)
}

/// The names that earlier versions wrote.
proof fn lemma_stale_names(name: Seq<char>)
    ensures
        is_stale(name) == is_stale_name(name),
{
    let files = legacy_files();
    assert(files[0] == "russian-root-constrained.crt"@);
    assert(files[1] == "russian_trusted_root_ca.crt"@);
    assert(files[2] == "myroot.crt"@);
    if files.contains(name) {
        let i = choose|i: int| 0 <= i < files.len() && files[i] == name;
        assert(i == 0 || i == 1 || i == 2);
    }
}

/// How a text is written inside a registry string: a backslash before each backslash and each
/// quote, and nothing else changed.
pub proof fn lemma_registry_escapes(a: Seq<char>, b: Seq<char>, c: char)
    ensures
        registry_escaped(a + b) == registry_escaped(a) + registry_escaped(b),
        registry_escaped(seq![c]) == if c == '\\' || c == '"' {
            seq!['\\', c]
        } else {
            seq![c]
        },
    decreases a.len(),
{
    let none = Seq::<char>::empty();
    assert(seq![c].skip(1) =~= none);
    assert(registry_escaped(none) =~= none);
    assert(registry_char(c) + none =~= registry_char(c));
    if a.len() == 0 {
        assert(a + b =~= b);
        assert(registry_escaped(a) + registry_escaped(b) =~= registry_escaped(b));
    } else {
        lemma_registry_escapes(a.skip(1), b, c);
        assert((a + b).skip(1) =~= a.skip(1) + b);
        assert(registry_escaped(a + b) =~= registry_escaped(a) + registry_escaped(b));
    }
}

/// Why nothing is staged: some root has no cross-certificate, its file holds none, its dump
/// cannot be had, or it permits nothing, or other names than the first. Where none of these
/// holds of any root, there is no such error.
pub proof fn lemma_staging_fails_for_a_reason(
    ws: Seq<char>,
    roots: Seq<RootModel>,
    crosses: Seq<Option<Vec<u8>>>,
    i: int,
    e: StageError,
)
    requires
        cross_fault(ws, roots, crosses, i, e),
    ensures
        match crosses[i] {
            None => e matches StageError::MissingCross { name } && name@ == roots[i].name,
            Some(bytes) => match crate::x509::loaded(bytes@) {
                None => e is NotACertificate,
                Some(cert) => match crate::x509::dump(cert) {
                    None => e is Certificate,
                    Some(text) => {
                        let names = crate::x509::names_in(crate::text::lines(text), false, false);
                        &&& names.len() == 0 ==> e is NothingPermitted
                        &&& names.len() > 0 ==> e is ListsDiffer && i > 0 && Some(names)
                            != permitted_names(file_cert(crosses[0])->0)
                    },
                },
            },
        },
{
}

/// A message about a cross-certificate names the root or the file it is about.
pub proof fn lemma_stage_messages_name_their_subject(e: StageError)
    ensures
        e matches StageError::NotACertificate { path } ==> e.words() == path@
            + " is not a PEM or DER certificate"@,
        e matches StageError::MissingCross { name } ==> e.words() == "нет кросс-сертификата для "@
            + name@ + " -- выполните `rucerts resign`"@,
        e matches StageError::NothingPermitted { path } ==> e.words() == path@
            + " не разрешает ни одного DNS-имени -- файлы установки не создаются"@,
        e matches StageError::Certificate(cause) ==> e.words() == cause.words(),
{
}

} // verus!
