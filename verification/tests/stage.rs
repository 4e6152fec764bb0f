//! The installable artifacts.
use base64::Engine as _;
use openssl::asn1::Asn1Time;
use openssl::bn::BigNum;
use openssl::hash::MessageDigest;
use openssl::nid::Nid;
use openssl::pkey::PKey;
use openssl::rsa::Rsa;
use openssl::x509::extension::{BasicConstraints, SubjectKeyIdentifier};
use openssl::x509::{X509Builder, X509NameBuilder};
use rucerts::config::Config;
use rucerts::roots::{list, DirEntry, ForeignRoot};
use rucerts::signing::resign;
use rucerts::stage::{
    clean_stale, embed_entry, registry_escape, stage, to_crlf, to_utf16le_with_bom, wrapper_file,
    StageError,
};
use rucerts::workspace::Workspace;
use rucerts::x509::{generate_root, load_cert, Certificate, PrivateKey};

const TEMPLATE: &str = "# installer\n$certs = @(\n#<<<EMBEDDED>>>\n)\r\n";

fn foreign(cn: &str) -> Vec<u8> {
    let key = PKey::from_rsa(Rsa::generate(2048).unwrap()).unwrap();
    let mut name = X509NameBuilder::new().unwrap();
    name.append_entry_by_nid(Nid::COMMONNAME, cn).unwrap();
    let name = name.build();
    let mut b = X509Builder::new().unwrap();
    b.set_version(2).unwrap();
    b.set_subject_name(&name).unwrap();
    b.set_issuer_name(&name).unwrap();
    b.set_pubkey(&key).unwrap();
    b.set_serial_number(&BigNum::from_u32(5).unwrap().to_asn1_integer().unwrap()).unwrap();
    b.set_not_before(&Asn1Time::days_from_now(0).unwrap()).unwrap();
    b.set_not_after(&Asn1Time::days_from_now(100).unwrap()).unwrap();
    b.append_extension(BasicConstraints::new().critical().ca().build().unwrap()).unwrap();
    let ski = SubjectKeyIdentifier::new().build(&b.x509v3_context(None, None)).unwrap();
    b.append_extension(ski).unwrap();
    b.sign(&key, MessageDigest::sha256()).unwrap();
    b.build().to_der().unwrap()
}

fn roots(ws: &Workspace, names: &[&str]) -> Vec<ForeignRoot> {
    let entries: Vec<DirEntry> = names
        .iter()
        .map(|n| DirEntry {
            file_name: format!("{n}.cer"),
            is_utf8: true,
            is_file: true,
            contents: Some(foreign(n)),
        })
        .collect();
    list(ws, &entries).unwrap()
}

fn signed(
    ws: &Workspace,
    names: &[&str],
    roots: &Vec<ForeignRoot>,
    local: &Certificate,
    key: &PrivateKey,
) -> Vec<Option<Vec<u8>>> {
    let cfg = Config::new(names.iter().map(|n| (*n).to_owned()).collect());
    let resigned = resign(ws, &cfg, roots, local, key);
    assert!(resigned.failure.is_none());
    resigned.signed.into_iter().map(|s| Some(s.write.contents)).collect()
}

fn utf16(bytes: &[u8]) -> String {
    let units: Vec<u16> =
        bytes[2..].chunks(2).map(|b| u16::from_le_bytes([b[0], b[1]])).collect();
    String::from_utf16(&units).unwrap()
}

#[test]
fn utf16_encoding_starts_with_a_bom() {
    let bytes = to_utf16le_with_bom("AB");
    assert_eq!(bytes, vec![0xFF, 0xFE, b'A', 0x00, b'B', 0x00]);
}

#[test]
fn registry_escaping_survives_a_json_round_trip() {
    let mut map = serde_json::Map::new();
    map.insert(
        "certificate".to_owned(),
        serde_json::Value::String("MIIB\"x\\y".to_owned()),
    );
    let object = serde_json::Value::Object(map).to_string();
    let escaped = registry_escape(&object);
    // Reverse what regedit does when reading the value back.
    let unescaped = escaped.replace("\\\"", "\"").replace(r"\\", "\\");
    assert_eq!(unescaped, object);
    let parsed: serde_json::Value = serde_json::from_str(&unescaped).expect("valid json");
    assert_eq!(parsed["certificate"], "MIIB\"x\\y");
}

#[test]
fn registry_escapes_are_backslashes() {
    assert_eq!(registry_escape(r#"a"b\c"#), r#"a\"b\\c"#);
    for s in ["", "\\", "\"", "\\\"", "\"\\", "\\\\\"\"", "plain"] {
        let escaped = registry_escape(s);
        assert_eq!(escaped, s.replace('\\', r"\\").replace('"', "\\\""));
        assert_eq!(escaped.replace("\\\"", "\"").replace(r"\\", "\\"), s);
    }
}

#[test]
fn utf16_matches_the_standard_library() {
    for s in ["", "да", "🦀x", "\u{d7ff}\u{e000}\u{ffff}\u{10000}\u{10ffff}"] {
        let mut expected = vec![0xFF, 0xFE];
        for unit in s.encode_utf16() {
            expected.extend_from_slice(&unit.to_le_bytes());
        }
        assert_eq!(to_utf16le_with_bom(s), expected);
    }
}

#[test]
fn line_endings_are_normalised_once() {
    assert_eq!(to_crlf("a\nb\r\nc\r\r\nd\r"), "a\r\nb\r\nc\r\r\nd\r");
    for s in ["", "\n", "\r", "\r\n\n", "x\r\ry\n"] {
        let once = to_crlf(s);
        assert_eq!(once, s.replace("\r\n", "\n").replace('\n', "\r\n"));
        assert_eq!(to_crlf(&once), once);
    }
    assert_eq!(wrapper_file("@echo off\n"), b"@echo off\r\n".to_vec());
}

#[test]
fn no_line_feed_stands_alone() {
    let text = to_crlf("\na\n\r\n\r\rb\n");
    let bytes = text.as_bytes();
    for (i, b) in bytes.iter().enumerate() {
        if *b == b'\n' {
            assert_eq!(bytes[i - 1], b'\r');
        }
    }
}

#[test]
fn different_texts_have_different_utf16() {
    assert_ne!(to_utf16le_with_bom("\u{d7ff}\u{e000}"), to_utf16le_with_bom("\u{10000}"));
    assert_eq!(to_utf16le_with_bom("\u{10000}"), vec![0xFF, 0xFE, 0x00, 0xD8, 0x00, 0xDC]);
}

#[test]
fn an_embedded_certificate_is_wrapped_base64() {
    let der = foreign("Embedded");
    let cert = load_cert(&der).unwrap();
    let entry = embed_entry("root'1", "constrained", &cert);
    let body = entry
        .strip_prefix("@{Name='root'1';Kind='constrained';B64=@'\n")
        .and_then(|rest| rest.strip_suffix("\n'@}"))
        .unwrap();
    assert!(body.lines().all(|line| line.len() <= 76));
    assert_eq!(body.lines().next().unwrap().len(), 76);
    let decoded = base64::engine::general_purpose::STANDARD.decode(body.replace('\n', "")).unwrap();
    assert_eq!(decoded, der);
}

#[test]
fn stale_copies_are_found() {
    let ws = Workspace::new("/w");
    let names: Vec<String> = [
        "myroot.crt",
        "myroot.pem",
        "a-constrained.crt",
        "a-original.crt",
        "russian_trusted_root_ca.crt",
        "a-original.crt.bak",
        "russian-root-constrained.crt",
    ]
    .map(str::to_owned)
    .to_vec();
    assert_eq!(
        clean_stale(&ws, &names),
        vec![
            "/w/myroot.crt",
            "/w/a-constrained.crt",
            "/w/a-original.crt",
            "/w/russian_trusted_root_ca.crt",
            "/w/russian-root-constrained.crt",
        ]
    );
}

#[test]
fn artifacts_hold_what_was_signed() {
    let ws = Workspace::new("/w");
    let (local, key) = generate_root("Local", 3650).unwrap();
    let pem = local.to_pem().unwrap();
    let roots = roots(&ws, &["a", "b"]);
    let crosses = signed(&ws, &["x.ru", "y.ru"], &roots, &local, &key);
    let artifacts = stage(&ws, &roots, &pem, &crosses, TEMPLATE, "@echo off\n").unwrap();

    assert_eq!(artifacts.staged.dir, "/w");
    assert_eq!(artifacts.staged.roots, 2);
    assert_eq!(artifacts.staged.domains, vec!["x.ru", "y.ru"]);

    assert_eq!(artifacts.policy.path, "/w/constrained-ca-policy.reg");
    assert_eq!(artifacts.policy.contents[..2], [0xFF, 0xFE]);
    let policy = utf16(&artifacts.policy.contents);
    let lines: Vec<&str> = policy.split("\r\n").collect();
    assert_eq!(lines[0], "Windows Registry Editor Version 5.00");
    assert_eq!(lines[1], "");
    assert_eq!(
        lines[2],
        r"[HKEY_LOCAL_MACHINE\SOFTWARE\Policies\Google\Chrome\CACertificatesWithConstraints]"
    );
    assert_eq!(lines[5], "");
    assert_eq!(
        lines[6],
        r"[HKEY_LOCAL_MACHINE\SOFTWARE\Policies\Microsoft\Edge\CACertificatesWithConstraints]"
    );
    assert_eq!(lines.len(), 10);
    let value = lines[4].strip_prefix("\"2\"=\"").and_then(|l| l.strip_suffix('"')).unwrap();
    let text = value.replace("\\\"", "\"").replace(r"\\", "\\");
    let parsed: serde_json::Value = serde_json::from_str(&text).unwrap();
    assert_eq!(parsed.to_string(), text);
    let b64 = base64::engine::general_purpose::STANDARD.encode(roots[1].cert.der());
    assert_eq!(parsed["certificate"], b64.as_str());
    assert_eq!(parsed["constraints"]["permitted_dns_names"][1], "y.ru");
    assert_eq!(parsed["constraints"]["permitted_cidrs"][0], "127.0.0.1/32");

    assert_eq!(artifacts.installer.path, "/w/install-certs.ps1");
    assert_eq!(artifacts.installer.contents[..3], [0xEF, 0xBB, 0xBF]);
    let installer = String::from_utf8(artifacts.installer.contents[3..].to_vec()).unwrap();
    assert!(!installer.contains("#<<<EMBEDDED>>>"));
    let first = load_cert(crosses[0].as_ref().unwrap()).unwrap();
    let block = [
        embed_entry("myroot", "root", &local),
        embed_entry("a", "constrained", &first),
        embed_entry("a", "original", &roots[0].cert),
    ]
    .join("\n");
    assert!(installer.starts_with(&to_crlf(&format!("# installer\n$certs = @(\n{block}\n"))));

    assert_eq!(artifacts.wrapper.path, "/w/install-certs.cmd");
    assert_eq!(artifacts.wrapper.contents, b"@echo off\r\n".to_vec());
}

#[test]
fn names_cannot_break_out_of_the_policy() {
    let ws = Workspace::new("/w");
    let (local, key) = generate_root("Local", 3650).unwrap();
    let roots = roots(&ws, &["a"]);
    let crosses = signed(&ws, &["x\"\\y.ru"], &roots, &local, &key);
    let pem = local.to_pem().unwrap();
    let artifacts = stage(&ws, &roots, &pem, &crosses, TEMPLATE, "").unwrap();
    let name = artifacts.staged.domains[0].clone();
    let policy = utf16(&artifacts.policy.contents);
    let line = policy.split("\r\n").nth(3).unwrap();
    let value = line.strip_prefix("\"1\"=\"").and_then(|l| l.strip_suffix('"')).unwrap();
    let text = value.replace("\\\"", "\"").replace(r"\\", "\\");
    let parsed: serde_json::Value = serde_json::from_str(&text).unwrap();
    assert_eq!(parsed["constraints"]["permitted_dns_names"][0], name.as_str());
}

#[test]
fn nothing_is_staged_from_unsound_certificates() {
    let ws = Workspace::new("/w");
    let (local, key) = generate_root("Local", 3650).unwrap();
    let pem = local.to_pem().unwrap();
    let roots = roots(&ws, &["a", "b"]);
    let none: Vec<ForeignRoot> = Vec::new();
    let e = stage(&ws, &none, &pem, &Vec::new(), TEMPLATE, "").unwrap_err();
    assert!(matches!(e, StageError::NoRoots));
    assert_eq!(
        e.describe(),
        "нет корневых сертификатов, для которых создавать файлы установки"
    );

    let mut crosses = signed(&ws, &["x.ru"], &roots, &local, &key);
    let e = stage(&ws, &roots, &b"junk".to_vec(), &crosses, TEMPLATE, "").unwrap_err();
    assert_eq!(e.describe(), "/w/myroot.pem is not a PEM or DER certificate");

    let other = signed(&ws, &["z.ru"], &roots, &local, &key);
    let second = std::mem::replace(&mut crosses[1], other[1].clone());
    let e = stage(&ws, &roots, &pem, &crosses, TEMPLATE, "").unwrap_err();
    assert!(matches!(e, StageError::ListsDiffer));
    assert!(e.describe().ends_with("Выполните `rucerts resign`."));

    crosses[1] = None;
    let e = stage(&ws, &roots, &pem, &crosses, TEMPLATE, "").unwrap_err();
    assert_eq!(e.describe(), "нет кросс-сертификата для b -- выполните `rucerts resign`");

    crosses[1] = Some(b"junk".to_vec());
    let e = stage(&ws, &roots, &pem, &crosses, TEMPLATE, "").unwrap_err();
    assert_eq!(e.describe(), "/w/constrained/b.pem is not a PEM or DER certificate");

    // A certificate without constraints permits nothing.
    crosses[1] = Some(roots[1].cert.to_pem().unwrap());
    let e = stage(&ws, &roots, &pem, &crosses, TEMPLATE, "").unwrap_err();
    assert_eq!(
        e.describe(),
        "/w/constrained/b.pem не разрешает ни одного DNS-имени -- файлы установки не создаются"
    );

    crosses[1] = second;
    assert!(stage(&ws, &roots, &pem, &crosses, TEMPLATE, "").is_ok());
}
