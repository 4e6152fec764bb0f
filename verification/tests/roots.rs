//! The roots of a workspace: listing, adding and retiring.
use openssl::asn1::Asn1Time;
use openssl::bn::BigNum;
use openssl::hash::MessageDigest;
use openssl::nid::Nid;
use openssl::pkey::{PKey, Private};
use openssl::rsa::Rsa;
use openssl::x509::extension::BasicConstraints;
use openssl::x509::{X509Builder, X509NameBuilder};
use rucerts::roots::{
    add, destination, has_root_extension, list, retire, sanitise_name, Added, DirEntry, RootError,
};
use rucerts::workspace::Workspace;

fn key() -> PKey<Private> {
    PKey::from_rsa(Rsa::generate(2048).unwrap()).unwrap()
}

fn cert(key: &PKey<Private>, issuer: &str, serial: u32, ca: bool) -> Vec<u8> {
    let mut name = X509NameBuilder::new().unwrap();
    name.append_entry_by_nid(Nid::COMMONNAME, "Foreign").unwrap();
    let name = name.build();
    let mut other = X509NameBuilder::new().unwrap();
    other.append_entry_by_nid(Nid::COMMONNAME, issuer).unwrap();
    let other = other.build();
    let mut b = X509Builder::new().unwrap();
    b.set_version(2).unwrap();
    b.set_subject_name(&name).unwrap();
    b.set_issuer_name(&other).unwrap();
    b.set_pubkey(key).unwrap();
    b.set_serial_number(&BigNum::from_u32(serial).unwrap().to_asn1_integer().unwrap()).unwrap();
    b.set_not_before(&Asn1Time::days_from_now(0).unwrap()).unwrap();
    b.set_not_after(&Asn1Time::days_from_now(100).unwrap()).unwrap();
    if ca {
        b.append_extension(BasicConstraints::new().critical().ca().build().unwrap()).unwrap();
    }
    b.sign(key, MessageDigest::sha256()).unwrap();
    b.build().to_der().unwrap()
}

fn entry(name: &str, contents: &[u8]) -> DirEntry {
    DirEntry {
        file_name: name.to_owned(),
        is_utf8: true,
        is_file: true,
        contents: Some(contents.to_vec()),
    }
}

#[test]
fn only_certificate_extensions_are_listed() {
    assert!(has_root_extension("roots/a.cer"));
    assert!(has_root_extension("roots/a.PEM"));
    assert!(has_root_extension("roots/a.crt"));
    assert!(!has_root_extension("roots/retired"));
    assert!(!has_root_extension("roots/notes.txt"));
}

#[test]
fn names_are_reduced_to_safe_characters() {
    assert_eq!(sanitise_name("russian_trusted_root_ca"), "russian_trusted_root_ca");
    assert_eq!(sanitise_name("root 2027 (new)"), "root_2027__new_");
    assert_eq!(sanitise_name("../../etc/passwd"), ".._.._etc_passwd");
}

#[test]
fn odd_extensions_are_not_accepted() {
    assert!(!has_root_extension("roots/.cer"));
    assert!(!has_root_extension("roots/a.cer/.."));
    assert!(!has_root_extension("roots/a.cerx"));
    assert!(has_root_extension("roots/a.b.CrT"));
    assert_eq!(sanitise_name(&sanitise_name("a b/c")), sanitise_name("a b/c"));
    assert_eq!(sanitise_name("имя-1"), "___-1");
}

#[test]
fn roots_are_listed_by_name_and_others_left_out() {
    let ws = Workspace::new("/w");
    let der = cert(&key(), "Foreign", 1, true);
    let mut dir = entry("old.cer", b"");
    dir.is_file = false;
    let entries = vec![
        entry("b.cer", &der),
        entry("notes.txt", b"no certificate"),
        dir,
        entry("a.pem", &der),
        entry("b.crt", &der),
    ];
    let roots = list(&ws, &entries).unwrap();
    let listed: Vec<_> = roots.iter().map(|r| (r.name.as_str(), r.path.as_str())).collect();
    assert_eq!(
        listed,
        vec![("a", "/w/roots/a.pem"), ("b", "/w/roots/b.cer"), ("b", "/w/roots/b.crt")]
    );
    assert_eq!(roots[0].cert.der(), &der);
    assert!(list(&ws, &Vec::new()).unwrap().is_empty());
}

#[test]
fn the_first_unsound_entry_is_reported() {
    let ws = Workspace::new("/w");
    let mut odd = entry("\u{fffd}.cer", b"");
    odd.is_utf8 = false;
    let mut lost = entry("lost.cer", b"");
    lost.contents = None;
    let e = list(&ws, &vec![entry("bad.cer", b"x"), odd]).unwrap_err();
    assert_eq!(e.describe(), "/w/roots/bad.cer is not a PEM or DER certificate");
    let mut odd = entry("\u{fffd}.cer", b"");
    odd.is_utf8 = false;
    let e = list(&ws, &vec![odd, entry("bad.cer", b"x")]).unwrap_err();
    assert!(matches!(e, RootError::NameNotUtf8));
    assert_eq!(e.describe(), "root file name is not valid UTF-8");
    let e = list(&ws, &vec![lost]).unwrap_err();
    assert_eq!(e.describe(), "reading /w/roots/lost.cer");
}

#[test]
fn a_new_key_is_filed_and_the_same_key_is_a_renewal() {
    let ws = Workspace::new("/w");
    let first = key();
    let der = cert(&first, "Foreign", 1, true);
    assert_eq!(
        destination(&ws, "/tmp/new root.cer").unwrap(),
        ("new_root".to_owned(), "/w/roots/new_root.cer".to_owned())
    );
    let new = add(&ws, "/tmp/new root.cer", true, &der, &Vec::new(), false).unwrap();
    assert!(matches!(&new.added, Added::NewKey { name } if name == "new_root"));
    assert_eq!(new.create, vec!["/w/roots", "/w/constrained"]);
    assert_eq!(new.write.path, "/w/roots/new_root.cer");
    assert!(new.write.contents.starts_with(b"-----BEGIN CERTIFICATE-----"));

    // Once it is filed, another certificate for the key refreshes it.
    let entries = vec![
        entry("aaa.cer", &cert(&key(), "Foreign", 2, true)),
        entry("new_root.cer", &new.write.contents),
    ];
    let renewed = cert(&first, "Foreign", 99, true);
    let again = add(&ws, "/tmp/other.pem", true, &renewed, &entries, true).unwrap();
    assert!(matches!(&again.added, Added::Renewal { existing } if existing == "new_root"));
    assert!(again.create.is_empty());
    assert_eq!(again.write.path, "/w/roots/new_root.cer");
    let reloaded = rucerts::x509::load_cert(&again.write.contents).unwrap();
    assert_eq!(reloaded.der(), &renewed);
}

#[test]
fn what_cannot_be_cross_signed_is_refused() {
    let ws = Workspace::new("/w");
    let k = key();
    let none = Vec::new();
    let e = add(&ws, "x.cer", true, &b"junk".to_vec(), &none, false).unwrap_err();
    assert_eq!(e.describe(), "x.cer is not a PEM or DER certificate");
    let e = add(&ws, "x.cer", true, &cert(&k, "Issuer", 1, true), &none, false).unwrap_err();
    assert!(matches!(e, RootError::NotSelfSigned { .. }));
    assert_eq!(
        e.describe(),
        "x.cer is not self-signed -- an intermediate cannot be cross-signed this way"
    );
    let e = add(&ws, "x.cer", true, &cert(&k, "Foreign", 1, false), &none, false).unwrap_err();
    assert!(matches!(e, RootError::NotACa { .. }));
    assert_eq!(
        e.describe(),
        "x.cer is not a CA certificate (basicConstraints CA:TRUE missing)"
    );
    let good = cert(&k, "Foreign", 1, true);
    let e = add(&ws, "x.cer", true, &good, &none, true).unwrap_err();
    assert!(matches!(&e, RootError::AlreadyExists { name } if name == "x"));
    assert_eq!(
        e.describe(),
        "roots/x.cer already exists with a different key -- rename the input, or retire the old one first"
    );
    // A root of that name has another extension and another key.
    let other = vec![entry("x.pem", &cert(&key(), "Foreign", 2, true))];
    let e = add(&ws, "x.cer", true, &good, &other, false).unwrap_err();
    assert!(matches!(&e, RootError::AlreadyExists { name } if name == "x"));
    let ok = add(&ws, "y.cer", true, &good, &other, false).unwrap();
    assert_eq!(ok.added, Added::NewKey { name: "y".to_owned() });
    let e = add(&ws, "x.cer", false, &good, &none, false).unwrap_err();
    assert!(matches!(e, RootError::InputNameNotUtf8));
    let e = add(&ws, "..", true, &good, &none, false).unwrap_err();
    assert_eq!(e.describe(), "input file name is not valid UTF-8");
}

#[test]
fn retiring_moves_the_root_aside() {
    let ws = Workspace::new("/w");
    let der = cert(&key(), "Foreign", 1, true);
    let entries = vec![entry("b.cer", &der), entry("a.pem", &der)];
    let retirement = retire(&ws, &entries, "b").unwrap();
    assert_eq!(retirement.create, "/w/roots/retired");
    assert_eq!(retirement.from, "/w/roots/b.cer");
    assert_eq!(retirement.to, "/w/roots/retired/b.cer");
    assert_eq!(retirement.cross, "/w/constrained/b.pem");
    let e = retire(&ws, &entries, "c").unwrap_err();
    assert_eq!(e.describe(), "no root named 'c' (see `rucerts ca list`)");
    let e = retire(&ws, &vec![entry("b.cer", &der)], "b").unwrap_err();
    assert!(matches!(e, RootError::OnlyRoot));
    assert_eq!(
        e.describe(),
        "refusing to retire the only root -- remove the certificates from your trust stores instead"
    );
    let left = list(&ws, &vec![entry("a.pem", &der)]).unwrap();
    assert!(left.iter().all(|r| r.path != retirement.from));
    assert_eq!(left.len(), 1);
    assert_eq!(left[0].name, "a");
}
