//! Certificates: rendering, generation, cross-signing and reading back.
use openssl::asn1::Asn1Time;
use openssl::bn::BigNum;
use openssl::hash::MessageDigest;
use openssl::nid::Nid;
use openssl::pkey::PKey;
use openssl::rsa::Rsa;
use openssl::x509::extension::{BasicConstraints, SubjectAlternativeName, SubjectKeyIdentifier};
use openssl::x509::{X509Builder, X509NameBuilder, X509};
use rucerts::config::{Config, Constraints};
use rucerts::error::{Error, Operation};
use rucerts::probe::{dns_names, Chain};
use rucerts::x509::{
    asks_passphrase, clear_sign_bit, cross_sign, expiry, fingerprint, generate_root, hex, is_ca,
    is_self_signed,
    load_cert, load_key, make_serial, name_constraints_ext, name_constraints_value, parse_permitted_dns,
    permitted_dns, pubkey_fingerprint, ski_hex, subject_cn, text_shows_ca, text_shows_line,
    Certificate,
};

fn constraints(names: &[&str]) -> Constraints {
    Config::new(names.iter().map(|s| (*s).to_owned()).collect()).constraints
}

/// A self-signed certificate of another CA, in DER.
fn foreign(cn: &str, ca: bool) -> Vec<u8> {
    let key = PKey::from_rsa(Rsa::generate(2048).unwrap()).unwrap();
    let mut name = X509NameBuilder::new().unwrap();
    name.append_entry_by_nid(Nid::ORGANIZATIONNAME, "Ministry").unwrap();
    name.append_entry_by_nid(Nid::COMMONNAME, cn).unwrap();
    let name = name.build();
    let mut b = X509Builder::new().unwrap();
    b.set_version(2).unwrap();
    b.set_subject_name(&name).unwrap();
    b.set_issuer_name(&name).unwrap();
    b.set_pubkey(&key).unwrap();
    b.set_serial_number(&BigNum::from_u32(7).unwrap().to_asn1_integer().unwrap()).unwrap();
    b.set_not_before(&Asn1Time::days_from_now(0).unwrap()).unwrap();
    b.set_not_after(&Asn1Time::days_from_now(100).unwrap()).unwrap();
    if ca {
        b.append_extension(BasicConstraints::new().critical().ca().build().unwrap()).unwrap();
    }
    let ski = SubjectKeyIdentifier::new().build(&b.x509v3_context(None, None)).unwrap();
    b.append_extension(ski).unwrap();
    let san = SubjectAlternativeName::new()
        .dns("a.ru")
        .ip("10.0.0.1")
        .dns("*.b.ru")
        .build(&b.x509v3_context(None, None))
        .unwrap();
    b.append_extension(san).unwrap();
    b.sign(&key, MessageDigest::sha256()).unwrap();
    b.build().to_der().unwrap()
}

fn parsed(cert: &Certificate) -> X509 {
    X509::from_der(cert.der()).unwrap()
}

#[test]
fn value_lists_permitted_then_excluded() {
    let c = constraints(&["a.ru", "b.ru"]);
    let v = name_constraints_value(&c).expect("non-empty list");
    assert_eq!(
        v,
        "critical,permitted;DNS:a.ru,permitted;DNS:b.ru,\
         excluded;IP:0.0.0.0/0.0.0.0,excluded;IP:::/::,\
         excluded;email:.,excluded;URI:."
    );
}

#[test]
fn empty_permitted_list_is_rejected() {
    let c = constraints(&[]);
    // Panics if this unexpectedly succeeds, which is the assertion.
    name_constraints_value(&c).unwrap_err();
}

#[test]
fn hex_rendering_matches_openssl_conventions() {
    assert_eq!(hex(&[0xE1, 0x0D], true), "E1:0D");
    assert_eq!(hex(&[0xE1, 0x0D], false), "e10d");
    assert_eq!(hex(&[], true), "");
}

#[test]
fn parses_permitted_but_not_excluded_names() {
    let text = "\
        X509v3 Name Constraints: critical\n\
        \x20   Permitted:\n\
        \x20     DNS:sberbank.ru\n\
        \x20     DNS:vtb.ru\n\
        \x20   Excluded:\n\
        \x20     DNS:evil.ru\n\
        \x20     IP:0.0.0.0/0.0.0.0\n";
    assert_eq!(parse_permitted_dns(text), vec!["sberbank.ru", "vtb.ru"]);
}

#[test]
fn parsing_stops_at_the_next_extension() {
    let text = "DNS:before.ru\nX509v3 Name Constraints:\nPermitted:\nDNS:a.ru\n\
                X509v3 Subject Alternative Name:\nDNS:late.ru\n";
    assert_eq!(parse_permitted_dns(text), vec!["a.ru"]);
    assert!(parse_permitted_dns("Permitted:\nDNS:a.ru\n").is_empty());
}

#[test]
fn exclusions_can_be_switched_off() {
    let mut c = constraints(&["a.ru"]);
    c.exclude_ip = false;
    c.exclude_uri = false;
    assert_eq!(
        name_constraints_value(&c).unwrap(),
        "critical,permitted;DNS:a.ru,excluded;email:."
    );
    c.exclude_email = false;
    assert_eq!(name_constraints_value(&c).unwrap(), "critical,permitted;DNS:a.ru");
}

#[test]
fn sign_bits_are_cleared() {
    let mut bytes = vec![0xff, 0xff];
    clear_sign_bit(&mut bytes);
    assert_eq!(bytes, vec![0x7f, 0xff]);
}

#[test]
fn hex_decodes_back_in_both_forms() {
    let bytes: Vec<u8> = (0..=255).collect();
    for n in [0, 1, 2, 256] {
        let b = &bytes[256 - n..];
        let (plain, colons) = (hex(b, false), hex(b, true));
        assert_eq!(plain.len(), 2 * n);
        assert_eq!(colons.len(), if n == 0 { 0 } else { 3 * n - 1 });
        assert_eq!(colons.replace(':', "").to_ascii_lowercase(), plain);
        for (i, byte) in b.iter().enumerate() {
            assert_eq!(u8::from_str_radix(&plain[2 * i..2 * i + 2], 16), Ok(*byte));
        }
    }
}

#[test]
fn a_saved_root_signs_like_the_generated_one() {
    let (root, key) = generate_root("Local root", 3650).unwrap();
    let read = load_key(&key.to_pem().unwrap()).unwrap();
    let original = load_cert(&foreign("Foreign root", true)).unwrap();
    let cross = cross_sign(&root, &read, &original, &constraints(&["a.ru"]), 10, 1).unwrap();
    assert!(parsed(&cross).verify(&parsed(&root).public_key().unwrap()).unwrap());
}

#[test]
fn serials_are_positive() {
    let mut zero = vec![0x80, 0, 0, 0, 0, 0, 0, 0];
    make_serial(&mut zero);
    assert_eq!(zero, vec![0, 0, 0, 0, 0, 0, 0, 1]);
    let mut drawn = vec![0xff, 1, 2, 3, 4, 5, 6, 0];
    make_serial(&mut drawn);
    assert_eq!(drawn, vec![0x7f, 1, 2, 3, 4, 5, 6, 0]);
}

#[test]
fn encrypted_blocks_are_recognised() {
    let block = b"-----BEGIN CERTIFICATE-----\nProc-Type: 4,ENCRYPTED\nDEK-Info: AES-256-CBC,00\n";
    assert!(asks_passphrase(&block.to_vec()));
    assert!(!asks_passphrase(&b"Proc-Type: 4,ENCRYPTED".to_vec()));
    assert!(!asks_passphrase(&Vec::new()));
    let cert = load_cert(&foreign("Root", true)).unwrap();
    assert!(!asks_passphrase(&cert.to_pem().unwrap()));
    assert!(!asks_passphrase(cert.der()));
}

#[test]
fn different_bytes_have_different_hex() {
    assert_ne!(hex(&[0x01, 0x23], false), hex(&[0x12, 0x03], false));
    assert_eq!(hex(&[0x00, 0x09, 0xaf], true), "00:09:AF");
    assert_eq!(hex(&[0x5f], false), "5f");
}

#[test]
fn a_common_name_must_have_one_to_64_bytes() {
    assert!(matches!(generate_root("", 10), Err(Error::EmptyCommonName)));
    let long = "й".repeat(33);
    assert!(matches!(
        generate_root(&long, 10),
        Err(Error::CommonNameTooLong { bytes: 66 })
    ));
    let e = generate_root(&long, 10).err().unwrap();
    assert_eq!(e.describe(), "common name is 66 bytes; the X.509 upper bound is 64");
}

#[test]
fn a_generated_root_is_self_signed_and_keeps_its_name() {
    let (cert, key) = generate_root("Мой корень", 3650).unwrap();
    assert!(is_self_signed(&cert).unwrap());
    assert!(is_ca(&cert).unwrap());
    assert_eq!(subject_cn(&cert).unwrap(), "Мой корень");
    let x = parsed(&cert);
    assert_eq!(x.public_key().unwrap().bits(), 4096);
    assert_eq!(x.version(), 2);
    assert!(!x.serial_number().to_bn().unwrap().is_negative());
    let pem = key.to_pem().unwrap();
    let again = load_key(&pem).unwrap();
    assert_eq!(again.to_pem().unwrap(), pem);
    let own = PKey::private_key_from_pem(&pem).unwrap();
    assert!(x.verify(&own).unwrap());
    assert!(x.public_key().unwrap().public_eq(&own));
    assert!(ski_hex(&cert).is_some());
}

#[test]
fn pem_and_der_both_load() {
    let der = foreign("Root", true);
    let cert = load_cert(&der).unwrap();
    assert_eq!(cert.der(), &der);
    let pem = cert.to_pem().unwrap();
    assert_eq!(pem, X509::from_der(&der).unwrap().to_pem().unwrap());
    assert_eq!(load_cert(&pem).unwrap().der(), &der);
    assert_eq!(cert.duplicate().der(), &der);
}

#[test]
fn garbage_does_not_load() {
    let e = load_cert(&b"garbage".to_vec()).unwrap_err();
    assert!(matches!(e, Error::NotACertificate));
    assert_eq!(e.describe(), "not a PEM or DER certificate");
    let e = load_key(&b"garbage".to_vec()).err().unwrap();
    assert!(matches!(e, Error::NotAPrivateKey));
    assert_eq!(e.describe(), "parsing key");
}

#[test]
fn a_cross_certificate_keeps_subject_key_and_identifier() {
    let (root, key) = generate_root("Local root", 3650).unwrap();
    let original = load_cert(&foreign("Foreign root", true)).unwrap();
    let c = constraints(&["sberbank.ru", "sbrf.ru"]);
    let cross = cross_sign(&root, &key, &original, &c, 2000, 1).unwrap();
    let (x, o, r) = (parsed(&cross), parsed(&original), parsed(&root));
    assert_eq!(x.subject_name().to_der().unwrap(), o.subject_name().to_der().unwrap());
    assert_eq!(x.issuer_name().to_der().unwrap(), r.subject_name().to_der().unwrap());
    assert!(x.public_key().unwrap().public_eq(&o.public_key().unwrap()));
    assert!(x.verify(&r.public_key().unwrap()).unwrap());
    assert_eq!(ski_hex(&cross), ski_hex(&original));
    assert!(ski_hex(&cross).is_some());
    assert_eq!(pubkey_fingerprint(&cross).unwrap(), pubkey_fingerprint(&original).unwrap());
    assert_ne!(fingerprint(&cross).unwrap(), fingerprint(&original).unwrap());
    assert!(!is_self_signed(&cross).unwrap());
    assert!(is_ca(&cross).unwrap());
    assert_eq!(permitted_dns(&cross).unwrap(), vec!["sberbank.ru", "sbrf.ru"]);
    let text = String::from_utf8(x.to_text().unwrap()).unwrap();
    assert!(text.contains("X509v3 Name Constraints: critical"));
    assert!(text.contains("CA:TRUE, pathlen:1"));
    assert!(text.contains("Certificate Sign, CRL Sign"));
    let akid = x.authority_key_id().unwrap().as_slice().to_vec();
    assert_eq!(akid, r.subject_key_id().unwrap().as_slice().to_vec());
}

#[test]
fn every_certificate_has_a_serial_of_its_own() {
    let (root, key) = generate_root("Local root", 3650).unwrap();
    let original = load_cert(&foreign("Foreign root", true)).unwrap();
    let c = constraints(&["a.ru"]);
    let one = cross_sign(&root, &key, &original, &c, 10, 0).unwrap();
    let two = cross_sign(&root, &key, &original, &c, 10, 0).unwrap();
    let serial = |cert: &Certificate| parsed(cert).serial_number().to_bn().unwrap().to_vec();
    assert_ne!(serial(&one), serial(&two));
    assert_ne!(serial(&one), vec![7]);
    assert!(serial(&one).len() <= 8);
}

#[test]
fn validity_starts_now_and_lasts_as_long_as_asked() {
    let (root, key) = generate_root("Local root", 3650).unwrap();
    let original = load_cert(&foreign("Foreign root", true)).unwrap();
    let cross = cross_sign(&root, &key, &original, &constraints(&["a.ru"]), 2000, 1).unwrap();
    for (cert, days) in [(&root, 3650), (&cross, 2000)] {
        let x = parsed(cert);
        let span = x.not_before().diff(x.not_after()).unwrap();
        assert_eq!(span.days, days);
    }
}

#[test]
fn nothing_is_signed_without_permitted_names() {
    let (root, key) = generate_root("Local root", 3650).unwrap();
    let original = load_cert(&foreign("Foreign root", true)).unwrap();
    let e = cross_sign(&root, &key, &original, &constraints(&[]), 2000, 1).unwrap_err();
    assert!(matches!(e, Error::NoPermittedNames));
    assert_eq!(
        e.describe(),
        "no permitted DNS names -- the certificate would trust nothing"
    );
}

#[test]
fn a_name_that_openssl_cannot_parse_is_an_error() {
    let Err(e) = name_constraints_ext(&constraints(&["a.ru,nonsense;X:y"])) else {
        panic!("encoded");
    };
    assert!(matches!(
        e,
        Error::OpenSsl { operation: Operation::EncodeNameConstraints, .. }
    ));
    assert_eq!(e.describe(), "encoding nameConstraints");
    assert!(name_constraints_ext(&constraints(&["a.ru"])).is_ok());
}

#[test]
fn readers_agree_with_openssl() {
    let der = foreign("Читатель", false);
    let cert = load_cert(&der).unwrap();
    let x = X509::from_der(&der).unwrap();
    assert!(is_self_signed(&cert).unwrap());
    assert!(!is_ca(&cert).unwrap());
    assert_eq!(subject_cn(&cert).unwrap(), "Читатель");
    assert_eq!(expiry(&cert).unwrap(), x.not_after().to_string());
    let digest = x.digest(MessageDigest::sha256()).unwrap();
    assert_eq!(fingerprint(&cert).unwrap(), hex(&digest, true));
    let spki = x.public_key().unwrap().public_key_to_der().unwrap();
    let hash = openssl::hash::hash(MessageDigest::sha256(), &spki).unwrap();
    assert_eq!(pubkey_fingerprint(&cert).unwrap(), hex(&hash, false));
    assert_eq!(pubkey_fingerprint(&cert).unwrap().len(), 64);
    assert_eq!(
        ski_hex(&cert).unwrap(),
        hex(x.subject_key_id().unwrap().as_slice(), true)
    );
    assert!(permitted_dns(&cert).unwrap().is_empty());
}

#[test]
fn a_name_does_not_make_a_ca() {
    let cert = load_cert(&foreign("CA:TRUE", false)).unwrap();
    assert!(!is_ca(&cert).unwrap());
    assert!(is_ca(&load_cert(&foreign("CA:FALSE", true)).unwrap()).unwrap());
    assert!(text_shows_ca("X509v3 Basic Constraints: critical\n    CA:TRUE, pathlen:4\n"));
    assert!(!text_shows_ca("X509v3 Basic Constraints:\n    CA:FALSE\n"));
    assert!(!text_shows_ca("Subject: CN=CA:TRUE\nX509v3 Basic Constraints:"));
    assert!(text_shows_line("a\n  X509v3 Name Constraints: critical\n", "X509v3 Name Constraints: critical"));
    assert!(!text_shows_line("Subject: CN=X509v3 Name", "X509v3 Name"));
    assert!(!text_shows_line("", "X"));
}

#[test]
fn only_dns_names_are_taken_from_the_alternative_names() {
    let cert = load_cert(&foreign("Leaf", false)).unwrap();
    assert_eq!(dns_names(&cert), vec!["a.ru", "*.b.ru"]);
    let (root, _) = generate_root("No names", 10).unwrap();
    assert!(dns_names(&root).is_empty());
}

#[test]
fn a_presented_chain_drops_the_repeated_leaf() {
    let a = load_cert(&foreign("A", false)).unwrap();
    let b = load_cert(&foreign("B", true)).unwrap();
    let chain = Chain::presented(a.duplicate(), Some(vec![a.duplicate(), b.duplicate()]));
    assert_eq!(chain.leaf.der(), a.der());
    assert_eq!(chain.intermediates.len(), 1);
    assert_eq!(chain.intermediates[0].der(), b.der());
    assert!(Chain::presented(a.duplicate(), None).intermediates.is_empty());
    assert!(Chain::presented(a.duplicate(), Some(Vec::new())).intermediates.is_empty());
}
