//! Signing and auditing with real chains.
use openssl::asn1::Asn1Time;
use openssl::bn::BigNum;
use openssl::hash::MessageDigest;
use openssl::nid::Nid;
use openssl::pkey::{PKey, Private};
use openssl::rsa::Rsa;
use openssl::x509::extension::{
    AuthorityKeyIdentifier, BasicConstraints, SubjectAlternativeName, SubjectKeyIdentifier,
};
use openssl::x509::{X509Builder, X509NameBuilder, X509};
use rucerts::config::Config;
use rucerts::domains::uncovered_sans;
use rucerts::error::FileError;
use rucerts::probe::Chain;
use rucerts::roots::{list, DirEntry, ForeignRoot};
use rucerts::signing::{
    can_sign, cross_file, readiness, resign, root_facts, Readiness, SignError,
};
use rucerts::verify::{
    base_of, has_validatable, judge_control, judge_probe, narrow, probe_targets, run, same_key_id, verdict_of,
    verify_chain, Evidence, Finding, Outcome, Report, Verdict,
};
use rucerts::workspace::Workspace;
use rucerts::x509::{generate_root, load_cert, pubkey_fingerprint, ski_hex, Certificate};

struct Authority {
    cert: X509,
    key: PKey<Private>,
}

fn issue(cn: &str, issuer: Option<&Authority>, names: &[&str]) -> Authority {
    let key = PKey::from_rsa(Rsa::generate(2048).unwrap()).unwrap();
    let mut name = X509NameBuilder::new().unwrap();
    name.append_entry_by_nid(Nid::COMMONNAME, cn).unwrap();
    let name = name.build();
    let mut b = X509Builder::new().unwrap();
    b.set_version(2).unwrap();
    b.set_subject_name(&name).unwrap();
    b.set_issuer_name(issuer.map_or(&name, |i| i.cert.subject_name())).unwrap();
    b.set_pubkey(&key).unwrap();
    b.set_serial_number(&BigNum::from_u32(3).unwrap().to_asn1_integer().unwrap()).unwrap();
    b.set_not_before(&Asn1Time::days_from_now(0).unwrap()).unwrap();
    b.set_not_after(&Asn1Time::days_from_now(50).unwrap()).unwrap();
    if names.is_empty() {
        b.append_extension(BasicConstraints::new().critical().ca().build().unwrap()).unwrap();
    }
    let ski = SubjectKeyIdentifier::new().build(&b.x509v3_context(None, None)).unwrap();
    b.append_extension(ski).unwrap();
    if let Some(i) = issuer {
        let akid = AuthorityKeyIdentifier::new()
            .keyid(true)
            .build(&b.x509v3_context(Some(&i.cert), None))
            .unwrap();
        b.append_extension(akid).unwrap();
    }
    if !names.is_empty() {
        let mut san = SubjectAlternativeName::new();
        for n in names {
            san.dns(n);
        }
        let san = san.build(&b.x509v3_context(None, None)).unwrap();
        b.append_extension(san).unwrap();
    }
    b.sign(issuer.map_or(&key, |i| &i.key), MessageDigest::sha256()).unwrap();
    Authority { cert: b.build(), key }
}

fn loaded(x: &X509) -> Certificate {
    load_cert(&x.to_der().unwrap()).unwrap()
}

fn config(names: &[&str]) -> Config {
    Config::new(names.iter().map(|n| (*n).to_owned()).collect())
}

fn listed(ws: &Workspace, certs: &[(&str, &X509)]) -> Vec<ForeignRoot> {
    let entries: Vec<DirEntry> = certs
        .iter()
        .map(|(n, x)| DirEntry {
            file_name: format!("{n}.cer"),
            is_utf8: true,
            is_file: true,
            contents: Some(x.to_pem().unwrap()),
        })
        .collect();
    list(ws, &entries).unwrap()
}

fn lines(report: &Report) -> Vec<String> {
    report.findings.iter().map(Finding::line).collect()
}

#[test]
fn a_constrained_chain_passes_the_whole_audit() {
    let ws = Workspace::new("/w");
    let (local, key) = generate_root("Local", 3650).unwrap();
    let root = issue("Foreign root", None, &[]);
    let sub = issue("Foreign sub", Some(&root), &[]);
    let leaf = issue("leaf", Some(&sub), &["x.ru", "*.x.ru"]);
    let roots = listed(&ws, &[("foreign", &root.cert)]);
    let cfg = config(&["x.ru", "y.ru", "z.ru", "w.ru"]);

    let resigned = resign(&ws, &cfg, &roots, &local, &key);
    assert!(resigned.failure.is_none());
    assert_eq!(resigned.signed.len(), 1);
    assert_eq!(resigned.signed[0].write.path, "/w/constrained/foreign.pem");
    assert_eq!(resigned.signed[0].key_id, ski_hex(&roots[0].cert));
    let crosses = vec![Some(resigned.signed[0].write.contents.clone())];

    let pem = local.to_pem().unwrap();
    let targets = probe_targets(&ws, &roots, &pem, &crosses).unwrap();
    assert_eq!(targets, vec!["x.ru", "y.ru", "z.ru", "w.ru"]);

    let stranger = issue("Stranger", None, &[]);
    let strange_leaf = issue("strange leaf", Some(&stranger), &["z.ru"]);
    let probes = vec![
        Some(Chain { leaf: loaded(&leaf.cert), intermediates: vec![loaded(&sub.cert)] }),
        None,
        Some(Chain {
            leaf: loaded(&strange_leaf.cert),
            intermediates: vec![loaded(&stranger.cert)],
        }),
        Some(Chain { leaf: loaded(&strange_leaf.cert), intermediates: Vec::new() }),
    ];
    let evidence = Evidence {
        local: pem.clone(),
        key: Some(key.to_pem().unwrap()),
        crosses: crosses.clone(),
        probes,
    };
    let report = run(&ws, &cfg, &roots, &evidence).unwrap();
    let said = lines(&report);
    assert_eq!(report.failed, 0, "{said:?}");
    assert_eq!(report.passed, 6, "{said:?}");
    assert_eq!(report.conclusion(), Ok(6));
    assert_eq!(said[0], "\n1. Cross-certificates and what they permit");
    assert_eq!(said[1], "  PASS foreign constraints present and critical");
    assert_eq!(said[2], "  PASS foreign SKI matches the original root");
    assert_eq!(said[3], "  PASS foreign issued by the local root");
    assert_eq!(said[4], "  permitted: x.ru, y.ru, z.ru, w.ru");
    assert_eq!(said[5], "  PASS foreign permits 4 names");
    assert_eq!(said[7], "  PASS x.ru validates through the constrained chain");
    assert_eq!(said[8], "  skip y.ru (unreachable)");
    assert!(said[9]
        .starts_with("  skip z.ru (chains to a CA we do not constrain: Stranger; "));
    assert_eq!(said[10], "  skip w.ru (server sent no intermediate)");
    assert_eq!(said[12], "  PASS leaf rejected: permitted subtree violation");
    assert_eq!(said[13], "        => constraints are enforced, not merely present");
    assert!(said[15].starts_with("  'Foreign root' SHA256 "));
    assert_eq!(said.len(), 18);

    // The key is needed for the negative control, and only for it.
    let without_key = Evidence { key: None, ..evidence };
    assert!(has_validatable(&without_key.probes));
    let e = run(&ws, &cfg, &roots, &without_key).unwrap_err();
    assert_eq!(e.cause.describe(), "reading /w/myroot.key");
    // What was found until then is not lost.
    assert_eq!(lines(&e.report), said[..12]);
    let bad_key = Evidence { key: Some(b"junk".to_vec()), ..without_key };
    let e = run(&ws, &cfg, &roots, &bad_key).unwrap_err();
    assert_eq!(e.cause.describe(), "parsing key");
    let nothing =
        Evidence { local: pem, key: Some(b"junk".to_vec()), crosses, probes: Vec::new() };
    assert!(!has_validatable(&nothing.probes));
    let report = run(&ws, &cfg, &roots, &nothing).unwrap();
    assert_eq!((report.passed, report.failed), (4, 0));
    assert!(lines(&report).contains(
        &"  skip no reachable domain used these CAs, cannot run the negative control".to_owned()
    ));
}

#[test]
fn unsound_cross_certificates_fail_the_audit() {
    let ws = Workspace::new("/w");
    let (local, key) = generate_root("Local", 3650).unwrap();
    let a = issue("A", None, &[]);
    let b = issue("B", None, &[]);
    let c = issue("C", None, &[]);
    let roots = listed(&ws, &[("a", &a.cert), ("b", &b.cert), ("c", &c.cert)]);
    let cfg = config(&["x.ru"]);
    let first = resign(&ws, &cfg, &roots, &local, &key);
    let crosses = vec![
        Some(first.signed[0].write.contents.clone()),
        // An unconstrained certificate of another CA.
        Some(a.cert.to_pem().unwrap()),
        None,
    ];
    let evidence = Evidence {
        local: local.to_pem().unwrap(),
        key: None,
        crosses,
        probes: Vec::new(),
    };
    let report = run(&ws, &cfg, &roots, &evidence).unwrap();
    let said = lines(&report);
    assert_eq!((report.passed, report.failed), (4, 5), "{said:?}");
    assert_eq!(report.conclusion(), Err((5, 9)));
    for line in [
        "  FAIL b constraints missing or not critical -- a verifier that ignores them would accept anything",
        "  FAIL b SKI differs -- sub-CA authorityKeyIdentifier will not match",
        "  FAIL b is not issued by myroot.pem",
        "  FAIL b permits a different list -- the effective policy is their union",
        "  FAIL c has no cross-certificate",
    ] {
        assert!(said.contains(&line.to_owned()), "{line}");
    }
    let junk = Evidence { crosses: vec![None, Some(b"junk".to_vec()), None], ..evidence };
    let e = run(&ws, &cfg, &roots, &junk).unwrap_err();
    assert!(matches!(e.cause, FileError::NotACertificate { .. }));
    assert_eq!(e.cause.describe(), "/w/constrained/b.pem is not a PEM or DER certificate");
    assert_eq!(
        lines(&e.report),
        vec![
            "\n1. Cross-certificates and what they permit",
            "  FAIL a has no cross-certificate",
        ]
    );
    assert_eq!((e.report.passed, e.report.failed), (0, 1));
    let nowhere = Evidence { local: b"junk".to_vec(), ..junk };
    let e = run(&ws, &cfg, &roots, &nowhere).unwrap_err();
    assert_eq!(e.cause.describe(), "/w/myroot.pem is not a PEM or DER certificate");
    assert!(e.report.findings.is_empty());
}

#[test]
fn lists_that_agree_pass() {
    let ws = Workspace::new("/w");
    let (local, key) = generate_root("Local", 3650).unwrap();
    let (a, b) = (issue("A", None, &[]), issue("B", None, &[]));
    let roots = listed(&ws, &[("a", &a.cert), ("b", &b.cert)]);
    let cfg = config(&["x.ru"]);
    let resigned = resign(&ws, &cfg, &roots, &local, &key);
    let crosses: Vec<_> = resigned.signed.into_iter().map(|s| Some(s.write.contents)).collect();
    let evidence =
        Evidence { local: local.to_pem().unwrap(), key: None, crosses, probes: Vec::new() };
    let report = run(&ws, &cfg, &roots, &evidence).unwrap();
    assert!(lines(&report).contains(&"  PASS b permits the same list as the others".to_owned()));
    assert_eq!(report.conclusion(), Ok(8));
}

#[test]
fn chains_are_judged_by_openssl() {
    let root = issue("Root", None, &[]);
    let sub = issue("Sub", Some(&root), &[]);
    let leaf = issue("leaf", Some(&sub), &["x.ru"]);
    let verdict =
        verify_chain(&loaded(&root.cert), &vec![loaded(&sub.cert)], &loaded(&leaf.cert)).unwrap();
    assert!(matches!(verdict, Verdict::Valid));
    let verdict = verify_chain(&loaded(&root.cert), &Vec::new(), &loaded(&leaf.cert)).unwrap();
    assert!(
        matches!(&verdict, Verdict::Rejected(r) if r.contains("unable to get local issuer"))
    );
}

#[test]
fn the_negative_control_demands_the_right_reason() {
    let mut report = Report::default();
    judge_control(&verdict_of(true, "ok".to_owned()), &mut report);
    judge_control(&verdict_of(false, "certificate has expired".to_owned()), &mut report);
    judge_control(&verdict_of(false, "permitted subtree violation".to_owned()), &mut report);
    assert_eq!((report.passed, report.failed), (1, 2));
    assert_eq!(
        lines(&report),
        vec![
            "  FAIL leaf still accepted with its names removed -- constraints are NOT enforced",
            "  FAIL leaf was rejected, but for the wrong reason: certificate has expired. The constraint may not be what stopped it.",
            "  PASS leaf rejected: permitted subtree violation",
            "        => constraints are enforced, not merely present",
        ]
    );
}

#[test]
fn a_probe_is_never_a_failure() {
    let root = issue("Probe root", None, &[]);
    let leaf = issue("leaf", Some(&root), &["x.ru"]);
    let chain = Chain { leaf: loaded(&leaf.cert), intermediates: vec![loaded(&root.cert)] };
    let mut report = Report::default();
    judge_probe("x.ru", &chain, &verdict_of(false, "why".to_owned()), &mut report);
    judge_probe("x.ru", &chain, &verdict_of(true, String::new()), &mut report);
    assert_eq!((report.passed, report.failed), (1, 0));
    assert_eq!(report.findings[0].outcome, Outcome::Skip);
    assert_eq!(
        report.findings[0].message,
        "x.ru (chains to a CA we do not constrain: Probe root; why)"
    );
}

#[test]
fn narrowing_uncovers_every_name_of_the_leaf() {
    let names = |list: &[&str]| list.iter().map(|n| (*n).to_owned()).collect::<Vec<_>>();
    let cfg = config(&["x.ru", "y.ru", "z.ru"]);
    let leaf = names(&["*.x.ru", "www.z.ru"]);
    let narrowed = narrow(&cfg.constraints, &leaf);
    assert_eq!(narrowed.permitted_dns, vec!["y.ru"]);
    for san in &leaf {
        assert!(!rucerts::config::covered_by(&narrowed.permitted_dns, &base_of(san)));
    }
    let all = narrow(&cfg.constraints, &names(&["x.ru", "y.ru", "z.ru"]));
    assert_eq!(all.permitted_dns, vec!["negative-control.invalid"]);
    assert!(all.exclude_ip && all.exclude_email && all.exclude_uri);
    assert_eq!(base_of("*.a.ru"), "a.ru");
    assert_eq!(base_of("a.*.ru"), "a.*.ru");
}

#[test]
fn findings_are_counted_as_they_come() {
    let mut report = Report::default();
    report.pass("a".to_owned());
    report.fail("b".to_owned());
    report.skip("c".to_owned());
    report.note("d".to_owned());
    assert_eq!(lines(&report), vec!["  PASS a", "  FAIL b", "  skip c", "d"]);
    assert_eq!((report.passed, report.failed), (1, 1));
    assert_eq!(report.conclusion(), Err((1, 2)));
}

#[test]
fn signing_stops_at_the_first_failure() {
    let ws = Workspace::new("/w");
    let (local, key) = generate_root("Local", 3650).unwrap();
    let root = issue("Root", None, &[]);
    let roots = listed(&ws, &[("a", &root.cert)]);
    let none: Vec<ForeignRoot> = Vec::new();
    assert_eq!(readiness(&config(&["x.ru"]), &none), Readiness::NoRoots);
    assert_eq!(readiness(&config(&[]), &roots), Readiness::NothingPermitted);
    assert_eq!(readiness(&config(&["x.ru"]), &roots), Readiness::Ready);
    let resigned = resign(&ws, &config(&[]), &roots, &local, &key);
    assert!(resigned.signed.is_empty());
    let e = resigned.failure.unwrap();
    assert_eq!(
        e.describe(),
        "no permitted DNS names -- the certificate would trust nothing"
    );
}

#[test]
fn a_changed_key_identifier_is_fatal() {
    let ws = Workspace::new("/w");
    let (local, key) = generate_root("Local", 3650).unwrap();
    // A root without an identifier: the cross-certificate gets one.
    let own = PKey::from_rsa(Rsa::generate(2048).unwrap()).unwrap();
    let mut name = X509NameBuilder::new().unwrap();
    name.append_entry_by_nid(Nid::COMMONNAME, "Bare").unwrap();
    let name = name.build();
    let mut b = X509Builder::new().unwrap();
    b.set_version(2).unwrap();
    b.set_subject_name(&name).unwrap();
    b.set_issuer_name(&name).unwrap();
    b.set_pubkey(&own).unwrap();
    b.set_not_before(&Asn1Time::days_from_now(0).unwrap()).unwrap();
    b.set_not_after(&Asn1Time::days_from_now(50).unwrap()).unwrap();
    b.sign(&own, MessageDigest::sha256()).unwrap();
    let bare = b.build();
    let sound = issue("Sound", None, &[]);
    let roots = listed(&ws, &[("a", &sound.cert), ("b", &bare)]);
    let resigned = resign(&ws, &config(&["x.ru"]), &roots, &local, &key);
    assert_eq!(resigned.signed.len(), 1);
    let e = resigned.failure.unwrap();
    assert!(matches!(&e, SignError::KeyIdChanged { name, before: None, after: Some(_) } if name == "b"));
    let text = e.describe();
    assert!(text.starts_with("SKI изменился у b (None -> Some(\""), "{text}");
    assert!(text.ends_with("\")) -- построение цепочки сломается"), "{text}");
    assert!(!same_key_id(&None, &Some(String::new())));
    assert!(same_key_id(&Some("A".to_owned()), &Some("A".to_owned())));
}

#[test]
fn a_file_is_made_of_a_certificate_that_keeps_its_identifier() {
    let ws = Workspace::new("/w");
    let (a, b) = (issue("A", None, &[]), issue("B", None, &[]));
    let roots = listed(&ws, &[("a", &a.cert)]);
    let signed = cross_file(&ws, &roots[0], &loaded(&a.cert)).unwrap();
    assert_eq!(signed.write.path, "/w/constrained/a.pem");
    assert_eq!(signed.write.contents, a.cert.to_pem().unwrap());
    assert_eq!(signed.key_id, ski_hex(&roots[0].cert));
    let e = cross_file(&ws, &roots[0], &loaded(&b.cert)).unwrap_err();
    assert!(matches!(&e, SignError::KeyIdChanged { before, after, .. } if before != after));
}

#[test]
fn what_openssl_cannot_take_is_not_signed() {
    assert!(can_sign(&config(&["x.ru"])));
    assert!(!can_sign(&config(&["x.ru", "y\0.ru"])));
    let mut long = config(&["x.ru"]);
    long.signing.cross_days = 24855;
    assert!(can_sign(&long));
    long.signing.cross_days = 24856;
    assert!(!can_sign(&long));
}

#[test]
fn the_list_shows_what_there_is() {
    let ws = Workspace::new("/w");
    let root = issue("Listed", None, &[]);
    let roots = listed(&ws, &[("a", &root.cert)]);
    let facts = root_facts(&ws, &roots[0], &None).unwrap();
    assert_eq!((facts.name.as_str(), facts.cn.as_str()), ("a", "Listed"));
    assert_eq!(facts.expiry, root.cert.not_after().to_string());
    assert_eq!(facts.key, pubkey_fingerprint(&roots[0].cert).unwrap()[..32]);
    assert!(facts.cross.is_none());
    let file = Some(root.cert.to_pem().unwrap());
    let cross = root_facts(&ws, &roots[0], &file).unwrap().cross.unwrap();
    assert_eq!(cross.path, "/w/constrained/a.pem");
    assert_eq!(cross.expiry, root.cert.not_after().to_string());
    let e = root_facts(&ws, &roots[0], &Some(b"junk".to_vec())).unwrap_err();
    assert_eq!(e.describe(), "/w/constrained/a.pem is not a PEM or DER certificate");
}

#[test]
fn siblings_of_a_leaf_are_read_from_it() {
    let leaf = loaded(&issue("leaf", None, &["sberbank.ru", "*.sbrf.ru"]).cert);
    assert_eq!(uncovered_sans(&config(&["sberbank.ru"]), &leaf), vec!["*.sbrf.ru"]);
}
