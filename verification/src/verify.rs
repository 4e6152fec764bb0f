//! Audits the generated cross-certificates.
//!
//! Four checks, of which only the third proves anything:
//!
//! 1. Inspection: constraints present and critical, SKI preserved, issuer correct, and
//!    every cross-certificate permitting the same list.
//! 2. Positive control: real leaves from permitted domains still validate.
//! 3. **Negative control**: the same real leaf is rejected once its names are removed from
//!    the permitted list, with `permitted subtree violation` specifically.
//! 4. Competing trust paths: the unconstrained originals must not be trusted anywhere.
//!
//! Without step 3 a certificate permitting *everything* looks identical to a working one:
//! every leaf validates, every extension is present, and nothing is actually constrained.
use crate::config::{falls_inside, Config, Constraints};
use crate::crypto::{issuer_name, subject_name, verify_leaf};
use crate::error::{checked, Error, FileError, Operation};
use crate::probe::{dns_names, Chain};
use crate::roots::{ForeignRoot, RootModel};
use crate::text::{
    chars_of, decimal_text, find_text, join, same_bytes, same_text, same_texts, string_of,
    strip_prefix,
};
use crate::workspace::Workspace;
use crate::x509::{
    certificate_text_of, cross_sign, fingerprint, load_cert, load_key, parse_permitted_dns,
    ski_hex, subject_cn, text_shows_line, Certificate, PrivateKey,
};
use vstd::prelude::*;

verus! {

/// How a check came out.
#[derive(Debug, Clone, Copy, PartialEq, Eq, Structural)]
pub enum Outcome {
    /// The check passed.
    Pass,
    /// The check failed.
    Fail,
    /// The check could not be made.
    Skip,
    /// Not a check: something for the reader.
    Note,
}

/// One line of an audit.
#[derive(Debug)]
pub struct Finding {
    /// How the check came out.
    pub outcome: Outcome,
    /// What there is to say.
    pub message: String,
}

impl View for Finding {
    type V = (Outcome, Seq<char>);

    open spec fn view(&self) -> (Outcome, Seq<char>) {
        (self.outcome, self.message@)
    }
}

impl Finding {
    /// The line that is printed.
    pub open spec fn printed(self) -> Seq<char> {
        match self.outcome {
            Outcome::Pass => "  PASS "@ + self.message@,
            Outcome::Fail => "  FAIL "@ + self.message@,
            Outcome::Skip => "  skip "@ + self.message@,
            Outcome::Note => self.message@,
        }
    }

    /// The line that is printed.
    pub fn line(&self) -> (r: String)
        ensures
            r@ == self.printed(),
    {
        let mut out = String::new();
        match self.outcome {
            Outcome::Pass => out.append("  PASS "),
            Outcome::Fail => out.append("  FAIL "),
            Outcome::Skip => out.append("  skip "),
            Outcome::Note => {},
        }
        out.append(self.message.as_str());
        assert(out@ =~= self.printed());
        out
    }
}

/// What each finding of a list says.
pub open spec fn said(findings: Seq<Finding>) -> Seq<(Outcome, Seq<char>)> {
    findings.map_values(|f: Finding| f@)
}

/// How many findings came out as `outcome`.
pub open spec fn tally(findings: Seq<(Outcome, Seq<char>)>, outcome: Outcome) -> nat
    decreases findings.len(),
{
    if findings.len() == 0 {
        0
    } else {
        tally(findings.drop_last(), outcome) + if findings.last().0 == outcome {
            1nat
        } else {
            0
        }
    }
}

/// No more findings come out one way than there are.
proof fn lemma_tally_bound(findings: Seq<(Outcome, Seq<char>)>, outcome: Outcome)
    ensures
        tally(findings, outcome) <= findings.len(),
    decreases findings.len(),
{
    if findings.len() > 0 {
        lemma_tally_bound(findings.drop_last(), outcome);
    }
}

/// Every finding that passed or failed is counted once.
proof fn lemma_tallies_disjoint(findings: Seq<(Outcome, Seq<char>)>)
    ensures
        tally(findings, Outcome::Pass) + tally(findings, Outcome::Fail) <= findings.len(),
    decreases findings.len(),
{
    if findings.len() > 0 {
        lemma_tallies_disjoint(findings.drop_last());
    }
}

/// Outcome of one audit run.
#[derive(Debug)]
pub struct Report {
    /// Checks that passed.
    pub passed: usize,
    /// Checks that failed.
    pub failed: usize,
    /// What was found, in order.
    pub findings: Vec<Finding>,
}

impl Default for Report {
    fn default() -> (r: Self)
        ensures
            r.is_tallied(),
            r.findings@.len() == 0,
    {
        Report { passed: 0, failed: 0, findings: Vec::new() }
    }
}

impl Report {
    /// What was found. The numbers follow from it where the report is tallied.
    pub open spec fn said(self) -> Seq<(Outcome, Seq<char>)> {
        said(self.findings@)
    }

    /// Whether the numbers are those of the findings.
    pub open spec fn is_tallied(self) -> bool {
        self.passed == tally(self.said(), Outcome::Pass) && self.failed == tally(
            self.said(),
            Outcome::Fail,
        )
    }

    /// Records a finding.
    fn record(&mut self, outcome: Outcome, message: String)
        requires
            old(self).is_tallied(),
        ensures
            final(self).is_tallied(),
            final(self).said() == old(self).said().push((outcome, message@)),
    {
        let ghost before = self.said();
        let finding = Finding { outcome, message };
        self.findings.push(finding);
        let total: usize = self.findings.len();
        let ghost after = self.said();
        proof {
            assert(after =~= before.push(finding@));
            assert(after.drop_last() =~= before);
            lemma_tally_bound(before, Outcome::Pass);
            lemma_tally_bound(before, Outcome::Fail);
            assert(before.len() < total);
        }
        match outcome {
            Outcome::Pass => {
                self.passed = self.passed + 1;
            },
            Outcome::Fail => {
                self.failed = self.failed + 1;
            },
            Outcome::Skip => {},
            Outcome::Note => {},
        }
    }

    /// Records that a check passed.
    pub fn pass(&mut self, message: String)
        requires
            old(self).is_tallied(),
        ensures
            final(self).is_tallied(),
            final(self).said() == old(self).said().push((Outcome::Pass, message@)),
    {
        self.record(Outcome::Pass, message);
    }

    /// Records that a check failed.
    pub fn fail(&mut self, message: String)
        requires
            old(self).is_tallied(),
        ensures
            final(self).is_tallied(),
            final(self).said() == old(self).said().push((Outcome::Fail, message@)),
    {
        self.record(Outcome::Fail, message);
    }

    /// Records that a check could not be made.
    pub fn skip(&mut self, message: String)
        requires
            old(self).is_tallied(),
        ensures
            final(self).is_tallied(),
            final(self).said() == old(self).said().push((Outcome::Skip, message@)),
    {
        self.record(Outcome::Skip, message);
    }

    /// Records something that is not a check.
    pub fn note(&mut self, message: String)
        requires
            old(self).is_tallied(),
        ensures
            final(self).is_tallied(),
            final(self).said() == old(self).said().push((Outcome::Note, message@)),
    {
        self.record(Outcome::Note, message);
    }

    /// The conclusion of the audit: the number of checks, all passed, or the number of
    /// failed checks with the number of all.
    pub fn conclusion(&self) -> (r: Result<usize, (usize, usize)>)
        requires
            self.is_tallied(),
        ensures
            match r {
                Ok(passed) => tally(self.said(), Outcome::Fail) == 0 && passed == tally(
                    self.said(),
                    Outcome::Pass,
                ),
                Err((failed, total)) => {
                    &&& failed > 0
                    &&& failed == tally(self.said(), Outcome::Fail)
                    &&& total == failed + tally(self.said(), Outcome::Pass)
                },
            },
    {
        let bound: usize = self.findings.len();
        proof {
            lemma_tallies_disjoint(self.said());
            assert(self.said().len() == bound);
        }
        if self.failed == 0 {
            Ok(self.passed)
        } else {
            Err((self.failed, self.passed + self.failed))
        }
    }
}

/// An audit succeeds exactly if none of its findings is a failure.
pub proof fn lemma_no_failure_is_hidden(findings: Seq<(Outcome, Seq<char>)>)
    ensures
        tally(findings, Outcome::Fail) == 0 <==> forall|i: int|
            0 <= i < findings.len() ==> (#[trigger] findings[i]).0 != Outcome::Fail,
    decreases findings.len(),
{
    if findings.len() > 0 {
        lemma_no_failure_is_hidden(findings.drop_last());
        if forall|i: int| 0 <= i < findings.len() ==> (#[trigger] findings[i]).0 != Outcome::Fail {
            assert forall|i: int| 0 <= i < findings.drop_last().len() implies (
            #[trigger] findings.drop_last()[i]).0 != Outcome::Fail by {
                assert(findings[i].0 != Outcome::Fail);
            }
            assert(findings[findings.len() - 1].0 != Outcome::Fail);
        }
        if tally(findings, Outcome::Fail) == 0 {
            assert forall|i: int| 0 <= i < findings.len() implies (#[trigger] findings[i]).0
                != Outcome::Fail by {
                if i < findings.len() - 1 {
                    assert(findings.drop_last()[i] == findings[i]);
                }
            }
        }
    }
}

// Inspection.

/// What an inspection has found so far.
#[verifier::ext_equal]
pub struct Inspection {
    /// The findings.
    pub findings: Seq<(Outcome, Seq<char>)>,
    /// The cross-certificates.
    pub bundle: Seq<Seq<u8>>,
    /// The names that the first cross-certificate permits.
    pub reference: Option<Seq<Seq<char>>>,
}

/// What is said of the constraints of a cross-certificate with the text dump `text`.
pub open spec fn constraints_finding(name: Seq<char>, text: Seq<char>) -> (Outcome, Seq<char>) {
    if crate::x509::shows_line(text, "X509v3 Name Constraints: critical"@) {
        (Outcome::Pass, name + " constraints present and critical"@)
    } else {
        (
            Outcome::Fail,
            name
                + " constraints missing or not critical -- a verifier that ignores them would accept anything"@,
        )
    }
}

/// What is said of the key identifier of a cross-certificate.
pub open spec fn key_id_finding(name: Seq<char>, kept: bool) -> (Outcome, Seq<char>) {
    if kept {
        (Outcome::Pass, name + " SKI matches the original root"@)
    } else {
        (Outcome::Fail, name + " SKI differs -- sub-CA authorityKeyIdentifier will not match"@)
    }
}

/// What is said of the issuer of a cross-certificate.
pub open spec fn issuer_finding(name: Seq<char>, local: bool) -> (Outcome, Seq<char>) {
    if local {
        (Outcome::Pass, name + " issued by the local root"@)
    } else {
        (Outcome::Fail, name + " is not issued by myroot.pem"@)
    }
}

/// What is said of the names a cross-certificate permits, next to those that the first one
/// permits.
pub open spec fn list_findings(
    name: Seq<char>,
    permitted: Seq<Seq<char>>,
    reference: Option<Seq<Seq<char>>>,
) -> Seq<(Outcome, Seq<char>)> {
    match reference {
        None => seq![
            (Outcome::Note, "  permitted: "@ + crate::text::joined(permitted, ", "@)),
            (
                Outcome::Pass,
                name + " permits "@ + crate::text::decimal(permitted.len()) + " names"@,
            ),
        ],
        Some(first) => if first == permitted {
            seq![(Outcome::Pass, name + " permits the same list as the others"@)]
        } else {
            seq![
                (
                    Outcome::Fail,
                    name + " permits a different list -- the effective policy is their union"@,
                ),
            ]
        },
    }
}

/// Whether the file of a cross-certificate can be inspected.
pub open spec fn can_inspect(local: Seq<u8>, file: Option<Vec<u8>>) -> bool {
    match file {
        None => true,
        Some(bytes) => {
            &&& crate::x509::loaded(bytes@) matches Some(cross)
            &&& crate::x509::dump(cross) is Some
            &&& crate::crypto::certificate_issuer(cross) is Some
            &&& crate::crypto::certificate_subject(local) is Some
        },
    }
}

/// Whether `e` says why the file of the cross-certificate for `name` cannot be inspected.
pub open spec fn inspect_fault(
    ws: Seq<char>,
    local: Seq<u8>,
    name: Seq<char>,
    file: Option<Vec<u8>>,
    e: FileError,
) -> bool {
    &&& file matches Some(bytes)
    &&& match crate::x509::loaded(bytes@) {
        None => e matches FileError::NotACertificate { path } && path@
            == crate::workspace::cross_cert_path(ws, name),
        Some(cross) => e matches FileError::Certificate(cause)
            && if crate::x509::dump(cross) is None {
            crate::x509::no_dump(cross, cause)
        } else if crate::crypto::certificate_issuer(cross) is None {
            cause.is_openssl(Operation::ReadIssuer)
        } else {
            crate::crypto::certificate_subject(local) is None && cause.is_openssl(
                Operation::ReadSubject,
            )
        },
    }
}

/// An inspection after one more root.
pub open spec fn inspected(
    before: Inspection,
    local: Seq<u8>,
    root: RootModel,
    file: Option<Vec<u8>>,
) -> Inspection {
    match file {
        None => Inspection {
            findings: before.findings.push(
                (Outcome::Fail, root.name + " has no cross-certificate"@),
            ),
            ..before
        },
        Some(bytes) => {
            let cross = crate::x509::loaded(bytes@)->0;
            let text = crate::x509::dump(cross)->0;
            let permitted = crate::x509::dumped_names(text);
            Inspection {
                findings: before.findings.push(constraints_finding(root.name, text)).push(
                    key_id_finding(
                        root.name,
                        crate::x509::key_id_text(cross) == crate::x509::key_id_text(root.cert),
                    ),
                ).push(
                    issuer_finding(
                        root.name,
                        crate::crypto::certificate_issuer(cross)
                            == crate::crypto::certificate_subject(local),
                    ),
                ) + list_findings(root.name, permitted, before.reference),
                bundle: before.bundle.push(cross),
                reference: match before.reference {
                    None => Some(permitted),
                    Some(first) => Some(first),
                },
            }
        },
    }
}

/// The inspection of a list of roots with the files of their cross-certificates.
pub open spec fn inspection(
    local: Seq<u8>,
    roots: Seq<RootModel>,
    files: Seq<Option<Vec<u8>>>,
) -> Inspection
    decreases roots.len(),
{
    if roots.len() == 0 || roots.len() != files.len() {
        Inspection { findings: Seq::empty(), bundle: Seq::empty(), reference: None }
    } else {
        inspected(
            inspection(local, roots.drop_last(), files.drop_last()),
            local,
            roots.last(),
            files.last(),
        )
    }
}

/// Whether the files before position `n` can be inspected.
pub open spec fn can_inspect_all(local: Seq<u8>, files: Seq<Option<Vec<u8>>>, n: int) -> bool {
    forall|i: int| 0 <= i < n ==> can_inspect(local, #[trigger] files[i])
}

/// What was found of a cross-certificate that cannot be inspected, before that came out.
pub open spec fn partial_findings(root: RootModel, file: Option<Vec<u8>>) -> Seq<
    (Outcome, Seq<char>),
> {
    match crate::stage::file_cert(file) {
        Some(cross) => match crate::x509::dump(cross) {
            Some(text) => seq![
                constraints_finding(root.name, text),
                key_id_finding(
                    root.name,
                    crate::x509::key_id_text(cross) == crate::x509::key_id_text(root.cert),
                ),
            ],
            None => Seq::empty(),
        },
        None => Seq::empty(),
    }
}

/// Whether `e` says why the first file that cannot be inspected cannot be, and `findings` is
/// what was found until then.
pub open spec fn inspection_stopped(
    ws: Seq<char>,
    local: Seq<u8>,
    roots: Seq<RootModel>,
    files: Seq<Option<Vec<u8>>>,
    findings: Seq<(Outcome, Seq<char>)>,
    e: FileError,
) -> bool {
    exists|i: int|
        {
            &&& 0 <= i < files.len()
            &&& can_inspect_all(local, files, i)
            &&& #[trigger] inspect_fault(ws, local, roots[i].name, files[i], e)
            &&& findings == inspection(local, roots.take(i), files.take(i)).findings
                + partial_findings(roots[i], files[i])
        }
}

/// A name followed by what is said of it.
fn about(name: &str, words: &str) -> (r: String)
    ensures
        r@ == name@ + words@,
{
    let mut out = name.to_owned();
    out.append(words);
    out
}

/// Whether two key identifiers are the same.
pub fn same_key_id(a: &Option<String>, b: &Option<String>) -> (r: bool)
    ensures
        r == match (*a, *b) {
            (Some(x), Some(y)) => x@ == y@,
            (None, None) => true,
            _ => false,
        },
{
    match (a, b) {
        (Some(x), Some(y)) => same_text(x.as_str(), y.as_str()),
        (None, None) => true,
        _ => false,
    }
}

/// The names of a list, if there is one.
pub open spec fn list_names(list: Option<Vec<String>>) -> Option<Seq<Seq<char>>> {
    match list {
        Some(names) => Some(crate::text::texts(names@)),
        None => None,
    }
}

/// Inspects one cross-certificate, and hands it over with the names it permits.
fn inspect_cross(
    ws: &Workspace,
    root: &ForeignRoot,
    local: &Certificate,
    bytes: &Vec<u8>,
    reference: &Option<Vec<String>>,
    report: &mut Report,
) -> (r: Result<(Certificate, Vec<String>), FileError>)
    requires
        crate::x509::is_readable(bytes@),
        old(report).is_tallied(),
    ensures
        final(report).is_tallied(),
        match r {
            Ok((cross, permitted)) => {
                &&& can_inspect(local@, Some(*bytes))
                &&& crate::x509::loaded(bytes@) == Some(cross@)
                &&& crate::text::texts(permitted@) == crate::x509::dumped_names(
                    crate::x509::dump(cross@)->0,
                )
                &&& forall|before: Inspection|
                    before.findings == old(report).said() && before.reference == list_names(
                        *reference,
                    ) ==> final(report).said() == (#[trigger] inspected(
                        before,
                        local@,
                        root@,
                        Some(*bytes),
                    )).findings
            },
            Err(e) => {
                &&& inspect_fault(ws@, local@, root.name@, Some(*bytes), e)
                &&& final(report).said() == old(report).said() + partial_findings(
                    root@,
                    Some(*bytes),
                )
            },
        },
{
    let ghost start = report.said();
    assert(start + Seq::<(Outcome, Seq<char>)>::empty() =~= start);
    let name = root.name.as_str();
    let cross = match load_cert(bytes) {
        Ok(cross) => cross,
        Err(_) => return Err(FileError::NotACertificate { path: ws.cross_cert(name) }),
    };
    let text = match certificate_text_of(&cross) {
        Ok(text) => text,
        Err(cause) => return Err(FileError::Certificate(cause)),
    };
    if text_shows_line(text.as_str(), "X509v3 Name Constraints: critical") {
        report.pass(about(name, " constraints present and critical"));
    } else {
        report.fail(
            about(
                name,
                " constraints missing or not critical -- a verifier that ignores them would accept anything",
            ),
        );
    }
    if same_key_id(&ski_hex(&cross), &ski_hex(&root.cert)) {
        report.pass(about(name, " SKI matches the original root"));
    } else {
        report.fail(about(name, " SKI differs -- sub-CA authorityKeyIdentifier will not match"));
    }
    assert(report.said() =~= start + partial_findings(root@, Some(*bytes)));
    let issuer = match checked(issuer_name(cross.der()), Operation::ReadIssuer) {
        Ok(issuer) => issuer,
        Err(cause) => return Err(FileError::Certificate(cause)),
    };
    let subject = match checked(subject_name(local.der()), Operation::ReadSubject) {
        Ok(subject) => subject,
        Err(cause) => return Err(FileError::Certificate(cause)),
    };
    if same_bytes(&issuer, &subject) {
        report.pass(about(name, " issued by the local root"));
    } else {
        report.fail(about(name, " is not issued by myroot.pem"));
    }
    let permitted = parse_permitted_dns(text.as_str());
    let ghost three = report.said();
    match reference {
        None => {
            report.note(about("  permitted: ", join(&permitted, ", ").as_str()));
            let mut message = about(name, " permits ");
            message.append(decimal_text(permitted.len()).as_str());
            message.append(" names");
            report.pass(message);
        },
        Some(first) => if same_texts(first, &permitted) {
            report.pass(about(name, " permits the same list as the others"));
        } else {
            report.fail(
                about(name, " permits a different list -- the effective policy is their union"),
            );
        },
    }
    proof {
        let names = crate::text::texts(permitted@);
        let known = list_names(*reference);
        assert(permitted@.len() == names.len());
        assert(report.said() =~= three + list_findings(name@, names, known));
    }
    Ok((cross, permitted))
}

/// The names of a reference list, none where there is no such list.
pub open spec fn names_or_none(reference: Option<Seq<Seq<char>>>) -> Seq<Seq<char>> {
    match reference {
        Some(names) => names,
        None => Seq::empty(),
    }
}

/// Checks each cross-certificate's extensions, returning the chain bundle and the list.
///
/// `crosses` holds for each root the bytes of its cross-certificate, if it has one.
///
/// # Errors
/// If a cross-certificate cannot be parsed or read.
pub fn inspect(
    ws: &Workspace,
    roots: &Vec<ForeignRoot>,
    local: &Certificate,
    crosses: &Vec<Option<Vec<u8>>>,
    report: &mut Report,
) -> (r: Result<(Vec<Certificate>, Vec<String>), FileError>)
    requires
        roots@.len() == crosses@.len(),
        crate::x509::all_readable(crosses@),
        old(report).is_tallied(),
    ensures
        final(report).is_tallied(),
        match r {
            Ok((bundle, permitted)) => {
                let result = inspection(local@, crate::roots::models(roots@), crosses@);
                &&& can_inspect_all(local@, crosses@, crosses@.len() as int)
                &&& final(report).said() == old(report).said() + result.findings
                &&& crate::probe::ders(bundle@) == result.bundle
                &&& crate::text::texts(permitted@) == names_or_none(result.reference)
            },
            Err(e) => exists|findings: Seq<(Outcome, Seq<char>)>|
                {
                    &&& #[trigger] inspection_stopped(
                        ws@,
                        local@,
                        crate::roots::models(roots@),
                        crosses@,
                        findings,
                        e,
                    )
                    &&& final(report).said() == old(report).said() + findings
                },
        },
{
    let ghost all = crate::roots::models(roots@);
    let ghost start = report.said();
    let mut bundle: Vec<Certificate> = Vec::new();
    let mut reference: Option<Vec<String>> = None;
    assert(start + Seq::<(Outcome, Seq<char>)>::empty() =~= start);
    assert(crate::probe::ders(bundle@) =~= Seq::empty());
    for i in 0..roots.len()
        invariant
            roots@.len() == crosses@.len(),
            crate::x509::all_readable(crosses@),
            all == crate::roots::models(roots@),
            start == old(report).said(),
            report.is_tallied(),
            can_inspect_all(local@, crosses@, i as int),
            ({
                let result = inspection(local@, all.take(i as int), crosses@.take(i as int));
                &&& report.said() == start + result.findings
                &&& crate::probe::ders(bundle@) == result.bundle
                &&& result.reference == list_names(reference)
            }),
    {
        let root = &roots[i];
        let ghost result = inspection(local@, all.take(i as int), crosses@.take(i as int));
        proof {
            assert(all[i as int] == root@);
            assert(all.take(i + 1).drop_last() =~= all.take(i as int));
            assert(crosses@.take(i + 1).drop_last() =~= crosses@.take(i as int));
            assert(all.take(i + 1).last() == root@);
            assert(crosses@.take(i + 1).last() == crosses@[i as int]);
        }
        let ghost next = inspected(result, local@, root@, crosses@[i as int]);
        assert(crate::x509::any_readable(crosses@[i as int]));
        match &crosses[i] {
            None => {
                report.fail(about(root.name.as_str(), " has no cross-certificate"));
                assert(report.said() =~= start + next.findings);
            },
            Some(bytes) => {
                let ghost base = Inspection { findings: report.said(), ..result };
                match inspect_cross(ws, root, local, bytes, &reference, report) {
                    Err(e) => {
                        proof {
                            let partial = partial_findings(root@, crosses@[i as int]);
                            assert(inspect_fault(
                                ws@,
                                local@,
                                all[i as int].name,
                                crosses@[i as int],
                                e,
                            ));
                            assert(report.said() =~= start + (result.findings + partial));
                            assert(inspection_stopped(
                                ws@,
                                local@,
                                all,
                                crosses@,
                                result.findings + partial,
                                e,
                            ));
                        }
                        return Err(e);
                    },
                    Ok((cross, permitted)) => {
                        proof {
                            let after = inspected(base, local@, root@, Some(*bytes));
                            assert(report.said() == after.findings);
                            assert(after.findings =~= start + next.findings);
                        }
                        let ghost before = crate::probe::ders(bundle@);
                        bundle.push(cross);
                        assert(crate::probe::ders(bundle@) =~= before.push(cross@));
                        if reference.is_none() {
                            reference = Some(permitted);
                        }
                    },
                }
            },
        }
    }
    assert(all.take(all.len() as int) =~= all);
    assert(crosses@.take(crosses@.len() as int) =~= crosses@);
    match reference {
        Some(permitted) => Ok((bundle, permitted)),
        None => {
            let permitted: Vec<String> = Vec::new();
            assert(crate::text::texts(permitted@) =~= Seq::empty());
            Ok((bundle, permitted))
        },
    }
}

// Chain validation.

/// Result of a chain validation.
#[derive(Debug)]
pub enum Verdict {
    /// The chain validated.
    Valid,
    /// The chain was rejected, with OpenSSL's reason.
    Rejected(String),
}

impl View for Verdict {
    type V = Option<Seq<char>>;

    /// The reason for a rejection, if the chain was rejected.
    open spec fn view(&self) -> Option<Seq<char>> {
        match self {
            Verdict::Valid => None,
            Verdict::Rejected(reason) => Some(reason@),
        }
    }
}

/// Whether validating `leaf` against `anchor` with `untrusted` as the candidate chain may
/// come out as `verdict`.
pub open spec fn may_conclude(
    anchor: Seq<u8>,
    untrusted: Seq<Seq<u8>>,
    leaf: Seq<u8>,
    verdict: Option<Seq<char>>,
) -> bool {
    match verdict {
        None => exists|reason: Seq<char>| #[trigger]
            crate::crypto::chain_checked(anchor, untrusted, leaf, true, reason),
        Some(reason) => crate::crypto::chain_checked(anchor, untrusted, leaf, false, reason),
    }
}

/// The verdict for what OpenSSL reports of a chain.
pub fn verdict_of(valid: bool, reason: String) -> (r: Verdict)
    ensures
        r@ == if valid {
            None
        } else {
            Some(reason@)
        },
{
    if valid {
        Verdict::Valid
    } else {
        Verdict::Rejected(reason)
    }
}

/// Validates `leaf` against `anchor`, using `untrusted` as the candidate chain.
///
/// # Errors
/// If OpenSSL cannot run the validation.
pub fn verify_chain(anchor: &Certificate, untrusted: &Vec<Certificate>, leaf: &Certificate) -> (r:
    Result<Verdict, Error>)
    ensures
        match r {
            Ok(verdict) => may_conclude(
                anchor@,
                crate::probe::ders(untrusted@),
                leaf@,
                verdict@,
            ),
            Err(e) => e.is_openssl(Operation::VerifyChain),
        },
{
    let mut stack: Vec<Vec<u8>> = Vec::new();
    for i in 0..untrusted.len()
        invariant
            crate::crypto::byte_lists(stack@) == crate::probe::ders(untrusted@.take(i as int)),
    {
        let ghost before = crate::crypto::byte_lists(stack@);
        let copy = untrusted[i].der().clone();
        stack.push(copy);
        assert(copy@ =~= untrusted@[i as int]@);
        assert(crate::crypto::byte_lists(stack@) =~= before.push(copy@));
        assert(crate::probe::ders(untrusted@.take(i + 1)) =~= crate::probe::ders(
            untrusted@.take(i as int),
        ).push(copy@));
    }
    assert(untrusted@.take(untrusted@.len() as int) =~= untrusted@);
    let (valid, reason) = checked(
        verify_leaf(anchor.der(), &stack, leaf.der()),
        Operation::VerifyChain,
    )?;
    Ok(verdict_of(valid, reason))
}

/// A copy of a list of certificates with one more at its end.
fn with_last(certs: &Vec<Certificate>, last: &Certificate) -> (r: Vec<Certificate>)
    ensures
        crate::probe::ders(r@) == crate::probe::ders(certs@).push(last@),
{
    let ghost all = crate::probe::ders(certs@);
    let mut out: Vec<Certificate> = Vec::new();
    assert(crate::probe::ders(out@) =~= all.take(0));
    for i in 0..certs.len()
        invariant
            all == crate::probe::ders(certs@),
            crate::probe::ders(out@) == all.take(i as int),
    {
        let ghost before = crate::probe::ders(out@);
        let copy = certs[i].duplicate();
        out.push(copy);
        assert(crate::probe::ders(out@) =~= before.push(copy@));
        assert(all.take(i + 1) =~= all.take(i as int).push(copy@));
    }
    assert(all.take(all.len() as int) =~= all);
    let copy = last.duplicate();
    out.push(copy);
    assert(crate::probe::ders(out@) =~= all.push(last@));
    out
}

// Positive control.

/// The chain that was fetched for the domain at position `i`, if any was.
pub open spec fn fetched(probes: Seq<Option<Chain>>, i: int) -> Option<Chain> {
    if 0 <= i < probes.len() {
        probes[i]
    } else {
        None
    }
}

/// Whether a chain was fetched that can be validated: one with an intermediate.
pub open spec fn can_validate(probe: Option<Chain>) -> bool {
    probe matches Some(chain) && chain.intermediates@.len() > 0
}

/// What is said of a chain that was validated.
pub open spec fn chain_finding(domain: Seq<char>, chain: Chain, verdict: Option<Seq<char>>) -> (
    Outcome,
    Seq<char>,
) {
    match verdict {
        None => (Outcome::Pass, domain + " validates through the constrained chain"@),
        Some(reason) => (
            Outcome::Skip,
            domain + " (chains to a CA we do not constrain: "@ + (
            match crate::x509::common_name(chain.intermediates@[0]@) {
                Some(cn) => cn,
                None => Seq::empty(),
            }) + "; "@ + reason + ")"@,
        ),
    }
}

/// What is said of a permitted domain. Where a chain can be validated, `verdict` says how
/// that came out.
pub open spec fn probe_finding(
    domain: Seq<char>,
    probe: Option<Chain>,
    verdict: Option<Seq<char>>,
) -> (Outcome, Seq<char>) {
    match probe {
        None => (Outcome::Skip, domain + " (unreachable)"@),
        Some(chain) => if chain.intermediates@.len() == 0 {
            (Outcome::Skip, domain + " (server sent no intermediate)"@)
        } else {
            chain_finding(domain, chain, verdict)
        },
    }
}

/// What is said of the permitted domains.
pub open spec fn probe_findings(
    domains: Seq<Seq<char>>,
    probes: Seq<Option<Chain>>,
    verdicts: Seq<Option<Seq<char>>>,
) -> Seq<(Outcome, Seq<char>)> {
    domains.map(
        |i: int, domain: Seq<char>| probe_finding(domain, fetched(probes, i), verdicts[i]),
    )
}

/// Whether `verdicts` may be how the chains come out, each validated with the intermediate
/// its server sent.
pub open spec fn may_come_out(
    anchor: Seq<u8>,
    bundle: Seq<Seq<u8>>,
    probes: Seq<Option<Chain>>,
    verdicts: Seq<Option<Seq<char>>>,
) -> bool {
    forall|i: int|
        #![trigger verdicts[i]]
        0 <= i < verdicts.len() && can_validate(fetched(probes, i)) ==> may_conclude(
            anchor,
            bundle.push(fetched(probes, i)->0.intermediates@[0]@),
            fetched(probes, i)->0.leaf@,
            verdicts[i],
        )
}

/// Whether the domain at position `i` validated.
pub open spec fn validated(
    probes: Seq<Option<Chain>>,
    verdicts: Seq<Option<Seq<char>>>,
    i: int,
) -> bool {
    can_validate(fetched(probes, i)) && verdicts[i] is None
}

/// Whether `material` is the leaf and the intermediate of the first domain that validated.
pub open spec fn is_first_validated(
    probes: Seq<Option<Chain>>,
    verdicts: Seq<Option<Seq<char>>>,
    material: Option<(Certificate, Certificate)>,
) -> bool {
    match material {
        None => forall|i: int|
            0 <= i < verdicts.len() ==> !#[trigger] validated(probes, verdicts, i),
        Some((leaf, intermediate)) => exists|i: int|
            {
                &&& 0 <= i < verdicts.len()
                &&& #[trigger] validated(probes, verdicts, i)
                &&& forall|j: int| 0 <= j < i ==> !#[trigger] validated(probes, verdicts, j)
                &&& leaf@ == fetched(probes, i)->0.leaf@
                &&& intermediate@ == fetched(probes, i)->0.intermediates@[0]@
            },
    }
}

/// Whether `findings` may be what is said of the domains before one whose chain can be
/// validated, but of which OpenSSL does not say how that comes out.
pub open spec fn probing_stopped(
    anchor: Seq<u8>,
    bundle: Seq<Seq<u8>>,
    domains: Seq<Seq<char>>,
    probes: Seq<Option<Chain>>,
    findings: Seq<(Outcome, Seq<char>)>,
) -> bool {
    exists|verdicts: Seq<Option<Seq<char>>>|
        {
            &&& verdicts.len() < domains.len()
            &&& can_validate(fetched(probes, verdicts.len() as int))
            &&& #[trigger] may_come_out(anchor, bundle, probes, verdicts)
            &&& findings == probe_findings(
                domains.take(verdicts.len() as int),
                probes,
                verdicts,
            )
        }
}

/// Records what is said of a chain that was validated.
pub fn judge_probe(domain: &str, chain: &Chain, verdict: &Verdict, report: &mut Report)
    requires
        chain.intermediates@.len() > 0,
        old(report).is_tallied(),
    ensures
        final(report).is_tallied(),
        final(report).said() == old(report).said().push(chain_finding(domain@, *chain, verdict@)),
{
    match verdict {
        Verdict::Valid => report.pass(about(domain, " validates through the constrained chain")),
        Verdict::Rejected(reason) => {
            let issuer = match subject_cn(&chain.intermediates[0]) {
                Some(cn) => cn,
                None => String::new(),
            };
            let mut message = about(domain, " (chains to a CA we do not constrain: ");
            message.append(issuer.as_str());
            message.append("; ");
            message.append(reason.as_str());
            message.append(")");
            assert(message@ =~= chain_finding(domain@, *chain, verdict@).1);
            report.skip(message);
        },
    }
}

/// Validates real leaves, returning the first that chained through our certificates.
///
/// `probes` holds for each permitted domain the chain its server presented, if it was
/// reached.
///
/// # Errors
/// If OpenSSL cannot run a validation.
pub fn positive_control(
    local: &Certificate,
    bundle: &Vec<Certificate>,
    permitted: &Vec<String>,
    probes: &Vec<Option<Chain>>,
    report: &mut Report,
) -> (r: Result<Option<(Certificate, Certificate)>, Error>)
    requires
        old(report).is_tallied(),
    ensures
        final(report).is_tallied(),
        match r {
            Ok(material) => exists|verdicts: Seq<Option<Seq<char>>>|
                {
                    &&& verdicts.len() == permitted@.len()
                    &&& #[trigger] may_come_out(
                        local@,
                        crate::probe::ders(bundle@),
                        probes@,
                        verdicts,
                    )
                    &&& final(report).said() == old(report).said() + probe_findings(
                        crate::text::texts(permitted@),
                        probes@,
                        verdicts,
                    )
                    &&& is_first_validated(probes@, verdicts, material)
                },
            Err(e) => {
                &&& e.is_openssl(Operation::VerifyChain)
                &&& exists|findings: Seq<(Outcome, Seq<char>)>|
                    {
                        &&& #[trigger] probing_stopped(
                            local@,
                            crate::probe::ders(bundle@),
                            crate::text::texts(permitted@),
                            probes@,
                            findings,
                        )
                        &&& final(report).said() == old(report).said() + findings
                    }
            },
        },
{
    let ghost start = report.said();
    let ghost domains = crate::text::texts(permitted@);
    let ghost issued = crate::probe::ders(bundle@);
    let ghost mut verdicts: Seq<Option<Seq<char>>> = Seq::empty();
    let mut material: Option<(Certificate, Certificate)> = None;
    assert(start + probe_findings(domains.take(0), probes@, verdicts) =~= start);
    for i in 0..permitted.len()
        invariant
            domains == crate::text::texts(permitted@),
            issued == crate::probe::ders(bundle@),
            start == old(report).said(),
            verdicts.len() == i,
            report.is_tallied(),
            may_come_out(local@, issued, probes@, verdicts),
            report.said() == start + probe_findings(domains.take(i as int), probes@, verdicts),
            is_first_validated(probes@, verdicts, material),
    {
        let domain = permitted[i].as_str();
        let ghost before = verdicts;
        let ghost mut verdict: Option<Seq<char>> = None;
        let ghost earlier = material;
        assert(domains[i as int] == domain@);
        let chain: Option<&Chain> = if i < probes.len() {
            match &probes[i] {
                Some(chain) => Some(chain),
                None => None,
            }
        } else {
            None
        };
        match chain {
            None => report.skip(about(domain, " (unreachable)")),
            Some(chain) => if chain.intermediates.len() == 0 {
                report.skip(about(domain, " (server sent no intermediate)"));
            } else {
                let intermediate = &chain.intermediates[0];
                let untrusted = with_last(bundle, intermediate);
                let found = match verify_chain(local, &untrusted, &chain.leaf) {
                    Ok(found) => found,
                    Err(e) => {
                        proof {
                            assert(fetched(probes@, i as int) == Some(*chain));
                            assert(probing_stopped(
                                local@,
                                issued,
                                domains,
                                probes@,
                                probe_findings(domains.take(i as int), probes@, verdicts),
                            ));
                        }
                        return Err(e);
                    },
                };
                proof {
                    verdict = found@;
                }
                judge_probe(domain, chain, &found, report);
                if material.is_none() {
                    if let Verdict::Valid = found {
                        material = Some((chain.leaf.duplicate(), intermediate.duplicate()));
                    }
                }
            },
        }
        proof {
            verdicts = before.push(verdict);
            assert(fetched(probes@, i as int) == match chain {
                Some(c) => Some(*c),
                None => None,
            });
            assert(domains.take(i + 1) =~= domains.take(i as int).push(domain@));
            assert(probe_findings(domains.take(i + 1), probes@, verdicts) =~= probe_findings(
                domains.take(i as int),
                probes@,
                before,
            ).push(probe_finding(domain@, fetched(probes@, i as int), verdict)));
            assert(report.said() =~= start + probe_findings(
                domains.take(i + 1),
                probes@,
                verdicts,
            ));
            assert forall|j: int|
                #![trigger verdicts[j]]
                0 <= j < verdicts.len() && can_validate(fetched(probes@, j)) implies may_conclude(
                local@,
                issued.push(fetched(probes@, j)->0.intermediates@[0]@),
                fetched(probes@, j)->0.leaf@,
                verdicts[j],
            ) by {
                if j < i {
                    assert(verdicts[j] == before[j]);
                }
            }
            assert forall|j: int| 0 <= j < i implies #[trigger] validated(probes@, verdicts, j)
                == validated(probes@, before, j) by {
                assert(verdicts[j] == before[j]);
            }
            assert(verdicts[i as int] == verdict);
            if earlier is Some {
                let k = choose|k: int|
                    {
                        &&& 0 <= k < before.len()
                        &&& #[trigger] validated(probes@, before, k)
                        &&& forall|j: int|
                            0 <= j < k ==> !#[trigger] validated(probes@, before, j)
                        &&& (earlier->0).0@ == fetched(probes@, k)->0.leaf@
                        &&& (earlier->0).1@ == fetched(probes@, k)->0.intermediates@[0]@
                    };
                assert(validated(probes@, verdicts, k));
                assert forall|j: int| 0 <= j < k implies !#[trigger] validated(
                    probes@,
                    verdicts,
                    j,
                ) by {
                    assert(!validated(probes@, before, j));
                }
            } else {
                assert forall|j: int| 0 <= j < i implies !#[trigger] validated(
                    probes@,
                    verdicts,
                    j,
                ) by {
                    assert(!validated(probes@, before, j));
                }
                if material is Some {
                    assert(validated(probes@, verdicts, i as int));
                }
            }
        }
    }
    assert(domains.take(domains.len() as int) =~= domains);
    Ok(material)
}

// Negative control.

/// The name a wildcard entry stands under, or the name itself.
pub open spec fn base_name(san: Seq<char>) -> Seq<char> {
    if crate::text::starts_with(san, "*."@) {
        san.skip(2)
    } else {
        san
    }
}

/// The name a wildcard entry stands under, or the name itself.
pub fn base_of(san: &str) -> (r: String)
    ensures
        r@ == base_name(san@),
{
    proof {
        reveal_strlit("*.");
    }
    match strip_prefix(&chars_of(san), "*.") {
        Some(rest) => string_of(&rest),
        None => san.to_owned(),
    }
}

/// Whether one of the names falls inside the subtree of `domain`.
pub open spec fn any_inside(names: Seq<Seq<char>>, domain: Seq<char>) -> bool {
    exists|i: int|
        0 <= i < names.len() && crate::config::in_subtree(base_name(#[trigger] names[i]), domain)
}

/// The domains whose subtree holds none of the leaf's names.
pub open spec fn kept_domains(domains: Seq<Seq<char>>, leaf_names: Seq<Seq<char>>) -> Seq<Seq<char>>
    decreases domains.len(),
{
    if domains.len() == 0 {
        Seq::empty()
    } else {
        let before = kept_domains(domains.drop_last(), leaf_names);
        if any_inside(leaf_names, domains.last()) {
            before
        } else {
            before.push(domains.last())
        }
    }
}

/// The permitted list without the leaf's names. A certificate permitting nothing is rejected
/// for a different reason, so an empty list is replaced by a name the leaf cannot match.
pub open spec fn narrowed_domains(
    domains: Seq<Seq<char>>,
    leaf_names: Seq<Seq<char>>,
) -> Seq<Seq<char>> {
    if kept_domains(domains, leaf_names).len() == 0 {
        seq!["negative-control.invalid"@]
    } else {
        kept_domains(domains, leaf_names)
    }
}

/// Whether one of the names falls inside the subtree of `domain`.
fn holds_any(names: &Vec<String>, domain: &str) -> (r: bool)
    ensures
        r == any_inside(crate::text::texts(names@), domain@),
{
    let ghost all = crate::text::texts(names@);
    for i in 0..names.len()
        invariant
            all == crate::text::texts(names@),
            forall|j: int|
                0 <= j < i ==> !crate::config::in_subtree(
                    base_name(#[trigger] all[j]),
                    domain@,
                ),
    {
        assert(all[i as int] == names@[i as int]@);
        if falls_inside(base_of(names[i].as_str()).as_str(), domain) {
            return true;
        }
    }
    false
}

/// Removes the leaf's names from the constraints: every entry of the leaf must be uncovered,
/// or a sibling name lets it through.
pub fn narrow(constraints: &Constraints, leaf_names: &Vec<String>) -> (r: Constraints)
    ensures
        r.names() == narrowed_domains(constraints.names(), crate::text::texts(leaf_names@)),
        r == (Constraints { permitted_dns: r.permitted_dns, ..*constraints }),
{
    let ghost domains = constraints.names();
    let ghost leaf = crate::text::texts(leaf_names@);
    let mut kept: Vec<String> = Vec::new();
    assert(crate::text::texts(kept@) =~= kept_domains(domains.take(0), leaf));
    for i in 0..constraints.permitted_dns.len()
        invariant
            domains == constraints.names(),
            leaf == crate::text::texts(leaf_names@),
            crate::text::texts(kept@) == kept_domains(domains.take(i as int), leaf),
    {
        let domain = &constraints.permitted_dns[i];
        assert(domains.take(i + 1).drop_last() =~= domains.take(i as int));
        assert(domains.take(i + 1).last() == domain@);
        if !holds_any(leaf_names, domain.as_str()) {
            let ghost before = crate::text::texts(kept@);
            kept.push(domain.clone());
            assert(crate::text::texts(kept@) =~= before.push(domain@));
        }
    }
    assert(domains.take(domains.len() as int) =~= domains);
    assert(crate::text::texts(kept@).len() == kept@.len());
    if kept.len() == 0 {
        kept.push("negative-control.invalid".to_owned());
        assert(crate::text::texts(kept@) =~= seq!["negative-control.invalid"@]);
    }
    constraints.with_permitted(kept)
}

/// What is kept covers none of the leaf's names, and was permitted before.
proof fn lemma_kept_domains(domains: Seq<Seq<char>>, leaf_names: Seq<Seq<char>>)
    ensures
        forall|j: int|
            #![trigger kept_domains(domains, leaf_names)[j]]
            0 <= j < kept_domains(domains, leaf_names).len() ==> !any_inside(
                leaf_names,
                kept_domains(domains, leaf_names)[j],
            ) && domains.contains(kept_domains(domains, leaf_names)[j]),
    decreases domains.len(),
{
    if domains.len() > 0 {
        let init = domains.drop_last();
        lemma_kept_domains(init, leaf_names);
        let kept = kept_domains(domains, leaf_names);
        let before = kept_domains(init, leaf_names);
        assert forall|j: int| #![trigger kept[j]] 0 <= j < kept.len() implies !any_inside(
            leaf_names,
            kept[j],
        ) && domains.contains(kept[j]) by {
            if j < before.len() {
                assert(kept[j] == before[j]);
                let k = choose|k: int| 0 <= k < init.len() && init[k] == before[j];
                assert(domains[k] == before[j]);
            } else {
                assert(domains[domains.len() - 1] == kept[j]);
            }
        }
    }
}

/// The narrowed list covers no name of the leaf, so a leaf that is still accepted was not
/// held back by the constraints. The name that replaces an empty list is left out: a leaf
/// for that very name would be covered by it.
pub proof fn lemma_narrowed_list_covers_no_leaf_name(
    domains: Seq<Seq<char>>,
    leaf_names: Seq<Seq<char>>,
    i: int,
)
    requires
        0 <= i < leaf_names.len(),
        !crate::config::in_subtree(base_name(leaf_names[i]), "negative-control.invalid"@),
    ensures
        !crate::config::covered(narrowed_domains(domains, leaf_names), base_name(leaf_names[i])),
{
    let narrowed = narrowed_domains(domains, leaf_names);
    let kept = kept_domains(domains, leaf_names);
    lemma_kept_domains(domains, leaf_names);
    if crate::config::covered(narrowed, base_name(leaf_names[i])) {
        let j = choose|j: int|
            0 <= j < narrowed.len() && crate::config::in_subtree(
                base_name(leaf_names[i]),
                #[trigger] narrowed[j],
            );
        if kept.len() > 0 {
            assert(!any_inside(leaf_names, kept[j]));
            assert(crate::config::in_subtree(base_name(leaf_names[i]), kept[j]));
        }
    }
}

/// The narrowed list is never empty, and holds nothing that was not permitted before but
/// the name that replaces an empty list.
pub proof fn lemma_narrowed_list_is_narrower(domains: Seq<Seq<char>>, leaf_names: Seq<Seq<char>>)
    ensures
        narrowed_domains(domains, leaf_names).len() > 0,
        forall|j: int|
            #![trigger narrowed_domains(domains, leaf_names)[j]]
            0 <= j < narrowed_domains(domains, leaf_names).len() ==> {
                ||| domains.contains(narrowed_domains(domains, leaf_names)[j])
                ||| narrowed_domains(domains, leaf_names)[j] == "negative-control.invalid"@
            },
{
    lemma_kept_domains(domains, leaf_names);
}

/// What is said of the leaf once its names were removed.
pub open spec fn control_findings(verdict: Option<Seq<char>>) -> Seq<(Outcome, Seq<char>)> {
    match verdict {
        Some(reason) => if crate::text::contains_text(reason, "permitted subtree violation"@) {
            seq![
                (Outcome::Pass, "leaf rejected: "@ + reason),
                (Outcome::Note, "        => constraints are enforced, not merely present"@),
            ]
        } else {
            seq![
                (
                    Outcome::Fail,
                    "leaf was rejected, but for the wrong reason: "@ + reason
                        + ". The constraint may not be what stopped it."@,
                ),
            ]
        },
        None => seq![
            (
                Outcome::Fail,
                "leaf still accepted with its names removed -- constraints are NOT enforced"@,
            ),
        ],
    }
}

/// The negative control passes exactly if the leaf was rejected for a permitted subtree
/// violation, and fails otherwise.
pub proof fn lemma_control_demands_the_violation(verdict: Option<Seq<char>>)
    ensures
        tally(control_findings(verdict), Outcome::Pass) + tally(
            control_findings(verdict),
            Outcome::Fail,
        ) == 1,
        tally(control_findings(verdict), Outcome::Pass) == 1 <==> (verdict matches Some(reason)
            && crate::text::contains_text(reason, "permitted subtree violation"@)),
{
    let all = control_findings(verdict);
    assert(all.drop_last().len() == all.len() - 1);
    reveal_with_fuel(tally, 3);
}

/// Records what is said of the leaf once its names were removed.
pub fn judge_control(verdict: &Verdict, report: &mut Report)
    requires
        old(report).is_tallied(),
    ensures
        final(report).is_tallied(),
        final(report).said() == old(report).said() + control_findings(verdict@),
{
    match verdict {
        Verdict::Rejected(reason) => if find_text(
            &chars_of(reason.as_str()),
            "permitted subtree violation",
        ).is_some() {
            report.pass(about("leaf rejected: ", reason.as_str()));
            report.note("        => constraints are enforced, not merely present".to_owned());
        } else {
            let mut message = about(
                "leaf was rejected, but for the wrong reason: ",
                reason.as_str(),
            );
            message.append(". The constraint may not be what stopped it.");
            report.fail(message);
        },
        Verdict::Valid => report.fail(
            "leaf still accepted with its names removed -- constraints are NOT enforced".to_owned(),
        ),
    }
    assert(report.said() =~= old(report).said() + control_findings(verdict@));
}

/// Whether `crosses` re-issue the roots under `local`, permitting `names` in the place of
/// what `cfg` permits.
pub open spec fn are_reissued(
    crosses: Seq<Seq<u8>>,
    local: Seq<u8>,
    pkcs8: Seq<u8>,
    roots: Seq<RootModel>,
    cfg: Config,
    names: Seq<Seq<char>>,
) -> bool {
    &&& crosses.len() == roots.len()
    &&& forall|i: int|
        0 <= i < crosses.len() ==> crate::x509::is_cross_certificate(
            #[trigger] crosses[i],
            local,
            pkcs8,
            roots[i].cert,
            crate::x509::value_permitting(cfg.constraints, names),
            cfg.signing.cross_days,
            cfg.signing.path_len,
        )
}

/// Whether `findings` may be what the negative control says: the leaf is validated through
/// certificates that permit none of its names.
pub open spec fn may_be_control(
    local: Seq<u8>,
    pkcs8: Seq<u8>,
    roots: Seq<RootModel>,
    cfg: Config,
    leaf: Seq<u8>,
    intermediate: Seq<u8>,
    findings: Seq<(Outcome, Seq<char>)>,
) -> bool {
    exists|crosses: Seq<Seq<u8>>, verdict: Option<Seq<char>>|
        {
            &&& #[trigger] are_reissued(
                crosses,
                local,
                pkcs8,
                roots,
                cfg,
                narrowed_domains(
                    cfg.constraints.names(),
                    crate::probe::certificate_dns_names(leaf),
                ),
            )
            &&& #[trigger] may_conclude(local, crosses.push(intermediate), leaf, verdict)
            &&& findings == control_findings(verdict)
        }
}

/// Whether `constraints` are those of `cfg` without the leaf's names.
pub open spec fn is_narrowed(constraints: Constraints, cfg: Config, leaf: Seq<u8>) -> bool {
    &&& constraints.names() == narrowed_domains(
        cfg.constraints.names(),
        crate::probe::certificate_dns_names(leaf),
    )
    &&& constraints == (Constraints {
        permitted_dns: constraints.permitted_dns,
        ..cfg.constraints
    })
}

/// Whether `e` may be why the negative control says nothing: OpenSSL does not sign one of the
/// certificates that permit none of the leaf's names, or does not validate the leaf.
pub open spec fn is_control_fault(
    local: Seq<u8>,
    roots: Seq<RootModel>,
    cfg: Config,
    leaf: Seq<u8>,
    e: Error,
) -> bool {
    ||| e.is_openssl(Operation::VerifyChain)
    ||| exists|i: int, narrowed: Constraints|
        {
            &&& 0 <= i < roots.len()
            &&& is_narrowed(narrowed, cfg, leaf)
            &&& #[trigger] crate::x509::is_cross_fault(local, roots[i].cert, narrowed, e)
            &&& e is OpenSsl
        }
}

/// Narrowing brings in no NUL character.
proof fn lemma_narrowed_is_nul_free(before: Constraints, after: Constraints, leaf: Seq<Seq<char>>)
    requires
        crate::x509::nul_free(before),
        after.names() == narrowed_domains(before.names(), leaf),
    ensures
        crate::x509::nul_free(after),
{
    reveal_strlit("negative-control.invalid");
    let names = after.names();
    lemma_narrowed_list_is_narrower(before.names(), leaf);
    assert forall|i: int| 0 <= i < names.len() implies !(#[trigger] names[i]).contains('\0') by {
        assert(narrowed_domains(before.names(), leaf)[i] == names[i]);
        if before.names().contains(names[i]) {
            let k = choose|k: int| 0 <= k < before.names().len() && before.names()[k] == names[i];
            assert(!before.names()[k].contains('\0'));
        }
    }
}

/// Re-signs with the probe leaf's names removed and asserts the leaf is now rejected.
///
/// # Errors
/// If OpenSSL cannot sign or validate.
pub fn negative_control(
    cfg: &Config,
    roots: &Vec<ForeignRoot>,
    local: &Certificate,
    key: &PrivateKey,
    leaf: &Certificate,
    intermediate: &Certificate,
    report: &mut Report,
) -> (r: Result<(), Error>)
    requires
        crate::signing::is_signable(*cfg),
        old(report).is_tallied(),
    ensures
        final(report).is_tallied(),
        match r {
            Ok(_) => exists|findings: Seq<(Outcome, Seq<char>)>|
                {
                    &&& #[trigger] may_be_control(
                        local@,
                        key@,
                        crate::roots::models(roots@),
                        *cfg,
                        leaf@,
                        intermediate@,
                        findings,
                    )
                    &&& final(report).said() == old(report).said() + findings
                },
            Err(e) => {
                &&& is_control_fault(local@, crate::roots::models(roots@), *cfg, leaf@, e)
                &&& final(report).said() == old(report).said()
            },
        },
{
    let ghost start = report.said();
    let leaf_names = dns_names(leaf);
    let narrowed = narrow(&cfg.constraints, &leaf_names);
    let ghost names = narrowed_domains(
        cfg.constraints.names(),
        crate::probe::certificate_dns_names(leaf@),
    );
    let ghost all = crate::roots::models(roots@);
    proof {
        lemma_narrowed_is_nul_free(
            cfg.constraints,
            narrowed,
            crate::probe::certificate_dns_names(leaf@),
        );
        lemma_narrowed_list_is_narrower(
            cfg.constraints.names(),
            crate::probe::certificate_dns_names(leaf@),
        );
    }
    let mut crosses: Vec<Certificate> = Vec::new();
    for i in 0..roots.len()
        invariant
            all == crate::roots::models(roots@),
            report.is_tallied(),
            report.said() == start,
            start == old(report).said(),
            crate::x509::nul_free(narrowed),
            crate::signing::is_signable(*cfg),
            narrowed.names() == names,
            names == narrowed_domains(
                cfg.constraints.names(),
                crate::probe::certificate_dns_names(leaf@),
            ),
            names.len() > 0,
            narrowed == (Constraints { permitted_dns: narrowed.permitted_dns, ..cfg.constraints }),
            are_reissued(
                crate::probe::ders(crosses@),
                local@,
                key@,
                all.take(i as int),
                *cfg,
                names,
            ),
    {
        assert(all[i as int] == roots@[i as int]@);
        let cross = match cross_sign(
            local,
            key,
            &roots[i].cert,
            &narrowed,
            cfg.signing.cross_days,
            cfg.signing.path_len,
        ) {
            Ok(cross) => cross,
            Err(e) => {
                proof {
                    assert(is_narrowed(narrowed, *cfg, leaf@));
                    assert(crate::x509::is_cross_fault(
                        local@,
                        all[i as int].cert,
                        narrowed,
                        e,
                    ));
                }
                return Err(e);
            },
        };
        let ghost before = crate::probe::ders(crosses@);
        crosses.push(cross);
        proof {
            let after = crate::probe::ders(crosses@);
            assert(after =~= before.push(cross@));
            assert(all[i as int] == roots@[i as int]@);
            assert forall|j: int| 0 <= j < after.len() implies crate::x509::is_cross_certificate(
                #[trigger] after[j],
                local@,
                key@,
                all.take(i + 1)[j].cert,
                crate::x509::value_permitting(cfg.constraints, names),
                cfg.signing.cross_days,
                cfg.signing.path_len,
            ) by {
                if j < i {
                    assert(after[j] == before[j]);
                }
            }
        }
    }
    assert(all.take(all.len() as int) =~= all);
    let ghost issued = crate::probe::ders(crosses@);
    let untrusted = with_last(&crosses, intermediate);
    let verdict = verify_chain(local, &untrusted, leaf)?;
    judge_control(&verdict, report);
    assert(may_conclude(local@, issued.push(intermediate@), leaf@, verdict@));
    assert(may_be_control(
        local@,
        key@,
        all,
        *cfg,
        leaf@,
        intermediate@,
        control_findings(verdict@),
    ));
    Ok(())
}

// The whole audit.

/// The lines that show which originals must not be trusted anywhere.
pub open spec fn sweep_findings(roots: Seq<RootModel>) -> Seq<(Outcome, Seq<char>)> {
    roots.map_values(
        |root: RootModel|
            (
                Outcome::Note,
                "  '"@ + (match crate::x509::common_name(root.cert) {
                    Some(cn) => cn,
                    None => root.name,
                }) + "' SHA256 "@ + crate::x509::certificate_fingerprint(root.cert)->0,
            ),
    )
}

/// Whether the roots before position `n` have fingerprints.
pub open spec fn all_hashed(roots: Seq<RootModel>, n: int) -> bool {
    forall|i: int|
        0 <= i < n ==> crate::x509::certificate_fingerprint((#[trigger] roots[i]).cert) is Some
}

/// Whether `findings` is what is said of the roots before the first that has no fingerprint.
pub open spec fn sweep_stopped(
    roots: Seq<RootModel>,
    findings: Seq<(Outcome, Seq<char>)>,
) -> bool {
    exists|i: int|
        {
            &&& 0 <= i < roots.len()
            &&& all_hashed(roots, i)
            &&& crate::x509::certificate_fingerprint((#[trigger] roots[i]).cert) is None
            &&& findings == sweep_findings(roots.take(i))
        }
}

/// Notes the originals that must not be trusted anywhere.
fn sweep(roots: &Vec<ForeignRoot>, report: &mut Report) -> (r: Result<(), Error>)
    requires
        old(report).is_tallied(),
    ensures
        final(report).is_tallied(),
        match r {
            Ok(_) => {
                let all = crate::roots::models(roots@);
                &&& all_hashed(all, all.len() as int)
                &&& final(report).said() == old(report).said() + sweep_findings(all)
            },
            Err(e) => {
                &&& e.is_openssl(Operation::HashCertificate)
                &&& exists|findings: Seq<(Outcome, Seq<char>)>|
                    {
                        &&& #[trigger] sweep_stopped(crate::roots::models(roots@), findings)
                        &&& final(report).said() == old(report).said() + findings
                    }
            },
        },
{
    let ghost all = crate::roots::models(roots@);
    let ghost start = report.said();
    assert(start + sweep_findings(all.take(0)) =~= start);
    for i in 0..roots.len()
        invariant
            all == crate::roots::models(roots@),
            start == old(report).said(),
            report.is_tallied(),
            all_hashed(all, i as int),
            report.said() == start + sweep_findings(all.take(i as int)),
    {
        let root = &roots[i];
        let name = match subject_cn(&root.cert) {
            Some(cn) => cn,
            None => root.name.clone(),
        };
        assert(all[i as int] == root@);
        let digest = match fingerprint(&root.cert) {
            Ok(digest) => digest,
            Err(e) => {
                assert(sweep_stopped(all, sweep_findings(all.take(i as int))));
                return Err(e);
            },
        };
        let mut message = about("  '", name.as_str());
        message.append("' SHA256 ");
        message.append(digest.as_str());
        report.note(message);
        assert(sweep_findings(all.take(i + 1)) =~= sweep_findings(all.take(i as int)).push(
            (Outcome::Note, message@),
        ));
        assert(report.said() =~= start + sweep_findings(all.take(i + 1)));
    }
    assert(all.take(all.len() as int) =~= all);
    Ok(())
}

/// What is said where the negative control cannot be run.
pub open spec fn no_control_findings() -> Seq<(Outcome, Seq<char>)> {
    seq![
        (
            Outcome::Skip,
            "no reachable domain used these CAs, cannot run the negative control"@,
        ),
        (
            Outcome::Note,
            "        Without this step the audit is incomplete: an over-permissive certificate still passes everything above."@,
        ),
    ]
}

/// The findings of an audit up to the inspection.
pub open spec fn up_to_inspection(inspected: Seq<(Outcome, Seq<char>)>) -> Seq<
    (Outcome, Seq<char>),
> {
    seq![(Outcome::Note, "\n1. Cross-certificates and what they permit"@)] + inspected
}

/// The findings of an audit up to the positive control.
pub open spec fn up_to_positive(
    inspected: Seq<(Outcome, Seq<char>)>,
    positive: Seq<(Outcome, Seq<char>)>,
) -> Seq<(Outcome, Seq<char>)> {
    up_to_inspection(inspected) + seq![
        (Outcome::Note, "\n2. Positive control -- permitted domains that use these CAs"@),
    ] + positive
}

/// The findings of an audit up to the negative control.
pub open spec fn up_to_negative(
    inspected: Seq<(Outcome, Seq<char>)>,
    positive: Seq<(Outcome, Seq<char>)>,
    negative: Seq<(Outcome, Seq<char>)>,
) -> Seq<(Outcome, Seq<char>)> {
    up_to_positive(inspected, positive) + seq![
        (Outcome::Note, "\n3. Negative control -- same leaf, names removed from the constraint"@),
    ] + negative
}

/// The findings of an audit up to the originals.
pub open spec fn up_to_sweep(
    inspected: Seq<(Outcome, Seq<char>)>,
    positive: Seq<(Outcome, Seq<char>)>,
    negative: Seq<(Outcome, Seq<char>)>,
    swept: Seq<(Outcome, Seq<char>)>,
) -> Seq<(Outcome, Seq<char>)> {
    up_to_negative(inspected, positive, negative) + seq![
        (Outcome::Note, "\n4. Competing trust paths for the original roots"@),
    ] + swept
}

/// The findings of an audit, from those of its parts.
pub open spec fn audit_findings(
    inspected: Seq<(Outcome, Seq<char>)>,
    positive: Seq<(Outcome, Seq<char>)>,
    negative: Seq<(Outcome, Seq<char>)>,
    swept: Seq<(Outcome, Seq<char>)>,
) -> Seq<(Outcome, Seq<char>)> {
    up_to_sweep(inspected, positive, negative, swept) + seq![
        (
            Outcome::Note,
            "  Windows stores: run install-certs.ps1 -- it scans CurrentUser and LocalMachine"@,
        ),
        (
            Outcome::Note,
            "  Firefox: about:preferences#privacy > View Certificates > Authorities"@,
        ),
    ]
}

/// Each part of an audit stands behind its heading.
proof fn lemma_parts(
    inspected: Seq<(Outcome, Seq<char>)>,
    positive: Seq<(Outcome, Seq<char>)>,
    negative: Seq<(Outcome, Seq<char>)>,
    swept: Seq<(Outcome, Seq<char>)>,
)
    ensures
        up_to_positive(inspected, Seq::empty()) == up_to_inspection(inspected).push(
            (Outcome::Note, "\n2. Positive control -- permitted domains that use these CAs"@),
        ),
        up_to_positive(inspected, positive) == up_to_positive(inspected, Seq::empty()) + positive,
        up_to_negative(inspected, positive, Seq::empty()) == up_to_positive(
            inspected,
            positive,
        ).push(
            (
                Outcome::Note,
                "\n3. Negative control -- same leaf, names removed from the constraint"@,
            ),
        ),
        up_to_negative(inspected, positive, negative) == up_to_negative(
            inspected,
            positive,
            Seq::empty(),
        ) + negative,
        up_to_sweep(inspected, positive, negative, Seq::empty()) == up_to_negative(
            inspected,
            positive,
            negative,
        ).push((Outcome::Note, "\n4. Competing trust paths for the original roots"@)),
        up_to_sweep(inspected, positive, negative, swept) == up_to_sweep(
            inspected,
            positive,
            negative,
            Seq::empty(),
        ) + swept,
{
    let none = Seq::<(Outcome, Seq<char>)>::empty();
    assert(up_to_positive(inspected, none) =~= up_to_inspection(inspected).push(
        (Outcome::Note, "\n2. Positive control -- permitted domains that use these CAs"@),
    ));
    assert(up_to_positive(inspected, positive) =~= up_to_positive(inspected, none) + positive);
    assert(up_to_negative(inspected, positive, none) =~= up_to_positive(inspected, positive).push(
        (Outcome::Note, "\n3. Negative control -- same leaf, names removed from the constraint"@),
    ));
    assert(up_to_negative(inspected, positive, negative) =~= up_to_negative(
        inspected,
        positive,
        none,
    ) + negative);
    assert(up_to_sweep(inspected, positive, negative, none) =~= up_to_negative(
        inspected,
        positive,
        negative,
    ).push((Outcome::Note, "\n4. Competing trust paths for the original roots"@)));
    assert(up_to_sweep(inspected, positive, negative, swept) =~= up_to_sweep(
        inspected,
        positive,
        negative,
        none,
    ) + swept);
}

/// What an audit is made of.
#[derive(Debug)]
pub struct Evidence {
    /// The bytes of the local root's certificate.
    pub local: Vec<u8>,
    /// The bytes of the local root's private key, if they could be read.
    pub key: Option<Vec<u8>>,
    /// For each root the bytes of its cross-certificate, if it has one.
    pub crosses: Vec<Option<Vec<u8>>>,
    /// For each permitted domain the chain its server presented, if it was reached.
    pub probes: Vec<Option<Chain>>,
}

/// Whether `negative` may be what is said of the negative control, given what the positive
/// control found.
pub open spec fn may_be_negative(
    evidence: Evidence,
    cfg: Config,
    local: Seq<u8>,
    roots: Seq<RootModel>,
    material: Option<(Certificate, Certificate)>,
    negative: Seq<(Outcome, Seq<char>)>,
) -> bool {
    match material {
        None => negative == no_control_findings(),
        Some((leaf, intermediate)) => evidence.key is Some && exists|pkcs8: Seq<u8>|
            {
                &&& #[trigger] crate::x509::loads_key(evidence.key->0@, pkcs8)
                &&& may_be_control(local, pkcs8, roots, cfg, leaf@, intermediate@, negative)
            },
    }
}

/// Whether `positive` may be what the positive control says, with `material` for the
/// negative control.
pub open spec fn may_be_positive(
    evidence: Evidence,
    local: Seq<u8>,
    roots: Seq<RootModel>,
    material: Option<(Certificate, Certificate)>,
    positive: Seq<(Outcome, Seq<char>)>,
) -> bool {
    let result = inspection(local, roots, evidence.crosses@);
    let domains = names_or_none(result.reference);
    exists|verdicts: Seq<Option<Seq<char>>>|
        {
            &&& verdicts.len() == domains.len()
            &&& #[trigger] may_come_out(local, result.bundle, evidence.probes@, verdicts)
            &&& is_first_validated(evidence.probes@, verdicts, material)
            &&& positive == probe_findings(domains, evidence.probes@, verdicts)
        }
}

/// Whether `findings` may be those of an audit.
pub open spec fn may_be_audit(
    evidence: Evidence,
    cfg: Config,
    local: Seq<u8>,
    roots: Seq<RootModel>,
    findings: Seq<(Outcome, Seq<char>)>,
) -> bool {
    exists|
        material: Option<(Certificate, Certificate)>,
        positive: Seq<(Outcome, Seq<char>)>,
        negative: Seq<(Outcome, Seq<char>)>,
    |
        {
            &&& #[trigger] may_be_positive(evidence, local, roots, material, positive)
            &&& #[trigger] may_be_negative(evidence, cfg, local, roots, material, negative)
            &&& findings == audit_findings(
                inspection(local, roots, evidence.crosses@).findings,
                positive,
                negative,
                sweep_findings(roots),
            )
        }
}

/// Whether the positive control may stop an audit with `e`, and `findings` be what was found
/// until then. Some chain can be validated.
pub open spec fn may_stop_at_positive(
    evidence: Evidence,
    local: Seq<u8>,
    roots: Seq<RootModel>,
    findings: Seq<(Outcome, Seq<char>)>,
    e: Error,
) -> bool {
    let result = inspection(local, roots, evidence.crosses@);
    &&& e.is_openssl(Operation::VerifyChain)
    &&& exists|positive: Seq<(Outcome, Seq<char>)>|
        {
            &&& #[trigger] probing_stopped(
                local,
                result.bundle,
                names_or_none(result.reference),
                evidence.probes@,
                positive,
            )
            &&& findings == up_to_positive(result.findings, positive)
        }
}

/// Whether `e` may be why the negative control of `leaf` cannot be run.
pub open spec fn stops_control(
    ws: Seq<char>,
    evidence: Evidence,
    cfg: Config,
    local: Seq<u8>,
    roots: Seq<RootModel>,
    leaf: Seq<u8>,
    e: FileError,
) -> bool {
    match e {
        FileError::Unreadable { path } => evidence.key is None && path@
            == crate::workspace::root_key_path(ws),
        FileError::Certificate(cause) => {
            &&& evidence.key matches Some(pem)
            &&& {
                ||| cause is NotAPrivateKey && crate::x509::may_not_load(pem@)
                ||| is_control_fault(local, roots, cfg, leaf, cause)
            }
        },
        FileError::NotACertificate { .. } => false,
    }
}

/// Whether the negative control may stop an audit with `e`, and `findings` be what was found
/// until then. Some chain validated.
pub open spec fn may_stop_at_negative(
    ws: Seq<char>,
    evidence: Evidence,
    cfg: Config,
    local: Seq<u8>,
    roots: Seq<RootModel>,
    findings: Seq<(Outcome, Seq<char>)>,
    e: FileError,
) -> bool {
    let result = inspection(local, roots, evidence.crosses@);
    exists|material: Option<(Certificate, Certificate)>, positive: Seq<(Outcome, Seq<char>)>|
        {
            &&& material is Some
            &&& #[trigger] may_be_positive(evidence, local, roots, material, positive)
            &&& findings == up_to_negative(result.findings, positive, Seq::empty())
            &&& stops_control(ws, evidence, cfg, local, roots, (material->0).0@, e)
        }
}

/// Whether an original without a fingerprint may stop an audit with `e`, and `findings` be
/// what was found until then.
pub open spec fn may_stop_at_sweep(
    evidence: Evidence,
    cfg: Config,
    local: Seq<u8>,
    roots: Seq<RootModel>,
    findings: Seq<(Outcome, Seq<char>)>,
    e: Error,
) -> bool {
    &&& e.is_openssl(Operation::HashCertificate)
    &&& exists|
        material: Option<(Certificate, Certificate)>,
        positive: Seq<(Outcome, Seq<char>)>,
        negative: Seq<(Outcome, Seq<char>)>,
        swept: Seq<(Outcome, Seq<char>)>,
    |
        {
            &&& #[trigger] may_be_positive(evidence, local, roots, material, positive)
            &&& #[trigger] may_be_negative(evidence, cfg, local, roots, material, negative)
            &&& #[trigger] sweep_stopped(roots, swept)
            &&& findings == up_to_sweep(
                inspection(local, roots, evidence.crosses@).findings,
                positive,
                negative,
                swept,
            )
        }
}

/// Whether an audit may stop with `e`, and `findings` be what was found until then.
pub open spec fn may_stop(
    ws: Seq<char>,
    evidence: Evidence,
    cfg: Config,
    local: Seq<u8>,
    roots: Seq<RootModel>,
    findings: Seq<(Outcome, Seq<char>)>,
    e: FileError,
) -> bool {
    ||| exists|inspected: Seq<(Outcome, Seq<char>)>|
        {
            &&& #[trigger] inspection_stopped(ws, local, roots, evidence.crosses@, inspected, e)
            &&& findings == up_to_inspection(inspected)
        }
    ||| {
        &&& can_inspect_all(local, evidence.crosses@, evidence.crosses@.len() as int)
        &&& {
            ||| may_stop_at_negative(ws, evidence, cfg, local, roots, findings, e)
            ||| e matches FileError::Certificate(cause) && {
                ||| may_stop_at_positive(evidence, local, roots, findings, cause)
                ||| may_stop_at_sweep(evidence, cfg, local, roots, findings, cause)
            }
        }
    }
}

/// An audit that could not go on.
#[derive(Debug)]
pub struct Interrupted {
    /// What was found until then.
    pub report: Report,
    /// Why it could not go on.
    pub cause: FileError,
}

/// Whether a chain was fetched that can be validated.
pub open spec fn any_validatable(probes: Seq<Option<Chain>>) -> bool {
    exists|i: int| 0 <= i < probes.len() && can_validate(#[trigger] probes[i])
}

/// Says whether a chain was fetched that can be validated. Only then an audit may have to
/// sign.
pub fn has_validatable(probes: &Vec<Option<Chain>>) -> (r: bool)
    ensures
        r == any_validatable(probes@),
{
    for i in 0..probes.len()
        invariant
            forall|j: int| 0 <= j < i ==> !can_validate(#[trigger] probes@[j]),
    {
        if let Some(chain) = &probes[i] {
            if chain.intermediates.len() > 0 {
                assert(can_validate(probes@[i as int]));
                return true;
            }
        }
    }
    false
}

/// The domains whose servers an audit asks for their chains: those that the first
/// cross-certificate permits.
///
/// # Errors
/// If a certificate cannot be parsed or read.
pub fn probe_targets(
    ws: &Workspace,
    roots: &Vec<ForeignRoot>,
    local: &Vec<u8>,
    crosses: &Vec<Option<Vec<u8>>>,
) -> (r: Result<Vec<String>, FileError>)
    requires
        roots@.len() == crosses@.len(),
        crate::x509::is_readable(local@),
        crate::x509::all_readable(crosses@),
    ensures
        match crate::x509::loaded(local@) {
            None => r matches Err(FileError::NotACertificate { path }) && path@
                == crate::workspace::root_cert_path(ws@),
            Some(cert) => match r {
                Ok(domains) => {
                    &&& can_inspect_all(cert, crosses@, crosses@.len() as int)
                    &&& crate::text::texts(domains@) == names_or_none(
                        inspection(cert, crate::roots::models(roots@), crosses@).reference,
                    )
                },
                Err(e) => exists|findings: Seq<(Outcome, Seq<char>)>| #[trigger]
                    inspection_stopped(
                        ws@,
                        cert,
                        crate::roots::models(roots@),
                        crosses@,
                        findings,
                        e,
                    ),
            },
        },
{
    let cert = match load_cert(local) {
        Ok(cert) => cert,
        Err(_) => return Err(FileError::NotACertificate { path: ws.root_cert() }),
    };
    let mut report = Report::default();
    let (_, domains) = inspect(ws, roots, &cert, crosses, &mut report)?;
    Ok(domains)
}

/// Runs the full audit.
///
/// # Errors
/// If the workspace cannot be read. Individual check failures are recorded in the report
/// rather than returned, so one failure does not hide the others. What was found before an
/// error comes back with it.
pub fn run(ws: &Workspace, cfg: &Config, roots: &Vec<ForeignRoot>, evidence: &Evidence) -> (r:
    Result<Report, Interrupted>)
    requires
        roots@.len() == evidence.crosses@.len(),
        crate::x509::is_readable(evidence.local@),
        (evidence.key matches Some(pem) ==> crate::x509::file_fits(pem@)),
        crate::x509::all_readable(evidence.crosses@),
        any_validatable(evidence.probes@) ==> crate::signing::is_signable(*cfg),
    ensures
        match crate::x509::loaded(evidence.local@) {
            None => r matches Err(stop) && {
                &&& stop.report.is_tallied()
                &&& stop.report.said().len() == 0
                &&& stop.cause matches FileError::NotACertificate { path }
                &&& path@ == crate::workspace::root_cert_path(ws@)
            },
            Some(local) => match r {
                Ok(report) => {
                    let all = crate::roots::models(roots@);
                    &&& can_inspect_all(local, evidence.crosses@, evidence.crosses@.len() as int)
                    &&& all_hashed(all, all.len() as int)
                    &&& report.is_tallied()
                    &&& may_be_audit(*evidence, *cfg, local, all, report.said())
                },
                Err(stop) => {
                    &&& stop.report.is_tallied()
                    &&& may_stop(
                        ws@,
                        *evidence,
                        *cfg,
                        local,
                        crate::roots::models(roots@),
                        stop.report.said(),
                        stop.cause,
                    )
                },
            },
        },
{
    let mut report = Report::default();
    let local = match load_cert(&evidence.local) {
        Ok(cert) => cert,
        Err(_) => {
            let cause = FileError::NotACertificate { path: ws.root_cert() };
            return Err(Interrupted { report, cause });
        },
    };
    let ghost all = crate::roots::models(roots@);
    let ghost result = inspection(local@, all, evidence.crosses@);
    report.note("\n1. Cross-certificates and what they permit".to_owned());
    let ghost head = report.said();
    let (bundle, permitted) = match inspect(ws, roots, &local, &evidence.crosses, &mut report) {
        Ok(found) => found,
        Err(cause) => {
            proof {
                let inspected = choose|f: Seq<(Outcome, Seq<char>)>|
                    {
                        &&& #[trigger] inspection_stopped(
                            ws@,
                            local@,
                            all,
                            evidence.crosses@,
                            f,
                            cause,
                        )
                        &&& report.said() == head + f
                    };
                assert(report.said() =~= up_to_inspection(inspected));
            }
            return Err(Interrupted { report, cause });
        },
    };
    report.note("\n2. Positive control -- permitted domains that use these CAs".to_owned());
    let ghost domains = crate::text::texts(permitted@);
    let ghost head = report.said();
    proof {
        lemma_parts(result.findings, Seq::empty(), Seq::empty(), Seq::empty());
        assert(head == up_to_positive(result.findings, Seq::empty()));
        assert(domains.len() == permitted@.len());
    }
    let material = match positive_control(
        &local,
        &bundle,
        &permitted,
        &evidence.probes,
        &mut report,
    ) {
        Ok(material) => material,
        Err(cause) => {
            proof {
                let positive = choose|f: Seq<(Outcome, Seq<char>)>|
                    {
                        &&& #[trigger] probing_stopped(
                            local@,
                            result.bundle,
                            domains,
                            evidence.probes@,
                            f,
                        )
                        &&& report.said() == head + f
                    };
                lemma_parts(result.findings, positive, Seq::empty(), Seq::empty());
                assert(may_stop_at_positive(*evidence, local@, all, report.said(), cause));
            }
            return Err(Interrupted { report, cause: FileError::Certificate(cause) });
        },
    };
    let ghost verdicts = choose|verdicts: Seq<Option<Seq<char>>>|
        {
            &&& verdicts.len() == permitted@.len()
            &&& #[trigger] may_come_out(
                local@,
                crate::probe::ders(bundle@),
                evidence.probes@,
                verdicts,
            )
            &&& report.said() == head + probe_findings(domains, evidence.probes@, verdicts)
            &&& is_first_validated(evidence.probes@, verdicts, material)
        };
    let ghost positive = probe_findings(domains, evidence.probes@, verdicts);
    proof {
        lemma_parts(result.findings, positive, Seq::empty(), Seq::empty());
        assert(may_be_positive(*evidence, local@, all, material, positive));
        if material is Some {
            lemma_validated_is_validatable(evidence.probes@, verdicts, material);
        }
    }
    match run_control(ws, cfg, roots, evidence, &local, &material, &mut report) {
        Ok(_) => {},
        Err(cause) => {
            proof {
                assert(report.said() == up_to_negative(result.findings, positive, Seq::empty()));
                assert(may_stop_at_negative(
                    ws@,
                    *evidence,
                    *cfg,
                    local@,
                    all,
                    report.said(),
                    cause,
                ));
            }
            return Err(Interrupted { report, cause });
        },
    }
    let ghost negative = choose|f: Seq<(Outcome, Seq<char>)>|
        {
            &&& #[trigger] may_be_negative(*evidence, *cfg, local@, all, material, f)
            &&& report.said() == up_to_negative(result.findings, positive, Seq::empty()) + f
        };
    report.note("\n4. Competing trust paths for the original roots".to_owned());
    let ghost head = report.said();
    proof {
        lemma_parts(result.findings, positive, negative, Seq::empty());
        assert(head == up_to_sweep(result.findings, positive, negative, Seq::empty()));
    }
    match sweep(roots, &mut report) {
        Ok(_) => {},
        Err(cause) => {
            proof {
                let swept = choose|f: Seq<(Outcome, Seq<char>)>|
                    #[trigger] sweep_stopped(all, f) && report.said() == head + f;
                lemma_parts(result.findings, positive, negative, swept);
                assert(may_stop_at_sweep(*evidence, *cfg, local@, all, report.said(), cause));
            }
            return Err(Interrupted { report, cause: FileError::Certificate(cause) });
        },
    }
    let ghost before = report.said();
    report.note(
        "  Windows stores: run install-certs.ps1 -- it scans CurrentUser and LocalMachine".to_owned(),
    );
    report.note("  Firefox: about:preferences#privacy > View Certificates > Authorities".to_owned());
    proof {
        let swept = sweep_findings(all);
        lemma_parts(result.findings, positive, negative, swept);
        assert(before == up_to_sweep(result.findings, positive, negative, swept));
        assert(report.said() =~= audit_findings(result.findings, positive, negative, swept));
    }
    Ok(report)
}

/// Runs the negative control, or says that it cannot be run.
fn run_control(
    ws: &Workspace,
    cfg: &Config,
    roots: &Vec<ForeignRoot>,
    evidence: &Evidence,
    local: &Certificate,
    material: &Option<(Certificate, Certificate)>,
    report: &mut Report,
) -> (r: Result<(), FileError>)
    requires
        (evidence.key matches Some(pem) ==> crate::x509::file_fits(pem@)),
        material is Some ==> crate::signing::is_signable(*cfg),
        old(report).is_tallied(),
    ensures
        final(report).is_tallied(),
        ({
            let head = old(report).said().push(
                (
                    Outcome::Note,
                    "\n3. Negative control -- same leaf, names removed from the constraint"@,
                ),
            );
            match r {
                Ok(_) => exists|f: Seq<(Outcome, Seq<char>)>|
                    {
                        &&& #[trigger] may_be_negative(
                            *evidence,
                            *cfg,
                            local@,
                            crate::roots::models(roots@),
                            *material,
                            f,
                        )
                        &&& final(report).said() == head + f
                    },
                Err(e) => {
                    &&& material is Some
                    &&& final(report).said() == head
                    &&& stops_control(
                        ws@,
                        *evidence,
                        *cfg,
                        local@,
                        crate::roots::models(roots@),
                        (material->0).0@,
                        e,
                    )
                },
            }
        }),
{
    report.note("\n3. Negative control -- same leaf, names removed from the constraint".to_owned());
    let ghost head = report.said();
    match material {
        Some((leaf, intermediate)) => {
            let key = match &evidence.key {
                None => return Err(FileError::Unreadable { path: ws.root_key() }),
                Some(pem) => match load_key(pem) {
                    Ok(key) => key,
                    Err(e) => return Err(FileError::Certificate(e)),
                },
            };
            match negative_control(cfg, roots, local, &key, leaf, intermediate, report) {
                Ok(_) => {
                    proof {
                        let f = choose|f: Seq<(Outcome, Seq<char>)>|
                            {
                                &&& #[trigger] may_be_control(
                                    local@,
                                    key@,
                                    crate::roots::models(roots@),
                                    *cfg,
                                    leaf@,
                                    intermediate@,
                                    f,
                                )
                                &&& report.said() == head + f
                            };
                        assert(may_be_negative(
                            *evidence,
                            *cfg,
                            local@,
                            crate::roots::models(roots@),
                            *material,
                            f,
                        ));
                    }
                    Ok(())
                },
                Err(e) => Err(FileError::Certificate(e)),
            }
        },
        None => {
            report.skip(
                "no reachable domain used these CAs, cannot run the negative control".to_owned(),
            );
            report.note(
                "        Without this step the audit is incomplete: an over-permissive certificate still passes everything above.".to_owned(),
            );
            assert(report.said() =~= head + no_control_findings());
            assert(may_be_negative(
                *evidence,
                *cfg,
                local@,
                crate::roots::models(roots@),
                *material,
                no_control_findings(),
            ));
            Ok(())
        },
    }
}

/// Where some chain validated, some chain can be validated.
proof fn lemma_validated_is_validatable(
    probes: Seq<Option<Chain>>,
    verdicts: Seq<Option<Seq<char>>>,
    material: Option<(Certificate, Certificate)>,
)
    requires
        is_first_validated(probes, verdicts, material),
        material is Some,
    ensures
        any_validatable(probes),
{
    let i = choose|i: int| 0 <= i < verdicts.len() && #[trigger] validated(probes, verdicts, i);
    assert(can_validate(probes[i]));
}

/// Where no chain can be validated, no key is needed: an audit stops only at a
/// cross-certificate that cannot be inspected or an original without a fingerprint.
pub proof fn lemma_no_chain_needs_no_key(
    ws: Seq<char>,
    evidence: Evidence,
    cfg: Config,
    local: Seq<u8>,
    roots: Seq<RootModel>,
    findings: Seq<(Outcome, Seq<char>)>,
    e: FileError,
)
    requires
        !any_validatable(evidence.probes@),
        can_inspect_all(local, evidence.crosses@, evidence.crosses@.len() as int),
        all_hashed(roots, roots.len() as int),
    ensures
        !may_stop(ws, evidence, cfg, local, roots, findings, e),
{
    let probes = evidence.probes@;
    let result = inspection(local, roots, evidence.crosses@);
    assert forall|i: int| !can_validate(#[trigger] fetched(probes, i)) by {
        if can_validate(fetched(probes, i)) {
            assert(can_validate(probes[i]));
        }
    }
    assert forall|f: Seq<(Outcome, Seq<char>)>| !#[trigger]
        inspection_stopped(ws, local, roots, evidence.crosses@, f, e) by {
        if inspection_stopped(ws, local, roots, evidence.crosses@, f, e) {
            let i = choose|i: int|
                0 <= i < evidence.crosses@.len() && #[trigger] inspect_fault(
                    ws,
                    local,
                    roots[i].name,
                    evidence.crosses@[i],
                    e,
                );
            assert(can_inspect(local, evidence.crosses@[i]));
        }
    }
    assert forall|
        material: Option<(Certificate, Certificate)>,
        positive: Seq<(Outcome, Seq<char>)>,
    | #[trigger]
        may_be_positive(evidence, local, roots, material, positive) implies material is None by {
        if material is Some {
            let verdicts = choose|verdicts: Seq<Option<Seq<char>>>|
                {
                    &&& #[trigger] may_come_out(local, result.bundle, probes, verdicts)
                    &&& is_first_validated(probes, verdicts, material)
                };
            lemma_validated_is_validatable(probes, verdicts, material);
        }
    }
    assert forall|swept: Seq<(Outcome, Seq<char>)>| !#[trigger] sweep_stopped(roots, swept) by {}
}

// What holds of audits.

/// A domain that cannot be validated is passed over: the positive control never fails.
pub proof fn lemma_positive_control_never_fails(
    domains: Seq<Seq<char>>,
    probes: Seq<Option<Chain>>,
    verdicts: Seq<Option<Seq<char>>>,
)
    ensures
        tally(probe_findings(domains, probes, verdicts), Outcome::Fail) == 0,
{
    let all = probe_findings(domains, probes, verdicts);
    lemma_no_failure_is_hidden(all);
    assert forall|i: int| 0 <= i < all.len() implies (#[trigger] all[i]).0 != Outcome::Fail by {
        assert(all[i] == probe_finding(domains[i], fetched(probes, i), verdicts[i]));
    }
}

/// What signing wrote passes the inspection of the key identifier and of the issuer.
pub proof fn lemma_signed_passes_inspection(
    ws: Seq<char>,
    local: Seq<u8>,
    pkcs8: Seq<u8>,
    cfg: Config,
    root: RootModel,
    signed: crate::signing::Signed,
    before: Inspection,
    file: Vec<u8>,
)
    requires
        crate::signing::is_signed(ws, local, pkcs8, cfg, root, signed),
        file@ == signed.write.contents@,
    ensures
        ({
            let after = inspected(before, local, root, Some(file));
            let n = before.findings.len() as int;
            &&& after.findings[n + 1] == (
                Outcome::Pass,
                root.name + " SKI matches the original root"@,
            )
            &&& after.findings[n + 2] == (Outcome::Pass, root.name + " issued by the local root"@)
        }),
{
}

/// Cross-certificates that permit the same names as the first one pass that check, and those
/// that do not fail it.
pub proof fn lemma_differing_lists_fail(
    name: Seq<char>,
    permitted: Seq<Seq<char>>,
    reference: Seq<Seq<char>>,
)
    ensures
        tally(list_findings(name, permitted, Some(reference)), Outcome::Fail) == if permitted
            == reference {
            0nat
        } else {
            1
        },
{
    reveal_with_fuel(tally, 2);
}

// What the findings say.

/// Whether `text` is `digest` in hexadecimal, two digits for each byte and a colon between
/// each two bytes.
pub open spec fn shows_bytes(text: Seq<char>, digest: Seq<u8>) -> bool {
    &&& digest.len() == 0 ==> text.len() == 0
    &&& digest.len() > 0 ==> text.len() == 3 * digest.len() - 1
    &&& forall|j: int|
        0 <= j < digest.len() ==> crate::x509::hex_value(text[3 * j]) == Some(
            (#[trigger] digest[j]) as int / 16,
        ) && crate::x509::hex_value(text[3 * j + 1]) == Some(digest[j] as int % 16)
    &&& forall|j: int|
        0 <= j < digest.len() - 1 ==> (#[trigger] digest[j] >= 0 && text[3 * j + 2] == ':')
}

/// Every audit that is completed names every original: the line for each root ends in
/// `SHA256` and the SHA-256 digest of that root's own certificate, whatever else the
/// certificate carries.
pub proof fn lemma_every_original_is_named(
    evidence: Evidence,
    cfg: Config,
    local: Seq<u8>,
    roots: Seq<RootModel>,
    findings: Seq<(Outcome, Seq<char>)>,
    i: int,
)
    requires
        may_be_audit(evidence, cfg, local, roots, findings),
        all_hashed(roots, roots.len() as int),
        0 <= i < roots.len(),
    ensures
        findings.len() >= roots.len() + 2,
        crate::crypto::certificate_sha256(roots[i].cert) matches Some(digest) && exists|
            shown: Seq<char>,
        |
            {
                &&& #[trigger] shows_bytes(shown, digest)
                &&& findings[findings.len() - 2 - roots.len() + i] == (
                    Outcome::Note,
                    "  '"@ + (match crate::x509::common_name(roots[i].cert) {
                        Some(cn) => cn,
                        None => roots[i].name,
                    }) + "' SHA256 "@ + shown,
                )
            },
{
    let (material, positive, negative) = choose|
        material: Option<(Certificate, Certificate)>,
        positive: Seq<(Outcome, Seq<char>)>,
        negative: Seq<(Outcome, Seq<char>)>,
    |
        {
            &&& #[trigger] may_be_positive(evidence, local, roots, material, positive)
            &&& #[trigger] may_be_negative(evidence, cfg, local, roots, material, negative)
            &&& findings == audit_findings(
                inspection(local, roots, evidence.crosses@).findings,
                positive,
                negative,
                sweep_findings(roots),
            )
        };
    let swept = sweep_findings(roots);
    assert(findings.len() >= roots.len() + 2);
    assert(findings[findings.len() - 2 - roots.len() + i] == swept[i]);
    assert(crate::x509::certificate_fingerprint(roots[i].cert) is Some);
    let shown = crate::x509::certificate_fingerprint(roots[i].cert)->0;
    crate::x509::lemma_fingerprint_is_the_digest(roots[i].cert, shown);
    let digest = crate::crypto::certificate_sha256(roots[i].cert)->0;
    assert(shows_bytes(shown, digest));
}

/// The four parts of a completed audit stand in order, each behind its heading: what was
/// inspected, one line for each permitted domain, the negative control, and one line for each
/// root.
pub proof fn lemma_audit_has_four_parts(
    evidence: Evidence,
    cfg: Config,
    local: Seq<u8>,
    roots: Seq<RootModel>,
    findings: Seq<(Outcome, Seq<char>)>,
)
    requires
        may_be_audit(evidence, cfg, local, roots, findings),
    ensures
        ({
            let result = inspection(local, roots, evidence.crosses@);
            let domains = match result.reference {
                Some(names) => names,
                None => Seq::empty(),
            };
            exists|
                positive: Seq<(Outcome, Seq<char>)>,
                negative: Seq<(Outcome, Seq<char>)>,
                swept: Seq<(Outcome, Seq<char>)>,
            |
                {
                    &&& positive.len() == domains.len()
                    &&& swept.len() == roots.len()
                    &&& negative.len() > 0
                    &&& findings == #[trigger] (seq![
                        (Outcome::Note, "\n1. Cross-certificates and what they permit"@),
                    ] + result.findings + seq![
                        (
                            Outcome::Note,
                            "\n2. Positive control -- permitted domains that use these CAs"@,
                        ),
                    ] + positive + seq![
                        (
                            Outcome::Note,
                            "\n3. Negative control -- same leaf, names removed from the constraint"@,
                        ),
                    ] + negative + seq![
                        (Outcome::Note, "\n4. Competing trust paths for the original roots"@),
                    ] + swept) + seq![
                        (
                            Outcome::Note,
                            "  Windows stores: run install-certs.ps1 -- it scans CurrentUser and LocalMachine"@,
                        ),
                        (
                            Outcome::Note,
                            "  Firefox: about:preferences#privacy > View Certificates > Authorities"@,
                        ),
                    ]
                }
        }),
{
    let (material, positive, negative) = choose|
        material: Option<(Certificate, Certificate)>,
        positive: Seq<(Outcome, Seq<char>)>,
        negative: Seq<(Outcome, Seq<char>)>,
    |
        {
            &&& #[trigger] may_be_positive(evidence, local, roots, material, positive)
            &&& #[trigger] may_be_negative(evidence, cfg, local, roots, material, negative)
            &&& findings == audit_findings(
                inspection(local, roots, evidence.crosses@).findings,
                positive,
                negative,
                sweep_findings(roots),
            )
        };
    let result = inspection(local, roots, evidence.crosses@);
    let swept = sweep_findings(roots);
    assert(negative.len() > 0);
    assert(findings == (seq![
        (Outcome::Note, "\n1. Cross-certificates and what they permit"@),
    ] + result.findings + seq![
        (Outcome::Note, "\n2. Positive control -- permitted domains that use these CAs"@),
    ] + positive + seq![
        (Outcome::Note, "\n3. Negative control -- same leaf, names removed from the constraint"@),
    ] + negative + seq![
        (Outcome::Note, "\n4. Competing trust paths for the original roots"@),
    ] + swept) + seq![
        (
            Outcome::Note,
            "  Windows stores: run install-certs.ps1 -- it scans CurrentUser and LocalMachine"@,
        ),
        (
            Outcome::Note,
            "  Firefox: about:preferences#privacy > View Certificates > Authorities"@,
        ),
    ]);
}

/// A root without a cross-certificate fails the inspection, wherever it stands, and brings
/// nothing else.
pub proof fn lemma_missing_cross_fails(
    local: Seq<u8>,
    roots: Seq<RootModel>,
    files: Seq<Option<Vec<u8>>>,
    root: RootModel,
)
    requires
        roots.len() == files.len(),
    ensures
        ({
            let before = inspection(local, roots, files);
            let after = inspection(local, roots.push(root), files.push(None));
            &&& after.findings == before.findings.push(
                (Outcome::Fail, root.name + " has no cross-certificate"@),
            )
            &&& after.bundle == before.bundle
            &&& after.reference == before.reference
        }),
{
    assert(roots.push(root).drop_last() =~= roots);
    assert(files.push(None).drop_last() =~= files);
}

/// What the inspection of one more cross-certificate finds, wherever it stands: whether its
/// dump shows critical name constraints, whether it has the key identifier of its root,
/// whether it was issued by the local root, and whether it permits the names that the first
/// one permits. It joins the others, and the first one's names stay the measure.
pub proof fn lemma_inspecting_one_more(
    local: Seq<u8>,
    roots: Seq<RootModel>,
    files: Seq<Option<Vec<u8>>>,
    root: RootModel,
    file: Vec<u8>,
    cross: Seq<u8>,
    text: Seq<char>,
)
    requires
        roots.len() == files.len(),
        crate::x509::loaded(file@) == Some(cross),
        crate::x509::dump(cross) == Some(text),
    ensures
        ({
            let before = inspection(local, roots, files);
            let after = inspection(local, roots.push(root), files.push(Some(file)));
            let n = before.findings.len() as int;
            let permitted = crate::x509::names_in(crate::text::lines(text), false, false);
            &&& after.bundle == before.bundle.push(cross)
            &&& after.findings.len() == n + if before.reference is None {
                5int
            } else {
                4
            }
            &&& after.findings.take(n) == before.findings
            &&& after.findings[n] == if crate::x509::shows_line(
                text,
                "X509v3 Name Constraints: critical"@,
            ) {
                (Outcome::Pass, root.name + " constraints present and critical"@)
            } else {
                (
                    Outcome::Fail,
                    root.name
                        + " constraints missing or not critical -- a verifier that ignores them would accept anything"@,
                )
            }
            &&& after.findings[n + 1] == if crate::crypto::certificate_key_id(cross)
                == crate::crypto::certificate_key_id(root.cert) {
                (Outcome::Pass, root.name + " SKI matches the original root"@)
            } else {
                (
                    Outcome::Fail,
                    root.name + " SKI differs -- sub-CA authorityKeyIdentifier will not match"@,
                )
            }
            &&& after.findings[n + 2] == if crate::crypto::certificate_issuer(cross)
                == crate::crypto::certificate_subject(local) {
                (Outcome::Pass, root.name + " issued by the local root"@)
            } else {
                (Outcome::Fail, root.name + " is not issued by myroot.pem"@)
            }
            &&& match before.reference {
                None => {
                    &&& after.reference == Some(permitted)
                    &&& after.findings[n + 3] == (
                        Outcome::Note,
                        "  permitted: "@ + crate::text::joined(permitted, ", "@),
                    )
                    &&& after.findings[n + 4] == (
                        Outcome::Pass,
                        root.name + " permits "@ + crate::text::decimal(permitted.len())
                            + " names"@,
                    )
                },
                Some(first) => {
                    &&& after.reference == Some(first)
                    &&& after.findings[n + 3] == if permitted == first {
                        (Outcome::Pass, root.name + " permits the same list as the others"@)
                    } else {
                        (
                            Outcome::Fail,
                            root.name
                                + " permits a different list -- the effective policy is their union"@,
                        )
                    }
                },
            }
        }),
{
    let before = inspection(local, roots, files);
    let after = inspection(local, roots.push(root), files.push(Some(file)));
    let n = before.findings.len() as int;
    assert(roots.push(root).drop_last() =~= roots);
    assert(files.push(Some(file)).drop_last() =~= files);
    assert(after == inspected(before, local, root, Some(file)));
    assert(after.findings.take(n) =~= before.findings);
    let ours = crate::crypto::certificate_key_id(cross);
    let theirs = crate::crypto::certificate_key_id(root.cert);
    if ours != theirs && crate::x509::key_id_text(cross) == crate::x509::key_id_text(root.cert) {
        crate::x509::lemma_hex_injective(ours->0, theirs->0, true);
    }
}

/// An inspection of no roots finds nothing.
pub proof fn lemma_nothing_to_inspect(local: Seq<u8>)
    ensures
        inspection(local, Seq::empty(), Seq::empty()).findings.len() == 0,
        inspection(local, Seq::empty(), Seq::empty()).bundle.len() == 0,
        inspection(local, Seq::empty(), Seq::empty()).reference is None,
{
}

/// What is said of each permitted domain, wherever it stands: that it was not reached, that
/// its server sent no intermediate, that it validates, or why it does not.
pub proof fn lemma_every_domain_is_judged(
    domains: Seq<Seq<char>>,
    probes: Seq<Option<Chain>>,
    verdicts: Seq<Option<Seq<char>>>,
    i: int,
)
    requires
        0 <= i < domains.len(),
    ensures
        probe_findings(domains, probes, verdicts).len() == domains.len(),
        i >= probes.len() || probes[i] is None ==> probe_findings(domains, probes, verdicts)[i] == (
            Outcome::Skip,
            domains[i] + " (unreachable)"@,
        ),
        i < probes.len() && (probes[i] matches Some(chain) && chain.intermediates@.len() == 0)
            ==> probe_findings(domains, probes, verdicts)[i] == (
            Outcome::Skip,
            domains[i] + " (server sent no intermediate)"@,
        ),
        i < probes.len() && (probes[i] matches Some(chain) && chain.intermediates@.len() > 0)
            && verdicts[i] is None ==> probe_findings(domains, probes, verdicts)[i] == (
            Outcome::Pass,
            domains[i] + " validates through the constrained chain"@,
        ),
        i < probes.len() && (probes[i] matches Some(chain) && chain.intermediates@.len() > 0)
            && verdicts[i] is Some ==> probe_findings(domains, probes, verdicts)[i] == (
            Outcome::Skip,
            domains[i] + " (chains to a CA we do not constrain: "@ + (
            match crate::x509::common_name(probes[i]->0.intermediates@[0]@) {
                Some(cn) => cn,
                None => Seq::empty(),
            }) + "; "@ + verdicts[i]->0 + ")"@,
        ),
{
}

/// Each chain is validated against the local root, through all the cross-certificates and the
/// first intermediate that its server sent: the verdict is one that OpenSSL may give of
/// these.
pub proof fn lemma_chains_are_validated_whole(
    anchor: Seq<u8>,
    bundle: Seq<Seq<u8>>,
    probes: Seq<Option<Chain>>,
    verdicts: Seq<Option<Seq<char>>>,
    i: int,
)
    requires
        may_come_out(anchor, bundle, probes, verdicts),
        0 <= i < verdicts.len(),
        i < probes.len(),
        probes[i] matches Some(chain) && chain.intermediates@.len() > 0,
    ensures
        verdicts[i] matches Some(reason) ==> crate::crypto::chain_checked(
            anchor,
            bundle.push(probes[i]->0.intermediates@[0]@),
            probes[i]->0.leaf@,
            false,
            reason,
        ),
        verdicts[i] is None ==> exists|reason: Seq<char>| #[trigger]
            crate::crypto::chain_checked(
                anchor,
                bundle.push(probes[i]->0.intermediates@[0]@),
                probes[i]->0.leaf@,
                true,
                reason,
            ),
{
    let verdict = verdicts[i];
    assert(can_validate(fetched(probes, i)));
    assert(may_conclude(
        anchor,
        bundle.push(probes[i]->0.intermediates@[0]@),
        probes[i]->0.leaf@,
        verdict,
    ));
}

/// The negative control takes the first chain that validated: no domain before it did, and
/// where none did, there is nothing to take.
pub proof fn lemma_control_takes_the_first_valid_chain(
    probes: Seq<Option<Chain>>,
    verdicts: Seq<Option<Seq<char>>>,
    material: Option<(Certificate, Certificate)>,
    i: int,
)
    requires
        is_first_validated(probes, verdicts, material),
        0 <= i < verdicts.len(),
        i < probes.len(),
        probes[i] matches Some(chain) && chain.intermediates@.len() > 0,
        verdicts[i] is None,
        forall|j: int|
            0 <= j < i && j < probes.len() && (#[trigger] probes[j] matches Some(chain)
                && chain.intermediates@.len() > 0) ==> verdicts[j] is Some,
    ensures
        material matches Some((leaf, intermediate)) && leaf@ == probes[i]->0.leaf@ && intermediate@
            == probes[i]->0.intermediates@[0]@,
{
    assert(validated(probes, verdicts, i));
    assert(material is Some);
    let (leaf, intermediate) = material->0;
    let k = choose|k: int|
        {
            &&& 0 <= k < verdicts.len()
            &&& #[trigger] validated(probes, verdicts, k)
            &&& forall|j: int| 0 <= j < k ==> !#[trigger] validated(probes, verdicts, j)
            &&& leaf@ == fetched(probes, k)->0.leaf@
            &&& intermediate@ == fetched(probes, k)->0.intermediates@[0]@
        };
    assert(k <= i);
    if k < i {
        assert(can_validate(probes[k]));
        assert(verdicts[k] is Some);
    }
}

/// A wildcard stands for the name behind it, and every other name for itself.
pub proof fn lemma_wildcards_stand_for_their_names(name: Seq<char>)
    ensures
        base_name("*."@ + name) == name,
        !crate::text::starts_with(name, "*."@) ==> base_name(name) == name,
{
    reveal_strlit("*.");
    let wild = "*."@ + name;
    assert(wild.subrange(0, 2) =~= "*."@);
    assert(wild.skip(2) =~= name);
}

/// Narrowing takes away exactly the domains that cover a name of the leaf, wherever they
/// stand: every other domain stays, and none that covers one does.
pub proof fn lemma_narrowing_is_exact(
    domains: Seq<Seq<char>>,
    leaf_names: Seq<Seq<char>>,
    domain: Seq<char>,
)
    requires
        domain != "negative-control.invalid"@,
    ensures
        narrowed_domains(domains, leaf_names).contains(domain) <==> domains.contains(domain)
            && forall|i: int|
            0 <= i < leaf_names.len() ==> !crate::config::in_subtree(
                base_name(#[trigger] leaf_names[i]),
                domain,
            ),
{
    let kept = kept_domains(domains, leaf_names);
    let narrowed = narrowed_domains(domains, leaf_names);
    lemma_kept_domains(domains, leaf_names);
    if narrowed.contains(domain) {
        let j = choose|j: int| 0 <= j < narrowed.len() && narrowed[j] == domain;
        if kept.len() > 0 {
            assert(!any_inside(leaf_names, kept[j]));
        }
    }
    if domains.contains(domain) && !any_inside(leaf_names, domain) {
        lemma_others_are_kept(domains, leaf_names, domain);
        let j = choose|j: int| 0 <= j < kept.len() && kept[j] == domain;
        assert(narrowed[j] == domain);
    }
}

/// A domain that covers no name of the leaf is kept.
proof fn lemma_others_are_kept(
    domains: Seq<Seq<char>>,
    leaf_names: Seq<Seq<char>>,
    domain: Seq<char>,
)
    requires
        domains.contains(domain),
        !any_inside(leaf_names, domain),
    ensures
        kept_domains(domains, leaf_names).contains(domain),
    decreases domains.len(),
{
    let init = domains.drop_last();
    let before = kept_domains(init, leaf_names);
    let after = kept_domains(domains, leaf_names);
    let i = choose|i: int| 0 <= i < domains.len() && domains[i] == domain;
    if i < init.len() {
        assert(init[i] == domain);
        lemma_others_are_kept(init, leaf_names, domain);
        let k = choose|k: int| 0 <= k < before.len() && before[k] == domain;
        assert(after[k] == domain);
    } else {
        assert(after[after.len() - 1] == domain);
    }
}

/// Where narrowing leaves nothing, one name that no leaf carries takes its place.
pub proof fn lemma_narrowing_to_nothing(domains: Seq<Seq<char>>, leaf_names: Seq<Seq<char>>)
    requires
        forall|k: int|
            0 <= k < domains.len() ==> any_inside(leaf_names, #[trigger] domains[k]),
    ensures
        narrowed_domains(domains, leaf_names) == seq!["negative-control.invalid"@],
    decreases domains.len(),
{
    lemma_kept_domains(domains, leaf_names);
    let kept = kept_domains(domains, leaf_names);
    if kept.len() > 0 {
        assert(!any_inside(leaf_names, kept[0]));
        assert(domains.contains(kept[0]));
        let k = choose|k: int| 0 <= k < domains.len() && domains[k] == kept[0];
        assert(any_inside(leaf_names, domains[k]));
    }
}

/// What the negative control does: each root, whatever their number, is re-issued under the
/// local root for the narrowed list, with the configured exclusions, validity and path
/// length, and the leaf is validated through all of these and the intermediate. The finding
/// passes only for a permitted subtree violation.
pub proof fn lemma_control_is_run_on_narrowed_certificates(
    local: Seq<u8>,
    pkcs8: Seq<u8>,
    roots: Seq<RootModel>,
    cfg: Config,
    leaf: Seq<u8>,
    intermediate: Seq<u8>,
    findings: Seq<(Outcome, Seq<char>)>,
)
    requires
        may_be_control(local, pkcs8, roots, cfg, leaf, intermediate, findings),
    ensures
        exists|crosses: Seq<Seq<u8>>, valid: bool, reason: Seq<char>|
            {
                &&& crosses.len() == roots.len()
                &&& forall|i: int|
                    0 <= i < roots.len() ==> crate::x509::is_cross_certificate(
                        #[trigger] crosses[i],
                        local,
                        pkcs8,
                        roots[i].cert,
                        crate::x509::value_permitting(
                            cfg.constraints,
                            narrowed_domains(
                                cfg.constraints.names(),
                                crate::probe::certificate_dns_names(leaf),
                            ),
                        ),
                        cfg.signing.cross_days,
                        cfg.signing.path_len,
                    )
                &&& #[trigger] crate::crypto::chain_checked(
                    local,
                    crosses.push(intermediate),
                    leaf,
                    valid,
                    reason,
                )
                &&& findings.len() > 0
                &&& valid ==> findings == seq![
                    (
                        Outcome::Fail,
                        "leaf still accepted with its names removed -- constraints are NOT enforced"@,
                    ),
                ]
                &&& !valid && crate::text::contains_text(reason, "permitted subtree violation"@)
                    ==> findings == seq![
                    (Outcome::Pass, "leaf rejected: "@ + reason),
                    (Outcome::Note, "        => constraints are enforced, not merely present"@),
                ]
                &&& !valid && !crate::text::contains_text(
                    reason,
                    "permitted subtree violation"@,
                ) ==> findings == seq![
                    (
                        Outcome::Fail,
                        "leaf was rejected, but for the wrong reason: "@ + reason
                            + ". The constraint may not be what stopped it."@,
                    ),
                ]
            },
{
    let names = narrowed_domains(
        cfg.constraints.names(),
        crate::probe::certificate_dns_names(leaf),
    );
    let (crosses, verdict) = choose|crosses: Seq<Seq<u8>>, verdict: Option<Seq<char>>|
        {
            &&& #[trigger] are_reissued(crosses, local, pkcs8, roots, cfg, names)
            &&& #[trigger] may_conclude(local, crosses.push(intermediate), leaf, verdict)
            &&& findings == control_findings(verdict)
        };
    match verdict {
        Some(reason) => {
            assert(crate::crypto::chain_checked(
                local,
                crosses.push(intermediate),
                leaf,
                false,
                reason,
            ));
        },
        None => {
            let reason = choose|reason: Seq<char>| #[trigger]
                crate::crypto::chain_checked(
                    local,
                    crosses.push(intermediate),
                    leaf,
                    true,
                    reason,
                );
            assert(crate::crypto::chain_checked(
                local,
                crosses.push(intermediate),
                leaf,
                true,
                reason,
            ));
        },
    }
}

/// The negative control of an audit is run with the key that its file holds, on the chain
/// that validated; without such a chain it is skipped, and said to be.
pub proof fn lemma_control_is_run_or_said_to_be_skipped(
    evidence: Evidence,
    cfg: Config,
    local: Seq<u8>,
    roots: Seq<RootModel>,
    material: Option<(Certificate, Certificate)>,
    negative: Seq<(Outcome, Seq<char>)>,
)
    requires
        may_be_negative(evidence, cfg, local, roots, material, negative),
    ensures
        material is None ==> negative == seq![
            (
                Outcome::Skip,
                "no reachable domain used these CAs, cannot run the negative control"@,
            ),
            (
                Outcome::Note,
                "        Without this step the audit is incomplete: an over-permissive certificate still passes everything above."@,
            ),
        ],
        material matches Some((leaf, intermediate)) ==> evidence.key is Some && exists|
            pkcs8: Seq<u8>,
        |
            {
                &&& #[trigger] crate::crypto::private_key_read(evidence.key->0@, pkcs8)
                &&& may_be_control(local, pkcs8, roots, cfg, leaf@, intermediate@, negative)
            },
{
    if let Some((leaf, intermediate)) = material {
        let pkcs8 = choose|pkcs8: Seq<u8>|
            {
                &&& #[trigger] crate::x509::loads_key(evidence.key->0@, pkcs8)
                &&& may_be_control(local, pkcs8, roots, cfg, leaf@, intermediate@, negative)
            };
        assert(crate::crypto::private_key_read(evidence.key->0@, pkcs8));
    }
}

/// One more finding counts for its own outcome, and for no other.
pub proof fn lemma_tally_counts_each_finding(
    findings: Seq<(Outcome, Seq<char>)>,
    finding: (Outcome, Seq<char>),
    outcome: Outcome,
)
    ensures
        tally(Seq::empty(), outcome) == 0,
        finding.0 == outcome ==> tally(findings.push(finding), outcome) == tally(findings, outcome)
            + 1,
        finding.0 != outcome ==> tally(findings.push(finding), outcome) == tally(findings, outcome),
{
    assert(findings.push(finding).drop_last() =~= findings);
}

/// How a finding is printed.
pub proof fn lemma_how_findings_are_printed(finding: Finding)
    ensures
        finding.outcome == Outcome::Pass ==> finding.printed() == "  PASS "@ + finding.message@,
        finding.outcome == Outcome::Fail ==> finding.printed() == "  FAIL "@ + finding.message@,
        finding.outcome == Outcome::Skip ==> finding.printed() == "  skip "@ + finding.message@,
        finding.outcome == Outcome::Note ==> finding.printed() == finding.message@,
{
}

/// Narrowing keeps the domains in their order, each as often as it stood there.
pub proof fn lemma_narrowing_keeps_the_order(
    first: Seq<Seq<char>>,
    second: Seq<Seq<char>>,
    domain: Seq<char>,
    leaf_names: Seq<Seq<char>>,
)
    ensures
        kept_domains(first + second, leaf_names) == kept_domains(first, leaf_names) + kept_domains(
            second,
            leaf_names,
        ),
        kept_domains(seq![domain], leaf_names) == if exists|i: int|
            0 <= i < leaf_names.len() && crate::config::in_subtree(
                base_name(#[trigger] leaf_names[i]),
                domain,
            ) {
            Seq::empty()
        } else {
            seq![domain]
        },
        kept_domains(first, leaf_names).len() > 0 ==> narrowed_domains(first, leaf_names)
            == kept_domains(first, leaf_names),
    decreases second.len(),
{
    let none = Seq::<Seq<char>>::empty();
    assert(kept_domains(none, leaf_names) =~= none);
    assert(seq![domain].drop_last() =~= none);
    assert(none.push(domain) =~= seq![domain]);
    if second.len() == 0 {
        assert(first + second =~= first);
        assert(kept_domains(first, leaf_names) + none =~= kept_domains(first, leaf_names));
    } else {
        lemma_narrowing_keeps_the_order(first, second.drop_last(), domain, leaf_names);
        assert((first + second).drop_last() =~= first + second.drop_last());
        assert((first + second).last() == second.last());
        assert(kept_domains(first + second, leaf_names) =~= kept_domains(first, leaf_names)
            + kept_domains(second, leaf_names));
    }
}

/// Why an inspection stops: some cross-certificate's file holds none, its dump or its issuer
/// cannot be had, or the local root's subject cannot. Everything before it was found.
pub proof fn lemma_inspection_stops_for_a_reason(
    ws: Seq<char>,
    local: Seq<u8>,
    roots: Seq<RootModel>,
    files: Seq<Option<Vec<u8>>>,
    findings: Seq<(Outcome, Seq<char>)>,
    e: FileError,
)
    requires
        inspection_stopped(ws, local, roots, files, findings, e),
    ensures
        exists|i: int|
            {
                &&& 0 <= i < files.len()
                &&& #[trigger] files[i] matches Some(bytes)
                &&& match crate::x509::loaded(bytes@) {
                    None => e is NotACertificate,
                    Some(cross) => e is Certificate && (crate::x509::dump(cross) is None
                        || crate::crypto::certificate_issuer(cross) is None
                        || crate::crypto::certificate_subject(local) is None),
                }
                &&& findings.len() >= inspection(
                    local,
                    roots.take(i),
                    files.take(i),
                ).findings.len()
            },
{
    let i = choose|i: int|
        {
            &&& 0 <= i < files.len()
            &&& can_inspect_all(local, files, i)
            &&& #[trigger] inspect_fault(ws, local, roots[i].name, files[i], e)
            &&& findings == inspection(local, roots.take(i), files.take(i)).findings
                + partial_findings(roots[i], files[i])
        };
    assert(files[i] is Some);
}

/// A key file stops an audit only where a chain validated, and it could not be read or holds
/// no key that is read without a passphrase.
pub proof fn lemma_key_stops_only_the_control(
    ws: Seq<char>,
    evidence: Evidence,
    cfg: Config,
    local: Seq<u8>,
    roots: Seq<RootModel>,
    leaf: Seq<u8>,
    e: FileError,
)
    requires
        stops_control(ws, evidence, cfg, local, roots, leaf, e),
    ensures
        e is Unreadable ==> evidence.key is None,
        e matches FileError::Certificate(Error::NotAPrivateKey) ==> evidence.key matches Some(pem)
            && (crate::crypto::key_may_ask_passphrase(pem@) || crate::crypto::plain_private_key(
            pem@,
        ) is None),
        !(e is NotACertificate),
{
}

/// The positive control asks each domain that the first cross-certificate permits, and
/// validates through all the cross-certificates that were found.
pub proof fn lemma_positive_control_asks_every_domain(
    evidence: Evidence,
    local: Seq<u8>,
    roots: Seq<RootModel>,
    material: Option<(Certificate, Certificate)>,
    positive: Seq<(Outcome, Seq<char>)>,
)
    requires
        may_be_positive(evidence, local, roots, material, positive),
    ensures
        ({
            let result = inspection(local, roots, evidence.crosses@);
            let domains = match result.reference {
                Some(names) => names,
                None => Seq::empty(),
            };
            exists|verdicts: Seq<Option<Seq<char>>>|
                {
                    &&& verdicts.len() == domains.len()
                    &&& #[trigger] may_come_out(local, result.bundle, evidence.probes@, verdicts)
                    &&& is_first_validated(evidence.probes@, verdicts, material)
                    &&& positive == probe_findings(domains, evidence.probes@, verdicts)
                }
        }),
{
}

} // verus!
