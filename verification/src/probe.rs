//! The certificate chain a TLS server presents.
//!
//! Used by the audit to test real chains rather than synthetic ones. The chain is being
//! *collected* for inspection, not trusted.
use crate::crypto::alt_names;
use crate::x509::Certificate;
use vstd::prelude::*;

verus! {

/// A chain as presented by a server.
#[derive(Debug)]
pub struct Chain {
    /// The server's own certificate.
    pub leaf: Certificate,
    /// Intermediates sent alongside it, in the order received.
    pub intermediates: Vec<Certificate>,
}

/// The certificates of a list, in DER.
pub open spec fn ders(certs: Seq<Certificate>) -> Seq<Seq<u8>> {
    certs.map_values(|c: Certificate| c@)
}

impl Chain {
    /// The chain that a server sent: its own certificate, and the list of certificates it
    /// sent, if any, which repeats its own in position zero.
    pub fn presented(leaf: Certificate, sent: Option<Vec<Certificate>>) -> (r: Self)
        ensures
            r.leaf@ == leaf@,
            match sent {
                Some(certs) if certs@.len() > 0 => ders(r.intermediates@) == ders(certs@.skip(1)),
                _ => r.intermediates@.len() == 0,
            },
    {
        let mut intermediates: Vec<Certificate> = Vec::new();
        if let Some(certs) = sent {
            let mut i: usize = 1;
            assert(certs@.len() > 0 ==> ders(intermediates@) =~= ders(certs@.subrange(1, 1)));
            while i < certs.len()
                invariant
                    1 <= i,
                    certs@.len() > 0 ==> i <= certs@.len() && ders(intermediates@) == ders(
                        certs@.subrange(1, i as int),
                    ),
                    certs@.len() == 0 ==> intermediates@.len() == 0,
                decreases certs@.len() - i,
            {
                let ghost before = ders(intermediates@);
                let copy = certs[i].duplicate();
                intermediates.push(copy);
                assert(ders(intermediates@) =~= before.push(copy@));
                assert(ders(certs@.subrange(1, i + 1)) =~= ders(certs@.subrange(1, i as int)).push(
                    certs@[i as int]@,
                ));
                i = i + 1;
            }
            if certs.len() > 0 {
                assert(certs@.subrange(1, certs@.len() as int) =~= certs@.skip(1));
            }
        }
        Chain { leaf, intermediates }
    }
}

/// The texts of the entries that are DNS names, in order.
pub open spec fn dns_entries(names: Seq<Option<Seq<char>>>) -> Seq<Seq<char>>
    decreases names.len(),
{
    if names.len() == 0 {
        Seq::empty()
    } else {
        let before = dns_entries(names.drop_last());
        match names.last() {
            Some(name) => before.push(name),
            None => before,
        }
    }
}

/// The DNS names in a certificate's subjectAltName extension.
pub open spec fn certificate_dns_names(der: Seq<u8>) -> Seq<Seq<char>> {
    match crate::crypto::certificate_alt_names(der) {
        Some(names) => dns_entries(names),
        None => Seq::empty(),
    }
}

/// Returns the DNS names in a certificate's subjectAltName extension.
pub fn dns_names(cert: &Certificate) -> (r: Vec<String>)
    ensures
        crate::text::texts(r@) == certificate_dns_names(cert@),
{
    let mut out: Vec<String> = Vec::new();
    match alt_names(cert.der()) {
        None => {
            assert(crate::text::texts(out@) =~= Seq::empty());
        },
        Some(names) => {
            let ghost known = crate::crypto::known_texts(names@);
            assert(crate::text::texts(out@) =~= dns_entries(known.take(0)));
            for i in 0..names.len()
                invariant
                    known == crate::crypto::known_texts(names@),
                    crate::text::texts(out@) == dns_entries(known.take(i as int)),
            {
                assert(known.take(i + 1).drop_last() =~= known.take(i as int));
                assert(known.take(i + 1).last() == known[i as int]);
                let ghost before = crate::text::texts(out@);
                if let Some(name) = &names[i] {
                    out.push(name.clone());
                    assert(crate::text::texts(out@) =~= before.push(name@));
                }
            }
            assert(known.take(known.len() as int) =~= known);
        },
    }
    out
}

/// Of the entries of a certificate exactly those that are DNS names are taken, in order and
/// however many there are.
pub proof fn lemma_dns_entries_add_up(
    names: Seq<Option<Seq<char>>>,
    more: Seq<Option<Seq<char>>>,
    name: Seq<char>,
)
    ensures
        dns_entries(Seq::empty()).len() == 0,
        dns_entries(seq![Some(name)]) == seq![name],
        dns_entries(seq![None]).len() == 0,
        dns_entries(names + more) == dns_entries(names) + dns_entries(more),
    decreases more.len(),
{
    let none = Seq::<Option<Seq<char>>>::empty();
    assert(dns_entries(none) =~= Seq::empty());
    assert(seq![Some(name)].drop_last() =~= none);
    assert(seq![None::<Seq<char>>].drop_last() =~= none);
    assert(dns_entries(seq![Some(name)]) =~= seq![name]);
    if more.len() == 0 {
        assert(names + more =~= names);
        assert(dns_entries(names) + dns_entries(more) =~= dns_entries(names));
    } else {
        lemma_dns_entries_add_up(names, more.drop_last(), name);
        assert((names + more).drop_last() =~= names + more.drop_last());
        assert((names + more).last() == more.last());
        assert(dns_entries(names + more) =~= dns_entries(names) + dns_entries(more));
    }
}

/// The DNS names of a certificate are those among its alternative names, none where it has no
/// such extension.
pub proof fn lemma_dns_names_means(der: Seq<u8>)
    ensures
        crate::crypto::certificate_alt_names(der) matches Some(names) ==> certificate_dns_names(
            der,
        ) == dns_entries(names),
        crate::crypto::certificate_alt_names(der) is None ==> certificate_dns_names(der).len() == 0,
{
}

} // verus!
