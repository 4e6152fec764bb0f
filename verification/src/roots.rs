//! Enumeration and lifecycle of the foreign CA roots being constrained.
//!
//! A CA "update" is one of two very different things, and telling them apart is this
//! module's main job:
//!
//! - **Same public key, new validity.** Nothing needs doing. The cross-certificate carries
//!   its own validity signed by the local root, so chains keep validating even after the
//!   original expires.
//! - **New public key.** A genuine rotation. The new root is added *alongside* the old
//!   one, because sites migrate gradually and both must be trusted meanwhile.
use crate::error::Error;
use crate::path::{join_path, name_extension, name_stem, path_file_name};
use crate::text::{chars_of, comes_before, lowered, same_text};
use crate::workspace::Workspace;
use crate::x509::{is_ca, is_self_signed, load_cert, pubkey_fingerprint, Certificate};
use vstd::prelude::*;

verus! {

/// A foreign CA root under management.
#[derive(Debug)]
pub struct ForeignRoot {
    /// Stem of the file name, used to derive every generated artifact's name.
    pub name: String,
    /// Location of the certificate on disk.
    pub path: String,
    /// The parsed certificate.
    pub cert: Certificate,
}

/// What a foreign root is.
#[verifier::ext_equal]
pub struct RootModel {
    /// Its name.
    pub name: Seq<char>,
    /// Where its certificate stands.
    pub path: Seq<char>,
    /// Its certificate, in DER.
    pub cert: Seq<u8>,
}

impl View for ForeignRoot {
    type V = RootModel;

    open spec fn view(&self) -> RootModel {
        RootModel { name: self.name@, path: self.path@, cert: self.cert@ }
    }
}

/// What each root of a list is.
pub open spec fn models(roots: Seq<ForeignRoot>) -> Seq<RootModel> {
    roots.map_values(|r: ForeignRoot| r@)
}

/// One entry of the directory of roots.
#[derive(Debug)]
pub struct DirEntry {
    /// The file name. Where it is not UTF-8, replacement characters stand in it.
    pub file_name: String,
    /// Whether the file name is UTF-8.
    pub is_utf8: bool,
    /// Whether the entry is a file.
    pub is_file: bool,
    /// What the file holds, if it could be read.
    pub contents: Option<Vec<u8>>,
}

/// What [`add`] did with an input certificate.
#[derive(Debug, PartialEq, Eq)]
pub enum Added {
    /// The key is already managed; only validity dates differ.
    Renewal {
        /// Name of the existing root carrying the same key.
        existing: String,
    },
    /// A new key, stored under the given name.
    NewKey {
        /// Name the certificate was filed under.
        name: String,
    },
}

/// A file to be written.
#[derive(Debug)]
pub struct FileWrite {
    /// Where the file stands.
    pub path: String,
    /// What it is to hold.
    pub contents: Vec<u8>,
}

/// What goes wrong with roots.
#[derive(Debug)]
pub enum RootError {
    /// The name of a root file is not UTF-8.
    NameNotUtf8,
    /// A root file cannot be read.
    Unreadable {
        /// Where the file stands.
        path: String,
    },
    /// A file holds no certificate.
    NotACertificate {
        /// Where the file stands.
        path: String,
    },
    /// The certificate to be added is not self-signed.
    NotSelfSigned {
        /// Where the certificate stands.
        path: String,
    },
    /// The certificate to be added is not one of a CA.
    NotACa {
        /// Where the certificate stands.
        path: String,
    },
    /// The name of the file to be added is not UTF-8.
    InputNameNotUtf8,
    /// There is already a root of that name with a different key.
    AlreadyExists {
        /// The name.
        name: String,
    },
    /// The only root cannot be retired.
    OnlyRoot,
    /// There is no root of that name.
    NoSuchRoot {
        /// The name.
        name: String,
    },
    /// A certificate cannot be examined.
    Certificate(Error),
}

impl RootError {
    /// The error in words.
    pub open spec fn words(self) -> Seq<char> {
        match self {
            RootError::NameNotUtf8 => "root file name is not valid UTF-8"@,
            RootError::Unreadable { path } => "reading "@ + path@,
            RootError::NotACertificate { path } => path@ + " is not a PEM or DER certificate"@,
            RootError::NotSelfSigned { path } => path@
                + " is not self-signed -- an intermediate cannot be cross-signed this way"@,
            RootError::NotACa { path } => path@
                + " is not a CA certificate (basicConstraints CA:TRUE missing)"@,
            RootError::InputNameNotUtf8 => "input file name is not valid UTF-8"@,
            RootError::AlreadyExists { name } => "roots/"@ + name@
                + ".cer already exists with a different key -- rename the input, or retire the old one first"@,
            RootError::OnlyRoot =>
                "refusing to retire the only root -- remove the certificates from your trust stores instead"@,
            RootError::NoSuchRoot { name } => "no root named '"@ + name@
                + "' (see `rucerts ca list`)"@,
            RootError::Certificate(cause) => cause.words(),
        }
    }

    /// The error in words, without what OpenSSL says of it.
    pub fn describe(&self) -> (r: String)
        ensures
            r@ == self.words(),
    {
        let mut out = String::new();
        match self {
            RootError::NameNotUtf8 => out.append("root file name is not valid UTF-8"),
            RootError::Unreadable { path } => {
                out.append("reading ");
                out.append(path.as_str());
            },
            RootError::NotACertificate { path } => {
                out.append(path.as_str());
                out.append(" is not a PEM or DER certificate");
            },
            RootError::NotSelfSigned { path } => {
                out.append(path.as_str());
                out.append(
                    " is not self-signed -- an intermediate cannot be cross-signed this way",
                );
            },
            RootError::NotACa { path } => {
                out.append(path.as_str());
                out.append(" is not a CA certificate (basicConstraints CA:TRUE missing)");
            },
            RootError::InputNameNotUtf8 => out.append("input file name is not valid UTF-8"),
            RootError::AlreadyExists { name } => {
                out.append("roots/");
                out.append(name.as_str());
                out.append(
                    ".cer already exists with a different key -- rename the input, or retire the old one first",
                );
            },
            RootError::OnlyRoot => out.append(
                "refusing to retire the only root -- remove the certificates from your trust stores instead",
            ),
            RootError::NoSuchRoot { name } => {
                out.append("no root named '");
                out.append(name.as_str());
                out.append("' (see `rucerts ca list`)");
            },
            RootError::Certificate(cause) => return cause.describe(),
        }
        assert(out@ =~= self.words());
        out
    }
}

/// The extensions accepted for files in `roots/`.
///
/// Matching on extension is what keeps `roots/retired/` out of every enumeration.
pub open spec fn accepted_extension(extension: Seq<char>) -> bool {
    let lowered = crate::text::ascii_lowered(extension);
    lowered == "cer"@ || lowered == "pem"@ || lowered == "crt"@
}

/// Whether `path` has one of the accepted certificate extensions.
pub open spec fn root_extension(path: Seq<char>) -> bool {
    match crate::path::file_name(path) {
        Some(name) => match crate::path::extension_of(name) {
            Some(extension) => accepted_extension(extension),
            None => false,
        },
        None => false,
    }
}

/// Returns true when `path` has one of the accepted certificate extensions.
pub fn has_root_extension(path: &str) -> (r: bool)
    ensures
        r == root_extension(path@),
{
    match path_file_name(path) {
        Some(name) => match name_extension(name.as_str()) {
            Some(extension) => {
                let lower = lowered(extension.as_str());
                same_text(lower.as_str(), "cer") || same_text(lower.as_str(), "pem") || same_text(
                    lower.as_str(),
                    "crt",
                )
            },
            None => false,
        },
        None => false,
    }
}

/// Whether `c` may stand in a generated file name.
pub open spec fn safe_char(c: char) -> bool {
    ||| 'a' <= c <= 'z'
    ||| 'A' <= c <= 'Z'
    ||| '0' <= c <= '9'
    ||| c == '.'
    ||| c == '_'
    ||| c == '-'
}

/// `raw` with an underscore for every character that is not safe.
pub open spec fn sanitised(raw: Seq<char>) -> Seq<char> {
    raw.map_values(
        |c: char|
            if safe_char(c) {
                c
            } else {
                '_'
            },
    )
}

/// Replaces characters that would be awkward in a generated file name.
pub fn sanitise_name(raw: &str) -> (r: String)
    ensures
        r@ == sanitised(raw@),
{
    let chars = chars_of(raw);
    let mut out = String::new();
    for i in 0..chars.len()
        invariant
            chars@ == raw@,
            out@ == sanitised(raw@.take(i as int)),
    {
        let c: char = chars[i];
        let safe: bool = ('a' <= c && c <= 'z') || ('A' <= c && c <= 'Z') || ('0' <= c && c <= '9')
            || c == '.' || c == '_' || c == '-';
        out.push(
            if safe {
                c
            } else {
                '_'
            },
        );
        assert(sanitised(raw@.take(i + 1)) =~= sanitised(raw@.take(i as int)).push(
            if safe {
                c
            } else {
                '_'
            },
        ));
    }
    assert(raw@.take(raw@.len() as int) =~= raw@);
    out
}

/// Sanitised names hold safe characters only, and sanitising them again changes nothing.
pub proof fn lemma_sanitised_is_safe(raw: Seq<char>)
    ensures
        sanitised(raw).len() == raw.len(),
        forall|i: int| 0 <= i < raw.len() ==> safe_char(#[trigger] sanitised(raw)[i]),
        !sanitised(raw).contains('/'),
        sanitised(sanitised(raw)) == sanitised(raw),
{
    assert(sanitised(sanitised(raw)) =~= sanitised(raw));
}

/// The roots of a list that have the name `name`, in order.
pub open spec fn named(roots: Seq<RootModel>, name: Seq<char>) -> Seq<RootModel> {
    roots.filter(|r: RootModel| r.name == name)
}

/// Whether no root stands behind one whose name is greater.
pub open spec fn sorted_by_name(roots: Seq<RootModel>) -> bool {
    forall|i: int, j: int|
        #![trigger roots[i], roots[j]]
        0 <= i < j < roots.len() ==> !crate::text::precedes(roots[j].name, roots[i].name)
}

/// Whether `output` is `input` sorted by name, with roots of the same name in the order in
/// which they came.
pub open spec fn stably_sorted(input: Seq<RootModel>, output: Seq<RootModel>) -> bool {
    &&& sorted_by_name(output)
    &&& forall|name: Seq<char>| #[trigger] named(output, name) == named(input, name)
}

/// Putting a root behind all roots that are not greater keeps a list stably sorted.
proof fn lemma_insert_sorted(
    input: Seq<RootModel>,
    output: Seq<RootModel>,
    root: RootModel,
    at: int,
)
    requires
        stably_sorted(input, output),
        0 <= at <= output.len(),
        forall|j: int|
            0 <= j < at ==> !crate::text::precedes(root.name, (#[trigger] output[j]).name),
        at < output.len() ==> crate::text::precedes(root.name, output[at].name),
    ensures
        stably_sorted(input.push(root), output.insert(at, root)),
{
    let next = output.insert(at, root);
    assert forall|j: int| at <= j < output.len() implies crate::text::precedes(
        root.name,
        (#[trigger] output[j]).name,
    ) by {
        if j > at {
            assert(!crate::text::precedes(output[j].name, output[at].name));
            crate::text::lemma_precedes_total(output[at].name, output[j].name);
            if output[at].name != output[j].name {
                crate::text::lemma_precedes_transitive(
                    root.name,
                    output[at].name,
                    output[j].name,
                );
            }
        }
    }
    assert forall|i: int, j: int|
        #![trigger next[i], next[j]]
        0 <= i < j < next.len() implies !crate::text::precedes(next[j].name, next[i].name) by {
        let oi = if i < at {
            i
        } else {
            i - 1
        };
        let oj = if j < at {
            j
        } else {
            j - 1
        };
        if i == at {
            assert(next[j] == output[oj]);
            if crate::text::precedes(output[oj].name, root.name) {
                crate::text::lemma_precedes_transitive(root.name, output[oj].name, root.name);
                crate::text::lemma_precedes_irreflexive(root.name);
            }
        } else if j == at {
            assert(next[i] == output[oi]);
        } else {
            assert(next[i] == output[oi] && next[j] == output[oj]);
        }
    }
    assert forall|name: Seq<char>| #[trigger] named(next, name) == named(
        input.push(root),
        name,
    ) by {
        let pred = |r: RootModel| r.name == name;
        let front = output.take(at);
        let back = output.skip(at);
        assert(output =~= front + back);
        assert(next =~= front + seq![root] + back);
        assert(input.push(root) =~= input + seq![root]);
        Seq::filter_distributes_over_add(front, back, pred);
        Seq::filter_distributes_over_add(front, seq![root], pred);
        Seq::filter_distributes_over_add(front + seq![root], back, pred);
        Seq::filter_distributes_over_add(input, seq![root], pred);
        assert(named(output, name) == named(input, name));
        if root.name == name {
            assert forall|j: int| 0 <= j < back.len() implies !pred(#[trigger] back[j]) by {
                assert(back[j] == output[at + j]);
                crate::text::lemma_precedes_irreflexive(root.name);
            }
            back.lemma_all_neg_filter_empty(pred);
            assert(next.filter(pred) =~= input.push(root).filter(pred));
        } else {
            assert forall|j: int| 0 <= j < seq![root].len() implies !pred(
                #[trigger] seq![root][j],
            ) by {}
            seq![root].lemma_all_neg_filter_empty(pred);
            assert(next.filter(pred) =~= input.push(root).filter(pred));
        }
    }
}

/// Where an entry of `roots/` stands.
pub open spec fn entry_path(ws: Seq<char>, entry: DirEntry) -> Seq<char> {
    crate::path::path_joined(crate::workspace::roots_path(ws), entry.file_name@)
}

/// Whether an entry of `roots/` is taken for a root.
pub open spec fn is_root_entry(ws: Seq<char>, entry: DirEntry) -> bool {
    entry.is_file && root_extension(entry_path(ws, entry))
}

/// Whether a certificate can be loaded, without asking anybody, from every file that is taken
/// for a root.
pub open spec fn entries_fit(ws: Seq<char>, entries: Seq<DirEntry>) -> bool {
    forall|i: int|
        0 <= i < entries.len() && is_root_entry(ws, #[trigger] entries[i])
            ==> crate::x509::any_readable(entries[i].contents)
}

/// The certificate that an entry holds.
pub open spec fn entry_cert(entry: DirEntry) -> Option<Seq<u8>> {
    match entry.contents {
        Some(bytes) => crate::x509::loaded(bytes@),
        None => None,
    }
}

/// Whether an entry that is taken for a root can be one.
pub open spec fn entry_sound(entry: DirEntry) -> bool {
    entry.is_utf8 && entry_cert(entry) is Some
}

/// The root that an entry stands for.
pub open spec fn entry_root(ws: Seq<char>, entry: DirEntry) -> RootModel {
    let path = entry_path(ws, entry);
    RootModel {
        name: crate::path::stem_of(crate::path::file_name(path)->0),
        path,
        cert: entry_cert(entry)->0,
    }
}

/// Whether `e` says why an entry cannot be a root.
pub open spec fn entry_fault(ws: Seq<char>, entry: DirEntry, e: RootError) -> bool {
    &&& is_root_entry(ws, entry)
    &&& !entry_sound(entry)
    &&& if !entry.is_utf8 {
        e is NameNotUtf8
    } else if entry.contents is None {
        e matches RootError::Unreadable { path } && path@ == entry_path(ws, entry)
    } else {
        e matches RootError::NotACertificate { path } && path@ == entry_path(ws, entry)
    }
}

/// The roots among the entries, in the order of the entries.
pub open spec fn entry_roots(ws: Seq<char>, entries: Seq<DirEntry>) -> Seq<RootModel>
    decreases entries.len(),
{
    if entries.len() == 0 {
        Seq::empty()
    } else {
        let before = entry_roots(ws, entries.drop_last());
        if is_root_entry(ws, entries.last()) {
            before.push(entry_root(ws, entries.last()))
        } else {
            before
        }
    }
}

/// Whether every entry that is taken for a root can be one.
pub open spec fn all_sound(ws: Seq<char>, entries: Seq<DirEntry>) -> bool {
    forall|i: int|
        0 <= i < entries.len() && is_root_entry(ws, #[trigger] entries[i]) ==> entry_sound(
            entries[i],
        )
}

/// Whether `e` says what is wrong with the first entry that cannot be a root.
pub open spec fn first_fault(ws: Seq<char>, entries: Seq<DirEntry>, e: RootError) -> bool {
    exists|i: int|
        0 <= i < entries.len() && entry_fault(ws, #[trigger] entries[i], e) && all_sound(
            ws,
            entries.take(i),
        )
}

/// Whether `roots` are what [`list`] makes of the entries.
pub open spec fn is_listing(
    ws: Seq<char>,
    entries: Seq<DirEntry>,
    roots: Seq<RootModel>,
) -> bool {
    all_sound(ws, entries) && stably_sorted(entry_roots(ws, entries), roots)
}

/// Reads one entry of `roots/`.
fn read_entry(ws: &Workspace, entry: &DirEntry) -> (r: Result<Option<ForeignRoot>, RootError>)
    requires
        is_root_entry(ws@, *entry) ==> crate::x509::any_readable(entry.contents),
    ensures
        match r {
            Ok(Some(root)) => is_root_entry(ws@, *entry) && entry_sound(*entry) && root@
                == entry_root(ws@, *entry),
            Ok(None) => !is_root_entry(ws@, *entry),
            Err(e) => entry_fault(ws@, *entry, e),
        },
{
    let path = join_path(ws.roots_dir().as_str(), entry.file_name.as_str());
    if !entry.is_file || !has_root_extension(path.as_str()) {
        return Ok(None);
    }
    if !entry.is_utf8 {
        return Err(RootError::NameNotUtf8);
    }
    let name = match path_file_name(path.as_str()) {
        Some(file) => name_stem(file.as_str()),
        None => return Ok(None),
    };
    match &entry.contents {
        None => Err(RootError::Unreadable { path }),
        Some(bytes) => match load_cert(bytes) {
            Ok(cert) => Ok(Some(ForeignRoot { name, path, cert })),
            Err(_) => Err(RootError::NotACertificate { path }),
        },
    }
}

/// Puts a root behind all roots whose name is not greater.
fn insert_sorted(roots: &mut Vec<ForeignRoot>, root: ForeignRoot)
    requires
        sorted_by_name(models(old(roots)@)),
    ensures
        forall|input: Seq<RootModel>| #[trigger]
            stably_sorted(input, models(old(roots)@)) ==> stably_sorted(
                input.push(root@),
                models(final(roots)@),
            ),
{
    let ghost before = models(roots@);
    let mut at: usize = 0;
    while at < roots.len() && !comes_before(root.name.as_str(), roots[at].name.as_str())
        invariant
            at <= roots@.len(),
            models(roots@) == before,
            forall|j: int|
                0 <= j < at ==> !crate::text::precedes(root.name@, (#[trigger] before[j]).name),
        decreases roots@.len() - at,
    {
        assert(before[at as int] == roots@[at as int]@);
        at = at + 1;
    }
    if at < roots.len() {
        assert(before[at as int] == roots@[at as int]@);
    }
    let ghost inserted = root@;
    roots.insert(at, root);
    assert(models(roots@) =~= before.insert(at as int, inserted));
    proof {
        assert forall|input: Seq<RootModel>| #[trigger]
            stably_sorted(input, before) implies stably_sorted(
            input.push(inserted),
            models(roots@),
        ) by {
            lemma_insert_sorted(input, before, inserted, at as int);
        }
    }
}

/// Lists the managed roots, excluding retired ones.
///
/// The entries are those of the directory `roots/`, none where there is no such directory.
///
/// # Errors
/// If the name of a root file is not UTF-8, or a certificate cannot be read or parsed.
pub fn list(ws: &Workspace, entries: &Vec<DirEntry>) -> (r: Result<Vec<ForeignRoot>, RootError>)
    requires
        entries_fit(ws@, entries@),
    ensures
        match r {
            Ok(roots) => is_listing(ws@, entries@, models(roots@)),
            Err(e) => first_fault(ws@, entries@, e),
        },
{
    let mut out: Vec<ForeignRoot> = Vec::new();
    assert(entry_roots(ws@, entries@.take(0)) =~= models(out@));
    for i in 0..entries.len()
        invariant
            entries_fit(ws@, entries@),
            is_listing(ws@, entries@.take(i as int), models(out@)),
    {
        let ghost next = entries@.take(i + 1);
        assert(next.drop_last() =~= entries@.take(i as int));
        assert(next.last() == entries@[i as int]);
        match read_entry(ws, &entries[i]) {
            Ok(found) => {
                if let Some(root) = found {
                    insert_sorted(&mut out, root);
                }
                assert forall|j: int|
                    0 <= j < next.len() && is_root_entry(ws@, #[trigger] next[j]) implies entry_sound(
                    next[j],
                ) by {
                    if j < i {
                        assert(entries@.take(i as int)[j] == next[j]);
                    }
                }
            },
            Err(e) => {
                assert(entry_fault(ws@, entries@[i as int], e));
                return Err(e);
            },
        }
    }
    assert(entries@.take(entries@.len() as int) =~= entries@);
    Ok(out)
}

/// The listed roots are the roots among the entries, no more and no fewer.
pub proof fn lemma_listing_holds_the_entries(
    ws: Seq<char>,
    entries: Seq<DirEntry>,
    roots: Seq<RootModel>,
)
    requires
        is_listing(ws, entries, roots),
    ensures
        forall|root: RootModel| #[trigger]
            roots.contains(root) <==> entry_roots(ws, entries).contains(root),
        roots.len() == entry_roots(ws, entries).len(),
{
    broadcast use vstd::seq_lib::group_filter_ensures;

    let input = entry_roots(ws, entries);
    assert forall|root: RootModel| #[trigger] roots.contains(root) <==> input.contains(root) by {
        let pred = |r: RootModel| r.name == root.name;
        assert(named(roots, root.name) == named(input, root.name));
        if roots.contains(root) {
            let i = choose|i: int| 0 <= i < roots.len() && roots[i] == root;
            assert(named(roots, root.name).contains(roots[i]));
            input.lemma_filter_contains_rev(pred, root);
        }
        if input.contains(root) {
            let i = choose|i: int| 0 <= i < input.len() && input[i] == root;
            assert(named(input, root.name).contains(input[i]));
            roots.lemma_filter_contains_rev(pred, root);
        }
    }
    lemma_same_groups_same_length(input, roots);
}

/// Two lists that agree on the roots of every name are equally long.
proof fn lemma_same_groups_same_length(a: Seq<RootModel>, b: Seq<RootModel>)
    requires
        forall|name: Seq<char>| #[trigger] named(b, name) == named(a, name),
    ensures
        a.len() == b.len(),
    decreases a.len(),
{
    reveal(Seq::filter);
    broadcast use vstd::seq_lib::group_filter_ensures;

    if a.len() == 0 {
        if b.len() > 0 {
            assert(named(b, b.last().name) == named(a, b.last().name));
            assert(named(b, b.last().name).len() > 0);
        }
    } else {
        let name = a.last().name;
        assert(named(b, name) == named(a, name));
        assert(named(a, name).len() > 0);
        // The last root of that name in `b`.
        let k = lemma_last_of_name(b, name);
        let rest = b.remove(k);
        assert forall|m: Seq<char>| #[trigger] named(rest, m) == named(a.drop_last(), m) by {
            let p = |r: RootModel| r.name == m;
            let front = b.take(k);
            let back = b.skip(k + 1);
            assert(b =~= front + seq![b[k]] + back);
            assert(rest =~= front + back);
            Seq::filter_distributes_over_add(front, seq![b[k]], p);
            Seq::filter_distributes_over_add(front + seq![b[k]], back, p);
            Seq::filter_distributes_over_add(front, back, p);
            assert(named(b, m) == named(a, m));
            assert(seq![b[k]].drop_last() =~= Seq::<RootModel>::empty());
            if m == name {
                back.lemma_all_neg_filter_empty(p);
                assert(named(a, m) == named(a.drop_last(), m).push(a.last()));
                assert(seq![b[k]].filter(p) =~= seq![b[k]]);
                assert(named(rest, m) =~= named(b, m).drop_last());
                assert(named(a.drop_last(), m) =~= named(a, m).drop_last());
            } else {
                seq![b[k]].lemma_all_neg_filter_empty(p);
                assert(named(rest, m) =~= named(b, m));
            }
        }
        lemma_same_groups_same_length(a.drop_last(), rest);
    }
}

/// Where the last root of a name stands.
proof fn lemma_last_of_name(roots: Seq<RootModel>, name: Seq<char>) -> (k: int)
    requires
        named(roots, name).len() > 0,
    ensures
        0 <= k < roots.len(),
        roots[k].name == name,
        forall|j: int| k < j < roots.len() ==> (#[trigger] roots[j]).name != name,
    decreases roots.len(),
{
    reveal(Seq::filter);
    if roots.last().name == name {
        roots.len() - 1
    } else {
        let k = lemma_last_of_name(roots.drop_last(), name);
        assert forall|j: int| k < j < roots.len() implies (#[trigger] roots[j]).name != name by {
            if j < roots.len() - 1 {
                assert(roots.drop_last()[j] == roots[j]);
            }
        }
        k
    }
}

/// The order of a listing follows from the entries alone: there is only one way to sort
/// roots stably by name.
pub proof fn lemma_listing_is_unique(input: Seq<RootModel>, a: Seq<RootModel>, b: Seq<RootModel>)
    requires
        stably_sorted(input, a),
        stably_sorted(input, b),
    ensures
        a == b,
    decreases a.len(),
{
    reveal(Seq::filter);
    broadcast use vstd::seq_lib::group_filter_ensures;

    assert forall|name: Seq<char>| #[trigger] named(b, name) == named(a, name) by {
        assert(named(a, name) == named(input, name));
    }
    lemma_same_groups_same_length(a, b);
    if a.len() == 0 {
        assert(a =~= b);
    } else {
        let x = a.last();
        let y = b.last();
        let px = |r: RootModel| r.name == x.name;
        let py = |r: RootModel| r.name == y.name;
        // Both lists end in the greatest name.
        assert(named(b, x.name) == named(a, x.name));
        assert(named(b, y.name) == named(a, y.name));
        assert(named(a, x.name).contains(x));
        b.lemma_filter_contains_rev(px, x);
        assert(named(b, y.name).contains(y));
        a.lemma_filter_contains_rev(py, y);
        let i = choose|i: int| 0 <= i < b.len() && b[i] == x;
        let j = choose|j: int| 0 <= j < a.len() && a[j] == y;
        assert(!crate::text::precedes(y.name, x.name)) by {
            if i < b.len() - 1 {
                assert(!crate::text::precedes(b[b.len() - 1].name, b[i].name));
            } else {
                crate::text::lemma_precedes_irreflexive(x.name);
            }
        }
        assert(!crate::text::precedes(x.name, y.name)) by {
            if j < a.len() - 1 {
                assert(!crate::text::precedes(a[a.len() - 1].name, a[j].name));
            } else {
                crate::text::lemma_precedes_irreflexive(x.name);
            }
        }
        crate::text::lemma_precedes_total(x.name, y.name);
        assert(x.name == y.name);
        assert(named(a, x.name).last() == x);
        assert(named(b, x.name).last() == y);
        assert forall|name: Seq<char>| #[trigger] named(b.drop_last(), name) == named(
            a.drop_last(),
            name,
        ) by {
            assert(named(b, name) == named(a, name));
            if name == x.name {
                assert(named(a.drop_last(), name) =~= named(a, name).drop_last());
                assert(named(b.drop_last(), name) =~= named(b, name).drop_last());
            }
        }
        lemma_listing_is_unique(a.drop_last(), a.drop_last(), b.drop_last());
        assert(a =~= a.drop_last().push(x));
        assert(b =~= b.drop_last().push(y));
    }
}

/// Whether two certificates carry the same public key, as far as fingerprints tell.
pub open spec fn same_key(a: Seq<u8>, b: Seq<u8>) -> bool {
    crate::x509::key_fingerprint(a) is Some && crate::x509::key_fingerprint(a)
        == crate::x509::key_fingerprint(b)
}

/// Whether `k` is the position of the first root with the key of `cert`.
pub open spec fn first_with_key(roots: Seq<RootModel>, cert: Seq<u8>, k: int) -> bool {
    &&& 0 <= k < roots.len()
    &&& same_key(cert, roots[k].cert)
    &&& forall|j: int| 0 <= j < k ==> !same_key(cert, (#[trigger] roots[j]).cert)
}

/// Whether no root has the key of `cert`.
pub open spec fn is_new_key(roots: Seq<RootModel>, cert: Seq<u8>) -> bool {
    forall|j: int| 0 <= j < roots.len() ==> !same_key(cert, (#[trigger] roots[j]).cert)
}

/// Whether the keys of the roots before position `n` have fingerprints.
pub open spec fn keys_known(roots: Seq<RootModel>, n: int) -> bool {
    forall|j: int|
        0 <= j < n ==> crate::x509::key_fingerprint((#[trigger] roots[j]).cert) is Some
}

/// Whether `e` says why the key of the root at position `k` has no fingerprint, where the
/// roots before it have another key than `cert`.
pub open spec fn key_fault(roots: Seq<RootModel>, cert: Seq<u8>, k: int, e: Error) -> bool {
    &&& 0 <= k < roots.len()
    &&& keys_known(roots, k)
    &&& forall|j: int| 0 <= j < k ==> !same_key(cert, (#[trigger] roots[j]).cert)
    &&& crate::x509::no_fingerprint(roots[k].cert, e)
}

/// Whether a root has the name `name`.
pub open spec fn name_taken(roots: Seq<RootModel>, name: Seq<char>) -> bool {
    exists|j: int| 0 <= j < roots.len() && (#[trigger] roots[j]).name == name
}

/// Looks for a root of a name.
fn find_name(roots: &Vec<ForeignRoot>, name: &str) -> (r: bool)
    ensures
        r == name_taken(models(roots@), name@),
{
    let ghost all = models(roots@);
    for j in 0..roots.len()
        invariant
            all == models(roots@),
            forall|i: int| 0 <= i < j ==> (#[trigger] all[i]).name != name@,
    {
        assert(all[j as int] == roots@[j as int]@);
        if same_text(roots[j].name.as_str(), name) {
            return true;
        }
    }
    false
}

/// Finds the first root with a key fingerprint.
fn find_key(roots: &Vec<ForeignRoot>, cert: &Certificate, fingerprint: &str) -> (r: Result<
    Option<usize>,
    Error,
>)
    requires
        crate::x509::key_fingerprint(cert@) == Some(fingerprint@),
    ensures
        match r {
            Ok(Some(k)) => first_with_key(models(roots@), cert@, k as int),
            Ok(None) => is_new_key(models(roots@), cert@),
            Err(e) => exists|k: int| key_fault(models(roots@), cert@, k, e),
        },
{
    for k in 0..roots.len()
        invariant
            crate::x509::key_fingerprint(cert@) == Some(fingerprint@),
            keys_known(models(roots@), k as int),
            forall|j: int| 0 <= j < k ==> !same_key(cert@, (#[trigger] models(roots@)[j]).cert),
    {
        assert(models(roots@)[k as int] == roots@[k as int]@);
        let theirs = match pubkey_fingerprint(&roots[k].cert) {
            Ok(theirs) => theirs,
            Err(e) => {
                assert(key_fault(models(roots@), cert@, k as int, e));
                return Err(e);
            },
        };
        if same_text(theirs.as_str(), fingerprint) {
            return Ok(Some(k));
        }
    }
    Ok(None)
}

/// The stem of the last component of a path.
pub open spec fn path_stem(path: Seq<char>) -> Option<Seq<char>> {
    match crate::path::file_name(path) {
        Some(name) => Some(crate::path::stem_of(name)),
        None => None,
    }
}

/// Where a root named `name` is filed.
pub open spec fn root_file_path(ws: Seq<char>, name: Seq<char>) -> Seq<char> {
    crate::path::path_joined(crate::workspace::roots_path(ws), name + ".cer"@)
}

/// The name that the certificate file `src` is filed under, and the place. `None` where
/// `src` ends in no file name.
pub fn destination(ws: &Workspace, src: &str) -> (r: Option<(String, String)>)
    ensures
        match r {
            Some((name, path)) => path_stem(src@) matches Some(stem) && name@ == sanitised(stem)
                && path@ == root_file_path(ws@, name@),
            None => path_stem(src@) is None,
        },
{
    match path_file_name(src) {
        Some(file) => {
            let name = sanitise_name(name_stem(file.as_str()).as_str());
            let mut filed = name.clone();
            filed.append(".cer");
            let path = join_path(ws.roots_dir().as_str(), filed.as_str());
            Some((name, path))
        },
        None => None,
    }
}

/// What is to be done to add a root.
#[derive(Debug)]
pub struct Addition {
    /// What the certificate turned out to be.
    pub added: Added,
    /// Directories to create, in order.
    pub create: Vec<String>,
    /// The file to write then.
    pub write: FileWrite,
}

/// Whether a certificate may be added: it is self-signed, and one of a CA.
pub open spec fn admissible(cert: Seq<u8>) -> bool {
    crate::x509::self_signed(cert) == Some(true) && crate::x509::ca_certificate(cert) == Some(true)
}

/// Whether a file is written that holds `cert` in PEM, and loads back as it.
pub open spec fn holds_certificate(write: FileWrite, cert: Seq<u8>) -> bool {
    crate::crypto::certificate_pem(cert) == Some(write.contents@) && crate::x509::loaded(
        write.contents@,
    ) == Some(cert)
}

/// Whether `addition` refreshes the stored copy of the first root with the key of `cert`.
pub open spec fn is_renewal(roots: Seq<RootModel>, cert: Seq<u8>, addition: Addition) -> bool {
    &&& addition.added matches Added::Renewal { existing }
    &&& addition.create@.len() == 0
    &&& holds_certificate(addition.write, cert)
    &&& exists|k: int|
        #![trigger roots[k]]
        first_with_key(roots, cert, k) && existing@ == roots[k].name && addition.write.path@
            == roots[k].path
}

/// Whether `addition` files `cert`, whose key is new, under the sanitised stem of `src`.
pub open spec fn is_new_root(
    ws: Seq<char>,
    src: Seq<char>,
    roots: Seq<RootModel>,
    cert: Seq<u8>,
    addition: Addition,
) -> bool {
    &&& addition.added matches Added::NewKey { name }
    &&& is_new_key(roots, cert)
    &&& !name_taken(roots, name@)
    &&& path_stem(src) matches Some(stem)
    &&& name@ == sanitised(stem)
    &&& crate::text::texts(addition.create@) == seq![
        crate::workspace::roots_path(ws),
        crate::workspace::constrained_path(ws),
    ]
    &&& addition.write.path@ == root_file_path(ws, name@)
    &&& holds_certificate(addition.write, cert)
}

/// Whether `e` says why `cert` cannot be added to the listed roots.
pub open spec fn is_listed_refusal(
    src: Seq<char>,
    stem_is_utf8: bool,
    roots: Seq<RootModel>,
    occupied: bool,
    cert: Seq<u8>,
    e: RootError,
) -> bool {
    match e {
        RootError::Certificate(cause) => {
            ||| exists|k: int| key_fault(roots, cert, k, cause)
            ||| {
                &&& crate::crypto::certificate_pem(cert) is None
                &&& cause.is_openssl(crate::error::Operation::EncodeCertificate)
                &&& is_new_key(roots, cert) ==> stem_is_utf8 && !occupied && (path_stem(src)
                    matches Some(stem) && !name_taken(roots, sanitised(stem)))
            }
        },
        RootError::InputNameNotUtf8 => {
            is_new_key(roots, cert) && !(stem_is_utf8 && path_stem(src) is Some)
        },
        RootError::AlreadyExists { name } => {
            &&& is_new_key(roots, cert)
            &&& stem_is_utf8
            &&& path_stem(src) matches Some(stem)
            &&& name@ == sanitised(stem)
            &&& occupied || name_taken(roots, name@)
        },
        _ => false,
    }
}

/// Whether `e` says why the admissible certificate `cert` cannot be added.
pub open spec fn is_refusal(
    ws: Seq<char>,
    src: Seq<char>,
    stem_is_utf8: bool,
    entries: Seq<DirEntry>,
    occupied: bool,
    cert: Seq<u8>,
    e: RootError,
) -> bool {
    if crate::x509::key_fingerprint(cert) is None {
        e matches RootError::Certificate(cause) && crate::x509::no_fingerprint(cert, cause)
    } else {
        ||| first_fault(ws, entries, e)
        ||| exists|roots: Seq<RootModel>|
            #![trigger is_listing(ws, entries, roots)]
            is_listing(ws, entries, roots) && is_listed_refusal(
                src,
                stem_is_utf8,
                roots,
                occupied,
                cert,
                e,
            )
    }
}

/// Adds a foreign root, or reports that its key is already managed.
///
/// `bytes` are what the file `src` holds, `entries` those of `roots/`. `stem_is_utf8` says
/// whether the stem of the input's file name is UTF-8, `occupied` whether there is something
/// at the [`destination`] already.
///
/// # Errors
/// If `bytes` are not a certificate, or one that is not self-signed or not of a CA, or a
/// differently-keyed root already occupies the target name.
pub fn add(
    ws: &Workspace,
    src: &str,
    stem_is_utf8: bool,
    bytes: &Vec<u8>,
    entries: &Vec<DirEntry>,
    occupied: bool,
) -> (r: Result<Addition, RootError>)
    requires
        crate::x509::is_readable(bytes@),
        entries_fit(ws@, entries@),
    ensures
        match crate::x509::loaded(bytes@) {
            None => r matches Err(RootError::NotACertificate { path }) && path@ == src@,
            Some(cert) => if crate::x509::self_signed(cert) == Some(false) {
                r matches Err(RootError::NotSelfSigned { path }) && path@ == src@
            } else if crate::x509::self_signed(cert) is None {
                r matches Err(RootError::Certificate(e)) && crate::x509::not_told(cert, e)
            } else if crate::x509::ca_certificate(cert) == Some(false) {
                r matches Err(RootError::NotACa { path }) && path@ == src@
            } else if crate::x509::ca_certificate(cert) is None {
                r matches Err(RootError::Certificate(e)) && crate::x509::no_dump(cert, e)
            } else {
                match r {
                    Ok(addition) => admissible(cert) && exists|roots: Seq<RootModel>|
                        #![trigger is_listing(ws@, entries@, roots)]
                        is_listing(ws@, entries@, roots) && {
                            ||| is_renewal(roots, cert, addition)
                            ||| is_new_root(ws@, src@, roots, cert, addition) && stem_is_utf8
                                && !occupied
                        },
                    Err(e) => is_refusal(ws@, src@, stem_is_utf8, entries@, occupied, cert, e),
                }
            },
        },
{
    let cert = match load_cert(bytes) {
        Ok(cert) => cert,
        Err(_) => return Err(RootError::NotACertificate { path: src.to_owned() }),
    };
    match is_self_signed(&cert) {
        Ok(true) => {},
        Ok(false) => return Err(RootError::NotSelfSigned { path: src.to_owned() }),
        Err(e) => return Err(RootError::Certificate(e)),
    }
    match is_ca(&cert) {
        Ok(true) => {},
        Ok(false) => return Err(RootError::NotACa { path: src.to_owned() }),
        Err(e) => return Err(RootError::Certificate(e)),
    }
    let fingerprint = match pubkey_fingerprint(&cert) {
        Ok(fingerprint) => fingerprint,
        Err(e) => return Err(RootError::Certificate(e)),
    };
    let roots = list(ws, entries)?;
    let ghost listed = models(roots@);
    match find_key(&roots, &cert, fingerprint.as_str()) {
        Err(e) => Err(RootError::Certificate(e)),
        Ok(Some(k)) => {
            // Refresh the stored copy so listings show the new validity, but the
            // cross-certificate itself needs no reissue.
            match cert.to_pem() {
                Err(e) => Err(RootError::Certificate(e)),
                Ok(contents) => {
                    assert(listed[k as int] == roots@[k as int]@);
                    let addition = Addition {
                        added: Added::Renewal { existing: roots[k].name.clone() },
                        create: Vec::new(),
                        write: FileWrite { path: roots[k].path.clone(), contents },
                    };
                    assert(is_renewal(listed, cert@, addition));
                    Ok(addition)
                },
            }
        },
        Ok(None) => {
            assert(is_new_key(listed, cert@));
            let (name, path) = match destination(ws, src) {
                Some(place) if stem_is_utf8 => place,
                _ => return Err(RootError::InputNameNotUtf8),
            };
            // Whatever the extension of its file, a root of that name has the
            // cross-certificate that the new one would get.
            if occupied || find_name(&roots, name.as_str()) {
                return Err(RootError::AlreadyExists { name });
            }
            match cert.to_pem() {
                Err(e) => Err(RootError::Certificate(e)),
                Ok(contents) => {
                    let addition = Addition {
                        added: Added::NewKey { name },
                        create: ws.ensure_dirs(),
                        write: FileWrite { path, contents },
                    };
                    assert(crate::text::texts(addition.create@) =~= seq![
                        crate::workspace::roots_path(ws@),
                        crate::workspace::constrained_path(ws@),
                    ]);
                    assert(is_new_root(ws@, src@, listed, cert@, addition));
                    Ok(addition)
                },
            }
        },
    }
}

/// What is to be done to retire a root.
#[derive(Debug)]
pub struct Retirement {
    /// The directory to create.
    pub create: String,
    /// Where the root's file stands.
    pub from: String,
    /// Where it is moved.
    pub to: String,
    /// The cross-certificate to remove, if there is one.
    pub cross: String,
}

/// Whether `k` is the position of the first root named `name`.
pub open spec fn first_named(roots: Seq<RootModel>, name: Seq<char>, k: int) -> bool {
    &&& 0 <= k < roots.len()
    &&& roots[k].name == name
    &&& forall|j: int| 0 <= j < k ==> (#[trigger] roots[j]).name != name
}

/// Whether `retirement` moves `root` to `roots/retired/` and drops its cross-certificate.
pub open spec fn retires(ws: Seq<char>, root: RootModel, retirement: Retirement) -> bool {
    &&& retirement.create@ == crate::workspace::retired_path(ws)
    &&& retirement.from@ == root.path
    &&& crate::path::file_name(root.path) matches Some(file)
    &&& retirement.to@ == crate::path::path_joined(crate::workspace::retired_path(ws), file)
    &&& retirement.cross@ == crate::workspace::cross_cert_path(ws, root.name)
}

/// Every root among the entries stands in a file with an accepted extension.
proof fn lemma_entry_roots_have_extensions(ws: Seq<char>, entries: Seq<DirEntry>)
    ensures
        forall|j: int|
            0 <= j < entry_roots(ws, entries).len() ==> root_extension(
                (#[trigger] entry_roots(ws, entries)[j]).path,
            ),
    decreases entries.len(),
{
    if entries.len() > 0 {
        lemma_entry_roots_have_extensions(ws, entries.drop_last());
        assert forall|j: int| 0 <= j < entry_roots(ws, entries).len() implies root_extension(
            (#[trigger] entry_roots(ws, entries)[j]).path,
        ) by {
            let before = entry_roots(ws, entries.drop_last());
            if j < before.len() {
                assert(entry_roots(ws, entries)[j] == before[j]);
            }
        }
    }
}

/// Moves a root to `roots/retired/` and drops its cross-certificate.
///
/// # Errors
/// If no such root exists, or it is the only one. A workspace with no roots would produce
/// no cross-certificates at all, which reads as a broken setup rather than a decision.
pub fn retire(ws: &Workspace, entries: &Vec<DirEntry>, name: &str) -> (r: Result<
    Retirement,
    RootError,
>)
    requires
        entries_fit(ws@, entries@),
    ensures
        match r {
            Ok(retirement) => exists|roots: Seq<RootModel>, k: int|
                #![trigger is_listing(ws@, entries@, roots), roots[k]]
                is_listing(ws@, entries@, roots) && roots.len() > 1 && first_named(roots, name@, k)
                    && retires(ws@, roots[k], retirement),
            Err(e) => {
                ||| first_fault(ws@, entries@, e)
                ||| exists|roots: Seq<RootModel>|
                    #![trigger is_listing(ws@, entries@, roots)]
                    is_listing(ws@, entries@, roots) && if roots.len() <= 1 {
                        e is OnlyRoot
                    } else {
                        &&& forall|j: int|
                            0 <= j < roots.len() ==> (#[trigger] roots[j]).name != name@
                        &&& e matches RootError::NoSuchRoot { name: missing } && missing@ == name@
                    }
            },
        },
{
    let roots = list(ws, entries)?;
    let ghost listed = models(roots@);
    assert(is_listing(ws@, entries@, listed));
    if roots.len() <= 1 {
        return Err(RootError::OnlyRoot);
    }
    for k in 0..roots.len()
        invariant
            listed == models(roots@),
            is_listing(ws@, entries@, listed),
            listed.len() > 1,
            forall|j: int| 0 <= j < k ==> (#[trigger] listed[j]).name != name@,
    {
        let root = &roots[k];
        assert(listed[k as int] == root@);
        if same_text(root.name.as_str(), name) {
            proof {
                lemma_listing_holds_the_entries(ws@, entries@, listed);
                lemma_entry_roots_have_extensions(ws@, entries@);
                assert(listed.contains(listed[k as int]));
                assert(entry_roots(ws@, entries@).contains(root@));
                assert(root_extension(root@.path));
            }
            if let Some(file) = path_file_name(root.path.as_str()) {
                let create = ws.retired_dir();
                let to = join_path(create.as_str(), file.as_str());
                let retirement = Retirement {
                    create,
                    from: root.path.clone(),
                    to,
                    cross: ws.cross_cert(name),
                };
                assert(retires(ws@, listed[k as int], retirement));
                return Ok(retirement);
            }
        }
    }
    Err(RootError::NoSuchRoot { name: name.to_owned() })
}

/// The directory of retired roots is never taken for a root, whatever it is.
pub proof fn lemma_retired_is_never_listed(ws: Seq<char>)
    ensures
        !root_extension(crate::workspace::retired_path(ws)),
{
    crate::workspace::lemma_retired_dir_has_no_extension(ws);
}

/// A root is filed right in `roots/`, in a file with an accepted extension and under a name
/// from which the root gets its own.
pub proof fn lemma_filed_in_roots(ws: Seq<char>, stem: Seq<char>)
    ensures
        crate::path::file_name(root_file_path(ws, sanitised(stem))) == Some(
            sanitised(stem) + ".cer"@,
        ),
        stem.len() > 0 ==> root_extension(root_file_path(ws, sanitised(stem))),
        stem.len() > 0 ==> path_stem(root_file_path(ws, sanitised(stem))) == Some(sanitised(stem)),
{
    reveal_strlit(".cer");
    reveal_strlit("cer");
    let name = sanitised(stem);
    let file = name + ".cer"@;
    lemma_sanitised_is_safe(stem);
    assert(!file.contains('/')) by {
        if file.contains('/') {
            let i = choose|i: int| 0 <= i < file.len() && file[i] == '/';
            if i < name.len() {
                assert(safe_char(name[i]));
            }
        }
    }
    assert(file != seq!['.', '.'] && file != seq!['.']) by {
        assert(file.len() >= 4);
    }
    crate::path::lemma_file_name_joined(crate::workspace::roots_path(ws), file);
    if stem.len() > 0 {
        crate::path::lemma_last_index(file, '.');
        let dot = crate::path::last_index(file, '.');
        assert(file[name.len() as int] == '.');
        assert forall|j: int| name.len() < j < file.len() implies file[j] != '.' by {}
        assert(dot == name.len());
        assert(file.skip(dot + 1) =~= "cer"@);
        assert(file.take(dot) =~= name);
        assert(crate::text::ascii_lowered("cer"@) =~= "cer"@);
    }
}

/// No file name has an empty stem.
proof fn lemma_stem_is_not_empty(path: Seq<char>)
    ensures
        path_stem(path) matches Some(stem) ==> stem.len() > 0,
    decreases path.len(),
{
    let slash = crate::path::last_index(path, '/');
    crate::path::lemma_last_index(path, '/');
    let last = path.skip(slash + 1);
    if last == Seq::<char>::empty() || last == seq!['.'] {
        if slash >= 0 {
            lemma_stem_is_not_empty(path.take(slash));
        }
    } else {
        crate::path::lemma_last_index(last, '.');
        assert(last.len() > 0) by {
            if last.len() == 0 {
                assert(last =~= Seq::<char>::empty());
            }
        }
    }
}

/// What has been filed as a new root is listed afterwards, with the name it was filed under
/// and the certificate that was added.
pub proof fn lemma_filed_root_is_listed(
    ws: Seq<char>,
    src: Seq<char>,
    known: Seq<RootModel>,
    cert: Seq<u8>,
    addition: Addition,
    entries: Seq<DirEntry>,
    at: int,
    roots: Seq<RootModel>,
)
    requires
        is_new_root(ws, src, known, cert, addition),
        0 <= at < entries.len(),
        entries[at].is_file,
        entries[at].is_utf8,
        entry_path(ws, entries[at]) == addition.write.path@,
        entries[at].contents matches Some(contents) && contents@ == addition.write.contents@,
        is_listing(ws, entries, roots),
    ensures
        roots.contains(
            RootModel {
                name: addition.added->name@,
                path: addition.write.path@,
                cert,
            },
        ),
{
    lemma_stem_is_not_empty(src);
    lemma_filed_in_roots(ws, path_stem(src)->0);
    let root = entry_root(ws, entries[at]);
    assert(root =~= (RootModel {
        name: addition.added->name@,
        path: addition.write.path@,
        cert,
    }));
    lemma_entry_is_collected(ws, entries, at);
    lemma_listing_holds_the_entries(ws, entries, roots);
    assert(entry_roots(ws, entries).contains(root));
}

/// Each entry that is taken for a root is among the roots.
proof fn lemma_entry_is_collected(ws: Seq<char>, entries: Seq<DirEntry>, at: int)
    requires
        0 <= at < entries.len(),
        is_root_entry(ws, entries[at]),
    ensures
        entry_roots(ws, entries).contains(entry_root(ws, entries[at])),
    decreases entries.len(),
{
    let all = entry_roots(ws, entries);
    let root = entry_root(ws, entries[at]);
    if at == entries.len() - 1 {
        assert(all.last() == root);
    } else {
        let before = entry_roots(ws, entries.drop_last());
        lemma_entry_is_collected(ws, entries.drop_last(), at);
        let i = choose|i: int| 0 <= i < before.len() && before[i] == root;
        assert(all[i] == root);
    }
}

/// A key that is under management stays a renewal: where a listed root carries the key of a
/// certificate, that certificate is not a new root.
pub proof fn lemma_managed_key_is_a_renewal(
    roots: Seq<RootModel>,
    root: RootModel,
    cert: Seq<u8>,
)
    requires
        roots.contains(root),
        same_key(cert, root.cert),
    ensures
        !is_new_key(roots, cert),
        exists|k: int| first_with_key(roots, cert, k),
{
    let i = choose|i: int| 0 <= i < roots.len() && roots[i] == root;
    lemma_first_with_key(roots, cert, i);
}

/// Where some root carries a key, there is a first one.
proof fn lemma_first_with_key(roots: Seq<RootModel>, cert: Seq<u8>, i: int)
    requires
        0 <= i < roots.len(),
        same_key(cert, roots[i].cert),
    ensures
        exists|k: int| first_with_key(roots, cert, k),
    decreases i,
{
    if forall|j: int| 0 <= j < i ==> !same_key(cert, (#[trigger] roots[j]).cert) {
        assert(first_with_key(roots, cert, i));
    } else {
        let j = choose|j: int| 0 <= j < i && same_key(cert, (#[trigger] roots[j]).cert);
        lemma_first_with_key(roots, cert, j);
    }
}

/// Fingerprints tell keys apart exactly as well as their digests do.
pub proof fn lemma_same_key_same_digest(a: Seq<u8>, b: Seq<u8>)
    requires
        crate::x509::key_digest(a) is Some,
        crate::x509::key_digest(b) is Some,
    ensures
        same_key(a, b) <==> crate::x509::key_digest(a) == crate::x509::key_digest(b),
{
    if same_key(a, b) {
        crate::x509::lemma_hex_injective(
            crate::x509::key_digest(a)->0,
            crate::x509::key_digest(b)->0,
            false,
        );
    }
}

/// Every root among the entries stands where one of them does.
proof fn lemma_entry_roots_come_from_entries(ws: Seq<char>, entries: Seq<DirEntry>, j: int)
    requires
        0 <= j < entry_roots(ws, entries).len(),
    ensures
        exists|i: int|
            0 <= i < entries.len() && entry_roots(ws, entries)[j] == entry_root(
                ws,
                #[trigger] entries[i],
            ),
    decreases entries.len(),
{
    let before = entry_roots(ws, entries.drop_last());
    if j < before.len() {
        lemma_entry_roots_come_from_entries(ws, entries.drop_last(), j);
        let i = choose|i: int|
            0 <= i < entries.drop_last().len() && before[j] == entry_root(
                ws,
                #[trigger] entries.drop_last()[i],
            );
        assert(entries[i] == entries.drop_last()[i]);
    } else {
        assert(entries[entries.len() - 1] == entries.last());
    }
}

/// A root whose file was moved away is not listed any more.
pub proof fn lemma_retired_root_is_gone(
    ws: Seq<char>,
    retirement: Retirement,
    entries: Seq<DirEntry>,
    roots: Seq<RootModel>,
)
    requires
        forall|i: int|
            0 <= i < entries.len() ==> entry_path(ws, #[trigger] entries[i])
                != retirement.from@,
        is_listing(ws, entries, roots),
    ensures
        forall|j: int| 0 <= j < roots.len() ==> (#[trigger] roots[j]).path != retirement.from@,
{
    lemma_listing_holds_the_entries(ws, entries, roots);
    assert forall|j: int| 0 <= j < roots.len() implies (#[trigger] roots[j]).path
        != retirement.from@ by {
        assert(roots.contains(roots[j]));
        let all = entry_roots(ws, entries);
        assert(all.contains(roots[j]));
        let k = choose|k: int| 0 <= k < all.len() && all[k] == roots[j];
        lemma_entry_roots_come_from_entries(ws, entries, k);
    }
}

/// Whether no two roots have the same name.
pub open spec fn names_differ(roots: Seq<RootModel>) -> bool {
    forall|name: Seq<char>| (#[trigger] named(roots, name)).len() <= 1
}

/// What is filed as a new root has a name, and so a cross-certificate, of its own: where the
/// names of the roots differ, they differ afterwards.
pub proof fn lemma_added_name_is_new(
    ws: Seq<char>,
    src: Seq<char>,
    entries: Seq<DirEntry>,
    known: Seq<RootModel>,
    cert: Seq<u8>,
    addition: Addition,
    entry: DirEntry,
    roots: Seq<RootModel>,
)
    requires
        is_listing(ws, entries, known),
        names_differ(known),
        is_new_root(ws, src, known, cert, addition),
        entry_path(ws, entry) == addition.write.path@,
        is_listing(ws, entries.push(entry), roots),
    ensures
        names_differ(roots),
{
    reveal(Seq::filter);
    let input = entry_roots(ws, entries);
    let after = entry_roots(ws, entries.push(entry));
    assert(entries.push(entry).drop_last() =~= entries);
    lemma_stem_is_not_empty(src);
    lemma_filed_in_roots(ws, path_stem(src)->0);
    let root = entry_root(ws, entry);
    assert(root.name == addition.added->name@);
    assert forall|name: Seq<char>| (#[trigger] named(roots, name)).len() <= 1 by {
        assert(named(roots, name) == named(after, name));
        assert(named(known, name) == named(input, name));
        if after.len() > input.len() {
            assert(after.drop_last() =~= input);
            if name == root.name {
                let pred = |r: RootModel| r.name == name;
                assert forall|j: int| 0 <= j < known.len() implies !pred(#[trigger] known[j]) by {}
                known.lemma_all_neg_filter_empty(pred);
            }
        }
    }
}

/// Taking out the only root of its name changes nothing for other names.
proof fn lemma_named_without(roots: Seq<RootModel>, k: int, name: Seq<char>)
    requires
        names_differ(roots),
        0 <= k < roots.len(),
    ensures
        name == roots[k].name ==> named(roots.remove(k), name).len() == 0,
        name != roots[k].name ==> named(roots.remove(k), name) == named(roots, name),
{
    reveal(Seq::filter);
    let pred = |r: RootModel| r.name == name;
    let front = roots.take(k);
    let back = roots.skip(k + 1);
    let one = seq![roots[k]];
    assert(roots =~= front + one + back);
    assert(roots.remove(k) =~= front + back);
    Seq::filter_distributes_over_add(front, one, pred);
    Seq::filter_distributes_over_add(front + one, back, pred);
    Seq::filter_distributes_over_add(front, back, pred);
    assert(named(roots, name).len() <= 1);
    assert(one.drop_last() =~= Seq::<RootModel>::empty());
    if name == roots[k].name {
        assert(one.filter(pred).len() == 1);
    } else {
        one.lemma_all_neg_filter_empty(pred);
        assert(named(roots.remove(k), name) =~= named(roots, name));
    }
}

/// Taking an entry out takes out the root it stands for.
proof fn lemma_entries_without(ws: Seq<char>, entries: Seq<DirEntry>, at: int) -> (j: int)
    requires
        0 <= at < entries.len(),
        is_root_entry(ws, entries[at]),
    ensures
        0 <= j < entry_roots(ws, entries).len(),
        entry_roots(ws, entries)[j] == entry_root(ws, entries[at]),
        entry_roots(ws, entries.remove(at)) == entry_roots(ws, entries).remove(j),
    decreases entries.len(),
{
    let all = entry_roots(ws, entries);
    let init = entries.drop_last();
    let before = entry_roots(ws, init);
    if at == entries.len() - 1 {
        assert(entries.remove(at) =~= init);
        assert(all.remove(all.len() - 1) =~= before);
        all.len() - 1
    } else {
        let j = lemma_entries_without(ws, init, at);
        assert(entries.remove(at).drop_last() =~= init.remove(at));
        assert(entries.remove(at).last() == entries.last());
        assert(entry_roots(ws, entries.remove(at)) =~= all.remove(j));
        j
    }
}

/// Retiring a root takes no other root along: where the names of the roots differ, and the
/// root's file is the entry that was moved away, the listing afterwards is the listing before
/// without that root, and not empty.
pub proof fn lemma_retiring_keeps_the_others(
    ws: Seq<char>,
    entries: Seq<DirEntry>,
    roots: Seq<RootModel>,
    k: int,
    at: int,
    left: Seq<RootModel>,
)
    requires
        is_listing(ws, entries, roots),
        names_differ(roots),
        roots.len() > 1,
        0 <= k < roots.len(),
        0 <= at < entries.len(),
        is_root_entry(ws, entries[at]),
        entry_root(ws, entries[at]) == roots[k],
        is_listing(ws, entries.remove(at), left),
    ensures
        left == roots.remove(k),
        left.len() > 0,
        forall|j: int| 0 <= j < roots.len() && j != k ==> left.contains(#[trigger] roots[j]),
{
    let input = entry_roots(ws, entries);
    let i = lemma_entries_without(ws, entries, at);
    let rest = roots.remove(k);
    assert forall|name: Seq<char>| (#[trigger] named(input, name)).len() <= 1 by {
        assert(named(roots, name) == named(input, name));
    }
    assert forall|name: Seq<char>| #[trigger] named(rest, name) == named(
        input.remove(i),
        name,
    ) by {
        lemma_named_without(roots, k, name);
        lemma_named_without(input, i, name);
        assert(named(roots, name) == named(input, name));
        assert(named(rest, name) =~= named(input.remove(i), name));
    }
    assert(sorted_by_name(rest)) by {
        assert forall|a: int, b: int|
            #![trigger rest[a], rest[b]]
            0 <= a < b < rest.len() implies !crate::text::precedes(
            rest[b].name,
            rest[a].name,
        ) by {
            let oa = if a < k {
                a
            } else {
                a + 1
            };
            let ob = if b < k {
                b
            } else {
                b + 1
            };
            assert(rest[a] == roots[oa] && rest[b] == roots[ob]);
        }
    }
    assert(stably_sorted(input.remove(i), rest));
    lemma_listing_is_unique(input.remove(i), rest, left);
    assert forall|j: int| 0 <= j < roots.len() && j != k implies left.contains(
        #[trigger] roots[j],
    ) by {
        if j < k {
            assert(left[j] == roots[j]);
        } else {
            assert(left[j - 1] == roots[j]);
        }
    }
}

/// Whether a file name is `name`, a dot, and one of the three extensions of certificates, in
/// upper or lower case.
pub open spec fn is_certificate_file(file: Seq<char>, name: Seq<char>, extension: Seq<char>) -> bool {
    let lower = crate::text::ascii_lowered(extension);
    &&& file == name + seq!['.'] + extension
    &&& name.len() > 0
    &&& !extension.contains('.')
    &&& lower == "cer"@ || lower == "pem"@ || lower == "crt"@
}

/// Which files are taken for roots, and what the roots are named: those whose name ends in a
/// dot and `cer`, `pem` or `crt`, and what stands before it.
pub proof fn lemma_root_files_are_named(path: Seq<char>, file: Seq<char>)
    requires
        crate::path::file_name(path) == Some(file),
    ensures
        root_extension(path) <==> exists|name: Seq<char>, extension: Seq<char>|
            #[trigger] is_certificate_file(file, name, extension),
        forall|name: Seq<char>, extension: Seq<char>| #[trigger]
            is_certificate_file(file, name, extension) ==> crate::path::stem_of(file) == name,
{
    let dot = crate::path::last_index(file, '.');
    crate::path::lemma_last_index(file, '.');
    if root_extension(path) {
        let name = file.take(dot);
        let extension = file.skip(dot + 1);
        assert(file =~= name + seq!['.'] + extension);
        assert(!extension.contains('.')) by {
            if extension.contains('.') {
                let i = choose|i: int| 0 <= i < extension.len() && extension[i] == '.';
                assert(file[dot + 1 + i] == '.');
            }
        }
        assert(is_certificate_file(file, name, extension));
    }
    assert forall|name: Seq<char>, extension: Seq<char>| #[trigger]
        is_certificate_file(file, name, extension) implies crate::path::stem_of(file) == name
        && root_extension(path) by {
        crate::path::lemma_stem_and_extension(name, extension);
    }
}

/// What a listing is made of: every listed root is the certificate in a file of `roots/` that
/// ends in `cer`, `pem` or `crt`, under the name of that file.
pub proof fn lemma_every_listed_root_is_a_file(
    ws: Seq<char>,
    entries: Seq<DirEntry>,
    roots: Seq<RootModel>,
    k: int,
)
    requires
        is_listing(ws, entries, roots),
        0 <= k < roots.len(),
    ensures
        exists|i: int|
            {
                &&& 0 <= i < entries.len()
                &&& (#[trigger] entries[i]).is_file
                &&& entries[i].is_utf8
                &&& entries[i].contents matches Some(bytes)
                &&& crate::x509::loaded(bytes@) == Some(roots[k].cert)
                &&& roots[k].path == crate::path::path_joined(
                    crate::path::path_joined(ws, "roots"@),
                    entries[i].file_name@,
                )
                &&& crate::path::file_name(roots[k].path) matches Some(file)
                &&& exists|extension: Seq<char>| #[trigger]
                    is_certificate_file(file, roots[k].name, extension)
            },
{
    let all = entry_roots(ws, entries);
    lemma_listing_holds_the_entries(ws, entries, roots);
    assert(roots.contains(roots[k]));
    let j = choose|j: int| 0 <= j < all.len() && all[j] == roots[k];
    lemma_collected_from(ws, entries, j);
    let i = choose|i: int|
        0 <= i < entries.len() && is_root_entry(ws, entries[i]) && all[j] == entry_root(
            ws,
            #[trigger] entries[i],
        );
    assert(entry_sound(entries[i]));
    let file = crate::path::file_name(roots[k].path)->0;
    lemma_root_files_are_named(roots[k].path, file);
    let (name, extension) = choose|name: Seq<char>, extension: Seq<char>|
        #[trigger] is_certificate_file(file, name, extension);
    assert(is_certificate_file(file, roots[k].name, extension));
}

/// Every root among the entries comes from one that is taken for a root.
proof fn lemma_collected_from(ws: Seq<char>, entries: Seq<DirEntry>, j: int)
    requires
        0 <= j < entry_roots(ws, entries).len(),
    ensures
        exists|i: int|
            0 <= i < entries.len() && is_root_entry(ws, entries[i]) && entry_roots(ws, entries)[j]
                == entry_root(ws, #[trigger] entries[i]),
    decreases entries.len(),
{
    let before = entry_roots(ws, entries.drop_last());
    if j < before.len() {
        lemma_collected_from(ws, entries.drop_last(), j);
        let i = choose|i: int|
            0 <= i < entries.drop_last().len() && is_root_entry(ws, entries.drop_last()[i])
                && before[j] == entry_root(ws, #[trigger] entries.drop_last()[i]);
        assert(entries[i] == entries.drop_last()[i]);
    } else {
        assert(entries[entries.len() - 1] == entries.last());
    }
}

/// No root is left out: every file of `roots/` that ends in `cer`, `pem` or `crt` is listed,
/// wherever it stands and however many there are, under its name and with its certificate.
pub proof fn lemma_every_root_file_is_listed(
    ws: Seq<char>,
    entries: Seq<DirEntry>,
    roots: Seq<RootModel>,
    i: int,
    file: Seq<char>,
    name: Seq<char>,
    extension: Seq<char>,
    cert: Seq<u8>,
)
    requires
        is_listing(ws, entries, roots),
        0 <= i < entries.len(),
        entries[i].is_file,
        crate::path::file_name(
            crate::path::path_joined(
                crate::path::path_joined(ws, "roots"@),
                entries[i].file_name@,
            ),
        ) == Some(file),
        is_certificate_file(file, name, extension),
        entries[i].contents matches Some(bytes) && crate::x509::loaded(bytes@) == Some(cert),
    ensures
        roots.contains(
            RootModel {
                name,
                path: crate::path::path_joined(
                    crate::path::path_joined(ws, "roots"@),
                    entries[i].file_name@,
                ),
                cert,
            },
        ),
{
    let path = entry_path(ws, entries[i]);
    lemma_root_files_are_named(path, file);
    assert(is_root_entry(ws, entries[i]));
    lemma_entry_is_collected(ws, entries, i);
    lemma_listing_holds_the_entries(ws, entries, roots);
    assert(entry_root(ws, entries[i]) =~= (RootModel { name, path, cert }));
}

/// A listing is in the order of the names.
pub proof fn lemma_listing_is_in_order(
    ws: Seq<char>,
    entries: Seq<DirEntry>,
    roots: Seq<RootModel>,
    i: int,
    j: int,
)
    requires
        is_listing(ws, entries, roots),
        0 <= i < j < roots.len(),
    ensures
        roots[i].name == roots[j].name || crate::text::precedes(roots[i].name, roots[j].name),
{
    crate::text::lemma_precedes_total(roots[i].name, roots[j].name);
    assert(!crate::text::precedes(roots[j].name, roots[i].name));
}

/// What becomes of each character of a name: ASCII letters, digits, dots, underscores and
/// hyphens stay, and every other becomes an underscore.
pub proof fn lemma_sanitised_means(raw: Seq<char>, i: int)
    requires
        0 <= i < raw.len(),
    ensures
        sanitised(raw).len() == raw.len(),
        'a' <= raw[i] <= 'z' || 'A' <= raw[i] <= 'Z' || '0' <= raw[i] <= '9' || raw[i] == '.'
            || raw[i] == '_' || raw[i] == '-' ==> sanitised(raw)[i] == raw[i],
        !('a' <= raw[i] <= 'z' || 'A' <= raw[i] <= 'Z' || '0' <= raw[i] <= '9' || raw[i] == '.'
            || raw[i] == '_' || raw[i] == '-') ==> sanitised(raw)[i] == '_',
{
}

/// What may be added: a certificate that is issued to itself, verifies with its own key, and
/// shows as one of a CA.
pub proof fn lemma_admissible_means(cert: Seq<u8>)
    ensures
        admissible(cert) <==> {
            &&& crate::crypto::certificate_subject(cert) is Some
            &&& crate::crypto::certificate_issuer(cert) == crate::crypto::certificate_subject(cert)
            &&& crate::crypto::certificate_public_key(cert) matches Some(key)
            &&& crate::crypto::certificate_verifies(cert, key)
            &&& crate::x509::dump(cert) matches Some(text)
            &&& crate::x509::shows_ca(text)
        },
{
}

/// What adding a new key does: the certificate itself is written, in PEM, to a `.cer` file in
/// `roots/` under the sanitised stem of the input. No listed root has its key or its name.
pub proof fn lemma_new_root_means(
    ws: Seq<char>,
    src: Seq<char>,
    roots: Seq<RootModel>,
    cert: Seq<u8>,
    addition: Addition,
    file: Seq<char>,
)
    requires
        is_new_root(ws, src, roots, cert, addition),
        crate::path::file_name(src) == Some(file),
    ensures
        addition.added matches Added::NewKey { name } && {
            &&& name@ == sanitised(crate::path::stem_of(file))
            &&& addition.write.path@ == crate::path::path_joined(
                crate::path::path_joined(ws, "roots"@),
                name@ + ".cer"@,
            )
            &&& forall|k: int| 0 <= k < roots.len() ==> (#[trigger] roots[k]).name != name@
        },
        crate::crypto::certificate_pem(cert) == Some(addition.write.contents@),
        crate::x509::loaded(addition.write.contents@) == Some(cert),
        addition.create@.len() == 2,
        addition.create@[0]@ == crate::path::path_joined(ws, "roots"@),
        addition.create@[1]@ == crate::path::path_joined(ws, "constrained"@),
        forall|k: int|
            0 <= k < roots.len() && crate::x509::key_digest(cert) is Some
                ==> crate::x509::key_digest((#[trigger] roots[k]).cert) != crate::x509::key_digest(
                cert,
            ),
{
    assert(crate::text::texts(addition.create@).len() == 2);
    assert(crate::text::texts(addition.create@)[0] == crate::path::path_joined(ws, "roots"@));
    assert(crate::text::texts(addition.create@)[1] == crate::path::path_joined(
        ws,
        "constrained"@,
    ));
    let name = addition.added->name;
    assert forall|k: int| 0 <= k < roots.len() implies (#[trigger] roots[k]).name != name@ by {
        if roots[k].name == name@ {
            assert(name_taken(roots, name@));
        }
    }
    assert forall|k: int|
        0 <= k < roots.len() && crate::x509::key_digest(cert)
            is Some implies crate::x509::key_digest((#[trigger] roots[k]).cert)
        != crate::x509::key_digest(cert) by {
        assert(!same_key(cert, roots[k].cert));
    }
}

/// What a renewal does: the certificate itself is written, in PEM, over the file of a listed
/// root that has the same key, and nothing else is touched.
pub proof fn lemma_renewal_means(roots: Seq<RootModel>, cert: Seq<u8>, addition: Addition)
    requires
        is_renewal(roots, cert, addition),
    ensures
        crate::crypto::certificate_pem(cert) == Some(addition.write.contents@),
        crate::x509::loaded(addition.write.contents@) == Some(cert),
        addition.create@.len() == 0,
        addition.added matches Added::Renewal { existing } && exists|k: int|
            {
                &&& 0 <= k < roots.len()
                &&& existing@ == (#[trigger] roots[k]).name
                &&& addition.write.path@ == roots[k].path
                &&& crate::x509::key_digest(cert) is Some
                &&& crate::x509::key_digest(cert) == crate::x509::key_digest(roots[k].cert)
            },
{
    let existing = addition.added->existing;
    let k = choose|k: int|
        #![trigger roots[k]]
        first_with_key(roots, cert, k) && existing@ == roots[k].name && addition.write.path@
            == roots[k].path;
    lemma_same_key_same_digest(cert, roots[k].cert);
}

/// What retiring does: the root's own file is moved to `roots/retired/` under its name, and
/// its own cross-certificate goes.
pub proof fn lemma_retirement_means(
    ws: Seq<char>,
    root: RootModel,
    retirement: Retirement,
    file: Seq<char>,
)
    requires
        retires(ws, root, retirement),
        crate::path::file_name(root.path) == Some(file),
    ensures
        retirement.create@ == crate::path::path_joined(
            crate::path::path_joined(ws, "roots"@),
            "retired"@,
        ),
        retirement.from@ == root.path,
        retirement.to@ == crate::path::path_joined(retirement.create@, file),
        retirement.cross@ == crate::path::path_joined(
            crate::path::path_joined(ws, "constrained"@),
            root.name + ".pem"@,
        ),
{
}

/// Where a root is filed, and under which name.
pub proof fn lemma_destination_means(ws: Seq<char>, src: Seq<char>, name: Seq<char>)
    ensures
        root_file_path(ws, name) == crate::path::path_joined(
            crate::path::path_joined(ws, "roots"@),
            name + ".cer"@,
        ),
        crate::path::file_name(src) matches Some(file) ==> path_stem(src) == Some(
            crate::path::stem_of(file),
        ),
        crate::path::file_name(src) is None ==> path_stem(src) is None,
{
}

/// Why a listing fails: some file that is taken for a root has a name that is not UTF-8,
/// cannot be read, or holds no certificate. A directory without such a file can be listed.
pub proof fn lemma_listing_fails_for_a_reason(
    ws: Seq<char>,
    entries: Seq<DirEntry>,
    e: RootError,
)
    requires
        first_fault(ws, entries, e),
    ensures
        exists|i: int|
            {
                &&& 0 <= i < entries.len()
                &&& (#[trigger] entries[i]).is_file
                &&& root_extension(
                    crate::path::path_joined(
                        crate::path::path_joined(ws, "roots"@),
                        entries[i].file_name@,
                    ),
                )
                &&& {
                    ||| !entries[i].is_utf8 && e is NameNotUtf8
                    ||| entries[i].contents is None && e is Unreadable
                    ||| e is NotACertificate && (entries[i].contents matches Some(bytes)
                        && crate::x509::loaded(bytes@) is None)
                }
            },
{
    let i = choose|i: int|
        0 <= i < entries.len() && entry_fault(ws, #[trigger] entries[i], e) && all_sound(
            ws,
            entries.take(i),
        );
    assert(entries[i].is_file);
}

/// Why an admissible certificate is refused: by name only where something stands at its place
/// or a listed root has its name, or where its file has no usable name; and otherwise only
/// where OpenSSL cannot hash a key or encode the certificate, or the roots cannot be listed.
pub proof fn lemma_refused_for_a_reason(
    ws: Seq<char>,
    src: Seq<char>,
    stem_is_utf8: bool,
    entries: Seq<DirEntry>,
    occupied: bool,
    cert: Seq<u8>,
    e: RootError,
)
    requires
        is_refusal(ws, src, stem_is_utf8, entries, occupied, cert, e),
        crate::x509::key_fingerprint(cert) is Some,
        crate::crypto::certificate_pem(cert) is Some,
        !first_fault(ws, entries, e),
    ensures
        exists|roots: Seq<RootModel>|
            {
                &&& #[trigger] is_listing(ws, entries, roots)
                &&& {
                    ||| e matches RootError::AlreadyExists { name } && (occupied || exists|k: int|
                        0 <= k < roots.len() && (#[trigger] roots[k]).name == name@)
                    ||| e is InputNameNotUtf8 && (!stem_is_utf8 || crate::path::file_name(
                        src,
                    ) is None)
                    ||| e is Certificate && exists|k: int|
                        0 <= k < roots.len() && crate::x509::key_fingerprint(
                            (#[trigger] roots[k]).cert,
                        ) is None
                }
            },
{
    let roots = choose|roots: Seq<RootModel>|
        #![trigger is_listing(ws, entries, roots)]
        is_listing(ws, entries, roots) && is_listed_refusal(
            src,
            stem_is_utf8,
            roots,
            occupied,
            cert,
            e,
        );
    if let RootError::Certificate(cause) = e {
        let k = choose|k: int| key_fault(roots, cert, k, cause);
        assert(crate::x509::key_fingerprint(roots[k].cert) is None);
    }
}

/// A message about a root names the file or the root it is about.
pub proof fn lemma_root_messages_name_their_subject(e: RootError)
    ensures
        e matches RootError::Unreadable { path } ==> e.words() == "reading "@ + path@,
        e matches RootError::NotACertificate { path } ==> e.words() == path@
            + " is not a PEM or DER certificate"@,
        e matches RootError::NotSelfSigned { path } ==> e.words() == path@
            + " is not self-signed -- an intermediate cannot be cross-signed this way"@,
        e matches RootError::NotACa { path } ==> e.words() == path@
            + " is not a CA certificate (basicConstraints CA:TRUE missing)"@,
        e matches RootError::AlreadyExists { name } ==> e.words() == "roots/"@ + name@
            + ".cer already exists with a different key -- rename the input, or retire the old one first"@,
        e matches RootError::NoSuchRoot { name } ==> e.words() == "no root named '"@ + name@
            + "' (see `rucerts ca list`)"@,
        e matches RootError::Certificate(cause) ==> e.words() == cause.words(),
{
}

/// The root that is retired has the name that was given, and is the first that has it.
pub proof fn lemma_retired_root_has_the_name(
    roots: Seq<RootModel>,
    name: Seq<char>,
    k: int,
    j: int,
)
    requires
        first_named(roots, name, k),
        0 <= j < roots.len(),
        roots[j].name == name,
    ensures
        0 <= k <= j,
        roots[k].name == name,
{
    if j < k {
        assert(roots[j].name != name);
    }
}

/// A renewal is of the first root with the key, and a key that some root has is never new.
pub proof fn lemma_renewed_root_has_the_key(
    roots: Seq<RootModel>,
    cert: Seq<u8>,
    k: int,
    j: int,
)
    requires
        first_with_key(roots, cert, k),
        0 <= j < roots.len(),
        crate::x509::key_digest(cert) is Some,
        crate::x509::key_digest(roots[j].cert) == crate::x509::key_digest(cert),
    ensures
        0 <= k <= j,
        crate::x509::key_digest(roots[k].cert) == crate::x509::key_digest(cert),
        !is_new_key(roots, cert),
{
    lemma_same_key_same_digest(cert, roots[j].cert);
    assert(same_key(cert, roots[j].cert));
    assert(same_key(cert, roots[k].cert));
    lemma_same_key_same_digest(cert, roots[k].cert);
    if j < k {
        assert(!same_key(cert, roots[j].cert));
    }
}

} // verus!
