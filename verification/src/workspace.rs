//! Filesystem layout of a workspace.
//!
//! A workspace is a directory holding the local root (`myroot.pem` / `myroot.key`), the
//! foreign roots being constrained (`roots/`), one cross-certificate per root
//! (`constrained/`), and the configuration. Retired roots move to `roots/retired/`, which no
//! enumeration of the roots takes up.
use crate::path::{
    extension_of, file_name, join_path, lemma_file_name_joined, lemma_last_index, path_file_name,
    path_joined,
};
use vstd::prelude::*;

verus! {

/// Directory holding the certificates and configuration this tool manages.
#[derive(Debug, Clone)]
pub struct Workspace {
    dir: String,
}

impl View for Workspace {
    type V = Seq<char>;

    /// The directory.
    closed spec fn view(&self) -> Seq<char> {
        self.dir@
    }
}

/// Where the local root certificate stands.
pub open spec fn root_cert_path(ws: Seq<char>) -> Seq<char> {
    path_joined(ws, "myroot.pem"@)
}

/// Where the local root private key stands.
pub open spec fn root_key_path(ws: Seq<char>) -> Seq<char> {
    path_joined(ws, "myroot.key"@)
}

/// Where the foreign roots stand.
pub open spec fn roots_path(ws: Seq<char>) -> Seq<char> {
    path_joined(ws, "roots"@)
}

/// Where the retired foreign roots stand.
pub open spec fn retired_path(ws: Seq<char>) -> Seq<char> {
    path_joined(roots_path(ws), "retired"@)
}

/// Where the cross-certificates stand.
pub open spec fn constrained_path(ws: Seq<char>) -> Seq<char> {
    path_joined(ws, "constrained"@)
}

/// Where the cross-certificate of the root `name` stands.
pub open spec fn cross_cert_path(ws: Seq<char>, name: Seq<char>) -> Seq<char> {
    path_joined(constrained_path(ws), name + ".pem"@)
}

/// A file that a backup is asked to keep.
#[derive(Debug)]
pub struct BackupSource {
    /// Where the file stands.
    pub path: String,
    /// Whether there is such a file.
    pub exists: bool,
}

/// A file to be copied.
#[derive(Debug)]
pub struct FileCopy {
    /// Where the file stands.
    pub from: String,
    /// Where the copy goes.
    pub to: String,
}

/// A backup directory, with what is to be copied into it.
#[derive(Debug)]
pub struct Backup {
    /// The directory.
    pub dir: String,
    /// The copies, in order.
    pub copies: Vec<FileCopy>,
}

/// The copies of the files among `sources` that exist and have a file name, as pairs of where
/// they come from and where they go.
pub open spec fn backup_copies(dir: Seq<char>, sources: Seq<BackupSource>) -> Seq<
    (Seq<char>, Seq<char>),
>
    decreases sources.len(),
{
    if sources.len() == 0 {
        Seq::empty()
    } else {
        let before = backup_copies(dir, sources.drop_last());
        let last = sources.last();
        match file_name(last.path@) {
            Some(name) if last.exists => before.push((last.path@, path_joined(dir, name))),
            _ => before,
        }
    }
}

/// Whether each file that exists has a file name.
pub open spec fn sources_named(sources: Seq<BackupSource>) -> bool {
    forall|i: int|
        0 <= i < sources.len() && sources[i].exists ==> file_name(
            (#[trigger] sources[i]).path@,
        ) is Some
}

/// The places a list of copies speaks of.
pub open spec fn copy_pairs(copies: Seq<FileCopy>) -> Seq<(Seq<char>, Seq<char>)> {
    copies.map_values(|c: FileCopy| (c.from@, c.to@))
}

impl Workspace {
    /// Opens the workspace rooted at `dir`.
    pub fn new(dir: &str) -> (r: Self)
        ensures
            r@ == dir@,
    {
        Self { dir: dir.to_owned() }
    }

    /// Returns the workspace directory.
    pub fn dir(&self) -> (r: &str)
        ensures
            r@ == self@,
    {
        self.dir.as_str()
    }

    /// Path of the local root certificate.
    pub fn root_cert(&self) -> (r: String)
        ensures
            r@ == root_cert_path(self@),
    {
        join_path(self.dir.as_str(), "myroot.pem")
    }

    /// Path of the local root private key.
    pub fn root_key(&self) -> (r: String)
        ensures
            r@ == root_key_path(self@),
    {
        join_path(self.dir.as_str(), "myroot.key")
    }

    /// Directory holding the foreign roots being constrained.
    pub fn roots_dir(&self) -> (r: String)
        ensures
            r@ == roots_path(self@),
    {
        join_path(self.dir.as_str(), "roots")
    }

    /// Directory holding retired foreign roots.
    pub fn retired_dir(&self) -> (r: String)
        ensures
            r@ == retired_path(self@),
    {
        join_path(self.roots_dir().as_str(), "retired")
    }

    /// Directory holding the generated cross-certificates.
    pub fn constrained_dir(&self) -> (r: String)
        ensures
            r@ == constrained_path(self@),
    {
        join_path(self.dir.as_str(), "constrained")
    }

    /// Path of the cross-certificate generated for the root named `name`.
    pub fn cross_cert(&self, name: &str) -> (r: String)
        ensures
            r@ == cross_cert_path(self@, name@),
    {
        let mut file = name.to_owned();
        file.append(".pem");
        join_path(self.constrained_dir().as_str(), file.as_str())
    }

    /// Path of the PowerShell installer.
    pub fn installer_template(&self) -> (r: String)
        ensures
            r@ == path_joined(self@, "install-certs.ps1"@),
    {
        join_path(self.dir.as_str(), "install-certs.ps1")
    }

    /// The directories the tool writes into, in the order they are created.
    pub fn ensure_dirs(&self) -> (r: Vec<String>)
        ensures
            r@.len() == 2,
            r@[0]@ == roots_path(self@),
            r@[1]@ == constrained_path(self@),
    {
        let mut dirs: Vec<String> = Vec::new();
        dirs.push(self.roots_dir());
        dirs.push(self.constrained_dir());
        dirs
    }

    /// The backup directory for `label`, and what to copy into it.
    ///
    /// Files that do not exist are passed over. Nothing comes back where an existing file has
    /// no file name.
    pub fn backup(&self, label: &str, files: &Vec<BackupSource>) -> (r: Option<Backup>)
        ensures
            r is Some == sources_named(files@),
            r matches Some(backup) ==> {
                &&& backup.dir@ == path_joined(self@, "backup-"@ + label@)
                &&& copy_pairs(backup.copies@) == backup_copies(backup.dir@, files@)
            },
    {
        let mut name = "backup-".to_owned();
        name.append(label);
        let dir = join_path(self.dir.as_str(), name.as_str());
        let mut copies: Vec<FileCopy> = Vec::new();
        assert(copy_pairs(copies@) =~= backup_copies(dir@, files@.take(0)));
        for i in 0..files.len()
            invariant
                copy_pairs(copies@) == backup_copies(dir@, files@.take(i as int)),
                sources_named(files@.take(i as int)),
        {
            let ghost next = files@.take(i + 1);
            assert(next.drop_last() =~= files@.take(i as int));
            assert(next.last() == files@[i as int]);
            let ghost before = copies@;
            let source = &files[i];
            if source.exists {
                match path_file_name(source.path.as_str()) {
                    Some(file) => {
                        let to = join_path(dir.as_str(), file.as_str());
                        let copy = FileCopy { from: source.path.clone(), to };
                        copies.push(copy);
                        assert(copy_pairs(copies@) =~= copy_pairs(before).push(
                            (copy.from@, copy.to@),
                        ));
                    },
                    None => {
                        assert(files@[i as int].exists);
                        return None;
                    },
                }
            }
            assert forall|j: int| 0 <= j < next.len() && next[j].exists implies file_name(
                (#[trigger] next[j]).path@,
            ) is Some by {
                if j < i {
                    assert(files@.take(i as int)[j] == next[j]);
                }
            }
        }
        assert(files@.take(files@.len() as int) =~= files@);
        Some(Backup { dir, copies })
    }
}

/// The directory of retired roots has no certificate extension, nor any other: matching on
/// extensions keeps it out of every enumeration of `roots/`.
pub proof fn lemma_retired_dir_has_no_extension(ws: Seq<char>)
    ensures
        file_name(retired_path(ws)) == Some("retired"@),
        extension_of("retired"@) is None,
{
    reveal_strlit("retired");
    let name = "retired"@;
    assert forall|i: int| 0 <= i < name.len() implies name[i] != '/' && name[i] != '.' by {}
    lemma_file_name_joined(roots_path(ws), name);
    lemma_last_index(name, '.');
}

/// Roots with different names have different cross-certificates. A name with a slash is left
/// out: an absolute one would stand on its own.
pub proof fn lemma_cross_certs_differ(ws: Seq<char>, a: Seq<char>, b: Seq<char>)
    requires
        !a.contains('/'),
        !b.contains('/'),
        a != b,
    ensures
        cross_cert_path(ws, a) != cross_cert_path(ws, b),
{
    reveal_strlit(".pem");
    let suffix = ".pem"@;
    lemma_file_name_of_cross_cert(ws, a);
    lemma_file_name_of_cross_cert(ws, b);
    if a + suffix == b + suffix {
        assert(a =~= (a + suffix).take((a + suffix).len() - 4));
        assert(b =~= (b + suffix).take((b + suffix).len() - 4));
    }
}

/// The file name of a cross-certificate.
pub proof fn lemma_file_name_of_cross_cert(ws: Seq<char>, name: Seq<char>)
    requires
        !name.contains('/'),
    ensures
        file_name(cross_cert_path(ws, name)) == Some(name + ".pem"@),
{
    reveal_strlit(".pem");
    let file = name + ".pem"@;
    assert forall|i: int| 0 <= i < file.len() implies file[i] != '/' by {
        if i < name.len() {
            assert(name.contains(file[i]));
        }
    }
    lemma_file_name_joined(constrained_path(ws), file);
}

/// A cross-certificate stands apart from everything it is made of: it is neither the local
/// root's certificate or key, nor the configuration, nor a file in `roots/`. A name with a
/// slash is left out: an absolute one would stand on its own.
pub proof fn lemma_cross_cert_stands_apart(ws: Seq<char>, name: Seq<char>, file: Seq<char>)
    requires
        !name.contains('/'),
        !file.contains('/'),
    ensures
        cross_cert_path(ws, name) != root_cert_path(ws),
        cross_cert_path(ws, name) != root_key_path(ws),
        cross_cert_path(ws, name) != path_joined(ws, "rucerts.toml"@),
        cross_cert_path(ws, name) != path_joined(roots_path(ws), file),
{
    reveal_strlit("myroot.pem");
    reveal_strlit("myroot.key");
    reveal_strlit("rucerts.toml");
    reveal_strlit("constrained");
    reveal_strlit("roots");
    reveal_strlit(".pem");
    let cross_file = name + ".pem"@;
    assert(cross_file[0] != '/') by {
        if name.len() > 0 {
            assert(name.contains(name[0]));
        }
    }
    let at = if ws.len() == 0 || ws.last() == '/' {
        ws.len() as int
    } else {
        ws.len() as int + 1
    };
    let cross = cross_cert_path(ws, name);
    let root = path_joined(roots_path(ws), file);
    assert(constrained_path(ws).last() == 'd');
    assert(roots_path(ws).last() == 's');
    assert(cross[at] == 'c');
    if file.len() > 0 {
        assert(file.contains(file[0]));
    }
    assert(root[at] == 'r');
}

/// Where everything stands in a workspace: right in its directory, the roots and the
/// cross-certificates each in one of their own.
pub proof fn lemma_where_everything_stands(ws: Seq<char>, name: Seq<char>)
    requires
        ws.len() > 0,
        ws.last() != '/',
        name.len() > 0 ==> name[0] != '/',
    ensures
        root_cert_path(ws) == ws + "/myroot.pem"@,
        root_key_path(ws) == ws + "/myroot.key"@,
        roots_path(ws) == ws + "/roots"@,
        retired_path(ws) == ws + "/roots/retired"@,
        constrained_path(ws) == ws + "/constrained"@,
        cross_cert_path(ws, name) == ws + "/constrained/"@ + name + ".pem"@,
{
    reveal_strlit("/myroot.pem");
    reveal_strlit("myroot.pem");
    reveal_strlit("/myroot.key");
    reveal_strlit("myroot.key");
    reveal_strlit("/roots");
    reveal_strlit("roots");
    reveal_strlit("/roots/retired");
    reveal_strlit("retired");
    reveal_strlit("/constrained");
    reveal_strlit("constrained");
    reveal_strlit("/constrained/");
    reveal_strlit(".pem");
    assert(root_cert_path(ws) =~= ws + "/myroot.pem"@);
    assert(root_key_path(ws) =~= ws + "/myroot.key"@);
    assert(roots_path(ws) =~= ws + "/roots"@);
    assert(retired_path(ws) =~= ws + "/roots/retired"@);
    assert(constrained_path(ws) =~= ws + "/constrained"@);
    assert((name + ".pem"@)[0] != '/');
    assert(cross_cert_path(ws, name) =~= ws + "/constrained/"@ + name + ".pem"@);
}

/// A backup copies each file that exists, whatever their number, under its own name, and
/// passes over the others.
pub proof fn lemma_every_file_is_copied(
    dir: Seq<char>,
    sources: Seq<BackupSource>,
    source: BackupSource,
    name: Seq<char>,
)
    requires
        file_name(source.path@) == Some(name),
    ensures
        backup_copies(dir, Seq::empty()).len() == 0,
        source.exists ==> backup_copies(dir, sources.push(source)) == backup_copies(
            dir,
            sources,
        ).push((source.path@, path_joined(dir, name))),
        !source.exists ==> backup_copies(dir, sources.push(source)) == backup_copies(dir, sources),
{
    assert(sources.push(source).drop_last() =~= sources);
}

/// A backup is made unless a file that exists has no name to be copied under.
pub proof fn lemma_backup_needs_names(sources: Seq<BackupSource>)
    ensures
        sources_named(sources) <==> forall|i: int|
            0 <= i < sources.len() && (#[trigger] sources[i]).exists ==> file_name(
                sources[i].path@,
            ) is Some,
{
}

} // verus!
