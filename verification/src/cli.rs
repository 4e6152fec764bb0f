//! What the command line asks for.
use vstd::prelude::*;

verus! {

/// The command line.
#[derive(Debug)]
pub struct Cli {
    /// The workspace directory with `roots/`, `constrained/` and `rucerts.toml`.
    pub dir: Option<String>,
    /// Do not regenerate the installable files.
    pub no_artifacts: bool,
    /// What to do.
    pub command: Command,
}

/// Top level commands.
#[allow(inconsistent_fields)]
#[derive(Debug)]
pub enum Command {
    /// Create a local root and a configuration.
    Init {
        /// Common Name of the local root.
        cn: String,
    },
    /// Manage the foreign CA roots.
    Ca {
        /// What to do with them.
        action: CaAction,
    },
    /// Manage the permitted domains.
    Domain {
        /// What to do with them.
        action: DomainAction,
    },
    /// Audit the generated cross-certificates.
    Verify,
    /// Re-sign every cross-certificate without changing the domains.
    Resign,
    /// Regenerate the installable files without re-signing.
    Artifacts,
    /// Rename or replace the local root.
    Root {
        /// What to do with it.
        action: RootAction,
    },
}

/// Operations on the permitted domain list.
#[derive(Debug)]
pub enum DomainAction {
    /// Add domains, then re-sign and regenerate the files.
    Add {
        /// The domains to permit. Of a pasted URL only the host is taken.
        domains: Vec<String>,
    },
    /// Remove domains, then re-sign and regenerate the files.
    Remove {
        /// The domains to permit no longer. Only exact entries are removed.
        domains: Vec<String>,
    },
    /// Show the permitted domains.
    List,
}

/// Operations on the foreign CA roots.
#[derive(Debug)]
pub enum CaAction {
    /// Add a root, or report that its key is already managed.
    Add {
        /// Certificate files, PEM or DER.
        files: Vec<String>,
    },
    /// Show the managed roots with the fingerprints of their keys.
    List,
    /// Stop constraining a root, moving it to `roots/retired/`.
    Retire {
        /// The name, as the list shows it.
        name: String,
    },
}

/// Operations on the local root.
#[derive(Debug)]
pub enum RootAction {
    /// Create a new local root with the given Common Name.
    ///
    /// A new key pair is made; whatever trusts the old root has to be updated.
    SetCn {
        /// The new Common Name.
        cn: String,
        /// Do not ask for confirmation.
        yes: bool,
    },
}

/// A command without its arguments.
#[derive(Debug, Clone, Copy, PartialEq, Eq, Structural)]
pub enum CommandKind {
    /// [`Command::Init`].
    Init,
    /// [`CaAction::Add`].
    CaAdd,
    /// [`CaAction::List`].
    CaList,
    /// [`CaAction::Retire`].
    CaRetire,
    /// [`DomainAction::Add`].
    DomainAdd,
    /// [`DomainAction::Remove`].
    DomainRemove,
    /// [`DomainAction::List`].
    DomainList,
    /// [`Command::Verify`].
    Verify,
    /// [`Command::Resign`].
    Resign,
    /// [`Command::Artifacts`].
    Artifacts,
    /// [`RootAction::SetCn`].
    SetCn,
}

impl Command {
    /// The command without its arguments.
    pub fn kind(&self) -> (r: CommandKind)
        ensures
            r == match *self {
                Command::Init { .. } => CommandKind::Init,
                Command::Ca { action: CaAction::Add { .. } } => CommandKind::CaAdd,
                Command::Ca { action: CaAction::List } => CommandKind::CaList,
                Command::Ca { action: CaAction::Retire { .. } } => CommandKind::CaRetire,
                Command::Domain { action: DomainAction::Add { .. } } => CommandKind::DomainAdd,
                Command::Domain { action: DomainAction::Remove { .. } } =>
                    CommandKind::DomainRemove,
                Command::Domain { action: DomainAction::List } => CommandKind::DomainList,
                Command::Verify => CommandKind::Verify,
                Command::Resign => CommandKind::Resign,
                Command::Artifacts => CommandKind::Artifacts,
                Command::Root { action: RootAction::SetCn { .. } } => CommandKind::SetCn,
            },
    {
        match self {
            Command::Init { .. } => CommandKind::Init,
            Command::Ca { action } => match action {
                CaAction::Add { .. } => CommandKind::CaAdd,
                CaAction::List => CommandKind::CaList,
                CaAction::Retire { .. } => CommandKind::CaRetire,
            },
            Command::Domain { action } => match action {
                DomainAction::Add { .. } => CommandKind::DomainAdd,
                DomainAction::Remove { .. } => CommandKind::DomainRemove,
                DomainAction::List => CommandKind::DomainList,
            },
            Command::Verify => CommandKind::Verify,
            Command::Resign => CommandKind::Resign,
            Command::Artifacts => CommandKind::Artifacts,
            Command::Root { .. } => CommandKind::SetCn,
        }
    }
}

} // verus!
