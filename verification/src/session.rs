//! What a command does, step by step.
//!
//! Every mutating command funnels through re-signing and staging, so a certificate on disk
//! and the artifacts derived from it cannot drift apart. A [`Session`] says what comes next;
//! whoever runs it performs the [`Action`] and hands back the [`Event`].
use crate::cli::CommandKind;
use vstd::prelude::*;

verus! {

/// Where a command stands.
#[derive(Debug, Clone, Copy, PartialEq, Eq, Structural)]
pub enum Phase {
    /// The configuration is being loaded.
    Loading,
    /// The command does what it alone does.
    Working,
    /// The cross-certificates are being signed.
    Resigning,
    /// The artifacts are being generated.
    Staging,
    /// The audit is running.
    Auditing,
    /// The command succeeded.
    Finished,
    /// The command failed.
    Failed,
}

/// What is to be done next.
#[derive(Debug, Clone, Copy, PartialEq, Eq, Structural)]
pub enum Action {
    /// Load the configuration.
    LoadConfig,
    /// Do what the command alone does.
    Perform,
    /// Sign every cross-certificate.
    Resign,
    /// Generate the artifacts.
    Stage,
    /// Run the audit.
    Audit,
    /// Say that the artifacts were not regenerated, and succeed.
    FinishWithoutArtifacts,
    /// Succeed.
    Finish,
    /// Fail.
    Abort,
}

/// What came of an action.
#[derive(Debug, Clone, Copy, PartialEq, Eq, Structural)]
pub enum Event {
    /// The configuration was loaded.
    Loaded,
    /// The command changed the workspace.
    Changed,
    /// The command changed nothing.
    Unchanged,
    /// Every cross-certificate was signed.
    Signed,
    /// There is no permitted domain yet, so nothing was signed.
    NothingPermitted,
    /// The artifacts were generated.
    Staged,
    /// Every check of the audit passed.
    AuditPassed,
    /// Something went wrong.
    Failed,
}

/// A command being run.
#[derive(Debug, Clone, Copy, PartialEq, Eq, Structural)]
pub struct Session {
    /// The command.
    pub kind: CommandKind,
    /// Whether the artifacts are not to be regenerated.
    pub no_artifacts: bool,
    /// Where the command stands.
    pub phase: Phase,
    /// Whether the command changed the workspace.
    pub changed: bool,
    /// Whether the cross-certificates were signed since.
    pub signed: bool,
    /// Whether there was nothing to sign for.
    pub nothing_permitted: bool,
    /// Whether the artifacts were generated since.
    pub staged: bool,
}

impl Session {
    /// The session in another phase.
    pub open spec fn at(self, phase: Phase) -> Session {
        Session { phase, ..self }
    }

    /// What comes once the cross-certificates are up to date.
    pub open spec fn then_stage(self) -> (Session, Action) {
        if self.no_artifacts {
            (self.at(Phase::Finished), Action::FinishWithoutArtifacts)
        } else {
            (self.at(Phase::Staging), Action::Stage)
        }
    }

    /// How a command begins.
    pub open spec fn begun(kind: CommandKind, no_artifacts: bool) -> (Session, Action) {
        let session = Session {
            kind,
            no_artifacts,
            phase: Phase::Loading,
            changed: false,
            signed: false,
            nothing_permitted: false,
            staged: false,
        };
        match kind {
            CommandKind::Init => (session.at(Phase::Working), Action::Perform),
            CommandKind::Artifacts => (session.at(Phase::Staging), Action::Stage),
            _ => (session, Action::LoadConfig),
        }
    }

    /// What comes after an event. An event that does not belong to the phase fails the
    /// command.
    pub open spec fn next(self, event: Event) -> (Session, Action) {
        match (self.phase, event) {
            (Phase::Loading, Event::Loaded) => match self.kind {
                CommandKind::Resign => (self.at(Phase::Resigning), Action::Resign),
                CommandKind::Verify => (self.at(Phase::Auditing), Action::Audit),
                _ => (self.at(Phase::Working), Action::Perform),
            },
            (Phase::Working, Event::Changed) => {
                let session = Session { changed: true, signed: false, staged: false, ..self };
                match self.kind {
                    CommandKind::Init => (session.at(Phase::Finished), Action::Finish),
                    CommandKind::CaList => (self.at(Phase::Failed), Action::Abort),
                    CommandKind::DomainList => (self.at(Phase::Failed), Action::Abort),
                    _ => (session.at(Phase::Resigning), Action::Resign),
                }
            },
            (Phase::Working, Event::Unchanged) => match self.kind {
                CommandKind::DomainAdd => self.then_stage(),
                CommandKind::CaAdd => self.then_stage(),
                _ => (self.at(Phase::Finished), Action::Finish),
            },
            (Phase::Resigning, Event::Signed) => (Session { signed: true, ..self }).then_stage(),
            (Phase::Resigning, Event::NothingPermitted) => (
                (Session { nothing_permitted: true, ..self }).at(Phase::Finished),
                Action::Finish,
            ),
            (Phase::Staging, Event::Staged) => (
                (Session { staged: true, ..self }).at(Phase::Finished),
                Action::Finish,
            ),
            (Phase::Auditing, Event::AuditPassed) => (self.at(Phase::Finished), Action::Finish),
            _ => (self.at(Phase::Failed), Action::Abort),
        }
    }

    /// Begins a command.
    pub fn begin(kind: CommandKind, no_artifacts: bool) -> (r: (Session, Action))
        ensures
            r == Session::begun(kind, no_artifacts),
    {
        let mut session = Session {
            kind,
            no_artifacts,
            phase: Phase::Loading,
            changed: false,
            signed: false,
            nothing_permitted: false,
            staged: false,
        };
        match kind {
            CommandKind::Init => {
                session.phase = Phase::Working;
                (session, Action::Perform)
            },
            CommandKind::Artifacts => {
                session.phase = Phase::Staging;
                (session, Action::Stage)
            },
            _ => (session, Action::LoadConfig),
        }
    }

    /// Regenerates the artifacts, unless they are not wanted.
    fn stage_only(self) -> (r: (Session, Action))
        ensures
            r == self.then_stage(),
    {
        let mut session = self;
        if session.no_artifacts {
            session.phase = Phase::Finished;
            (session, Action::FinishWithoutArtifacts)
        } else {
            session.phase = Phase::Staging;
            (session, Action::Stage)
        }
    }

    /// Notes that the workspace changed.
    fn note_change(&mut self)
        ensures
            *final(self) == (Session { changed: true, signed: false, staged: false, ..*old(self) }),
    {
        self.changed = true;
        self.signed = false;
        self.staged = false;
    }

    /// Goes on after an event.
    pub fn advance(self, event: Event) -> (r: (Session, Action))
        ensures
            r == self.next(event),
    {
        let mut session = self;
        match (self.phase, event) {
            (Phase::Loading, Event::Loaded) => match self.kind {
                CommandKind::Resign => {
                    session.phase = Phase::Resigning;
                    (session, Action::Resign)
                },
                CommandKind::Verify => {
                    session.phase = Phase::Auditing;
                    (session, Action::Audit)
                },
                _ => {
                    session.phase = Phase::Working;
                    (session, Action::Perform)
                },
            },
            (Phase::Working, Event::Changed) => match self.kind {
                CommandKind::CaList | CommandKind::DomainList => {
                    session.phase = Phase::Failed;
                    (session, Action::Abort)
                },
                CommandKind::Init => {
                    session.note_change();
                    session.phase = Phase::Finished;
                    (session, Action::Finish)
                },
                _ => {
                    session.note_change();
                    session.phase = Phase::Resigning;
                    (session, Action::Resign)
                },
            },
            (Phase::Working, Event::Unchanged) => match self.kind {
                CommandKind::DomainAdd => session.stage_only(),
                CommandKind::CaAdd => session.stage_only(),
                _ => {
                    session.phase = Phase::Finished;
                    (session, Action::Finish)
                },
            },
            (Phase::Resigning, Event::Signed) => {
                session.signed = true;
                session.stage_only()
            },
            (Phase::Resigning, Event::NothingPermitted) => {
                session.nothing_permitted = true;
                session.phase = Phase::Finished;
                (session, Action::Finish)
            },
            (Phase::Staging, Event::Staged) => {
                session.staged = true;
                session.phase = Phase::Finished;
                (session, Action::Finish)
            },
            (Phase::Auditing, Event::AuditPassed) => {
                session.phase = Phase::Finished;
                (session, Action::Finish)
            },
            _ => {
                session.phase = Phase::Failed;
                (session, Action::Abort)
            },
        }
    }

    /// The session after a list of events.
    pub open spec fn after(kind: CommandKind, no_artifacts: bool, events: Seq<Event>) -> Session
        decreases events.len(),
    {
        if events.len() == 0 {
            Session::begun(kind, no_artifacts).0
        } else {
            Session::after(kind, no_artifacts, events.drop_last()).next(events.last()).0
        }
    }

    /// What holds at every moment: work that changed the workspace is not over before the
    /// cross-certificates were signed, and signing is not over before the artifacts were
    /// generated.
    pub open spec fn is_consistent(self) -> bool {
        &&& self.phase == Phase::Loading || self.phase == Phase::Working ==> !self.changed
            && !self.signed && !self.staged
        &&& self.phase == Phase::Resigning ==> !self.signed && !self.staged
        &&& self.phase == Phase::Auditing ==> !self.changed && !self.signed && !self.staged
        &&& self.phase == Phase::Finished && self.changed && self.kind != CommandKind::Init
            ==> self.signed || self.nothing_permitted
        &&& self.phase == Phase::Staging && self.changed ==> self.signed
        &&& self.phase == Phase::Finished && self.signed ==> self.staged || self.no_artifacts
        &&& self.nothing_permitted ==> self.phase == Phase::Finished || self.phase == Phase::Failed
    }
}

/// Every command that changed the workspace and succeeded has signed the cross-certificates
/// afterwards, and then generated the artifacts. Left out are a new workspace, which has
/// nothing to sign, a list without permitted domains, for which neither is done, and the wish
/// not to have artifacts, for which none are generated.
pub proof fn lemma_changes_are_signed_and_staged(
    kind: CommandKind,
    no_artifacts: bool,
    events: Seq<Event>,
)
    ensures
        Session::after(kind, no_artifacts, events).is_consistent(),
        ({
            let session = Session::after(kind, no_artifacts, events);
            &&& session.phase == Phase::Finished && session.changed && kind != CommandKind::Init
                && !session.nothing_permitted ==> session.signed && (session.staged
                || no_artifacts)
            &&& session.nothing_permitted ==> !session.signed && !session.staged
            &&& no_artifacts && kind != CommandKind::Artifacts ==> !session.staged && session.phase
                != Phase::Staging
            &&& session.kind == kind
            &&& session.no_artifacts == no_artifacts
        }),
    decreases events.len(),
{
    if events.len() > 0 {
        lemma_changes_are_signed_and_staged(kind, no_artifacts, events.drop_last());
    }
}

/// A session that failed or succeeded is over: nothing more is done but failing.
pub proof fn lemma_over_is_over(session: Session, event: Event)
    requires
        session.phase == Phase::Finished || session.phase == Phase::Failed,
    ensures
        session.next(event).1 == Action::Abort,
        session.next(event).0.phase == Phase::Failed,
{
}

/// No command that only looks changes anything: listing and auditing neither sign nor stage.
pub proof fn lemma_looking_changes_nothing(
    kind: CommandKind,
    no_artifacts: bool,
    events: Seq<Event>,
)
    requires
        kind == CommandKind::Verify || kind == CommandKind::CaList || kind
            == CommandKind::DomainList,
    ensures
        ({
            let session = Session::after(kind, no_artifacts, events);
            &&& session.kind == kind
            &&& !session.changed && !session.signed && !session.staged
            &&& session.phase != Phase::Resigning && session.phase != Phase::Staging
        }),
    decreases events.len(),
{
    if events.len() > 0 {
        lemma_looking_changes_nothing(kind, no_artifacts, events.drop_last());
    }
}

/// How every command begins: a new workspace has nothing to load, artifacts are generated
/// right away, and every other command loads the configuration first.
pub proof fn lemma_how_commands_begin(kind: CommandKind, no_artifacts: bool)
    ensures
        ({
            let (session, action) = Session::begun(kind, no_artifacts);
            &&& session.kind == kind
            &&& session.no_artifacts == no_artifacts
            &&& !session.changed && !session.signed && !session.staged
            &&& !session.nothing_permitted
            &&& kind == CommandKind::Init ==> action == Action::Perform && session.phase
                == Phase::Working
            &&& kind == CommandKind::Artifacts ==> action == Action::Stage && session.phase
                == Phase::Staging
            &&& kind != CommandKind::Init && kind != CommandKind::Artifacts ==> action
                == Action::LoadConfig && session.phase == Phase::Loading
        }),
{
}

/// Whether an event is one that the action of a phase gives when it goes well. A command that
/// only lists cannot have changed anything.
pub open spec fn goes_well(session: Session, event: Event) -> bool {
    match session.phase {
        Phase::Loading => event == Event::Loaded,
        Phase::Working => event == Event::Unchanged || event == Event::Changed && session.kind
            != CommandKind::CaList && session.kind != CommandKind::DomainList,
        Phase::Resigning => event == Event::Signed || event == Event::NothingPermitted,
        Phase::Staging => event == Event::Staged,
        Phase::Auditing => event == Event::AuditPassed,
        Phase::Finished => false,
        Phase::Failed => false,
    }
}

/// A command fails exactly where something went wrong: what an action gives when it goes well
/// never aborts, whatever the command, and everything else does.
pub proof fn lemma_only_failures_abort(session: Session, event: Event)
    ensures
        goes_well(session, event) ==> session.next(event).0.phase != Phase::Failed && session.next(
            event,
        ).1 != Action::Abort,
        !goes_well(session, event) ==> session.next(event).0.phase == Phase::Failed && session.next(
            event,
        ).1 == Action::Abort,
        session.next(Event::Failed).1 == Action::Abort,
{
}

/// Without permitted domains there is nothing to sign: whatever command asked for it, it
/// succeeds, with nothing signed and nothing generated.
pub proof fn lemma_nothing_permitted_succeeds(session: Session)
    requires
        session.phase == Phase::Resigning,
    ensures
        session.next(Event::NothingPermitted).1 == Action::Finish,
        session.next(Event::NothingPermitted).0.phase == Phase::Finished,
        session.next(Event::NothingPermitted).0.nothing_permitted,
        session.next(Event::NothingPermitted).0.signed == session.signed,
        session.next(Event::NothingPermitted).0.staged == session.staged,
{
}

/// Once the configuration is loaded, signing signs, the audit audits, and every other command
/// does its own work.
pub proof fn lemma_what_follows_loading(session: Session)
    requires
        session.phase == Phase::Loading,
    ensures
        ({
            let (next, action) = session.next(Event::Loaded);
            &&& session.kind == CommandKind::Resign ==> action == Action::Resign && next.phase
                == Phase::Resigning
            &&& session.kind == CommandKind::Verify ==> action == Action::Audit && next.phase
                == Phase::Auditing
            &&& session.kind != CommandKind::Resign && session.kind != CommandKind::Verify
                ==> action == Action::Perform && next.phase == Phase::Working
        }),
{
}

/// Work that changed the workspace is followed by signing for every command that changes one,
/// but for a new workspace, which has nothing to sign.
pub proof fn lemma_what_follows_a_change(session: Session)
    requires
        session.phase == Phase::Working,
        session.kind != CommandKind::CaList,
        session.kind != CommandKind::DomainList,
    ensures
        ({
            let (next, action) = session.next(Event::Changed);
            &&& next.changed && !next.signed && !next.staged
            &&& session.kind == CommandKind::Init ==> action == Action::Finish && next.phase
                == Phase::Finished
            &&& session.kind != CommandKind::Init ==> action == Action::Resign && next.phase
                == Phase::Resigning
        }),
{
}

/// Where nothing changed, nothing is signed. Adding generates the artifacts all the same,
/// unless they are not wanted; every other command is over.
pub proof fn lemma_what_follows_no_change(session: Session)
    requires
        session.phase == Phase::Working,
    ensures
        ({
            let (next, action) = session.next(Event::Unchanged);
            let adding = session.kind == CommandKind::DomainAdd || session.kind
                == CommandKind::CaAdd;
            &&& next.changed == session.changed && next.signed == session.signed
            &&& adding && !session.no_artifacts ==> action == Action::Stage && next.phase
                == Phase::Staging
            &&& adding && session.no_artifacts ==> action == Action::FinishWithoutArtifacts
                && next.phase == Phase::Finished
            &&& !adding ==> action == Action::Finish && next.phase == Phase::Finished
        }),
{
}

/// Signing is followed by generating the artifacts, unless they are not wanted, and that is
/// the end; an audit that passed is the end too.
pub proof fn lemma_what_follows_signing(session: Session)
    ensures
        session.phase == Phase::Resigning ==> ({
            let (next, action) = session.next(Event::Signed);
            &&& next.signed
            &&& !session.no_artifacts ==> action == Action::Stage && next.phase == Phase::Staging
            &&& session.no_artifacts ==> action == Action::FinishWithoutArtifacts && next.phase
                == Phase::Finished
        }),
        session.phase == Phase::Staging ==> session.next(Event::Staged).1 == Action::Finish
            && session.next(Event::Staged).0.phase == Phase::Finished && session.next(
            Event::Staged,
        ).0.staged,
        session.phase == Phase::Auditing ==> session.next(Event::AuditPassed).1 == Action::Finish
            && session.next(Event::AuditPassed).0.phase == Phase::Finished,
{
}

/// No event changes which command is run, or whether artifacts are wanted.
pub proof fn lemma_the_command_stays(session: Session, event: Event)
    ensures
        session.next(event).0.kind == session.kind,
        session.next(event).0.no_artifacts == session.no_artifacts,
{
}

} // verus!
