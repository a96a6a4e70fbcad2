//! The session and the choices that the user makes on the command line.

use crate::messages::SyncDirection;
use crate::text::{concat, lemma_numeral_injective, numeral, numeral_text, push_text, views};
use vstd::prelude::*;

verus! {

/// A session that was begun and not ended.
#[derive(Debug)]
pub struct Session {
    pub beam_id: String,
    pub local_dir: String,
    pub remote_dir: String,
}

/// Neither was a beam named, nor is there a session.
#[derive(Debug)]
pub struct NoSession;

/// The beam that a command is about: the one that was named, or that of the session.
pub fn resolve_beam(named: Option<String>, session: Option<Session>) -> (r: Result<String, NoSession>)
    ensures
        match (named, session) {
            (Some(id), _) => r matches Ok(beam) && beam@ == id@,
            (None, Some(s)) => r matches Ok(beam) && beam@ == s.beam_id@,
            (None, None) => r is Err,
        },
{
    match named {
        Some(id) => Ok(id),
        None => match session {
            Some(s) => Ok(s.beam_id),
            None => Err(NoSession),
        },
    }
}

/// What `status` tells of the session.
pub open spec fn status_text(session: Option<Session>) -> Seq<Seq<char>> {
    match session {
        Some(s) => seq![
            "Beam:       "@ + s.beam_id@,
            "Local:      "@ + s.local_dir@,
            "Remote:     "@ + s.remote_dir@,
            "Status:     active"@,
        ],
        None => seq!["No active beamup session."@],
    }
}

/// What `status` tells of the session, line by line.
pub fn status_lines(session: &Option<Session>) -> (lines: Vec<String>)
    ensures
        views(lines@) == status_text(*session),
{
    let mut lines: Vec<String> = Vec::new();
    match session {
        Some(s) => {
            lines.push(concat("Beam:       ", s.beam_id.as_str()));
            lines.push(concat("Local:      ", s.local_dir.as_str()));
            lines.push(concat("Remote:     ", s.remote_dir.as_str()));
            push_text(&mut lines, "Status:     active");
        },
        None => {
            push_text(&mut lines, "No active beamup session.");
        },
    }
    assert(views(lines@) =~= status_text(*session));
    lines
}

/// The direction of a sync, as it is named on the command line.
#[derive(Debug, Clone, Copy, PartialEq, Eq, Structural)]
pub enum CliSyncDirection {
    LocalToBeam,
    BeamToLocal,
    Bidirectional,
}

impl vstd::std_specs::convert::FromSpecImpl<CliSyncDirection> for SyncDirection {
    open spec fn obeys_from_spec() -> bool {
        true
    }

    open spec fn from_spec(d: CliSyncDirection) -> SyncDirection {
        match d {
            CliSyncDirection::LocalToBeam => SyncDirection::LocalToBeam,
            CliSyncDirection::BeamToLocal => SyncDirection::BeamToLocal,
            CliSyncDirection::Bidirectional => SyncDirection::Bidirectional,
        }
    }
}

impl From<CliSyncDirection> for SyncDirection {
    fn from(d: CliSyncDirection) -> (r: SyncDirection) {
        match d {
            CliSyncDirection::LocalToBeam => SyncDirection::LocalToBeam,
            CliSyncDirection::BeamToLocal => SyncDirection::BeamToLocal,
            CliSyncDirection::Bidirectional => SyncDirection::Bidirectional,
        }
    }
}

/// What the user asks of `start`.
#[derive(Debug)]
pub struct StartArgs {
    pub local_path: Option<String>,
    pub beam: Option<String>,
    pub remote_path: String,
    /// Go on at once, without an initial sync.
    pub no_initial_sync: bool,
    pub concurrency: usize,
    /// Patterns of paths that take no part in the sync, besides those of the ignore files.
    pub exclude: Vec<String>,
    /// In units of a mebibyte.
    pub chunk_size: usize,
    pub console: bool,
    pub oneshot: bool,
    pub initial_sync: CliSyncDirection,
    pub ongoing_sync: CliSyncDirection,
}

/// What the user asks of `sync`.
#[derive(Debug)]
pub struct SyncArgs {
    pub beam: Option<String>,
    pub path: Option<String>,
    pub remote_dir: String,
    pub concurrency: usize,
    /// In units of a mebibyte.
    pub chunk_size: usize,
}

/// What the user asks of `down`.
#[derive(Debug)]
pub struct DownArgs {
    pub beam: Option<String>,
    pub keep_beam: bool,
    pub force: bool,
}

/// What the user asks of `exec`.
#[derive(Debug)]
pub struct ExecArgs {
    pub beam: Option<String>,
    pub cmd: Vec<String>,
}

/// What the user asks of `status`.
#[derive(Debug)]
pub struct StatusArgs {
    pub json: bool,
}

/// A size in mebibytes, in bytes; `None` where it does not fit.
pub fn mebibytes(n: usize) -> (r: Option<usize>)
    ensures
        match r {
            Some(bytes) => bytes == n * 1_048_576,
            None => n * 1_048_576 > usize::MAX,
        },
{
    n.checked_mul(1_048_576)
}

/// What follows the initial sync.
#[derive(Debug, Clone, Copy, PartialEq, Eq, Structural)]
pub enum AfterInitialSync {
    /// Print the beam's name, and end.
    PrintAndExit,
    /// Open a console, and go on in the background.
    Console,
    /// Go on.
    Continue,
}

impl StartArgs {
    /// Whether the session begins with an initial sync.
    pub fn syncs_initially(&self) -> (r: bool)
        ensures
            r == !self.no_initial_sync,
    {
        !self.no_initial_sync
    }

    /// What follows the initial sync.
    pub fn after_initial_sync(&self) -> (r: AfterInitialSync)
        ensures
            r == if self.oneshot {
                AfterInitialSync::PrintAndExit
            } else if self.console {
                AfterInitialSync::Console
            } else {
                AfterInitialSync::Continue
            },
    {
        if self.oneshot {
            AfterInitialSync::PrintAndExit
        } else if self.console {
            AfterInitialSync::Console
        } else {
            AfterInitialSync::Continue
        }
    }
}

impl DownArgs {
    /// Whether the beam is to be destroyed.
    pub fn destroys_beam(&self) -> (r: bool)
        ensures
            r == !self.keep_beam,
    {
        !self.keep_beam
    }
}

/// Which messages are logged.
pub open spec fn filter_text(verbose: bool, quiet: bool) -> Seq<char> {
    if verbose {
        "beamup=debug,beamup_protocol=debug"@
    } else if quiet {
        "error"@
    } else {
        "beamup=info"@
    }
}

/// Which messages are logged.
pub fn log_filter(verbose: bool, quiet: bool) -> (s: &'static str)
    ensures
        s@ == filter_text(verbose, quiet),
{
    if verbose {
        "beamup=debug,beamup_protocol=debug"
    } else if quiet {
        "error"
    } else {
        "beamup=info"
    }
}

/// The name of a session that was begun `nanos` nanoseconds after the epoch.
pub fn uuid_simple(nanos: u128) -> (id: String)
    ensures
        id@ == numeral(nanos as nat, 16),
{
    numeral_text(nanos, 16)
}

/// A direction that is named on the command line is the direction of the sync: it pushes unless only
/// the beam is to be read from, and pulls unless only the beam is to be written to.
pub proof fn lemma_named_direction(d: CliSyncDirection)
    ensures
        ({
            let direction = <SyncDirection as vstd::std_specs::convert::FromSpec<
                CliSyncDirection,
            >>::from_spec(d);
            &&& direction.pushes() <==> d != CliSyncDirection::BeamToLocal
            &&& direction.pulls() <==> d != CliSyncDirection::LocalToBeam
        }),
{
}

/// The status of a session names the beam and the two directories, each at the end of its line, and
/// without a session there is one line.
pub proof fn lemma_status_names_session(session: Session)
    ensures
        ({
            let lines = status_text(Some(session));
            &&& lines.len() == 4
            &&& lines[0].skip(12) == session.beam_id@
            &&& lines[1].skip(12) == session.local_dir@
            &&& lines[2].skip(12) == session.remote_dir@
        }),
        status_text(None).len() == 1,
{
    reveal_strlit("Beam:       ");
    reveal_strlit("Local:      ");
    reveal_strlit("Remote:     ");
    let lines = status_text(Some(session));
    assert(lines[0].skip(12) =~= session.beam_id@);
    assert(lines[1].skip(12) =~= session.local_dir@);
    assert(lines[2].skip(12) =~= session.remote_dir@);
}

/// Two sessions that begin at different times have different names.
pub proof fn lemma_session_names_differ(a: u128, b: u128)
    requires
        a != b,
    ensures
        numeral(a as nat, 16) != numeral(b as nat, 16),
{
    if numeral(a as nat, 16) == numeral(b as nat, 16) {
        lemma_numeral_injective(a as nat, b as nat, 16);
    }
}

} // verus!
