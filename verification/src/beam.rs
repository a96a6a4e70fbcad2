//! Beams: how `tsh` is called on them, and which agent runs on them.

use crate::text::{
    concat, concat3, join, join_text, lemma_views_push, opt_view, push_text, same_text, split,
    split_text, trim, trim_text, views,
};
use vstd::arithmetic::power2::pow2;
use vstd::prelude::*;
use vstd::string::StringExecFns;

verus! {

/// A beam as `tsh` lists it.
#[derive(Debug)]
pub struct BeamInfo {
    pub id: String,
}

/// Whether `id` is among the listed beams.
pub fn beam_exists(beams: &Vec<BeamInfo>, id: &str) -> (r: bool)
    ensures
        r == exists|i: int| 0 <= i < beams@.len() && (#[trigger] beams@[i]).id@ == id@,
{
    let mut i: usize = 0;
    while i < beams.len()
        invariant
            i <= beams@.len(),
            forall|k: int| 0 <= k < i ==> (#[trigger] beams@[k]).id@ != id@,
        decreases beams@.len() - i,
    {
        if same_text(beams[i].id.as_str(), id) {
            return true;
        }
        i = i + 1;
    }
    false
}

/// Whether `tsh` listed nothing.
pub fn is_blank(output: &str) -> (r: bool)
    ensures
        r == (trim(output@).len() == 0),
{
    trim_text(output).as_str().is_empty()
}

// ---------------------------------------------------------------------------------------------
// What the agent says on its error output
// ---------------------------------------------------------------------------------------------

/// How many lines of the agent's error output are kept.
pub const MAX_STDERR_LINES: usize = 100;

/// The lines that the agent wrote to its error output.
pub struct AgentStderr {
    lines: Vec<String>,
}

impl View for AgentStderr {
    type V = Seq<Seq<char>>;

    closed spec fn view(&self) -> Seq<Seq<char>> {
        views(self.lines@)
    }
}

impl AgentStderr {
    /// Nothing was said yet.
    pub fn new() -> (s: AgentStderr)
        ensures
            s@ == Seq::<Seq<char>>::empty(),
    {
        let s = AgentStderr { lines: Vec::new() };
        assert(s@ =~= Seq::<Seq<char>>::empty());
        s
    }

    /// Keeps a line, unless there are enough.
    pub fn push(&mut self, line: String)
        ensures
            final(self)@ == if old(self)@.len() < MAX_STDERR_LINES {
                old(self)@.push(line@)
            } else {
                old(self)@
            },
    {
        if self.lines.len() < MAX_STDERR_LINES {
            proof {
                lemma_views_push(self.lines@, line);
            }
            self.lines.push(line);
        }
    }

    /// Takes a line that the agent wrote: one that is not blank is kept and to be shown.
    pub fn take_line(&mut self, line: &String) -> (shown: bool)
        ensures
            shown == (trim(line@).len() > 0),
            final(self)@ == if shown && old(self)@.len() < MAX_STDERR_LINES {
                old(self)@.push(line@)
            } else {
                old(self)@
            },
    {
        if is_blank(line.as_str()) {
            return false;
        }
        self.push(line.clone());
        true
    }

    /// What the agent said, line by line, or `None` if it said nothing.
    pub fn contents(&self) -> (r: Option<String>)
        ensures
            opt_view(r) == if self@.len() == 0 {
                None
            } else {
                Some(join(self@, "\n"@))
            },
    {
        if self.lines.len() == 0 {
            return None;
        }
        Some(join_text(&self.lines, "\n"))
    }
}

// ---------------------------------------------------------------------------------------------
// Calls of `tsh`
// ---------------------------------------------------------------------------------------------

/// The identity that `tsh` is called with.
pub struct TshIdentity {
    identity_file: Option<Option<String>>,
    proxy: Option<Option<String>>,
}

/// What a [`TshIdentity`] holds: each part as it was first set.
#[verifier::ext_equal]
pub struct IdentityView {
    pub identity_file: Option<Option<Seq<char>>>,
    pub proxy: Option<Option<Seq<char>>>,
}

impl View for TshIdentity {
    type V = IdentityView;

    closed spec fn view(&self) -> IdentityView {
        IdentityView {
            identity_file: match self.identity_file {
                Some(path) => Some(opt_view(path)),
                None => None,
            },
            proxy: match self.proxy {
                Some(proxy) => Some(opt_view(proxy)),
                None => None,
            },
        }
    }
}

/// What `slot` holds once it has been set to `value`: what it was first set to.
pub open spec fn first_set<T>(slot: Option<T>, value: T) -> Option<T> {
    match slot {
        Some(held) => Some(held),
        None => Some(value),
    }
}

/// The arguments that stand for the identity.
pub open spec fn identity_args(identity: IdentityView) -> Seq<Seq<char>> {
    (match identity.identity_file {
        Some(Some(path)) => seq!["-i"@, path],
        _ => Seq::empty(),
    }) + (match identity.proxy {
        Some(Some(proxy)) => seq!["--proxy"@, proxy],
        _ => Seq::empty(),
    })
}

impl TshIdentity {
    /// No identity was set yet.
    pub fn new() -> (t: TshIdentity)
        ensures
            t@ == (IdentityView { identity_file: None, proxy: None }),
    {
        TshIdentity { identity_file: None, proxy: None }
    }

    /// The arguments of a call of `tsh`: those of the identity, then `args`.
    pub fn tsh_args(&self, args: Vec<String>) -> (all: Vec<String>)
        ensures
            views(all@) == identity_args(self@) + views(args@),
    {
        let mut all: Vec<String> = Vec::new();
        match &self.identity_file {
            Some(Some(path)) => {
                all.push(String::from_str("-i"));
                all.push(path.clone());
                assert(views(all@) =~= seq!["-i"@, path@]);
            },
            _ => {},
        }
        let ghost first = views(all@);
        match &self.proxy {
            Some(Some(proxy)) => {
                all.push(String::from_str("--proxy"));
                all.push(proxy.clone());
                assert(views(all@) =~= first + seq!["--proxy"@, proxy@]);
            },
            _ => {},
        }
        assert(views(all@) =~= identity_args(self@));
        let mut args = args;
        let ghost given = args@;
        let ghost before = all@;
        all.append(&mut args);
        assert(views(all@) =~= views(before) + views(given));
        all
    }
}

/// Sets the identity file and the proxy for all calls of `tsh`. Only the first call counts.
pub fn set_identity_file(identity: &mut TshIdentity, path: Option<String>, proxy: Option<String>)
    ensures
        final(identity)@ == (IdentityView {
            identity_file: first_set(old(identity)@.identity_file, opt_view(path)),
            proxy: first_set(old(identity)@.proxy, opt_view(proxy)),
        }),
{
    if identity.identity_file.is_none() {
        identity.identity_file = Some(path);
    }
    if identity.proxy.is_none() {
        identity.proxy = Some(proxy);
    }
}

fn texts(a: &str, b: &str, c: &str) -> (v: Vec<String>)
    ensures
        views(v@) == seq![a@, b@, c@],
{
    let mut v: Vec<String> = Vec::new();
    v.push(String::from_str(a));
    v.push(String::from_str(b));
    v.push(String::from_str(c));
    assert(views(v@) =~= seq![a@, b@, c@]);
    v
}

/// The calls of `tsh` on beams.
pub struct Beam;

impl Beam {
    /// The call that creates a beam.
    pub fn create_args() -> (args: Vec<String>)
        ensures
            views(args@) == seq!["beams"@, "add"@, "--format=json"@],
    {
        texts("beams", "add", "--format=json")
    }

    /// The call that lists the beams.
    pub fn list_args() -> (args: Vec<String>)
        ensures
            views(args@) == seq!["beams"@, "ls"@, "--format=json"@],
    {
        texts("beams", "ls", "--format=json")
    }

    /// The call that destroys a beam.
    pub fn destroy_args(beam_id: &str) -> (args: Vec<String>)
        ensures
            views(args@) == seq!["beams"@, "rm"@, beam_id@],
    {
        texts("beams", "rm", beam_id)
    }

    /// The call that opens a console on a beam.
    pub fn console_args(beam_id: &str) -> (args: Vec<String>)
        ensures
            views(args@) == seq!["beams"@, "console"@, beam_id@],
    {
        texts("beams", "console", beam_id)
    }

    /// The call that runs `command` on a beam.
    pub fn exec_args(beam_id: &str, command: Vec<String>) -> (args: Vec<String>)
        ensures
            views(args@) == seq!["beams"@, "exec"@, beam_id@, "--"@] + views(command@),
    {
        let mut args = texts("beams", "exec", beam_id);
        push_text(&mut args, "--");
        assert(views(args@) =~= seq!["beams"@, "exec"@, beam_id@, "--"@]);
        let mut command = command;
        let ghost given = command@;
        let ghost before = args@;
        args.append(&mut command);
        assert(views(args@) =~= views(before) + views(given));
        args
    }

    /// The call that runs one line of shell on a beam.
    pub fn shell_args(beam_id: &str, command: &str) -> (args: Vec<String>)
        ensures
            views(args@) == seq!["beams"@, "exec"@, beam_id@, "--"@, command@],
    {
        let mut line: Vec<String> = Vec::new();
        line.push(String::from_str(command));
        assert(views(line@) =~= seq![command@]);
        let args = Beam::exec_args(beam_id, line);
        assert(views(args@) =~= seq!["beams"@, "exec"@, beam_id@, "--"@, command@]);
        args
    }

    /// The call that asks a beam for its architecture.
    pub fn uname_args(beam_id: &str) -> (args: Vec<String>)
        ensures
            views(args@) == seq!["beams"@, "exec"@, beam_id@, "--"@, "uname"@, "-m"@],
    {
        let mut command: Vec<String> = Vec::new();
        command.push(String::from_str("uname"));
        command.push(String::from_str("-m"));
        assert(views(command@) =~= seq!["uname"@, "-m"@]);
        let args = Beam::exec_args(beam_id, command);
        assert(views(args@) =~= seq!["beams"@, "exec"@, beam_id@, "--"@, "uname"@, "-m"@]);
        args
    }

    /// The call that runs the agent on a beam.
    pub fn serve_args(beam_id: &str, remote_dir: &str) -> (args: Vec<String>)
        ensures
            views(args@) == seq![
                "beams"@,
                "exec"@,
                beam_id@,
                "--"@,
                "/tmp/beamup-agent"@,
                "--serve"@,
                "--watch-dir"@,
                remote_dir@,
            ],
    {
        let mut command = texts("/tmp/beamup-agent", "--serve", "--watch-dir");
        push_text(&mut command, remote_dir);
        assert(views(command@) =~= seq![
            "/tmp/beamup-agent"@,
            "--serve"@,
            "--watch-dir"@,
            remote_dir@,
        ]);
        let args = Beam::exec_args(beam_id, command);
        assert(views(args@) =~= seq![
            "beams"@,
            "exec"@,
            beam_id@,
            "--"@,
            "/tmp/beamup-agent"@,
            "--serve"@,
            "--watch-dir"@,
            remote_dir@,
        ]);
        args
    }

    /// The call that copies a local file to a beam.
    pub fn scp_push_args(beam_id: &str, local_path: &str, remote_path: &str) -> (args: Vec<String>)
        ensures
            views(args@) == seq!["beams"@, "scp"@, local_path@, beam_id@ + ":"@ + remote_path@],
    {
        let mut args = texts("beams", "scp", local_path);
        push_text(&mut args, concat3(beam_id, ":", remote_path).as_str());
        assert(views(args@) =~= seq!["beams"@, "scp"@, local_path@, beam_id@ + ":"@ + remote_path@]);
        args
    }

    /// The call that copies a file of a beam to the local machine.
    pub fn scp_pull_args(beam_id: &str, remote_path: &str, local_path: &str) -> (args: Vec<String>)
        ensures
            views(args@) == seq!["beams"@, "scp"@, beam_id@ + ":"@ + remote_path@, local_path@],
    {
        let from = concat3(beam_id, ":", remote_path);
        let mut args = texts("beams", "scp", from.as_str());
        push_text(&mut args, local_path);
        assert(views(args@) =~= seq!["beams"@, "scp"@, beam_id@ + ":"@ + remote_path@, local_path@]);
        args
    }
}

// ---------------------------------------------------------------------------------------------
// Retries
// ---------------------------------------------------------------------------------------------

/// How often a failed call is tried again.
pub const MAX_RETRIES: u32 = 3;

/// How long to wait before the first retry, in milliseconds.
pub const INITIAL_BACKOFF_MS: u64 = 1000;

/// How long to wait before the retry number `retry`: each time twice as long.
pub open spec fn backoff(retry: nat) -> nat {
    if retry == 0 {
        0
    } else {
        INITIAL_BACKOFF_MS as nat * pow2((retry - 1) as nat)
    }
}

/// What to do after a call.
#[derive(Debug, Clone, Copy, PartialEq, Eq, Structural)]
pub enum Attempt {
    /// It succeeded.
    Done,
    /// Try it again after a while.
    Retry { retry: u32, wait_ms: u64 },
    /// It failed for good.
    GiveUp,
}

/// What to do after the call number `attempt`, counted from zero.
pub fn after_attempt(attempt: u32, success: bool) -> (r: Attempt)
    ensures
        match r {
            Attempt::Done => success,
            Attempt::Retry { retry, wait_ms } => !success && attempt < MAX_RETRIES && retry
                == attempt + 1 && wait_ms == backoff(retry as nat),
            Attempt::GiveUp => !success && attempt >= MAX_RETRIES,
        },
{
    if success {
        return Attempt::Done;
    }
    if attempt >= MAX_RETRIES {
        return Attempt::GiveUp;
    }
    let mut wait_ms: u64 = INITIAL_BACKOFF_MS;
    let mut i: u32 = 0;
    proof {
        vstd::arithmetic::power2::lemma2_to64();
    }
    while i < attempt
        invariant
            i <= attempt < MAX_RETRIES,
            wait_ms == INITIAL_BACKOFF_MS * pow2(i as nat),
            wait_ms <= 1000 * (1 + 3 * i),
            i == 0 ==> wait_ms == 1000,
            i == 1 ==> wait_ms == 2000,
            i == 2 ==> wait_ms == 4000,
        decreases attempt - i,
    {
        proof {
            vstd::arithmetic::power2::lemma_pow2_unfold((i + 1) as nat);
        }
        wait_ms = wait_ms * 2;
        i = i + 1;
    }
    Attempt::Retry { retry: attempt + 1, wait_ms }
}

/// Why a call failed for good: what was called, and what was last said about it.
pub fn give_up_text(what: &str, last_error: Option<String>) -> (text: String)
    ensures
        text@ == what@ + " after 3 retries: "@ + match last_error {
            Some(e) => e@,
            None => Seq::empty(),
        },
{
    let mut text = concat(what, " after 3 retries: ");
    match last_error {
        Some(e) => {
            text.append(e.as_str());
        },
        None => {
            assert(text@ + Seq::<char>::empty() =~= text@);
        },
    }
    text
}

// ---------------------------------------------------------------------------------------------
// The architecture of a beam
// ---------------------------------------------------------------------------------------------

/// The architecture of a beam.
#[derive(Debug, Clone, Copy, PartialEq, Eq, Structural)]
pub enum BeamArch {
    X86_64,
    Aarch64,
}

/// An architecture for which there is no agent.
#[derive(Debug)]
pub struct UnsupportedArch {
    pub name: String,
}

/// What a beam calls its architecture.
pub open spec fn arch_named(name: Seq<char>) -> Option<BeamArch> {
    if name == "x86_64"@ || name == "amd64"@ {
        Some(BeamArch::X86_64)
    } else if name == "aarch64"@ || name == "arm64"@ {
        Some(BeamArch::Aarch64)
    } else {
        None
    }
}

/// The last of the lines that is not blank; the empty text where all are.
pub open spec fn last_spoken(lines: Seq<Seq<char>>) -> Seq<char>
    decreases lines.len(),
{
    if lines.len() == 0 {
        Seq::empty()
    } else if trim(lines.last()).len() > 0 {
        lines.last()
    } else {
        last_spoken(lines.drop_last())
    }
}

impl BeamArch {
    /// Reads the name of an architecture.
    pub fn parse(uname_m: &str) -> (r: Result<BeamArch, UnsupportedArch>)
        ensures
            match (r, arch_named(trim(uname_m@))) {
                (Ok(arch), Some(named)) => arch == named,
                (Err(e), None) => e.name@ == trim(uname_m@),
                _ => false,
            },
    {
        let name = trim_text(uname_m);
        if same_text(name.as_str(), "x86_64") || same_text(name.as_str(), "amd64") {
            Ok(BeamArch::X86_64)
        } else if same_text(name.as_str(), "aarch64") || same_text(name.as_str(), "arm64") {
            Ok(BeamArch::Aarch64)
        } else {
            Err(UnsupportedArch { name })
        }
    }

    /// Reads the architecture from what a beam answered. `tsh` may say something of its own first.
    pub fn detect(output: &str) -> (r: Result<BeamArch, UnsupportedArch>)
        ensures
            ({
                let name = trim(last_spoken(split(output@, '\n')));
                match (r, arch_named(name)) {
                    (Ok(arch), Some(named)) => arch == named,
                    (Err(e), None) => e.name@ == name,
                    _ => false,
                }
            }),
    {
        let lines = split_text(output, '\n');
        let ghost all = split(output@, '\n');
        let mut n: usize = lines.len();
        assert(all.take(n as int) =~= all);
        while n > 0
            invariant
                n <= lines@.len(),
                all == views(lines@),
                all == split(output@, '\n'),
                last_spoken(all) == last_spoken(all.take(n as int)),
            decreases n,
        {
            proof {
                assert(all.take(n as int).last() == lines@[n - 1]@);
                assert(all.take(n as int).drop_last() =~= all.take(n - 1));
            }
            if !is_blank(lines[n - 1].as_str()) {
                return BeamArch::parse(lines[n - 1].as_str());
            }
            n = n - 1;
        }
        assert(last_spoken(all) =~= Seq::<char>::empty());
        proof {
            reveal_strlit("");
            assert(""@ =~= Seq::<char>::empty());
        }
        BeamArch::parse("")
    }

    /// The architecture's name.
    pub open spec fn name(self) -> Seq<char> {
        match self {
            BeamArch::X86_64 => "x86_64"@,
            BeamArch::Aarch64 => "aarch64"@,
        }
    }

    /// The architecture's name.
    pub fn as_str(&self) -> (s: &'static str)
        ensures
            s@ == self.name(),
    {
        match self {
            BeamArch::X86_64 => "x86_64",
            BeamArch::Aarch64 => "aarch64",
        }
    }

    /// The target that the agent is built for.
    pub open spec fn triple(self) -> Seq<char> {
        match self {
            BeamArch::X86_64 => "x86_64-unknown-linux-musl"@,
            BeamArch::Aarch64 => "aarch64-unknown-linux-musl"@,
        }
    }

    /// The target that the agent is built for.
    pub fn target_triple(&self) -> (s: &'static str)
        ensures
            s@ == self.triple(),
    {
        match self {
            BeamArch::X86_64 => "x86_64-unknown-linux-musl",
            BeamArch::Aarch64 => "aarch64-unknown-linux-musl",
        }
    }

    /// The agent for this architecture among those that are built in.
    pub fn embedded<'a>(&self, x86_64: &'a [u8], aarch64: &'a [u8]) -> (agent: &'a [u8])
        ensures
            agent@ == match *self {
                BeamArch::X86_64 => x86_64@,
                BeamArch::Aarch64 => aarch64@,
            },
    {
        match self {
            BeamArch::X86_64 => x86_64,
            BeamArch::Aarch64 => aarch64,
        }
    }

    /// The variable that overrides the agent for this architecture.
    pub open spec fn variable(self) -> Seq<char> {
        match self {
            BeamArch::X86_64 => "BEAMUP_AGENT_PATH_X86_64"@,
            BeamArch::Aarch64 => "BEAMUP_AGENT_PATH_AARCH64"@,
        }
    }

    /// The variable that overrides the agent for this architecture.
    pub fn agent_variable(&self) -> (s: &'static str)
        ensures
            s@ == self.variable(),
    {
        match self {
            BeamArch::X86_64 => "BEAMUP_AGENT_PATH_X86_64",
            BeamArch::Aarch64 => "BEAMUP_AGENT_PATH_AARCH64",
        }
    }
}

/// The agent's name for an architecture is understood as that architecture.
pub proof fn lemma_arch_round_trip(arch: BeamArch)
    ensures
        arch_named(arch.name()) == Some(arch),
{
    reveal_strlit("x86_64");
    reveal_strlit("amd64");
    reveal_strlit("aarch64");
    reveal_strlit("arm64");
    assert("x86_64"@[0] != "aarch64"@[0]);
    assert("aarch64"@.len() != "amd64"@.len());
}

// ---------------------------------------------------------------------------------------------
// The agent's binary
// ---------------------------------------------------------------------------------------------

/// Where an agent may be found.
pub enum AgentSource {
    /// At the path in this variable of the environment.
    Variable(String),
    /// At this path, relative to the current directory.
    Relative(String),
    /// Built into this program.
    Embedded,
    /// Beside this program, under this name.
    Sibling(String),
}

/// What an [`AgentSource`] says.
#[verifier::ext_equal]
pub enum AgentSourceView {
    Variable(Seq<char>),
    Relative(Seq<char>),
    Embedded,
    Sibling(Seq<char>),
}

impl View for AgentSource {
    type V = AgentSourceView;

    open spec fn view(&self) -> AgentSourceView {
        match *self {
            AgentSource::Variable(name) => AgentSourceView::Variable(name@),
            AgentSource::Relative(path) => AgentSourceView::Relative(path@),
            AgentSource::Embedded => AgentSourceView::Embedded,
            AgentSource::Sibling(name) => AgentSourceView::Sibling(name@),
        }
    }
}

/// The path of the agent that was built here with a profile.
pub open spec fn built_path(triple: Seq<char>, profile: Seq<char>) -> Seq<char> {
    "target/"@ + triple + "/"@ + profile + "/beamup-agent"@
}

/// Where to look for the agent for an architecture, the first choice first.
pub open spec fn agent_places(arch: BeamArch) -> Seq<AgentSourceView> {
    seq![
        AgentSourceView::Variable(arch.variable()),
        AgentSourceView::Variable("BEAMUP_AGENT_PATH"@),
        AgentSourceView::Relative(built_path(arch.triple(), "release"@)),
        AgentSourceView::Relative(built_path(arch.triple(), "debug"@)),
        AgentSourceView::Embedded,
        AgentSourceView::Sibling("beamup-agent-"@ + arch.name()),
        AgentSourceView::Sibling("beamup-agent"@),
    ]
}

fn built_agent_path(triple: &str, profile: &str) -> (path: String)
    ensures
        path@ == built_path(triple@, profile@),
{
    let mut path = concat3("target/", triple, "/");
    path.append(profile);
    path.append("/beamup-agent");
    path
}

/// Where to look for the agent for an architecture, the first choice first.
pub fn agent_sources(arch: BeamArch) -> (sources: Vec<AgentSource>)
    ensures
        views(sources@) == agent_places(arch),
{
    let mut sources: Vec<AgentSource> = Vec::new();
    sources.push(AgentSource::Variable(String::from_str(arch.agent_variable())));
    sources.push(AgentSource::Variable(String::from_str("BEAMUP_AGENT_PATH")));
    sources.push(AgentSource::Relative(built_agent_path(arch.target_triple(), "release")));
    sources.push(AgentSource::Relative(built_agent_path(arch.target_triple(), "debug")));
    sources.push(AgentSource::Embedded);
    sources.push(AgentSource::Sibling(concat("beamup-agent-", arch.as_str())));
    sources.push(AgentSource::Sibling(String::from_str("beamup-agent")));
    assert(views(sources@) =~= agent_places(arch));
    sources
}

/// What to tell the user where there is no agent for an architecture.
pub fn no_agent_text(arch: BeamArch) -> (text: String)
    ensures
        text@ == "no beamup-agent binary for beam architecture "@ + arch.name()
            + ". Build it with:\n  cargo build --release --target "@ + arch.triple()
            + " -p beamup-agent\nOr set "@ + arch.variable() + " to point to the binary."@,
{
    let mut text = concat("no beamup-agent binary for beam architecture ", arch.as_str());
    text.append(". Build it with:\n  cargo build --release --target ");
    text.append(arch.target_triple());
    text.append(" -p beamup-agent\nOr set ");
    text.append(arch.agent_variable());
    text.append(" to point to the binary.");
    text
}

/// The architecture of a Linux executable, from the machine in its header. The bytes of the machine
/// stand in the order that the header gives.
pub open spec fn elf_machine(bytes: Seq<u8>) -> Option<BeamArch> {
    if bytes.len() < 20 || bytes.take(4) != seq![0x7fu8, 0x45u8, 0x4cu8, 0x46u8] {
        None
    } else {
        let machine = if bytes[5] == 1 {
            Some(bytes[18] + 256 * bytes[19])
        } else if bytes[5] == 2 {
            Some(256 * bytes[18] + bytes[19])
        } else {
            None
        };
        if machine == Some(0x3eint) {
            Some(BeamArch::X86_64)
        } else if machine == Some(0xb7int) {
            Some(BeamArch::Aarch64)
        } else {
            None
        }
    }
}

/// The architecture of a Linux executable.
pub fn elf_arch(bytes: &[u8]) -> (r: Option<BeamArch>)
    ensures
        r == elf_machine(bytes@),
{
    if bytes.len() < 20 {
        return None;
    }
    if bytes[0] != 0x7f || bytes[1] != 0x45 || bytes[2] != 0x4c || bytes[3] != 0x46 {
        proof {
            let magic = seq![0x7fu8, 0x45u8, 0x4cu8, 0x46u8];
            assert(bytes@.take(4)[0] == bytes@[0] && bytes@.take(4)[1] == bytes@[1]);
            assert(bytes@.take(4)[2] == bytes@[2] && bytes@.take(4)[3] == bytes@[3]);
            assert(magic[0] == 0x7f && magic[1] == 0x45 && magic[2] == 0x4c && magic[3] == 0x46);
        }
        return None;
    }
    assert(bytes@.take(4) =~= seq![0x7fu8, 0x45u8, 0x4cu8, 0x46u8]);
    let (low, high): (u8, u8) = if bytes[5] == 1 {
        (bytes[18], bytes[19])
    } else if bytes[5] == 2 {
        (bytes[19], bytes[18])
    } else {
        return None;
    };
    if high == 0 && low == 0x3e {
        Some(BeamArch::X86_64)
    } else if high == 0 && low == 0xb7 {
        Some(BeamArch::Aarch64)
    } else {
        None
    }
}

/// Which agent is built into the program for an architecture.
#[derive(Debug, Clone, Copy, PartialEq, Eq, Structural)]
pub enum Embedding {
    /// The one at the path in the architecture's own variable.
    OwnVariable,
    /// The one at the path in the variable for any architecture.
    CommonVariable,
    /// The one that was built with the release profile.
    Release,
    /// The one that was built with the debug profile.
    Debug,
    /// None.
    Nothing,
}

/// The architecture's own variable points at an agent for another architecture.
#[derive(Debug, Clone, Copy, PartialEq, Eq, Structural)]
pub struct WrongArch {
    pub found: BeamArch,
}

/// Which agent is built in for `arch`. Of the files that the two variables point at, where there
/// are any, the architecture is given as far as it is known; of those that were built, whether they
/// are there.
pub fn choose_embedded(
    arch: BeamArch,
    own: Option<Option<BeamArch>>,
    common: Option<Option<BeamArch>>,
    release: bool,
    debug: bool,
) -> (r: Result<Embedding, WrongArch>)
    ensures
        match own {
            Some(Some(found)) if found != arch => r == Err::<Embedding, WrongArch>(
                WrongArch { found },
            ),
            Some(_) => r == Ok::<Embedding, WrongArch>(Embedding::OwnVariable),
            None => r == Ok::<Embedding, WrongArch>(
                if common == Some(Some(arch)) {
                    Embedding::CommonVariable
                } else if release {
                    Embedding::Release
                } else if debug {
                    Embedding::Debug
                } else {
                    Embedding::Nothing
                },
            ),
        },
{
    match own {
        Some(Some(found)) => {
            if found != arch {
                return Err(WrongArch { found });
            }
            return Ok(Embedding::OwnVariable);
        },
        Some(None) => {
            return Ok(Embedding::OwnVariable);
        },
        None => {},
    }
    match common {
        Some(Some(found)) => {
            if found == arch {
                return Ok(Embedding::CommonVariable);
            }
        },
        _ => {},
    }
    if release {
        Ok(Embedding::Release)
    } else if debug {
        Ok(Embedding::Debug)
    } else {
        Ok(Embedding::Nothing)
    }
}

/// The first retry comes after a second, and each further one after twice the time of the one before.
pub proof fn lemma_backoff_doubles(retry: nat)
    requires
        retry >= 1,
    ensures
        backoff(1) == 1000,
        backoff(retry + 1) == 2 * backoff(retry),
{
    vstd::arithmetic::power2::lemma2_to64();
    vstd::arithmetic::power2::lemma_pow2_unfold(retry);
    assert(1000 * (2 * pow2((retry - 1) as nat)) == 2 * (1000 * pow2((retry - 1) as nat)))
        by (nonlinear_arith);
}

/// Each architecture goes by two names, and no other name stands for one.
pub proof fn lemma_arch_names(name: Seq<char>)
    ensures
        arch_named(name) == Some(BeamArch::X86_64) <==> name == "x86_64"@ || name == "amd64"@,
        arch_named(name) == Some(BeamArch::Aarch64) <==> name == "aarch64"@ || name == "arm64"@,
{
    reveal_strlit("x86_64");
    reveal_strlit("amd64");
    reveal_strlit("aarch64");
    reveal_strlit("arm64");
    assert("x86_64"@.len() != "aarch64"@.len());
    assert("x86_64"@.len() != "arm64"@.len());
    assert("amd64"@.len() != "aarch64"@.len());
    assert("amd64"@[1] != "arm64"@[1]);
}

/// What counts of a beam's answer is the last line that is not blank; lines that are blank, behind it
/// or alone, say nothing.
pub proof fn lemma_last_spoken(lines: Seq<Seq<char>>, i: int)
    ensures
        0 <= i < lines.len() && trim(lines[i]).len() > 0 && (forall|k: int|
            i < k < lines.len() ==> trim(#[trigger] lines[k]).len() == 0) ==> last_spoken(lines)
            == lines[i],
        (forall|k: int| 0 <= k < lines.len() ==> trim(#[trigger] lines[k]).len() == 0)
            ==> last_spoken(lines).len() == 0,
    decreases lines.len(),
{
    if lines.len() > 0 {
        let before = lines.drop_last();
        lemma_last_spoken(before, i);
        assert(lines.last() == lines[lines.len() - 1]);
        assert(forall|k: int| 0 <= k < before.len() ==> #[trigger] before[k] == lines[k]);
    }
}

/// A call carries the identity file and the proxy that were set, each behind its flag, and nothing
/// for what was not set.
pub proof fn lemma_identity_is_passed_on(file: Seq<char>, proxy: Seq<char>)
    ensures
        identity_args(IdentityView { identity_file: Some(Some(file)), proxy: Some(Some(proxy)) })
            == seq!["-i"@, file, "--proxy"@, proxy],
        identity_args(IdentityView { identity_file: Some(Some(file)), proxy: Some(None) }) == seq![
            "-i"@,
            file,
        ],
        identity_args(IdentityView { identity_file: Some(None), proxy: Some(Some(proxy)) }) == seq![
            "--proxy"@,
            proxy,
        ],
        identity_args(IdentityView { identity_file: Some(None), proxy: Some(None) }).len() == 0,
        identity_args(IdentityView { identity_file: None, proxy: None }).len() == 0,
{
    assert(identity_args(
        IdentityView { identity_file: Some(Some(file)), proxy: Some(Some(proxy)) },
    ) =~= seq!["-i"@, file, "--proxy"@, proxy]);
    assert(identity_args(IdentityView { identity_file: Some(Some(file)), proxy: Some(None) })
        =~= seq!["-i"@, file]);
    assert(identity_args(IdentityView { identity_file: Some(None), proxy: Some(Some(proxy)) })
        =~= seq!["--proxy"@, proxy]);
}

/// What is set first stays: setting it again changes nothing.
pub proof fn lemma_first_set_stays<T>(value: T, later: T)
    ensures
        first_set(None, value) == Some(value),
        first_set(first_set(None, value), later) == Some(value),
        first_set(Some(value), later) == Some(value),
{
}

/// The architecture of an executable is read from the two bytes of its machine, in either order of
/// bytes, and from nothing but a Linux executable.
pub proof fn lemma_elf_machines(bytes: Seq<u8>)
    ensures
        ({
            let header = bytes.len() >= 20 && bytes[0] == 0x7f && bytes[1] == 0x45 && bytes[2]
                == 0x4c && bytes[3] == 0x46;
            let low = if bytes[5] == 1 {
                bytes[18]
            } else {
                bytes[19]
            };
            let high = if bytes[5] == 1 {
                bytes[19]
            } else {
                bytes[18]
            };
            let known = header && (bytes[5] == 1 || bytes[5] == 2) && high == 0;
            &&& elf_machine(bytes) == Some(BeamArch::X86_64) <==> known && low == 62
            &&& elf_machine(bytes) == Some(BeamArch::Aarch64) <==> known && low == 183
        }),
{
    let magic = seq![0x7fu8, 0x45u8, 0x4cu8, 0x46u8];
    if bytes.len() >= 20 {
        let front = bytes.take(4);
        assert(front[0] == bytes[0] && front[1] == bytes[1]);
        assert(front[2] == bytes[2] && front[3] == bytes[3]);
        assert(magic[0] == 0x7f && magic[1] == 0x45 && magic[2] == 0x4c && magic[3] == 0x46);
        if bytes[0] == 0x7f && bytes[1] == 0x45 && bytes[2] == 0x4c && bytes[3] == 0x46 {
            assert(front =~= magic);
        }
    }
}

/// An agent is looked for first where the user says, for its own architecture before any, and the one
/// that is built in comes before those beside the program. No place is shared by two architectures
/// but those for any.
pub proof fn lemma_agent_places(arch: BeamArch)
    ensures
        agent_places(arch)[0] == AgentSourceView::Variable(arch.variable()),
        agent_places(arch)[1] == AgentSourceView::Variable("BEAMUP_AGENT_PATH"@),
        agent_places(arch)[2] == AgentSourceView::Relative(
            "target/"@ + arch.triple() + "/release/beamup-agent"@,
        ),
        agent_places(arch)[3] == AgentSourceView::Relative(
            "target/"@ + arch.triple() + "/debug/beamup-agent"@,
        ),
        agent_places(arch)[4] is Embedded,
        agent_places(arch)[5] == AgentSourceView::Sibling("beamup-agent-"@ + arch.name()),
        agent_places(arch)[6] == AgentSourceView::Sibling("beamup-agent"@),
        agent_places(arch).len() == 7,
        arch.triple() == arch.name() + "-unknown-linux-musl"@,
{
    reveal_strlit("/");
    reveal_strlit("release");
    reveal_strlit("debug");
    reveal_strlit("/beamup-agent");
    reveal_strlit("/release/beamup-agent");
    reveal_strlit("/debug/beamup-agent");
    reveal_strlit("x86_64");
    reveal_strlit("aarch64");
    reveal_strlit("-unknown-linux-musl");
    reveal_strlit("x86_64-unknown-linux-musl");
    reveal_strlit("aarch64-unknown-linux-musl");
    let head = "target/"@ + arch.triple();
    assert(built_path(arch.triple(), "release"@) =~= head + "/release/beamup-agent"@);
    assert(built_path(arch.triple(), "debug"@) =~= head + "/debug/beamup-agent"@);
    assert("x86_64-unknown-linux-musl"@ =~= "x86_64"@ + "-unknown-linux-musl"@);
    assert("aarch64-unknown-linux-musl"@ =~= "aarch64"@ + "-unknown-linux-musl"@);
}

} // verus!
