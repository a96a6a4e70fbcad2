//! Deploying the agent to a beam.

use crate::text::views;
use flate2::write::GzEncoder;
use flate2::Compression;
use std::io::Write;
use vstd::prelude::*;
use vstd::string::StringExecFns;

verus! {

/// The largest agent, in bytes, that is copied as it is.
pub const PLAIN_AGENT_LIMIT: u64 = 50 * 1024 * 1024;

/// The error of std's readers and writers.
#[verifier::external_type_specification]
#[verifier::external_body]
pub struct ExIoError(std::io::Error);

/// The bytes that a gzip file holds, where it is one: what `flate2::read::GzDecoder` reads.
pub uninterp spec fn gz_contents(file: Seq<u8>) -> Option<Seq<u8>>;

/// `flate2::write::GzEncoder`, at the fast level, writes its input as a gzip file into a vector. It
/// fails only where a write does, and a vector grows as needed. The file holds the input. With which
/// bytes is left open: that depends on the capacity that the encoder's own buffer was given.
#[verifier::external_body]
fn gz_encode(data: &[u8]) -> (r: Result<Vec<u8>, std::io::Error>)
    ensures
        r is Ok,
        gz_contents(r->Ok_0@) == Some(data@),
{
    let mut encoder = GzEncoder::new(Vec::new(), Compression::fast());
    encoder.write_all(data)?;
    encoder.finish()
}

/// The agent could not be compressed.
#[derive(Debug)]
pub struct GzipFailed;

/// Compresses the agent.
pub fn gzip(data: &[u8]) -> (r: Result<Vec<u8>, GzipFailed>)
    ensures
        r matches Ok(file) && gz_contents(file@) == Some(data@),
{
    packed_agent(gz_encode(data))
}

/// The compressed agent, by what the encoder gave: its file, or that it failed.
pub fn packed_agent(encoded: Result<Vec<u8>, std::io::Error>) -> (r: Result<Vec<u8>, GzipFailed>)
    ensures
        match encoded {
            Ok(file) => r == Ok::<Vec<u8>, GzipFailed>(file),
            Err(_) => r == Err::<Vec<u8>, GzipFailed>(GzipFailed),
        },
{
    match encoded {
        Ok(file) => Ok(file),
        Err(_) => Err(GzipFailed),
    }
}

/// One step of a deployment.
pub enum DeployStep {
    /// Run a shell command; whether it succeeds does not matter.
    Try(String),
    /// Run a shell command.
    Run(String),
    /// Copy the agent to this path.
    Copy(String),
    /// Copy the compressed agent to this path.
    CopyCompressed(String),
}

/// What a [`DeployStep`] says.
#[verifier::ext_equal]
pub enum DeployStepView {
    Try(Seq<char>),
    Run(Seq<char>),
    Copy(Seq<char>),
    CopyCompressed(Seq<char>),
}

impl View for DeployStep {
    type V = DeployStepView;

    open spec fn view(&self) -> DeployStepView {
        match *self {
            DeployStep::Try(command) => DeployStepView::Try(command@),
            DeployStep::Run(command) => DeployStepView::Run(command@),
            DeployStep::Copy(path) => DeployStepView::Copy(path@),
            DeployStep::CopyCompressed(path) => DeployStepView::CopyCompressed(path@),
        }
    }
}

/// How an agent of `size` bytes gets to a beam.
pub open spec fn deployment(size: u64) -> Seq<DeployStepView> {
    let clean = DeployStepView::Try(
        "rm -rf /tmp/beamup-agent /tmp/beamup-xfer && mkdir -p /tmp/beamup-xfer"@,
    );
    if size <= PLAIN_AGENT_LIMIT {
        seq![
            clean,
            DeployStepView::Copy("/tmp/beamup-agent"@),
            DeployStepView::Run("chmod +x /tmp/beamup-agent"@),
        ]
    } else {
        seq![
            clean,
            DeployStepView::CopyCompressed("/tmp/beamup-agent.gz"@),
            DeployStepView::Run(
                "gunzip -f /tmp/beamup-agent.gz && chmod +x /tmp/beamup-agent"@,
            ),
        ]
    }
}

/// How an agent of `size` bytes gets to a beam.
pub fn deploy_steps(size: u64) -> (steps: Vec<DeployStep>)
    ensures
        views(steps@) == deployment(size),
{
    let mut steps: Vec<DeployStep> = Vec::new();
    steps.push(
        DeployStep::Try(
            String::from_str(
                "rm -rf /tmp/beamup-agent /tmp/beamup-xfer && mkdir -p /tmp/beamup-xfer",
            ),
        ),
    );
    if size <= PLAIN_AGENT_LIMIT {
        steps.push(DeployStep::Copy(String::from_str("/tmp/beamup-agent")));
        steps.push(DeployStep::Run(String::from_str("chmod +x /tmp/beamup-agent")));
    } else {
        steps.push(DeployStep::CopyCompressed(String::from_str("/tmp/beamup-agent.gz")));
        steps.push(
            DeployStep::Run(
                String::from_str("gunzip -f /tmp/beamup-agent.gz && chmod +x /tmp/beamup-agent"),
            ),
        );
    }
    assert(views(steps@) =~= deployment(size));
    steps
}

/// Whatever its size, the agent is copied: up to 50 MiB as it is, and beyond compressed. Before that
/// the leftovers of an earlier one are removed, and after it the agent is made executable.
pub proof fn lemma_agent_is_deployed(size: u64)
    ensures
        deployment(size).len() == 3,
        deployment(size)[0] == DeployStepView::Try(
            "rm -rf /tmp/beamup-agent /tmp/beamup-xfer && mkdir -p /tmp/beamup-xfer"@,
        ),
        size <= 52_428_800 ==> deployment(size)[1] == DeployStepView::Copy("/tmp/beamup-agent"@)
            && deployment(size)[2] == DeployStepView::Run("chmod +x /tmp/beamup-agent"@),
        size > 52_428_800 ==> deployment(size)[1] == DeployStepView::CopyCompressed(
            "/tmp/beamup-agent.gz"@,
        ) && deployment(size)[2] == DeployStepView::Run(
            "gunzip -f /tmp/beamup-agent.gz && chmod +x /tmp/beamup-agent"@,
        ),
{
}

} // verus!
