use std::io::Read;

use beamup::deploy::{
    deploy_steps, gzip, packed_agent, DeployStep, GzipFailed, PLAIN_AGENT_LIMIT,
};

#[test]
fn small_agent_is_copied_as_it_is() {
    let steps = deploy_steps(PLAIN_AGENT_LIMIT);
    assert_eq!(steps.len(), 3);
    assert!(matches!(
        &steps[0],
        DeployStep::Try(c)
            if c == "rm -rf /tmp/beamup-agent /tmp/beamup-xfer && mkdir -p /tmp/beamup-xfer"
    ));
    assert!(matches!(&steps[1], DeployStep::Copy(p) if p == "/tmp/beamup-agent"));
    assert!(matches!(&steps[2], DeployStep::Run(c) if c == "chmod +x /tmp/beamup-agent"));
}

#[test]
fn large_agent_is_compressed() {
    let steps = deploy_steps(PLAIN_AGENT_LIMIT + 1);
    assert!(matches!(&steps[1], DeployStep::CopyCompressed(p) if p == "/tmp/beamup-agent.gz"));
    assert!(matches!(
        &steps[2],
        DeployStep::Run(c) if c == "gunzip -f /tmp/beamup-agent.gz && chmod +x /tmp/beamup-agent"
    ));
}

#[test]
fn compressed_agent_can_be_unpacked() {
    let data: Vec<u8> = (0..100_000u32).map(|i| (i % 200) as u8).collect();
    let file = gzip(&data).unwrap();
    assert!(file.len() < data.len());
    let mut back = Vec::new();
    flate2::read::GzDecoder::new(&file[..]).read_to_end(&mut back).unwrap();
    assert_eq!(back, data);
}

#[test]
fn encoder_decides_whether_the_agent_is_packed() {
    assert!(matches!(packed_agent(Ok(vec![31, 139])), Ok(file) if file == vec![31, 139]));
    let full = std::io::Error::from(std::io::ErrorKind::WriteZero);
    assert!(matches!(packed_agent(Err(full)), Err(GzipFailed)));
}
