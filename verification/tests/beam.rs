use beamup::beam::{
    after_attempt, agent_sources, beam_exists, choose_embedded, elf_arch, give_up_text, is_blank,
    no_agent_text, set_identity_file, AgentSource, AgentStderr, Attempt, Beam, BeamArch, BeamInfo,
    Embedding, TshIdentity, WrongArch,
};

fn texts(items: &[&str]) -> Vec<String> {
    items.iter().map(|s| s.to_string()).collect()
}

#[test]
fn stderr_is_bounded() {
    let mut log = AgentStderr::new();
    assert_eq!(log.contents(), None);
    log.push("one".to_string());
    assert!(log.take_line(&"two".to_string()));
    assert!(!log.take_line(&"  \t".to_string()));
    assert_eq!(log.contents().as_deref(), Some("one\ntwo"));
    for _ in 0..200 {
        log.push("x".to_string());
    }
    assert_eq!(log.contents().unwrap().lines().count(), 100);
}

#[test]
fn identity_is_set_once() {
    let mut id = TshIdentity::new();
    assert_eq!(id.tsh_args(texts(&["ls"])), texts(&["ls"]));
    set_identity_file(&mut id, Some("/id".to_string()), None);
    set_identity_file(&mut id, Some("/other".to_string()), Some("p:443".to_string()));
    assert_eq!(id.tsh_args(texts(&["ls"])), texts(&["-i", "/id", "ls"]));
    let mut id = TshIdentity::new();
    set_identity_file(&mut id, Some("/id".to_string()), Some("p:443".to_string()));
    assert_eq!(id.tsh_args(texts(&["x"])), texts(&["-i", "/id", "--proxy", "p:443", "x"]));
}

#[test]
fn calls_of_tsh() {
    assert_eq!(Beam::create_args(), texts(&["beams", "add", "--format=json"]));
    assert_eq!(Beam::list_args(), texts(&["beams", "ls", "--format=json"]));
    assert_eq!(Beam::destroy_args("b"), texts(&["beams", "rm", "b"]));
    assert_eq!(Beam::console_args("b"), texts(&["beams", "console", "b"]));
    assert_eq!(
        Beam::exec_args("b", texts(&["ls", "-l"])),
        texts(&["beams", "exec", "b", "--", "ls", "-l"])
    );
    assert_eq!(Beam::shell_args("b", "a && c"), texts(&["beams", "exec", "b", "--", "a && c"]));
    assert_eq!(Beam::uname_args("b"), texts(&["beams", "exec", "b", "--", "uname", "-m"]));
    assert_eq!(
        Beam::serve_args("b", "/s"),
        texts(&["beams", "exec", "b", "--", "/tmp/beamup-agent", "--serve", "--watch-dir", "/s"])
    );
    assert_eq!(Beam::scp_push_args("b", "l", "/r"), texts(&["beams", "scp", "l", "b:/r"]));
    assert_eq!(Beam::scp_pull_args("b", "/r", "l"), texts(&["beams", "scp", "b:/r", "l"]));
}

#[test]
fn retries_back_off() {
    assert_eq!(after_attempt(0, true), Attempt::Done);
    assert_eq!(after_attempt(0, false), Attempt::Retry { retry: 1, wait_ms: 1000 });
    assert_eq!(after_attempt(1, false), Attempt::Retry { retry: 2, wait_ms: 2000 });
    assert_eq!(after_attempt(2, false), Attempt::Retry { retry: 3, wait_ms: 4000 });
    assert_eq!(after_attempt(3, false), Attempt::GiveUp);
    assert_eq!(
        give_up_text("scp push failed for a", Some("e".to_string())),
        "scp push failed for a after 3 retries: e"
    );
    assert_eq!(give_up_text("x", None), "x after 3 retries: ");
}

#[test]
fn architectures_are_read() {
    assert_eq!(BeamArch::parse(" x86_64\n").unwrap(), BeamArch::X86_64);
    assert_eq!(BeamArch::parse("amd64").unwrap(), BeamArch::X86_64);
    assert_eq!(BeamArch::parse("aarch64").unwrap(), BeamArch::Aarch64);
    assert_eq!(BeamArch::parse("arm64").unwrap(), BeamArch::Aarch64);
    assert_eq!(BeamArch::parse("riscv64 ").unwrap_err().name, "riscv64");
    for arch in [BeamArch::X86_64, BeamArch::Aarch64] {
        assert_eq!(BeamArch::parse(arch.as_str()).unwrap(), arch);
    }
    assert_eq!(BeamArch::X86_64.target_triple(), "x86_64-unknown-linux-musl");
    assert_eq!(BeamArch::Aarch64.target_triple(), "aarch64-unknown-linux-musl");
    assert_eq!(BeamArch::Aarch64.embedded(&[1], &[2]), &[2]);
    assert_eq!(BeamArch::X86_64.embedded(&[1], &[2]), &[1]);
}

#[test]
fn last_line_of_the_answer_counts() {
    assert_eq!(BeamArch::detect("connecting...\naarch64\n\n").unwrap(), BeamArch::Aarch64);
    assert_eq!(BeamArch::detect("x86_64\r\n").unwrap(), BeamArch::X86_64);
    assert_eq!(BeamArch::detect("").unwrap_err().name, "");
    assert_eq!(BeamArch::detect("x86_64\nmips\n").unwrap_err().name, "mips");
}

#[test]
fn agents_are_looked_for_in_order() {
    let sources = agent_sources(BeamArch::X86_64);
    assert_eq!(sources.len(), 7);
    assert!(matches!(&sources[0], AgentSource::Variable(v) if v == "BEAMUP_AGENT_PATH_X86_64"));
    assert!(matches!(&sources[1], AgentSource::Variable(v) if v == "BEAMUP_AGENT_PATH"));
    assert!(matches!(
        &sources[2],
        AgentSource::Relative(p) if p == "target/x86_64-unknown-linux-musl/release/beamup-agent"
    ));
    assert!(matches!(
        &sources[3],
        AgentSource::Relative(p) if p == "target/x86_64-unknown-linux-musl/debug/beamup-agent"
    ));
    assert!(matches!(&sources[4], AgentSource::Embedded));
    assert!(matches!(&sources[5], AgentSource::Sibling(n) if n == "beamup-agent-x86_64"));
    assert!(matches!(&sources[6], AgentSource::Sibling(n) if n == "beamup-agent"));
    assert_eq!(
        no_agent_text(BeamArch::Aarch64),
        "no beamup-agent binary for beam architecture aarch64. Build it with:\n  \
         cargo build --release --target aarch64-unknown-linux-musl -p beamup-agent\n\
         Or set BEAMUP_AGENT_PATH_AARCH64 to point to the binary."
    );
}

#[test]
fn executables_tell_their_architecture() {
    let mut elf = vec![0u8; 20];
    elf[..4].copy_from_slice(b"\x7fELF");
    elf[5] = 1;
    elf[18] = 0x3e;
    assert_eq!(elf_arch(&elf), Some(BeamArch::X86_64));
    elf[18] = 0xb7;
    assert_eq!(elf_arch(&elf), Some(BeamArch::Aarch64));
    elf[5] = 2;
    assert_eq!(elf_arch(&elf), None);
    elf[18] = 0;
    elf[19] = 0xb7;
    assert_eq!(elf_arch(&elf), Some(BeamArch::Aarch64));
    elf[5] = 3;
    assert_eq!(elf_arch(&elf), None);
    assert_eq!(elf_arch(&elf[..19]), None);
    elf[1] = b'e';
    assert_eq!(elf_arch(&elf), None);
}

#[test]
fn beams_are_found_by_name() {
    let beams = vec![BeamInfo { id: "a".to_string() }, BeamInfo { id: "b".to_string() }];
    assert!(beam_exists(&beams, "b"));
    assert!(!beam_exists(&beams, "c"));
    assert!(is_blank(" \n"));
    assert!(!is_blank("[]"));
}

#[test]
fn embedded_agent_fits_the_architecture() {
    let (x, a) = (BeamArch::X86_64, BeamArch::Aarch64);
    assert_eq!(
        choose_embedded(x, Some(Some(a)), None, true, true),
        Err(WrongArch { found: a })
    );
    assert_eq!(choose_embedded(x, Some(None), None, true, true), Ok(Embedding::OwnVariable));
    assert_eq!(choose_embedded(x, Some(Some(x)), None, true, true), Ok(Embedding::OwnVariable));
    assert_eq!(
        choose_embedded(x, None, Some(Some(x)), true, true),
        Ok(Embedding::CommonVariable)
    );
    assert_eq!(choose_embedded(x, None, Some(Some(a)), true, true), Ok(Embedding::Release));
    assert_eq!(choose_embedded(x, None, Some(None), false, true), Ok(Embedding::Debug));
    assert_eq!(choose_embedded(x, None, None, false, false), Ok(Embedding::Nothing));
}
