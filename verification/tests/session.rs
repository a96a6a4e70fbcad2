use beamup::messages::{is_inline, SyncDirection};
use beamup::session::{
    log_filter, mebibytes, resolve_beam, status_lines, uuid_simple, AfterInitialSync,
    CliSyncDirection, DownArgs, Session, StartArgs,
};

fn session() -> Session {
    Session {
        beam_id: "kinetic-vault".to_string(),
        local_dir: "/w".to_string(),
        remote_dir: "/home/beams/sync".to_string(),
    }
}

fn start(console: bool, oneshot: bool) -> StartArgs {
    StartArgs {
        local_path: None,
        beam: None,
        remote_path: "/home/beams/sync".to_string(),
        no_initial_sync: false,
        concurrency: 8,
        exclude: Vec::new(),
        chunk_size: 64,
        console,
        oneshot,
        initial_sync: CliSyncDirection::Bidirectional,
        ongoing_sync: CliSyncDirection::Bidirectional,
    }
}

#[test]
fn named_beam_comes_before_the_session() {
    assert_eq!(resolve_beam(Some("x".to_string()), Some(session())).unwrap(), "x");
    assert_eq!(resolve_beam(None, Some(session())).unwrap(), "kinetic-vault");
    assert!(resolve_beam(None, None).is_err());
}

#[test]
fn status_is_told() {
    assert_eq!(
        status_lines(&Some(session())),
        vec![
            "Beam:       kinetic-vault",
            "Local:      /w",
            "Remote:     /home/beams/sync",
            "Status:     active",
        ]
    );
    assert_eq!(status_lines(&None), vec!["No active beamup session."]);
}

#[test]
fn directions_of_the_command_line() {
    assert_eq!(SyncDirection::from(CliSyncDirection::LocalToBeam), SyncDirection::LocalToBeam);
    assert_eq!(SyncDirection::from(CliSyncDirection::BeamToLocal), SyncDirection::BeamToLocal);
    assert_eq!(SyncDirection::from(CliSyncDirection::Bidirectional), SyncDirection::Bidirectional);
    assert!(SyncDirection::LocalToBeam.should_push() && !SyncDirection::LocalToBeam.should_pull());
    assert!(!SyncDirection::BeamToLocal.should_push() && SyncDirection::BeamToLocal.should_pull());
    assert!(SyncDirection::Bidirectional.should_push());
    assert!(SyncDirection::Bidirectional.should_pull());
}

#[test]
fn sizes_in_mebibytes() {
    assert_eq!(mebibytes(64), Some(67_108_864));
    assert_eq!(mebibytes(usize::MAX), None);
}

#[test]
fn what_follows_the_initial_sync() {
    assert_eq!(start(false, false).after_initial_sync(), AfterInitialSync::Continue);
    assert_eq!(start(true, false).after_initial_sync(), AfterInitialSync::Console);
    assert_eq!(start(true, true).after_initial_sync(), AfterInitialSync::PrintAndExit);
    let down = DownArgs { beam: None, keep_beam: true, force: false };
    assert!(!down.destroys_beam());
}

#[test]
fn log_levels() {
    assert_eq!(log_filter(true, true), "beamup=debug,beamup_protocol=debug");
    assert_eq!(log_filter(false, true), "error");
    assert_eq!(log_filter(false, false), "beamup=info");
}

#[test]
fn session_ids_are_hexadecimal() {
    assert_eq!(uuid_simple(0x1f), "1f");
    assert_eq!(uuid_simple(0), "0");
}

#[test]
fn inline_below_the_threshold() {
    assert!(is_inline(65_535));
    assert!(!is_inline(65_536));
}

#[test]
fn initial_sync_can_be_left_out() {
    assert!(start(false, false).syncs_initially());
    assert!(!StartArgs { no_initial_sync: true, ..start(false, false) }.syncs_initially());
}
