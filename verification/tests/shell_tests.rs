use easypresenter::projector::{OpenOutcome, ProjectorBridge};
use easypresenter::provision::{plan_provision, resolve_db_path, ProvisionDecision, StoreKind};

#[test]
fn existing_database_is_never_overwritten() {
    assert_eq!(plan_provision(true, true), ProvisionDecision::UseExisting);
    assert_eq!(plan_provision(true, false), ProvisionDecision::UseExisting);
}

#[test]
fn first_run_copies_the_seed() {
    assert_eq!(plan_provision(false, true), ProvisionDecision::CopySeed);
}

#[test]
fn missing_seed_on_first_run_is_fatal() {
    assert_eq!(plan_provision(false, false), ProvisionDecision::MissingSeed);
}

#[test]
fn provisioning_twice_keeps_user_edits() {
    // first run: no target, seed present -> copy; the file now exists
    assert_eq!(plan_provision(false, true), ProvisionDecision::CopySeed);
    // second run, after the user wrote rows: the existing file wins
    assert_eq!(plan_provision(true, true), ProvisionDecision::UseExisting);
}

#[test]
fn resolve_db_path_joins_directory_and_name() {
    assert_eq!(
        resolve_db_path("/home/user/.local/share/app", "cantos.db"),
        "/home/user/.local/share/app/cantos.db"
    );
    assert_eq!(resolve_db_path("/data/", "biblias.db"), "/data/biblias.db");
    assert_eq!(resolve_db_path("", "multimedia.db"), "/multimedia.db");
}

#[test]
fn store_kinds_name_their_database_files() {
    assert_eq!(StoreKind::Songs.db_filename(), "cantos.db");
    assert_eq!(StoreKind::Bible.db_filename(), "biblias.db");
    assert_eq!(StoreKind::Multimedia.db_filename(), "multimedia.db");
    assert!(!StoreKind::Songs.is_self_managed());
    assert!(!StoreKind::Bible.is_self_managed());
    assert!(StoreKind::Multimedia.is_self_managed());
}

#[test]
fn open_projector_twice_keeps_one_window() {
    let mut bridge = ProjectorBridge::new();
    let first = bridge.open_projector(2);
    assert_eq!(
        first,
        OpenOutcome::Created {
            fullscreen_on_secondary: true
        }
    );
    let second = bridge.open_projector(2);
    assert_eq!(second, OpenOutcome::FocusedExisting);
    let third = bridge.open_projector(1);
    assert_eq!(third, OpenOutcome::FocusedExisting);
}

#[test]
fn open_projector_single_display_is_windowed() {
    let mut bridge = ProjectorBridge::new();
    assert_eq!(
        bridge.open_projector(1),
        OpenOutcome::Created {
            fullscreen_on_secondary: false
        }
    );
}

#[test]
fn push_before_opening_is_a_silent_no_op() {
    let bridge = ProjectorBridge::new();
    assert!(bridge.push_verse("{\"texto\":\"...\"}").is_none());
    assert!(bridge.push_style("{}").is_none());
    assert!(bridge.push_video_control("pause").is_none());
}

#[test]
fn push_after_opening_forwards_the_payload() {
    let mut bridge = ProjectorBridge::new();
    bridge.open_projector(1);
    let verse = bridge.push_verse("{\"book\":\"Genesis\"}").unwrap();
    assert_eq!(verse.event, "update-proyeccion");
    assert_eq!(verse.payload, "{\"book\":\"Genesis\"}");
    let style = bridge.push_style("{\"font\":\"serif\"}").unwrap();
    assert_eq!(style.event, "update-styles");
    assert_eq!(style.payload, "{\"font\":\"serif\"}");
    let ctl = bridge.push_video_control("play").unwrap();
    assert_eq!(ctl.event, "video-control");
    assert_eq!(ctl.payload, "play");
}
