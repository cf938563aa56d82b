use yabuil::pending::{pending_root_action, status_after_spawn, LoadState, PendingAction, PendingStatus};
use yabuil::scene::SpawnLayoutError;

#[test]
fn failed_roots_are_skipped() {
    let a = pending_root_action(PendingStatus::Failed, Some(LoadState::Loaded), Some(LoadState::Loaded));
    assert_eq!(a, PendingAction::Skip);
}

#[test]
fn failures_mark_the_root() {
    let s = PendingStatus::AwaitingCreation;
    assert_eq!(pending_root_action(s, None, Some(LoadState::Loaded)), PendingAction::MarkFailed);
    assert_eq!(pending_root_action(s, Some(LoadState::Failed), Some(LoadState::Loaded)), PendingAction::MarkFailed);
    assert_eq!(pending_root_action(s, Some(LoadState::Loaded), None), PendingAction::MarkFailed);
    assert_eq!(pending_root_action(s, Some(LoadState::Loaded), Some(LoadState::Failed)), PendingAction::MarkFailed);
}

#[test]
fn loading_waits_and_loaded_spawns() {
    let s = PendingStatus::AwaitingCreation;
    assert_eq!(pending_root_action(s, Some(LoadState::Loading), Some(LoadState::Loading)), PendingAction::Wait);
    assert_eq!(pending_root_action(s, Some(LoadState::Loaded), Some(LoadState::NotLoaded)), PendingAction::Wait);
    assert_eq!(pending_root_action(s, Some(LoadState::Loaded), Some(LoadState::Loaded)), PendingAction::Spawn);
}

#[test]
fn spawn_results() {
    assert_eq!(status_after_spawn(Ok(())), None);
    assert_eq!(status_after_spawn(Err(SpawnLayoutError::NotLoaded)), Some(PendingStatus::AwaitingCreation));
    assert_eq!(status_after_spawn(Err(SpawnLayoutError::Cyclic)), Some(PendingStatus::Failed));
}
