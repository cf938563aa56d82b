//! The decisions taken, once per pass, for a layout root that waits to be spawned.
use vstd::prelude::*;
use crate::scene::SpawnLayoutError;

verus! {

/// Where a root that waits to be spawned stands.
#[derive(Clone, Copy, Debug, PartialEq, Eq, Structural)]
pub enum PendingStatus {
    AwaitingCreation,
    /// Never retried.
    Failed,
}

/// The load state of an asset, or of its dependencies taken together.
#[derive(Clone, Copy, Debug, PartialEq, Eq, Structural)]
pub enum LoadState {
    NotLoaded,
    Loading,
    Loaded,
    Failed,
}

/// What to do with a waiting root in this pass.
#[derive(Clone, Copy, Debug, PartialEq, Eq, Structural)]
pub enum PendingAction {
    /// It has failed before: leave it.
    Skip,
    /// Something is still loading: try again in a later pass.
    Wait,
    /// The asset or one of its dependencies failed, or its state is gone.
    MarkFailed,
    /// Everything is loaded: spawn it.
    Spawn,
}

pub open spec fn pending_action_spec(
    status: PendingStatus,
    load: Option<LoadState>,
    dependencies: Option<LoadState>,
) -> PendingAction {
    if status == PendingStatus::Failed {
        PendingAction::Skip
    } else if load is None || load == Some(LoadState::Failed) {
        PendingAction::MarkFailed
    } else if dependencies is None || dependencies == Some(LoadState::Failed) {
        PendingAction::MarkFailed
    } else if dependencies == Some(LoadState::Loaded) {
        PendingAction::Spawn
    } else {
        PendingAction::Wait
    }
}

/// Decides what to do with a waiting root from its status, the load state of
/// its layout and that of the layout's dependencies (none once the asset's
/// state is gone).
pub fn pending_root_action(
    status: PendingStatus,
    load: Option<LoadState>,
    dependencies: Option<LoadState>,
) -> (r: PendingAction)
    ensures
        r == pending_action_spec(status, load, dependencies),
{
    if let PendingStatus::Failed = status {
        return PendingAction::Skip;
    }
    match load {
        None | Some(LoadState::Failed) => {
            return PendingAction::MarkFailed;
        },
        _ => {},
    }
    match dependencies {
        None | Some(LoadState::Failed) => PendingAction::MarkFailed,
        Some(LoadState::Loaded) => PendingAction::Spawn,
        _ => PendingAction::Wait,
    }
}

/// The status of a root after an attempt to spawn it: none once spawned; a
/// layout that is still loading is tried again, a cyclic one never.
pub fn status_after_spawn(result: Result<(), SpawnLayoutError>) -> (r: Option<PendingStatus>)
    ensures
        r == match result {
            Ok(()) => None,
            Err(SpawnLayoutError::NotLoaded) => Some(PendingStatus::AwaitingCreation),
            Err(SpawnLayoutError::Cyclic) => Some(PendingStatus::Failed),
        },
{
    match result {
        Ok(()) => None,
        Err(SpawnLayoutError::NotLoaded) => Some(PendingStatus::AwaitingCreation),
        Err(SpawnLayoutError::Cyclic) => Some(PendingStatus::Failed),
    }
}

} // verus!
