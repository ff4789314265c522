//! The steps of a clone and what follows from the outcome of each.
use vstd::prelude::*;
use vstd::string::*;

verus! {

/// How far a clone has come.
#[derive(Debug, Clone, Copy, PartialEq, Eq, Structural)]
pub enum CloneState {
    Init,
    TargetValidated,
    GitDirCreated,
    RefsFetched,
    RefsParsed,
    NegotiationPosted,
    PackStreaming,
    PackPersisted,
    Done,
    /// A step failed, or the clone was interrupted.
    Failed,
}

/// What happened to the step that a clone was taking.
#[derive(Debug, Clone, Copy, PartialEq, Eq, Structural)]
pub enum CloneEvent {
    /// The step succeeded.
    StepDone,
    /// The step failed.
    StepFailed,
    /// The user interrupted the clone.
    Interrupted,
}

/// What the caller does next.
#[derive(Debug, Clone, Copy, PartialEq, Eq, Structural)]
pub enum CloneAction {
    /// Check that the target is absent or empty, and install the handler
    /// for interrupts.
    ValidateTarget,
    /// Create the target and the repository directory in it.
    CreateGitDir,
    /// Ask the server for its reference advertisement.
    FetchRefs,
    /// Read the advertisement.
    ParseRefs,
    /// Post the fetch request.
    PostNegotiation,
    /// Read the response up to the pack.
    StreamPack,
    /// Write the pack and the references.
    PersistPack,
    /// Nothing is left to do.
    Finish,
    /// Give up; the target was not touched.
    Fail,
    /// Remove the target directory and give up.
    RemoveTargetAndFail,
    /// Remove the target directory and exit with the status of an
    /// interrupt.
    RemoveTargetAndExit,
}

/// The status with which an interrupted clone exits.
pub const INTERRUPT_EXIT_STATUS: i32 = 130;

/// Whether the target directory may exist in a state: from the creation
/// of the repository directory on.
pub open spec fn target_created(state: CloneState) -> bool {
    match state {
        CloneState::Init => false,
        CloneState::TargetValidated => false,
        CloneState::Done => false,
        CloneState::Failed => false,
        _ => true,
    }
}

/// Whether the handler for interrupts is installed in a state: from the
/// validation of the target up to the end.
pub open spec fn handler_installed(state: CloneState) -> bool {
    match state {
        CloneState::Init => false,
        CloneState::Done => false,
        CloneState::Failed => false,
        _ => true,
    }
}

/// The state that follows a state when its step succeeds.
pub open spec fn next_state(state: CloneState) -> CloneState {
    match state {
        CloneState::Init => CloneState::TargetValidated,
        CloneState::TargetValidated => CloneState::GitDirCreated,
        CloneState::GitDirCreated => CloneState::RefsFetched,
        CloneState::RefsFetched => CloneState::RefsParsed,
        CloneState::RefsParsed => CloneState::NegotiationPosted,
        CloneState::NegotiationPosted => CloneState::PackStreaming,
        CloneState::PackStreaming => CloneState::PackPersisted,
        CloneState::PackPersisted => CloneState::Done,
        CloneState::Done => CloneState::Done,
        CloneState::Failed => CloneState::Failed,
    }
}

/// The step that is taken in a state.
pub open spec fn action_in(state: CloneState) -> CloneAction {
    match state {
        CloneState::Init => CloneAction::ValidateTarget,
        CloneState::TargetValidated => CloneAction::CreateGitDir,
        CloneState::GitDirCreated => CloneAction::FetchRefs,
        CloneState::RefsFetched => CloneAction::ParseRefs,
        CloneState::RefsParsed => CloneAction::PostNegotiation,
        CloneState::NegotiationPosted => CloneAction::StreamPack,
        CloneState::PackStreaming => CloneAction::PersistPack,
        CloneState::PackPersisted => CloneAction::Finish,
        CloneState::Done => CloneAction::Finish,
        CloneState::Failed => CloneAction::Fail,
    }
}

/// What follows an event in a state: the next state and what to do. A
/// step that succeeds leads to the next state and its step. A step that
/// fails ends the clone, and the target is removed where it may have been
/// created. An interrupt ends the clone where the handler is installed,
/// and the target is removed.
pub open spec fn after_event(state: CloneState, event: CloneEvent) -> (CloneState, CloneAction) {
    if state == CloneState::Done || state == CloneState::Failed {
        (state, action_in(state))
    } else {
        match event {
            CloneEvent::StepDone => (next_state(state), action_in(next_state(state))),
            CloneEvent::StepFailed => if target_created(state) {
                (CloneState::Failed, CloneAction::RemoveTargetAndFail)
            } else {
                (CloneState::Failed, CloneAction::Fail)
            },
            CloneEvent::Interrupted => if handler_installed(state) {
                (CloneState::Failed, CloneAction::RemoveTargetAndExit)
            } else {
                (state, action_in(state))
            },
        }
    }
}

/// The step that is taken in a state.
pub fn clone_action(state: CloneState) -> (action: CloneAction)
    ensures
        action == action_in(state),
{
    match state {
        CloneState::Init => CloneAction::ValidateTarget,
        CloneState::TargetValidated => CloneAction::CreateGitDir,
        CloneState::GitDirCreated => CloneAction::FetchRefs,
        CloneState::RefsFetched => CloneAction::ParseRefs,
        CloneState::RefsParsed => CloneAction::PostNegotiation,
        CloneState::NegotiationPosted => CloneAction::StreamPack,
        CloneState::PackStreaming => CloneAction::PersistPack,
        CloneState::PackPersisted => CloneAction::Finish,
        CloneState::Done => CloneAction::Finish,
        CloneState::Failed => CloneAction::Fail,
    }
}

/// What follows an event in a state.
pub fn clone_step(state: CloneState, event: CloneEvent) -> (r: (CloneState, CloneAction))
    ensures
        r == after_event(state, event),
{
    let next = match state {
        CloneState::Init => CloneState::TargetValidated,
        CloneState::TargetValidated => CloneState::GitDirCreated,
        CloneState::GitDirCreated => CloneState::RefsFetched,
        CloneState::RefsFetched => CloneState::RefsParsed,
        CloneState::RefsParsed => CloneState::NegotiationPosted,
        CloneState::NegotiationPosted => CloneState::PackStreaming,
        CloneState::PackStreaming => CloneState::PackPersisted,
        CloneState::PackPersisted => CloneState::Done,
        CloneState::Done => {
            return (CloneState::Done, CloneAction::Finish);
        },
        CloneState::Failed => {
            return (CloneState::Failed, CloneAction::Fail);
        },
    };
    let created = match state {
        CloneState::Init => false,
        CloneState::TargetValidated => false,
        _ => true,
    };
    let installed = match state {
        CloneState::Init => false,
        _ => true,
    };
    match event {
        CloneEvent::StepDone => (next, clone_action(next)),
        CloneEvent::StepFailed => {
            if created {
                (CloneState::Failed, CloneAction::RemoveTargetAndFail)
            } else {
                (CloneState::Failed, CloneAction::Fail)
            }
        },
        CloneEvent::Interrupted => {
            if installed {
                (CloneState::Failed, CloneAction::RemoveTargetAndExit)
            } else {
                (state, clone_action(state))
            }
        },
    }
}

/// A clone that is left alone runs through its states: eight successful
/// steps lead from the first state to the last.
pub proof fn law_clone_reaches_done()
    ensures
        next_state(
            next_state(
                next_state(
                    next_state(
                        next_state(next_state(next_state(next_state(CloneState::Init)))),
                    ),
                ),
            ),
        ) == CloneState::Done,
{
}

/// A failure or an interrupt after the repository directory was created
/// always removes the target.
pub proof fn law_failure_cleans_up(state: CloneState, event: CloneEvent)
    requires
        target_created(state),
        event != CloneEvent::StepDone,
    ensures
        after_event(state, event).0 == CloneState::Failed,
        after_event(state, event).1 == CloneAction::RemoveTargetAndFail || after_event(
            state,
            event,
        ).1 == CloneAction::RemoveTargetAndExit,
{
}

/// Why a clone cannot start.
#[derive(Debug, Clone, Copy, PartialEq, Eq, Structural)]
pub enum TargetError {
    /// The target exists and is no directory.
    NotADirectory,
    /// The target is a directory that holds something.
    NotEmpty,
}

/// Whether a clone may go to a target: it does not exist, or it is an
/// empty directory.
pub fn validate_target_dir_empty_or_missing(exists: bool, is_dir: bool, is_empty: bool) -> (r:
    Result<(), TargetError>)
    ensures
        r == (if !exists {
            Ok::<(), TargetError>(())
        } else if !is_dir {
            Err(TargetError::NotADirectory)
        } else if !is_empty {
            Err(TargetError::NotEmpty)
        } else {
            Ok(())
        }),
{
    if exists {
        if !is_dir {
            return Err(TargetError::NotADirectory);
        }
        if !is_empty {
            return Err(TargetError::NotEmpty);
        }
    }
    Ok(())
}

/// The events for which a handler can be registered.
pub enum EventName {
    CtrlC,
}

impl EventName {
    /// The name of the event.
    pub fn as_str(&self) -> (name: &'static str)
        ensures
            name@ == "ctrlc"@,
    {
        match self {
            EventName::CtrlC => "ctrlc",
        }
    }
}

} // verus!
