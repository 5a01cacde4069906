//! The decisions of XeTeX's error handling: where messages go, how the
//! history of a run gets worse, and when a run must stop.
use vstd::prelude::*;

verus! {

/// How badly a run has gone so far, from best to worst.
#[derive(Clone, Copy, Debug, PartialEq, Eq, Structural)]
pub enum TTHistory {
    Spotless,
    WarningIssued,
    ErrorIssued,
    FatalError,
}

/// The rank of a history value.
pub open spec fn history_rank(h: TTHistory) -> int {
    match h {
        TTHistory::Spotless => 0,
        TTHistory::WarningIssued => 1,
        TTHistory::ErrorIssued => 2,
        TTHistory::FatalError => 3,
    }
}

fn history_rank_of(h: TTHistory) -> (r: u8)
    ensures
        r == history_rank(h),
{
    match h {
        TTHistory::Spotless => 0,
        TTHistory::WarningIssued => 1,
        TTHistory::ErrorIssued => 2,
        TTHistory::FatalError => 3,
    }
}

/// How much the user is asked to interact.
#[derive(Clone, Copy, Debug, PartialEq, Eq, Structural)]
pub enum InteractionMode {
    Batch,
    NonStop,
    Scroll,
    ErrorStop,
}

/// Output goes nowhere.
pub const NO_PRINT: u8 = 16;
/// Output goes to the terminal.
pub const TERM_ONLY: u8 = 17;
/// Output goes to the log file.
pub const LOG_ONLY: u8 = 18;
/// Output goes to the terminal and the log file.
pub const TERM_AND_LOG: u8 = 19;

/// Where an error message goes: to the terminal and the log where the log
/// is open, else to the terminal; in batch mode not to the terminal.
pub fn error_message_selector(log_opened: bool, interaction: InteractionMode) -> (r: u8)
    ensures
        r == if log_opened {
            if interaction == InteractionMode::Batch { LOG_ONLY } else { TERM_AND_LOG }
        } else {
            if interaction == InteractionMode::Batch { NO_PRINT } else { TERM_ONLY }
        },
{
    let selector = if log_opened { TERM_AND_LOG } else { TERM_ONLY };
    if interaction == InteractionMode::Batch {
        selector - 1
    } else {
        selector
    }
}

/// The state that error handling reads and changes.
#[derive(Clone, Copy, Debug, PartialEq, Eq, Structural)]
pub struct ErrorState {
    pub history: TTHistory,
    pub error_count: u8,
    pub halt_on_error: bool,
}

/// What happens after a recoverable error.
#[derive(Clone, Copy, Debug, PartialEq, Eq, Structural)]
pub enum ErrorOutcome {
    /// The run goes on, after the help lines are shown.
    Continue,
    /// The run stops, as asked on the command line.
    HaltOnError,
    /// The run stops at the hundredth error.
    TooManyErrors,
}

/// A recoverable error: the history becomes at least "error issued"; the
/// run stops where it was asked to halt on errors (the history then being
/// fatal), else the error is counted, and the hundredth one stops it too.
pub fn error(state: &mut ErrorState) -> (r: ErrorOutcome)
    requires
        old(state).error_count < 100,
    ensures
        final(state).halt_on_error == old(state).halt_on_error,
        old(state).halt_on_error ==> {
            &&& r == ErrorOutcome::HaltOnError
            &&& final(state).history == TTHistory::FatalError
            &&& final(state).error_count == old(state).error_count
        },
        !old(state).halt_on_error ==> {
            &&& final(state).error_count == old(state).error_count + 1
            &&& if final(state).error_count == 100 {
                r == ErrorOutcome::TooManyErrors && final(state).history == TTHistory::FatalError
            } else {
                &&& r == ErrorOutcome::Continue
                &&& history_rank(final(state).history) == if history_rank(old(state).history) < 2 {
                    2
                } else {
                    history_rank(old(state).history)
                }
            }
        },
{
    if history_rank_of(state.history) < 2 {
        state.history = TTHistory::ErrorIssued;
    }
    if state.halt_on_error {
        state.history = TTHistory::FatalError;
        return ErrorOutcome::HaltOnError;
    }
    state.error_count = state.error_count + 1;
    if state.error_count == 100 {
        state.history = TTHistory::FatalError;
        return ErrorOutcome::TooManyErrors;
    }
    ErrorOutcome::Continue
}

/// The interaction mode after a fatal message: error-stop mode turns into
/// scroll mode, so that nothing waits for the user.
pub fn post_error_interaction(interaction: InteractionMode) -> (r: InteractionMode)
    ensures
        r == if interaction == InteractionMode::ErrorStop { InteractionMode::Scroll } else { interaction },
{
    if interaction == InteractionMode::ErrorStop {
        InteractionMode::Scroll
    } else {
        interaction
    }
}

/// Whether a confusion is reported as an internal error ("This can't
/// happen"): only where no error was issued before; after errors it is
/// blamed on them.
pub fn confusion_is_internal(history: TTHistory) -> (r: bool)
    ensures
        r == (history_rank(history) < 2),
{
    history_rank_of(history) < 2
}

} // verus!
