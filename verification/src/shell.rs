//! Whether the shell is bound and ready. The manager object itself is the
//! caller's; this records whether one is bound.

use vstd::prelude::*;

use crate::state::{register_bar, register_overview, RegisterBarError, RegisterOverviewError};

verus! {

/// Why a shell's `ready` request is refused.
#[derive(Clone, Copy, Debug, PartialEq, Eq, Structural)]
pub enum ShellReadyError {
    /// The bar and the Overview must exist first.
    MissingRequiredSurface,
    /// The shell declared readiness already.
    AlreadyReady,
}

/// The shell manager binding and the shell's readiness.
#[derive(Debug, PartialEq, Eq, Structural)]
pub struct ShellState {
    pub bound: bool,
    pub ready: bool,
}

impl Default for ShellState {
    fn default() -> (state: Self)
        ensures
            state == (ShellState { bound: false, ready: false }),
    {
        ShellState { bound: false, ready: false }
    }
}

impl ShellState {
    /// Binds a manager unless one is bound; the shell is not ready until it
    /// says so.
    pub fn bind_manager(&mut self) -> (bound: bool)
        ensures
            bound == !old(self).bound,
            bound ==> *final(self) == (ShellState { bound: true, ready: false }),
            !bound ==> *final(self) == *old(self),
    {
        if self.bound {
            return false;
        }
        self.bound = true;
        self.ready = false;
        true
    }

    /// Marks the shell ready; `false` when it was already.
    pub fn set_ready(&mut self) -> (changed: bool)
        ensures
            changed == !old(self).ready,
            *final(self) == (ShellState { ready: true, ..*old(self) }),
    {
        if self.ready {
            return false;
        }
        self.ready = true;
        true
    }

    /// Marks the shell unavailable; reports whether it was ready.
    pub fn mark_unavailable(&mut self) -> (was_ready: bool)
        ensures
            was_ready == old(self).ready,
            *final(self) == (ShellState { ready: false, ..*old(self) }),
    {
        let was_ready = self.ready;
        self.ready = false;
        was_ready
    }

    /// Unbinds the bound manager when `is_bound_manager` says the destroyed
    /// manager is that one; the shell becomes unavailable.
    pub fn unbind_manager(&mut self, is_bound_manager: bool) -> (unbound: bool)
        ensures
            unbound == is_bound_manager,
            unbound ==> *final(self) == (ShellState { bound: false, ready: false }),
            !unbound ==> *final(self) == *old(self),
    {
        if !is_bound_manager {
            return false;
        }
        self.bound = false;
        self.mark_unavailable();
        true
    }

    /// The shell's `ready` request: refused until the bar and the Overview
    /// are registered, and refused a second time.
    pub fn ready_request(&mut self, roles_registered: bool) -> (answer: Result<(), ShellReadyError>)
        ensures
            !roles_registered ==> answer == Err::<(), ShellReadyError>(
                ShellReadyError::MissingRequiredSurface,
            ) && *final(self) == *old(self),
            roles_registered && old(self).ready ==> answer == Err::<(), ShellReadyError>(
                ShellReadyError::AlreadyReady,
            ) && *final(self) == *old(self),
            roles_registered && !old(self).ready ==> answer == Ok::<(), ShellReadyError>(())
                && *final(self) == (ShellState { ready: true, ..*old(self) }),
    {
        if !roles_registered {
            Err(ShellReadyError::MissingRequiredSurface)
        } else if !self.set_ready() {
            Err(ShellReadyError::AlreadyReady)
        } else {
            Ok(())
        }
    }
}

/// A request of the shell manager.
#[derive(Clone, Copy, Debug, PartialEq, Eq, Structural)]
pub enum ShellRequest {
    /// Make a surface the shell bar.
    CreateBar,
    /// Make a surface the Overview.
    CreateOverview,
    /// The shell has drawn its first state.
    Ready,
    /// The manager goes away.
    Destroy,
}

/// What an accepted request does.
#[derive(Clone, Copy, Debug, PartialEq, Eq, Structural)]
pub enum ShellRole {
    /// The surface becomes the bar.
    Bar,
    /// The surface becomes the Overview.
    Overview,
    /// The shell is ready.
    Ready,
    /// Nothing changes.
    Unchanged,
}

/// Why a request of the shell manager is refused.
#[derive(Clone, Copy, Debug, PartialEq, Eq, Structural)]
pub enum ShellRequestError {
    /// Only the authenticated shell may use the interface.
    InvalidSurface,
    AlreadyHasBar,
    AlreadyHasOverview,
    /// The output is not managed by the compositor.
    InvalidOutput,
    MissingRequiredSurface,
    AlreadyReady,
}

/// What a request gets: refused for a client that is not the shell; a bar
/// or Overview is refused while one exists, then for an unknown output; a
/// `ready` is refused until both exist and a second time.
pub open spec fn spec_shell_request(
    state: ShellState,
    is_shell: bool,
    request: ShellRequest,
    has_bar: bool,
    has_overview: bool,
    output_known: bool,
) -> (ShellState, Result<ShellRole, ShellRequestError>) {
    if !is_shell {
        (state, Err(ShellRequestError::InvalidSurface))
    } else {
        match request {
            ShellRequest::CreateBar => (
                state,
                if has_bar {
                    Err(ShellRequestError::AlreadyHasBar)
                } else if !output_known {
                    Err(ShellRequestError::InvalidOutput)
                } else {
                    Ok(ShellRole::Bar)
                },
            ),
            ShellRequest::CreateOverview => (
                state,
                if has_overview {
                    Err(ShellRequestError::AlreadyHasOverview)
                } else if !output_known {
                    Err(ShellRequestError::InvalidOutput)
                } else {
                    Ok(ShellRole::Overview)
                },
            ),
            ShellRequest::Ready => if !(has_bar && has_overview) {
                (state, Err(ShellRequestError::MissingRequiredSurface))
            } else if state.ready {
                (state, Err(ShellRequestError::AlreadyReady))
            } else {
                (ShellState { ready: true, ..state }, Ok(ShellRole::Ready))
            },
            ShellRequest::Destroy => (state, Ok(ShellRole::Unchanged)),
        }
    }
}

/// Answers a request of the shell manager (see `spec_shell_request`); a
/// `ready` is answered as `ShellState::ready_request` answers it.
pub fn shell_request(
    state: &mut ShellState,
    is_shell: bool,
    request: ShellRequest,
    has_bar: bool,
    has_overview: bool,
    output_known: bool,
) -> (answer: Result<ShellRole, ShellRequestError>)
    ensures
        (*final(state), answer) == spec_shell_request(
            *old(state),
            is_shell,
            request,
            has_bar,
            has_overview,
            output_known,
        ),
{
    if !is_shell {
        return Err(ShellRequestError::InvalidSurface);
    }
    match request {
        ShellRequest::CreateBar => match register_bar(has_bar, output_known) {
            Ok(()) => Ok(ShellRole::Bar),
            Err(RegisterBarError::AlreadyHasBar) => Err(ShellRequestError::AlreadyHasBar),
            Err(RegisterBarError::InvalidOutput) => Err(ShellRequestError::InvalidOutput),
        },
        ShellRequest::CreateOverview => match register_overview(has_overview, output_known) {
            Ok(()) => Ok(ShellRole::Overview),
            Err(RegisterOverviewError::AlreadyHasOverview) => Err(
                ShellRequestError::AlreadyHasOverview,
            ),
            Err(RegisterOverviewError::InvalidOutput) => Err(ShellRequestError::InvalidOutput),
        },
        ShellRequest::Ready => match state.ready_request(has_bar && has_overview) {
            Ok(()) => Ok(ShellRole::Ready),
            Err(ShellReadyError::MissingRequiredSurface) => Err(
                ShellRequestError::MissingRequiredSurface,
            ),
            Err(ShellReadyError::AlreadyReady) => Err(ShellRequestError::AlreadyReady),
        },
        ShellRequest::Destroy => Ok(ShellRole::Unchanged),
    }
}

} // verus!
