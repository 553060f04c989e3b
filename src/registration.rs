//! The client registration state machine driven by NICK, USER and CAP.
use vstd::prelude::*;

use crate::command::{Command, ResponseCode};
use crate::user::{Phase, Status};

verus! {

/// The state a phase stands for.
pub open spec fn phase_status(p: Phase) -> Status {
    match p {
        Phase::Disconnected => Status::Disconnected,
        Phase::Connected => Status::Connected,
        Phase::NickRegistered => Status::NickRegistered,
        Phase::NameRegistered => Status::NameRegistered,
        Phase::Registered => Status::Registered,
    }
}

/// The state after a successful NICK, and whether registration completes now.
pub open spec fn nick_transition(s: Status) -> (Status, bool) {
    match s {
        Status::NameRegistered => (Status::Registered, true),
        Status::Registered => (Status::Registered, false),
        Status::Negotiating(Phase::NameRegistered) => (Status::Negotiating(Phase::Registered), false),
        Status::Negotiating(Phase::Registered) => (Status::Negotiating(Phase::Registered), false),
        Status::Negotiating(_) => (Status::Negotiating(Phase::NickRegistered), false),
        _ => (Status::NickRegistered, false),
    }
}

/// The state after a USER, and whether registration completes now; an error
/// when the user name was already given.
pub open spec fn user_transition(s: Status) -> Result<(Status, bool), ResponseCode> {
    match s {
        Status::Registered | Status::NameRegistered | Status::Negotiating(Phase::NameRegistered)
        | Status::Negotiating(Phase::Registered) => Err(ResponseCode::ERR_ALREADYREGISTRED),
        Status::Negotiating(Phase::NickRegistered) => Ok((Status::Negotiating(Phase::Registered), false)),
        Status::Negotiating(_) => Ok((Status::Negotiating(Phase::NameRegistered), false)),
        Status::NickRegistered => Ok((Status::Registered, true)),
        _ => Ok((Status::NameRegistered, false)),
    }
}

/// CAP LS, LIST or REQ: the current state is suspended; a no-op while
/// negotiating.
pub open spec fn suspend_transition(s: Status) -> Status {
    match s {
        Status::Negotiating(p) => Status::Negotiating(p),
        Status::Disconnected => Status::Negotiating(Phase::Disconnected),
        Status::Connected => Status::Negotiating(Phase::Connected),
        Status::NickRegistered => Status::Negotiating(Phase::NickRegistered),
        Status::NameRegistered => Status::Negotiating(Phase::NameRegistered),
        Status::Registered => Status::Negotiating(Phase::Registered),
    }
}

/// CAP END: the suspended state comes back; registration completes when it
/// was complete while suspended. A no-op when not negotiating.
pub open spec fn resume_transition(s: Status) -> (Status, bool) {
    match s {
        Status::Negotiating(p) => (phase_status(p), p == Phase::Registered),
        _ => (s, false),
    }
}

/// The commands processed before registration completes.
pub open spec fn allowed(s: Status, cmd: Command) -> bool {
    s == Status::Registered || cmd == Command::NICK || cmd == Command::USER || cmd == Command::CAP
        || cmd == Command::QUIT
}

/// Applies a successful NICK.
pub fn on_nick(status: Status) -> (r: (Status, bool))
    ensures
        r == nick_transition(status),
{
    match status {
        Status::NameRegistered => (Status::Registered, true),
        Status::Registered => (Status::Registered, false),
        Status::Negotiating(Phase::NameRegistered) => (Status::Negotiating(Phase::Registered), false),
        Status::Negotiating(Phase::Registered) => (Status::Negotiating(Phase::Registered), false),
        Status::Negotiating(_) => (Status::Negotiating(Phase::NickRegistered), false),
        _ => (Status::NickRegistered, false),
    }
}

/// Applies a USER command.
pub fn on_user(status: Status) -> (r: Result<(Status, bool), ResponseCode>)
    ensures
        r == user_transition(status),
{
    match status {
        Status::Registered | Status::NameRegistered | Status::Negotiating(Phase::NameRegistered)
        | Status::Negotiating(Phase::Registered) => Err(ResponseCode::ERR_ALREADYREGISTRED),
        Status::Negotiating(Phase::NickRegistered) => Ok((Status::Negotiating(Phase::Registered), false)),
        Status::Negotiating(_) => Ok((Status::Negotiating(Phase::NameRegistered), false)),
        Status::NickRegistered => Ok((Status::Registered, true)),
        _ => Ok((Status::NameRegistered, false)),
    }
}

/// Suspends the registration process (CAP LS, LIST, REQ).
pub fn suspend_registration(status: Status) -> (r: Status)
    ensures
        r == suspend_transition(status),
{
    match status {
        Status::Negotiating(p) => Status::Negotiating(p),
        Status::Disconnected => Status::Negotiating(Phase::Disconnected),
        Status::Connected => Status::Negotiating(Phase::Connected),
        Status::NickRegistered => Status::Negotiating(Phase::NickRegistered),
        Status::NameRegistered => Status::Negotiating(Phase::NameRegistered),
        Status::Registered => Status::Negotiating(Phase::Registered),
    }
}

/// Resumes the registration process (CAP END). The flag says whether the
/// client is to be welcomed now.
pub fn continue_registration(status: Status) -> (r: (Status, bool))
    ensures
        r == resume_transition(status),
{
    match status {
        Status::Negotiating(p) => {
            let s = match p {
                Phase::Disconnected => Status::Disconnected,
                Phase::Connected => Status::Connected,
                Phase::NickRegistered => Status::NickRegistered,
                Phase::NameRegistered => Status::NameRegistered,
                Phase::Registered => Status::Registered,
            };
            (s, p == Phase::Registered)
        },
        _ => (status, false),
    }
}

/// The registration gate: whether `cmd` is processed in state `status`.
pub fn command_allowed(status: Status, cmd: Command) -> (r: bool)
    ensures
        r == allowed(status, cmd),
{
    status == Status::Registered || cmd == Command::NICK || cmd == Command::USER || cmd == Command::CAP
        || cmd == Command::QUIT
}

/// A second CAP END changes nothing and welcomes nobody.
pub proof fn lemma_cap_end_idempotent(s: Status)
    ensures
        resume_transition(resume_transition(s).0) == (resume_transition(s).0, false),
{
}

/// Registration completes at most once: after the transition that
/// completes it, no NICK, USER or CAP transition completes it again.
pub proof fn lemma_welcome_once(s: Status)
    requires
        s == Status::Registered || s == Status::Negotiating(Phase::Registered),
    ensures
        !nick_transition(s).1,
        nick_transition(s).0 == s,
        user_transition(s) == Err::<(Status, bool), ResponseCode>(ResponseCode::ERR_ALREADYREGISTRED),
        suspend_transition(s) == Status::Negotiating(Phase::Registered),
        resume_transition(s).0 == Status::Registered,
        s == Status::Registered ==> !resume_transition(s).1,
{
}

} // verus!
