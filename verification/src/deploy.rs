//! The device deployer's decision logic: selecting the target device and
//! driving the three-phase push/install/launch protocol, retrying
//! transient transport errors up to a fixed bound and failing fast on
//! protocol-level rejections. The transport itself is outside work; the
//! caller performs each returned action and hands back the event.

use vstd::prelude::*;
use crate::bytes::dv;

verus! {

/// How many times one phase is retried on transient transport errors.
pub const MAX_RETRIES: u32 = 3;

/// Why deployment failed.
#[derive(Clone, Copy, PartialEq, Eq, Structural, Debug)]
pub enum DeployError {
    /// No device is attached.
    NoDevice,
    /// Several devices are attached and the selector does not
    /// disambiguate; the deployer never guesses.
    AmbiguousDevice,
    /// A selector was given but no attached device matches it.
    DeviceNotFound,
    /// The device rejected the operation at the protocol level
    /// (signature mismatch, insufficient storage): fatal, not retried.
    Rejected,
    /// A phase kept failing with transient errors past the retry bound.
    TransportExhausted,
}

/// The protocol phase a deployment session is in.
#[derive(Clone, Copy, PartialEq, Eq, Structural, Debug)]
pub enum Phase {
    Push,
    Install,
    Launch,
    Done,
}

/// The next piece of outside work the caller must perform.
#[derive(Clone, Copy, PartialEq, Eq, Structural, Debug)]
pub enum DeployAction {
    DoPush,
    DoInstall,
    DoLaunch,
    Finished,
}

/// What the transport reported for the last action.
#[derive(Clone, Copy, PartialEq, Eq, Structural, Debug)]
pub enum TransportEvent {
    Accepted,
    Transient,
    Rejected,
}

/// A deployment session: the current phase, the retries already spent
/// in it, and whether a launch is wanted after installation.
#[derive(Clone, Copy, PartialEq, Eq, Structural, Debug)]
pub struct Session {
    pub phase: Phase,
    pub retries: u32,
    pub launch: bool,
}

/// The action a session's phase calls for.
pub open spec fn action_of(p: Phase) -> DeployAction {
    match p {
        Phase::Push => DeployAction::DoPush,
        Phase::Install => DeployAction::DoInstall,
        Phase::Launch => DeployAction::DoLaunch,
        Phase::Done => DeployAction::Finished,
    }
}

/// The phase after a phase's action is accepted.
pub open spec fn next_phase(p: Phase, launch: bool) -> Phase {
    match p {
        Phase::Push => Phase::Install,
        Phase::Install => if launch {
            Phase::Launch
        } else {
            Phase::Done
        },
        Phase::Launch => Phase::Done,
        Phase::Done => Phase::Done,
    }
}

/// Selects the device to deploy to. With no selector, a single attached
/// device is chosen and several are ambiguous, never guessed among;
/// with a selector, the first matching device is chosen.
pub fn select_device(devices: &Vec<Vec<u8>>, selector: Option<&Vec<u8>>) -> (r: Result<
    usize,
    DeployError,
>)
    ensures
        devices@.len() == 0 ==> r == Result::<usize, DeployError>::Err(DeployError::NoDevice),
        selector is None && devices@.len() == 1 ==> r == Result::<usize, DeployError>::Ok(0usize),
        selector is None && devices@.len() >= 2 ==> r == Result::<usize, DeployError>::Err(
            DeployError::AmbiguousDevice,
        ),
        (match selector {
            Some(s) => devices@.len() > 0 ==> match r {
                Ok(i) => 0 <= i < devices@.len() && dv(devices@)[i as int] == s@ && (forall|
                    k: int,
                |
                    0 <= k < i ==> dv(devices@)[k] != s@),
                Err(e) => e == DeployError::DeviceNotFound && (forall|k: int|
                    0 <= k < devices@.len() ==> dv(devices@)[k] != s@),
            },
            None => true,
        }),
{
    if devices.len() == 0 {
        return Err(DeployError::NoDevice);
    }
    match selector {
        None => {
            if devices.len() == 1 {
                Ok(0)
            } else {
                Err(DeployError::AmbiguousDevice)
            }
        },
        Some(s) => {
            let mut i: usize = 0;
            while i < devices.len()
                invariant
                    i <= devices@.len(),
                    devices@.len() > 0,
                    selector == Some(s),
                    forall|k: int| 0 <= k < i ==> dv(devices@)[k] != s@,
                decreases devices@.len() - i,
            {
                if crate::bytes::bytes_eq(&devices[i], s) {
                    proof {
                        assert(dv(devices@)[i as int] == s@);
                    }
                    return Ok(i);
                }
                proof {
                    assert(dv(devices@)[i as int] == devices@[i as int]@);
                }
                i = i + 1;
            }
            Err(DeployError::DeviceNotFound)
        },
    }
}

/// Opens a deployment session, starting at the push phase.
pub fn start_session(launch: bool) -> (s: Session)
    ensures
        s.phase == Phase::Push,
        s.retries == 0,
        s.launch == launch,
{
    Session { phase: Phase::Push, retries: 0, launch }
}

/// Advances the session on the transport's report: acceptance moves to
/// the next phase with the retry budget renewed; a transient error
/// repeats the same action while the budget lasts and exhausts the
/// session past it; a protocol-level rejection is fatal at once.
pub fn step(s: Session, event: TransportEvent) -> (r: Result<(Session, DeployAction), DeployError>)
    requires
        s.phase != Phase::Done,
    ensures
        (match event {
            TransportEvent::Accepted => (r matches Ok(p) && p.0.phase == next_phase(
                s.phase,
                s.launch,
            ) && p.0.retries == 0 && p.0.launch == s.launch && p.1 == action_of(p.0.phase)),
            TransportEvent::Transient => if s.retries < MAX_RETRIES {
                (r matches Ok(p) && p.0.phase == s.phase && p.0.retries == s.retries + 1
                    && p.0.launch == s.launch && p.1 == action_of(s.phase))
            } else {
                r == Result::<(Session, DeployAction), DeployError>::Err(
                    DeployError::TransportExhausted,
                )
            },
            TransportEvent::Rejected => r == Result::<(Session, DeployAction), DeployError>::Err(
                DeployError::Rejected,
            ),
        }),
{
    match event {
        TransportEvent::Accepted => {
            let p = match s.phase {
                Phase::Push => Phase::Install,
                Phase::Install => if s.launch {
                    Phase::Launch
                } else {
                    Phase::Done
                },
                Phase::Launch => Phase::Done,
                Phase::Done => Phase::Done,
            };
            let a = match p {
                Phase::Push => DeployAction::DoPush,
                Phase::Install => DeployAction::DoInstall,
                Phase::Launch => DeployAction::DoLaunch,
                Phase::Done => DeployAction::Finished,
            };
            Ok((Session { phase: p, retries: 0, launch: s.launch }, a))
        },
        TransportEvent::Transient => {
            if s.retries < MAX_RETRIES {
                let a = match s.phase {
                    Phase::Push => DeployAction::DoPush,
                    Phase::Install => DeployAction::DoInstall,
                    Phase::Launch => DeployAction::DoLaunch,
                    Phase::Done => DeployAction::Finished,
                };
                Ok((Session { phase: s.phase, retries: s.retries + 1, launch: s.launch }, a))
            } else {
                Err(DeployError::TransportExhausted)
            }
        },
        TransportEvent::Rejected => Err(DeployError::Rejected),
    }
}

/// Confirms a transfer: the staged copy must report the source's exact
/// size and digest.
pub fn verify_transfer(
    expected_size: u64,
    reported_size: u64,
    expected_digest: &Vec<u8>,
    reported_digest: &Vec<u8>,
) -> (r: bool)
    ensures
        r == (expected_size == reported_size && expected_digest@ == reported_digest@),
{
    expected_size == reported_size && crate::bytes::bytes_eq(expected_digest, reported_digest)
}

} // verus!
