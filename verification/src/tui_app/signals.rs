//! The signals that the client waits for.

use nix::sys::signal::{SigSet, Signal};
use vstd::prelude::*;

verus! {

/// The signals that matter to the client.
#[derive(Clone, Copy, Debug, PartialEq, Eq, Structural)]
pub enum SignalKind {
    /// The size of the terminal changed.
    WindowChange,
    /// The client is to be suspended.
    Stop,
    /// The client is to end.
    Terminate,
    /// The client goes on after it was suspended.
    Continue,
}

/// The set of signals of the `nix` crate.
#[verifier::external_type_specification]
#[verifier::external_body]
pub struct ExSigSet(SigSet);

/// Which of the signals that matter to the client are in a set.
pub uninterp spec fn signals_in(set: SigSet) -> Set<SignalKind>;

/// Calls `SigSet::empty`, which makes a set without signals.
#[verifier::external_body]
fn empty_set() -> (res: SigSet)
    ensures
        signals_in(res) == Set::<SignalKind>::empty(),
{
    SigSet::empty()
}

/// Calls `SigSet::add`, which puts a signal into a set.
#[verifier::external_body]
fn add_signal(set: &mut SigSet, kind: SignalKind)
    ensures
        signals_in(*final(set)) == signals_in(*old(set)).insert(kind),
{
    set.add(match kind {
        SignalKind::WindowChange => Signal::SIGWINCH,
        SignalKind::Stop => Signal::SIGTSTP,
        SignalKind::Terminate => Signal::SIGTERM,
        SignalKind::Continue => Signal::SIGCONT,
    })
}

/// The signals that the client waits for.
pub fn signals_to_wait() -> (res: SigSet)
    ensures
        signals_in(res) == set![
            SignalKind::WindowChange,
            SignalKind::Stop,
            SignalKind::Terminate,
        ],
{
    let mut signals = empty_set();
    add_signal(&mut signals, SignalKind::WindowChange);
    add_signal(&mut signals, SignalKind::Stop);
    add_signal(&mut signals, SignalKind::Terminate);
    signals
}

/// The signals that are kept from interrupting the client.
pub fn signals_to_block() -> (res: SigSet)
    ensures
        signals_in(res) == set![
            SignalKind::WindowChange,
            SignalKind::Stop,
            SignalKind::Terminate,
            SignalKind::Continue,
        ],
{
    let mut signals = signals_to_wait();
    add_signal(&mut signals, SignalKind::Continue);
    signals
}

} // verus!
