//! The per-session state machines: a signer moves from idle through
//! message receipt to having emitted its share; a combiner collects
//! verified shares until the threshold is met, then either combines or
//! gives up. Shares with invalid proofs are rejected without faulting
//! the session.
use vstd::prelude::*;

verus! {

#[derive(Debug, PartialEq, Eq, Structural, Clone, Copy)]
pub enum SignerState {
    Idle,
    ReceivedMessage,
    EmittedShare,
}

#[derive(Debug, PartialEq, Eq, Structural, Clone, Copy)]
pub enum CombinerState {
    Collecting,
    Ready,
    Combined,
    Failed,
}

/// A combiner session for threshold `k`: counts the shares whose proof
/// verified, and becomes ready exactly when `k` of them have arrived.
#[derive(Debug)]
pub struct CombinerSession {
    pub k: usize,
    pub accepted: usize,
    pub state: CombinerState,
}

impl CombinerSession {
    pub open spec fn wf(self) -> bool {
        &&& self.k >= 1
        &&& (self.state is Collecting ==> self.accepted < self.k)
        &&& (self.state is Ready ==> self.accepted >= self.k)
    }

    /// A fresh session is collecting, with no shares yet; a threshold of
    /// at least one share is required.
    pub fn new(k: usize) -> (r: CombinerSession)
        requires
            k >= 1,
        ensures
            r.wf(),
            r.k == k,
            r.accepted == 0,
            r.state is Collecting,
    {
        CombinerSession { k, accepted: 0, state: CombinerState::Collecting }
    }

    /// Receipt of one share: a share whose proof failed is dropped and
    /// changes nothing; a verified share is counted, and the session
    /// becomes ready exactly on reaching `k` shares.
    pub fn receive_share(&mut self, proof_valid: bool)
        requires
            old(self).wf(),
            old(self).state is Collecting,
        ensures
            final(self).wf(),
            final(self).k == old(self).k,
            !proof_valid ==> *final(self) == *old(self),
            proof_valid ==> final(self).accepted == old(self).accepted + 1,
            proof_valid ==> (final(self).state is Ready <==> final(self).accepted
                >= final(self).k),
            proof_valid ==> (final(self).state is Ready || final(self).state is Collecting),
    {
        if proof_valid {
            self.accepted = self.accepted + 1;
            if self.accepted >= self.k {
                self.state = CombinerState::Ready;
            }
        }
    }

    /// Invoking combination is allowed only once enough verified shares
    /// are in; the session ends in its terminal combined state.
    pub fn mark_combined(&mut self)
        requires
            old(self).wf(),
            old(self).state is Ready,
        ensures
            final(self).wf(),
            final(self).k == old(self).k,
            final(self).accepted == old(self).accepted,
            final(self).state is Combined,
    {
        self.state = CombinerState::Combined;
    }

    /// Giving up discards the session: a terminal failed state, allowed
    /// while still collecting.
    pub fn give_up(&mut self)
        requires
            old(self).wf(),
            old(self).state is Collecting,
        ensures
            final(self).wf(),
            final(self).k == old(self).k,
            final(self).accepted == old(self).accepted,
            final(self).state is Failed,
    {
        self.state = CombinerState::Failed;
    }
}

/// A signer's moves: receiving the message, then emitting the share;
/// each step is irrevocable.
pub fn signer_next(state: SignerState) -> (r: SignerState)
    ensures
        state is Idle ==> r is ReceivedMessage,
        state is ReceivedMessage ==> r is EmittedShare,
        state is EmittedShare ==> r is EmittedShare,
{
    match state {
        SignerState::Idle => SignerState::ReceivedMessage,
        SignerState::ReceivedMessage => SignerState::EmittedShare,
        SignerState::EmittedShare => SignerState::EmittedShare,
    }
}

} // verus!
