//! Identifiers, path elements and the envelopes that travel on the
//! lifecycle bus.
use vstd::prelude::*;

verus! {

/// Identifier of a node of the supervision tree.
#[derive(Clone, Copy, Debug, PartialEq, Eq, Hash, Structural)]
pub struct BastionId {
    pub raw: u64,
}

/// Source of identifiers: each one it hands out is greater than all earlier
/// ones, so an identifier is never handed out twice.
#[derive(Debug)]
pub struct IdGen {
    pub next: u64,
}

impl IdGen {
    pub fn new() -> (r: IdGen)
        ensures
            r.next == 0,
    {
        IdGen { next: 0 }
    }

    /// `id` was handed out by this source.
    pub open spec fn issued(&self, id: BastionId) -> bool {
        id.raw < self.next
    }

    pub fn fresh(&mut self) -> (r: BastionId)
        requires
            old(self).next < u64::MAX,
        ensures
            r.raw == old(self).next,
            final(self).next == old(self).next + 1,
            !old(self).issued(r),
            final(self).issued(r),
    {
        let id = BastionId { raw: self.next };
        self.next = self.next + 1;
        id
    }
}

/// One step of a path from the root of the tree to a node.
#[derive(Clone, Copy, Debug, PartialEq, Eq, Structural)]
pub enum PathElement {
    System,
    Supervisor(BastionId),
    Children(BastionId),
    Child(BastionId),
}

/// Restart strategy of a supervisor.
#[derive(Clone, Copy, Debug, PartialEq, Eq, Structural)]
pub enum SupervisionStrategy {
    /// Restart only the failing node.
    OneForOne,
    /// Restart every node of the supervisor.
    OneForAll,
    /// Restart the failing node and every node started after it.
    RestForOne,
}

/// A lifecycle command, a notification, or a user message.
#[derive(Clone, Debug, PartialEq, Eq)]
pub enum BastionMessage<M> {
    Start,
    Stop,
    Kill,
    Deploy(BastionId),
    Prune { id: BastionId },
    SuperviseWith(SupervisionStrategy),
    Message(M),
    Stopped { id: BastionId },
    Faulted { id: BastionId },
}

/// A message with the node that sent it.
#[derive(Clone, Debug, PartialEq, Eq)]
pub struct Envelope<M> {
    pub msg: BastionMessage<M>,
    pub sender: PathElement,
}

impl<M> Envelope<M> {
    pub fn new(msg: BastionMessage<M>, sender: PathElement) -> (r: Envelope<M>)
        ensures
            r.msg == msg,
            r.sender == sender,
    {
        Envelope { msg, sender }
    }
}

/// Whether `v` holds `id`.
pub fn contains_id(v: &Vec<BastionId>, id: BastionId) -> (r: bool)
    ensures
        r == v@.contains(id),
{
    let mut i: usize = 0;
    while i < v.len()
        invariant
            i <= v@.len(),
            forall|j: int| 0 <= j < i ==> v@[j] != id,
        decreases v@.len() - i,
    {
        if v[i] == id {
            return true;
        }
        i = i + 1;
    }
    false
}

} // verus!
