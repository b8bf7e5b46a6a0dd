//! The system's entry points: creating supervisors under the system root,
//! and sending lifecycle commands and user messages to the whole tree.
//!
//! A [`Bastion`] holds the system root's side of the bus: what has been sent
//! to it, in order, whether it still accepts messages, and whether the root's
//! run loop is still alive. The executor around it delivers what is sent.
use crate::children::{Children, ChildrenRef};
use crate::message::{BastionId, BastionMessage, IdGen, PathElement};
use crate::supervisor::Supervisor;
use vstd::prelude::*;

verus! {

/// Configuration read once at initialisation.
#[derive(Clone, Copy, Debug, PartialEq, Eq, Structural)]
pub struct Config {
    /// Failures are silent to the user: no panic output.
    pub hide_backtraces: bool,
}

impl Config {
    /// The default configuration: backtraces are shown.
    pub fn new() -> (r: Config)
        ensures
            !r.hide_backtraces,
    {
        Config { hide_backtraces: false }
    }

    pub fn hide_backtraces(self) -> (r: Config)
        ensures
            r.hide_backtraces,
    {
        Config { hide_backtraces: true }
    }

    pub fn show_backtraces(self) -> (r: Config)
        ensures
            !r.hide_backtraces,
    {
        Config { hide_backtraces: false }
    }
}

/// A handle on a supervisor deployed under the system.
#[derive(Clone, Copy, Debug, PartialEq, Eq, Structural)]
pub struct SupervisorRef {
    pub id: BastionId,
    pub path: PathElement,
}

/// The system root and its bus.
#[derive(Debug)]
pub struct Bastion<M> {
    /// Source of the ids of every node of the tree.
    pub ids: IdGen,
    /// The bus still accepts messages.
    pub open: bool,
    /// The root's run loop has not been cancelled.
    pub running: bool,
    /// Messages sent to the root, oldest first.
    pub sent: Vec<BastionMessage<M>>,
    /// Supervisors deployed under the root, in the order they were deployed.
    pub supervisors: Vec<Supervisor<M>>,
    /// Failures are silent to the user.
    pub hide_backtraces: bool,
}

impl<M> Bastion<M> {
    /// Initialises the system with the default configuration.
    pub fn init() -> (r: Bastion<M>)
        ensures
            r.open,
            r.running,
            r.sent@.len() == 0,
            r.supervisors@.len() == 0,
            r.ids.next == 0,
            !r.hide_backtraces,
    {
        Bastion::init_with(Config::new())
    }

    /// Initialises the system with `config`.
    pub fn init_with(config: Config) -> (r: Bastion<M>)
        ensures
            r.open,
            r.running,
            r.sent@.len() == 0,
            r.supervisors@.len() == 0,
            r.ids.next == 0,
            r.hide_backtraces == config.hide_backtraces,
    {
        Bastion {
            ids: IdGen::new(),
            open: true,
            running: true,
            sent: Vec::new(),
            supervisors: Vec::new(),
            hide_backtraces: config.hide_backtraces,
        }
    }

    /// Sends `msg` to the root if the bus accepts it.
    fn send(&mut self, msg: BastionMessage<M>) -> (r: Result<(), BastionMessage<M>>)
        ensures
            r is Ok == old(self).open,
            old(self).open ==> final(self).sent@ == old(self).sent@.push(msg),
            !old(self).open ==> final(self).sent@ == old(self).sent@ && r == Err::<
                (),
                BastionMessage<M>,
            >(msg),
            final(self).open == old(self).open,
            final(self).running == old(self).running,
            final(self).ids == old(self).ids,
            final(self).supervisors@ == old(self).supervisors@,
            final(self).hide_backtraces == old(self).hide_backtraces,
    {
        if self.open {
            self.sent.push(msg);
            Ok(())
        } else {
            Err(msg)
        }
    }

    /// Creates a supervisor under the root with a fresh id, lets `init`
    /// configure it, and deploys it. `Err` when the bus is closed.
    pub fn supervisor<S>(&mut self, init: S) -> (r: Result<SupervisorRef, ()>)
        where
            S: FnOnce(Supervisor<M>) -> Supervisor<M>,
        requires
            old(self).ids.next < u64::MAX,
            forall|s: Supervisor<M>| init.requires((s,)),
        ensures
            r is Ok == old(self).open,
            final(self).ids.next == old(self).ids.next + 1,
            r is Ok ==> {
                let s = final(self).supervisors@.last();
                &&& final(self).supervisors@ == old(self).supervisors@.push(s)
                &&& final(self).sent@ == old(self).sent@.push(BastionMessage::Deploy(s.id))
                &&& r->Ok_0 == (SupervisorRef { id: s.id, path: PathElement::Supervisor(s.id) })
                &&& exists|s0: Supervisor<M>|
                    s0.id.raw == old(self).ids.next && s0.strategy
                        == crate::message::SupervisionStrategy::OneForOne && s0.order@.len() == 0
                        && init.ensures((s0,), s)
            },
            r is Err ==> final(self).sent@ == old(self).sent@ && final(self).supervisors@ == old(
                self,
            ).supervisors@,
            final(self).open == old(self).open,
            final(self).running == old(self).running,
            final(self).hide_backtraces == old(self).hide_backtraces,
    {
        let id = self.ids.fresh();
        let s0 = Supervisor::new(id);
        let s = init(s0);
        let sid = s.id;
        if self.open {
            self.sent.push(BastionMessage::Deploy(sid));
            self.supervisors.push(s);
            Ok(SupervisorRef { id: sid, path: PathElement::Supervisor(sid) })
        } else {
            Err(())
        }
    }

    /// Creates a children group under the root with a fresh id, lets `init`
    /// configure it, and deploys it. The group comes back with its handle,
    /// for the executor to run. `Err` when the bus is closed.
    pub fn children<I, C, F>(&mut self, init: F) -> (r: Result<(ChildrenRef, Children<M, I, C>), ()>)
        where
            F: FnOnce(Children<M, (), ()>) -> Children<M, I, C>,
        requires
            old(self).ids.next < u64::MAX,
            forall|c: Children<M, (), ()>| init.requires((c,)),
        ensures
            r is Ok == old(self).open,
            final(self).ids.next == old(self).ids.next + 1,
            r is Ok ==> {
                let (handle, group) = r->Ok_0;
                &&& handle.id == group.id
                &&& handle.path == PathElement::Children(group.id)
                &&& handle.elems@ == group.launched@
                &&& final(self).sent@ == old(self).sent@.push(BastionMessage::Deploy(group.id))
                &&& exists|c0: Children<M, (), ()>|
                    c0.id.raw == old(self).ids.next && c0.wf() && c0.redundancy == 1
                        && c0@.launched.len() == 0 && c0@.killed.len() == 0
                        && c0@.pre_start.len() == 0 && !c0.started && init.ensures((c0,), group)
            },
            r is Err ==> final(self).sent@ == old(self).sent@,
            final(self).supervisors@ == old(self).supervisors@,
            final(self).open == old(self).open,
            final(self).running == old(self).running,
            final(self).hide_backtraces == old(self).hide_backtraces,
    {
        let id = self.ids.fresh();
        let c0: Children<M, (), ()> = Children::new(id, (), ());
        let group = init(c0);
        if self.open {
            self.sent.push(BastionMessage::Deploy(group.id));
            let handle = group.as_ref();
            Ok((handle, group))
        } else {
            Err(())
        }
    }

    /// Sends a user message to every node of the tree. The message comes back
    /// when the bus is closed.
    pub fn broadcast(&mut self, msg: M) -> (r: Result<(), M>)
        ensures
            r is Ok == old(self).open,
            old(self).open ==> final(self).sent@ == old(self).sent@.push(
                BastionMessage::Message(msg),
            ),
            !old(self).open ==> final(self).sent@ == old(self).sent@ && r == Err::<(), M>(msg),
            final(self).open == old(self).open,
            final(self).running == old(self).running,
            final(self).ids == old(self).ids,
            final(self).supervisors@ == old(self).supervisors@,
    {
        if self.open {
            self.sent.push(BastionMessage::Message(msg));
            Ok(())
        } else {
            Err(msg)
        }
    }

    /// Starts the tree: nodes replay what they buffered, then run.
    pub fn start(&mut self)
        ensures
            old(self).open ==> final(self).sent@ == old(self).sent@.push(BastionMessage::Start),
            !old(self).open ==> final(self).sent@ == old(self).sent@,
            final(self).open == old(self).open,
            final(self).running == old(self).running,
            final(self).ids == old(self).ids,
            final(self).supervisors@ == old(self).supervisors@,
    {
        let _ = self.send(BastionMessage::Start);
    }

    /// Stops every node of the tree, letting each finish its work.
    pub fn stop(&mut self)
        ensures
            old(self).open ==> final(self).sent@ == old(self).sent@.push(BastionMessage::Stop),
            !old(self).open ==> final(self).sent@ == old(self).sent@,
            final(self).open == old(self).open,
            final(self).running == old(self).running,
            final(self).ids == old(self).ids,
            final(self).supervisors@ == old(self).supervisors@,
    {
        let _ = self.send(BastionMessage::Stop);
    }

    /// Cancels every node of the tree, and then the root's run loop.
    pub fn kill(&mut self)
        ensures
            old(self).open ==> final(self).sent@ == old(self).sent@.push(BastionMessage::Kill),
            !old(self).open ==> final(self).sent@ == old(self).sent@,
            !final(self).running,
            final(self).open == old(self).open,
            final(self).ids == old(self).ids,
            final(self).supervisors@ == old(self).supervisors@,
    {
        let _ = self.send(BastionMessage::Kill);
        self.running = false;
    }

    /// The root's run loop has returned: every node stopped after `stop`,
    /// or the root faulted and, having no parent, stops the system.
    pub fn root_finished(&mut self)
        ensures
            !final(self).running,
            final(self).sent@ == old(self).sent@,
            final(self).open == old(self).open,
            final(self).ids == old(self).ids,
            final(self).supervisors@ == old(self).supervisors@,
            final(self).hide_backtraces == old(self).hide_backtraces,
    {
        self.running = false;
    }

    /// Whether the root's run loop is gone, which ends a wait for the system
    /// to stop.
    pub fn is_stopped(&self) -> (r: bool)
        ensures
            r == !self.running,
    {
        !self.running
    }
}

} // verus!
