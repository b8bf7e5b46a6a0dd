//! A children group: `redundancy` identical children under one lifecycle.
//!
//! The group's run loop is a state machine. Each envelope that reaches the
//! group is handed to [`Children::receive`], which updates the group and
//! appends to `out` the actions that the executor around it carries out, in
//! order: messages to the children, stopping or cancelling them, launching
//! them, and notifications to the parent.
use crate::message::{contains_id, BastionId, BastionMessage, Envelope, IdGen, PathElement};
use vstd::prelude::*;

verus! {

/// What the executor does on behalf of a group.
#[derive(Debug, PartialEq, Eq)]
pub enum GroupAction<M> {
    /// Send the envelope to every launched child.
    SendChildren(Envelope<M>),
    /// Send `Stop` to every launched child and wait for all of them.
    StopChildren,
    /// Cancel every launched child and wait for all of them.
    KillChildren,
    /// Spawn a child with this id; it reuses the mailbox of an earlier child
    /// with the same id where one was kept.
    Launch(BastionId),
    /// Tell the parent that the group has stopped.
    Stopped(BastionId),
    /// Tell the parent that the group has faulted.
    Faulted(BastionId),
}

/// A handle on a group: its id, its path element, and its running children.
#[derive(Debug, PartialEq, Eq)]
pub struct ChildrenRef {
    pub id: BastionId,
    pub path: PathElement,
    pub elems: Vec<BastionId>,
}

/// The state of a group that its lifecycle depends on.
pub struct GroupView<M> {
    pub launched: Seq<BastionId>,
    pub killed: Seq<BastionId>,
    pub pre_start: Seq<Envelope<M>>,
    pub started: bool,
}

/// A group of identically configured children: `init` makes each child's
/// work, `callbacks` are the group's lifecycle hooks.
pub struct Children<M, I, C> {
    pub id: BastionId,
    /// Children currently running.
    pub launched: Vec<BastionId>,
    /// Children cancelled earlier, whose ids a relaunch takes first.
    pub killed: Vec<BastionId>,
    pub init: I,
    pub redundancy: usize,
    pub callbacks: C,
    /// Envelopes received before `Start`, oldest first.
    pub pre_start_msgs: Vec<Envelope<M>>,
    pub started: bool,
}

impl<M, I, C> View for Children<M, I, C> {
    type V = GroupView<M>;

    open spec fn view(&self) -> GroupView<M> {
        GroupView {
            launched: self.launched@,
            killed: self.killed@,
            pre_start: self.pre_start_msgs@,
            started: self.started,
        }
    }
}

pub open spec fn is_start<M>(e: Envelope<M>) -> bool {
    e.msg is Start
}

/// The group after its children were stopped.
pub open spec fn stopped_view<M>(v: GroupView<M>) -> GroupView<M> {
    GroupView { launched: seq![], ..v }
}

/// The group after its children were cancelled: they are remembered as killed.
pub open spec fn killed_view<M>(v: GroupView<M>) -> GroupView<M> {
    GroupView { launched: seq![], killed: v.killed + v.launched, ..v }
}

/// No child id occurs twice, among the running and the killed children.
pub open spec fn ids_distinct<M>(v: GroupView<M>) -> bool {
    &&& v.launched.no_duplicates()
    &&& v.killed.no_duplicates()
    &&& forall|i: int, j: int|
        0 <= i < v.launched.len() && 0 <= j < v.killed.len() ==> v.launched[i] != v.killed[j]
}

/// Every child id of the group is below `next`: an id source at `next`
/// handed them all out, and hands out none of them again.
pub open spec fn ids_issued<M>(v: GroupView<M>, next: int) -> bool {
    &&& forall|i: int| 0 <= i < v.launched.len() ==> (#[trigger] v.launched[i]).raw < next
    &&& forall|j: int| 0 <= j < v.killed.len() ==> (#[trigger] v.killed[j]).raw < next
}

proof fn lemma_killed_view_ids<M>(v: GroupView<M>, next: int)
    ensures
        ids_distinct(v) ==> ids_distinct(killed_view(v)),
        ids_issued(v, next) ==> ids_issued(killed_view(v), next),
        ids_distinct(v) ==> ids_distinct(stopped_view(v)),
        ids_issued(v, next) ==> ids_issued(stopped_view(v), next),
{
    let k = killed_view(v).killed;
    assert(k =~= v.killed + v.launched);
    if ids_distinct(v) {
        assert forall|a: int, b: int| 0 <= a < k.len() && 0 <= b < k.len() && a != b implies k[a]
            != k[b] by {
            let n = v.killed.len() as int;
            if a < n && b >= n {
                assert(v.launched[b - n] != v.killed[a]);
            } else if a >= n && b < n {
                assert(v.launched[a - n] != v.killed[b]);
            }
        }
    }
    if ids_issued(v, next) {
        assert forall|j: int| 0 <= j < k.len() implies (#[trigger] k[j]).raw < next by {
            if j >= v.killed.len() {
                assert(k[j] == v.launched[j - v.killed.len()]);
            }
        }
    }
}

/// What a started group does with one envelope: the new state, the actions,
/// and whether the group keeps running.
pub open spec fn handle_spec<M>(v: GroupView<M>, id: BastionId, env: Envelope<M>) -> (
    GroupView<M>,
    Seq<GroupAction<M>>,
    bool,
) {
    match env.msg {
        BastionMessage::Stop => (
            stopped_view(v),
            seq![GroupAction::StopChildren, GroupAction::Stopped(id)],
            false,
        ),
        BastionMessage::Kill => (
            killed_view(v),
            seq![GroupAction::KillChildren, GroupAction::Stopped(id)],
            false,
        ),
        BastionMessage::Message(_) => (v, seq![GroupAction::SendChildren(env)], true),
        BastionMessage::Stopped { id: child } => if v.launched.contains(child) {
            (stopped_view(v), seq![GroupAction::StopChildren, GroupAction::Stopped(id)], false)
        } else {
            (v, seq![], true)
        },
        BastionMessage::Faulted { id: child } => if v.launched.contains(child) {
            (killed_view(v), seq![GroupAction::KillChildren, GroupAction::Faulted(id)], false)
        } else {
            (v, seq![], true)
        },
        _ => (v, seq![], true),
    }
}

/// Handling `msgs` in order, until one of them ends the group.
pub open spec fn replay_spec<M>(v: GroupView<M>, id: BastionId, msgs: Seq<Envelope<M>>) -> (
    GroupView<M>,
    Seq<GroupAction<M>>,
    bool,
)
    decreases msgs.len(),
{
    if msgs.len() == 0 {
        (v, seq![], true)
    } else {
        let (v1, a1, running) = handle_spec(v, id, msgs[0]);
        if !running {
            (v1, a1, false)
        } else {
            let (v2, a2, running2) = replay_spec(v1, id, msgs.drop_first());
            (v2, a1 + a2, running2)
        }
    }
}

/// The envelope that starts the children of group `id`.
pub open spec fn start_envelope<M>(id: BastionId) -> Envelope<M> {
    Envelope { msg: BastionMessage::Start, sender: PathElement::Children(id) }
}

/// What the group does with one envelope from its bus.
pub open spec fn receive_spec<M>(v: GroupView<M>, id: BastionId, env: Envelope<M>) -> (
    GroupView<M>,
    Seq<GroupAction<M>>,
    bool,
) {
    if is_start(env) {
        let (v2, a, running) = replay_spec(
            GroupView { started: true, pre_start: seq![], ..v },
            id,
            v.pre_start,
        );
        (v2, seq![GroupAction::SendChildren(start_envelope(id))] + a, running)
    } else if !v.started {
        (GroupView { pre_start: v.pre_start.push(env), ..v }, seq![], true)
    } else {
        handle_spec(v, id, env)
    }
}

/// The number of children that a requested redundancy gives: zero counts
/// as one.
pub open spec fn redundancy_of(requested: usize) -> usize {
    if requested == 0 {
        1
    } else {
        requested
    }
}

/// Ids that relaunching `r` children takes: killed ids first, newest first,
/// then fresh ids counted from `next`.
pub open spec fn launch_ids(killed: Seq<BastionId>, r: nat, next: int) -> Seq<BastionId>
    decreases r,
{
    if r == 0 {
        seq![]
    } else if killed.len() > 0 {
        seq![killed.last()] + launch_ids(killed.drop_last(), (r - 1) as nat, next)
    } else {
        seq![BastionId { raw: next as u64 }] + launch_ids(killed, (r - 1) as nat, next + 1)
    }
}

/// Fresh ids that relaunching `r` children takes.
pub open spec fn launch_fresh(killed_len: nat, r: nat) -> nat {
    if r > killed_len {
        (r - killed_len) as nat
    } else {
        0
    }
}

/// Killed ids left after relaunching `r` children.
pub open spec fn launch_killed_left(killed: Seq<BastionId>, r: nat) -> Seq<BastionId> {
    if r >= killed.len() {
        seq![]
    } else {
        killed.subrange(0, killed.len() - r)
    }
}

proof fn lemma_launch_ids_len(killed: Seq<BastionId>, r: nat, next: int)
    ensures
        launch_ids(killed, r, next).len() == r,
    decreases r,
{
    if r > 0 {
        if killed.len() > 0 {
            lemma_launch_ids_len(killed.drop_last(), (r - 1) as nat, next);
        } else {
            lemma_launch_ids_len(killed, (r - 1) as nat, next + 1);
        }
    }
}

impl<M, I, C> Children<M, I, C> {
    pub open spec fn wf(&self) -> bool {
        &&& self.redundancy >= 1
        &&& ids_distinct(self@)
        &&& forall|i: int|
            0 <= i < self.pre_start_msgs@.len() ==> !is_start(#[trigger] self.pre_start_msgs@[i])
    }

    /// Every child id of the group came from `ids`.
    pub open spec fn issued_by(&self, ids: &IdGen) -> bool {
        ids_issued(self@, ids.next as int)
    }

    /// A group with one child, not yet launched.
    pub fn new(id: BastionId, init: I, callbacks: C) -> (r: Children<M, I, C>)
        ensures
            r.wf(),
            r.id == id,
            r.init == init,
            r.callbacks == callbacks,
            r.redundancy == 1,
            r@.launched.len() == 0,
            r@.killed.len() == 0,
            r@.pre_start.len() == 0,
            !r.started,
    {
        Children {
            id,
            launched: Vec::new(),
            killed: Vec::new(),
            init,
            redundancy: 1,
            callbacks,
            pre_start_msgs: Vec::new(),
            started: false,
        }
    }

    /// The group's identifier.
    pub fn id(&self) -> (r: BastionId)
        ensures
            r == self.id,
    {
        self.id
    }

    /// A handle on the group and its running children.
    pub fn as_ref(&self) -> (r: ChildrenRef)
        ensures
            r.id == self.id,
            r.path == PathElement::Children(self.id),
            r.elems@ == self.launched@,
    {
        let mut elems: Vec<BastionId> = Vec::new();
        let mut i: usize = 0;
        while i < self.launched.len()
            invariant
                i <= self.launched@.len(),
                elems@ == self.launched@.subrange(0, i as int),
            decreases self.launched@.len() - i,
        {
            elems.push(self.launched[i]);
            i = i + 1;
            assert(elems@ =~= self.launched@.subrange(0, i as int));
        }
        assert(elems@ =~= self.launched@);
        ChildrenRef { id: self.id, path: PathElement::Children(self.id), elems }
    }

    /// Sets the closure that makes each child's work.
    pub fn with_exec<J>(self, init: J) -> (r: Children<M, J, C>)
        ensures
            self.wf() ==> r.wf(),
            r.init == init,
            r.id == self.id,
            r@ == self@,
            r.redundancy == self.redundancy,
            r.callbacks == self.callbacks,
    {
        Children {
            id: self.id,
            launched: self.launched,
            killed: self.killed,
            init,
            redundancy: self.redundancy,
            callbacks: self.callbacks,
            pre_start_msgs: self.pre_start_msgs,
            started: self.started,
        }
    }

    /// Sets the number of children; zero counts as one.
    pub fn with_redundancy(self, redundancy: usize) -> (r: Children<M, I, C>)
        ensures
            self.wf() ==> r.wf(),
            r.redundancy == redundancy_of(redundancy),
            r.id == self.id,
            r@ == self@,
            r.init == self.init,
            r.callbacks == self.callbacks,
    {
        let mut s = self;
        if redundancy == 0 {
            s.redundancy = 1;
        } else {
            s.redundancy = redundancy;
        }
        s
    }

    /// Sets the group's lifecycle hooks.
    pub fn with_callbacks<D>(self, callbacks: D) -> (r: Children<M, I, D>)
        ensures
            self.wf() ==> r.wf(),
            r.callbacks == callbacks,
            r.id == self.id,
            r@ == self@,
            r.redundancy == self.redundancy,
            r.init == self.init,
    {
        Children {
            id: self.id,
            launched: self.launched,
            killed: self.killed,
            init: self.init,
            redundancy: self.redundancy,
            callbacks,
            pre_start_msgs: self.pre_start_msgs,
            started: self.started,
        }
    }

    /// Stops every launched child.
    fn stop(&mut self, out: &mut Vec<GroupAction<M>>)
        ensures
            final(self)@ == stopped_view(old(self)@),
            final(out)@ == old(out)@.push(GroupAction::StopChildren),
            final(self).id == old(self).id,
            final(self).redundancy == old(self).redundancy,
            final(self).init == old(self).init,
            final(self).callbacks == old(self).callbacks,
    {
        out.push(GroupAction::StopChildren);
        self.launched = Vec::new();
    }

    /// Cancels every launched child; their ids are kept for a relaunch.
    fn kill(&mut self, out: &mut Vec<GroupAction<M>>)
        ensures
            final(self)@ == killed_view(old(self)@),
            final(out)@ == old(out)@.push(GroupAction::KillChildren),
            final(self).id == old(self).id,
            final(self).redundancy == old(self).redundancy,
            final(self).init == old(self).init,
            final(self).callbacks == old(self).callbacks,
    {
        out.push(GroupAction::KillChildren);
        self.killed.append(&mut self.launched);
    }

    /// Handles one envelope of a started group. `Err` ends the group.
    pub fn handle(&mut self, env: Envelope<M>, out: &mut Vec<GroupAction<M>>) -> (r: Result<(), ()>)
        requires
            old(self).wf(),
        ensures
            final(self).wf(),
            forall|n: int| ids_issued(old(self)@, n) ==> #[trigger] ids_issued(final(self)@, n),
            final(self)@ == handle_spec(old(self)@, old(self).id, env).0,
            final(out)@ == old(out)@ + handle_spec(old(self)@, old(self).id, env).1,
            r is Ok == handle_spec(old(self)@, old(self).id, env).2,
            final(self).id == old(self).id,
            final(self).redundancy == old(self).redundancy,
            final(self).init == old(self).init,
            final(self).callbacks == old(self).callbacks,
    {
        let ghost out0 = out@;
        proof {
            assert forall|n: int| ids_issued(old(self)@, n) implies ids_issued(killed_view(old(self)@), n)
                && ids_issued(stopped_view(old(self)@), n) by {
                lemma_killed_view_ids(old(self)@, n);
            }
            lemma_killed_view_ids(old(self)@, 0);
        }
        match env.msg {
            BastionMessage::Stop => {
                self.stop(out);
                out.push(GroupAction::Stopped(self.id));
                assert(out@ =~= out0 + handle_spec(old(self)@, old(self).id, env).1);
                Err(())
            },
            BastionMessage::Kill => {
                self.kill(out);
                out.push(GroupAction::Stopped(self.id));
                assert(out@ =~= out0 + handle_spec(old(self)@, old(self).id, env).1);
                Err(())
            },
            BastionMessage::Message(_) => {
                out.push(GroupAction::SendChildren(env));
                assert(out@ =~= out0 + handle_spec(old(self)@, old(self).id, env).1);
                Ok(())
            },
            BastionMessage::Stopped { id } => {
                if contains_id(&self.launched, id) {
                    self.stop(out);
                    out.push(GroupAction::Stopped(self.id));
                    assert(out@ =~= out0 + handle_spec(old(self)@, old(self).id, env).1);
                    Err(())
                } else {
                    assert(out@ =~= out0 + handle_spec(old(self)@, old(self).id, env).1);
                    Ok(())
                }
            },
            BastionMessage::Faulted { id } => {
                if contains_id(&self.launched, id) {
                    self.kill(out);
                    out.push(GroupAction::Faulted(self.id));
                    assert(out@ =~= out0 + handle_spec(old(self)@, old(self).id, env).1);
                    Err(())
                } else {
                    assert(out@ =~= out0 + handle_spec(old(self)@, old(self).id, env).1);
                    Ok(())
                }
            },
            _ => {
                assert(out@ =~= out0 + handle_spec(old(self)@, old(self).id, env).1);
                Ok(())
            },
        }
    }

    /// One turn of the group's run loop, on the next envelope of its bus.
    /// Before `Start`, envelopes are kept in arrival order; `Start` passes on
    /// to the children and then replays them. `Err` ends the group.
    pub fn receive(&mut self, env: Envelope<M>, out: &mut Vec<GroupAction<M>>) -> (r: Result<
        (),
        (),
    >)
        requires
            old(self).wf(),
        ensures
            final(self).wf(),
            forall|n: int| ids_issued(old(self)@, n) ==> #[trigger] ids_issued(final(self)@, n),
            final(self)@ == receive_spec(old(self)@, old(self).id, env).0,
            final(out)@ == old(out)@ + receive_spec(old(self)@, old(self).id, env).1,
            r is Ok == receive_spec(old(self)@, old(self).id, env).2,
            final(self).id == old(self).id,
            final(self).redundancy == old(self).redundancy,
            final(self).init == old(self).init,
            final(self).callbacks == old(self).callbacks,
    {
        if matches!(env.msg, BastionMessage::Start) {
            let ghost v0 = GroupView { started: true, pre_start: seq![], ..old(self)@ };
            let ghost total = replay_spec(v0, self.id, old(self)@.pre_start);
            let ghost base = out@.push(GroupAction::SendChildren(start_envelope(self.id)));
            self.started = true;
            out.push(
                GroupAction::SendChildren(
                    Envelope::new(BastionMessage::Start, PathElement::Children(self.id)),
                ),
            );
            let mut msgs: Vec<Envelope<M>> = Vec::new();
            std::mem::swap(&mut msgs, &mut self.pre_start_msgs);
            let ghost mut acc: Seq<GroupAction<M>> = seq![];
            assert(self@.pre_start =~= seq![]);
            assert(self@ == v0);
            assert(base + acc =~= out@);
            while msgs.len() > 0
                invariant
                    forall|n: int| ids_issued(old(self)@, n) ==> #[trigger] ids_issued(self@, n),
                    is_start(env),
                    v0 == (GroupView { started: true, pre_start: seq![], ..old(self)@ }),
                    total == replay_spec(v0, old(self).id, old(self)@.pre_start),
                    base == old(out)@.push(GroupAction::SendChildren(start_envelope(old(self).id))),
                    self.wf(),
                    self.id == old(self).id,
                    self.redundancy == old(self).redundancy,
                    self.init == old(self).init,
                    self.callbacks == old(self).callbacks,
                    out@ == base + acc,
                    total.0 == replay_spec(self@, self.id, msgs@).0,
                    total.1 == acc + replay_spec(self@, self.id, msgs@).1,
                    total.2 == replay_spec(self@, self.id, msgs@).2,
                decreases msgs@.len(),
            {
                let ghost before = msgs@;
                let ghost v = self@;
                let ghost out1 = out@;
                let e = msgs.remove(0);
                assert(msgs@ =~= before.drop_first());
                let res = self.handle(e, out);
                let ghost a1 = handle_spec(v, self.id, e).1;
                assert(e == before[0]);
                if res.is_err() {
                    assert(replay_spec(v, self.id, before).0 == self@);
                    assert(replay_spec(v, self.id, before).1 == a1);
                    assert(out@ =~= base + (acc + a1));
                    return Err(());
                }
                let ghost rest = replay_spec(self@, self.id, msgs@);
                assert(acc + (a1 + rest.1) =~= (acc + a1) + rest.1);
                proof {
                    acc = acc + a1;
                }
                assert(out@ =~= base + acc);
            }
            assert(old(out)@ + (seq![GroupAction::SendChildren(start_envelope(self.id))] + acc)
                =~= base + acc);
            Ok(())
        } else if !self.started {
            self.pre_start_msgs.push(env);
            assert(out@ =~= old(out)@ + seq![]);
            Ok(())
        } else {
            self.handle(env, out)
        }
    }

    /// Launches `redundancy` children: ids of killed children are taken
    /// first, newest first, and fresh ids after them.
    pub fn launch_elems(&mut self, ids: &mut IdGen, out: &mut Vec<GroupAction<M>>)
        requires
            old(self).wf(),
            old(self).issued_by(old(ids)),
            old(ids).next + old(self).redundancy <= u64::MAX,
        ensures
            final(self).wf(),
            final(self).issued_by(final(ids)),
            forall|i: int|
                0 <= i < final(self)@.launched.len() && (#[trigger] final(self)@.launched[i]).raw
                    >= old(ids).next ==> !old(self)@.killed.contains(final(self)@.launched[i])
                    && !old(self)@.launched.contains(final(self)@.launched[i]),
            final(self)@.launched == old(self)@.launched + launch_ids(
                old(self)@.killed,
                old(self).redundancy as nat,
                old(ids).next as int,
            ),
            final(self)@.launched.len() == old(self)@.launched.len() + old(self).redundancy,
            final(self)@.killed == launch_killed_left(old(self)@.killed, old(self).redundancy as nat),
            final(ids).next == old(ids).next + launch_fresh(
                old(self)@.killed.len(),
                old(self).redundancy as nat,
            ),
            final(out)@ == old(out)@ + launch_actions(
                launch_ids(old(self)@.killed, old(self).redundancy as nat, old(ids).next as int),
            ),
            final(self)@.pre_start == old(self)@.pre_start,
            final(self).started == old(self).started,
            final(self).id == old(self).id,
            final(self).redundancy == old(self).redundancy,
            final(self).init == old(self).init,
            final(self).callbacks == old(self).callbacks,
    {
        let ghost k0 = old(self)@.killed;
        let ghost n0 = old(ids).next as int;
        let ghost target = launch_ids(k0, self.redundancy as nat, n0);
        proof {
            lemma_launch_ids_len(k0, self.redundancy as nat, n0);
        }
        let ghost mut done: Seq<BastionId> = seq![];
        let mut t: usize = 0;
        assert(target =~= done + target);
        assert(out@ =~= old(out)@ + launch_actions(done));
        while t < self.redundancy
            invariant
                self.wf(),
                ids_issued(self@, ids.next as int),
                ids_issued(old(self)@, n0),
                t <= self.redundancy,
                self.id == old(self).id,
                self.redundancy == old(self).redundancy,
                self.init == old(self).init,
                self.callbacks == old(self).callbacks,
                self@.pre_start == old(self)@.pre_start,
                self.started == old(self).started,
                k0 == old(self)@.killed,
                n0 == old(ids).next,
                n0 + self.redundancy <= u64::MAX,
                ids.next <= n0 + t,
                target == launch_ids(k0, self.redundancy as nat, n0),
                self@.launched == old(self)@.launched + done,
                target == done + launch_ids(self@.killed, (self.redundancy - t) as nat, ids.next as int),
                launch_killed_left(self@.killed, (self.redundancy - t) as nat) == launch_killed_left(
                    k0,
                    self.redundancy as nat,
                ),
                ids.next + launch_fresh(self@.killed.len(), (self.redundancy - t) as nat) == n0
                    + launch_fresh(k0.len(), self.redundancy as nat),
                out@ == old(out)@ + launch_actions(done),
            decreases self.redundancy - t,
        {
            let ghost kb = self@.killed;
            let ghost rest = (self.redundancy - t) as nat;
            let ghost n_before = ids.next as int;
            let ghost lb = self@.launched;
            let id = match self.killed.pop() {
                Some(id) => {
                    assert(launch_killed_left(self@.killed, (rest - 1) as nat)
                        =~= launch_killed_left(kb, rest));
                    assert(self@.killed =~= kb.drop_last());
                    assert forall|j: int| 0 <= j < self@.killed.len() implies self@.killed[j]
                        != id by {
                        assert(kb[j] != kb[kb.len() - 1]);
                    }
                    assert forall|i: int| 0 <= i < lb.len() implies lb[i] != id by {
                        assert(lb[i] != kb[kb.len() - 1]);
                    }
                    id
                },
                None => {
                    let id = ids.fresh();
                    assert forall|i: int| 0 <= i < lb.len() implies lb[i] != id by {
                        assert(lb[i].raw < id.raw);
                    }
                    id
                },
            };
            assert(!lb.contains(id));
            assert(!self@.killed.contains(id));
            assert(target == (done + seq![id]) + launch_ids(
                self@.killed,
                (rest - 1) as nat,
                ids.next as int,
            )) by {
                assert(launch_ids(kb, rest, n_before) == seq![id] + launch_ids(
                    self@.killed,
                    (rest - 1) as nat,
                    ids.next as int,
                ));
                assert((done + seq![id]) + launch_ids(self@.killed, (rest - 1) as nat, ids.next as int)
                    =~= done + (seq![id] + launch_ids(self@.killed, (rest - 1) as nat, ids.next as int)));
            }
            self.launched.push(id);
            out.push(GroupAction::Launch(id));
            assert(self@.launched =~= lb.push(id));
            assert forall|a: int, b: int|
                0 <= a < self@.launched.len() && 0 <= b < self@.launched.len() && a != b implies self@.launched[a]
                != self@.launched[b] by {
                if a == lb.len() {
                    assert(lb.contains(self@.launched[b]));
                } else if b == lb.len() {
                    assert(lb.contains(self@.launched[a]));
                }
            }
            proof {
                assert(launch_actions::<M>(done.push(id)) =~= launch_actions::<M>(done).push(
                    GroupAction::Launch(id),
                ));
                assert(self@.launched =~= old(self)@.launched + done.push(id));
                done = done.push(id);
            }
            t = t + 1;
        }
        proof {
            assert(launch_ids(self@.killed, 0, ids.next as int) == Seq::<BastionId>::empty());
            assert(target =~= done);
        }
    }

    /// Restarts the group: cancels its children, forgets what it buffered
    /// before `Start`, and launches a fresh set of children.
    pub fn reset(&mut self, ids: &mut IdGen, out: &mut Vec<GroupAction<M>>)
        requires
            old(self).wf(),
            old(self).issued_by(old(ids)),
            old(ids).next + old(self).redundancy <= u64::MAX,
        ensures
            final(self).wf(),
            final(self).issued_by(final(ids)),
            final(self)@.launched == launch_ids(
                old(self)@.killed + old(self)@.launched,
                old(self).redundancy as nat,
                old(ids).next as int,
            ),
            final(self)@.killed == launch_killed_left(
                old(self)@.killed + old(self)@.launched,
                old(self).redundancy as nat,
            ),
            final(self)@.pre_start.len() == 0,
            !final(self).started,
            final(out)@ == old(out)@ + seq![GroupAction::KillChildren] + launch_actions(
                launch_ids(
                    old(self)@.killed + old(self)@.launched,
                    old(self).redundancy as nat,
                    old(ids).next as int,
                ),
            ),
            final(self).id == old(self).id,
            final(self).redundancy == old(self).redundancy,
            final(self).init == old(self).init,
            final(self).callbacks == old(self).callbacks,
    {
        proof {
            lemma_killed_view_ids(old(self)@, old(ids).next as int);
        }
        self.kill(out);
        self.started = false;
        self.pre_start_msgs = Vec::new();
        assert(self@.launched =~= seq![]);
        self.launch_elems(ids, out);
        assert(self@.launched =~= launch_ids(
            old(self)@.killed + old(self)@.launched,
            old(self).redundancy as nat,
            old(ids).next as int,
        ));
    }
}

/// The actions that launch children with the ids `ids`, in order.
pub open spec fn launch_actions<M>(ids: Seq<BastionId>) -> Seq<GroupAction<M>> {
    ids.map_values(|i: BastionId| GroupAction::Launch(i))
}

/// Whether `e` carries a user message.
pub open spec fn is_user_message<M>(e: Envelope<M>) -> bool {
    e.msg is Message
}

/// The actions that pass each of `msgs` on to the children, in order.
pub open spec fn forward_actions<M>(msgs: Seq<Envelope<M>>) -> Seq<GroupAction<M>> {
    msgs.map_values(|e: Envelope<M>| GroupAction::SendChildren(e))
}

proof fn lemma_replay_user_messages<M>(v: GroupView<M>, id: BastionId, msgs: Seq<Envelope<M>>)
    requires
        forall|i: int| 0 <= i < msgs.len() ==> is_user_message(#[trigger] msgs[i]),
    ensures
        replay_spec(v, id, msgs) == (v, forward_actions(msgs), true),
    decreases msgs.len(),
{
    if msgs.len() > 0 {
        assert(is_user_message(msgs[0]));
        let rest = msgs.drop_first();
        assert forall|i: int| 0 <= i < rest.len() implies is_user_message(#[trigger] rest[i]) by {
            assert(rest[i] == msgs[i + 1]);
        }
        lemma_replay_user_messages(v, id, rest);
        assert(forward_actions(msgs) =~= seq![GroupAction::SendChildren(msgs[0])] + forward_actions(
            rest,
        ));
    }
}

/// User messages that reach a group before `Start` reach its children after
/// `Start`, in the order in which they arrived, and the group keeps running.
pub proof fn lemma_pre_start_replayed_in_order<M>(v: GroupView<M>, id: BastionId, start: Envelope<M>)
    requires
        is_start(start),
        !v.started,
        forall|i: int| 0 <= i < v.pre_start.len() ==> is_user_message(#[trigger] v.pre_start[i]),
    ensures
        receive_spec(v, id, start).1 == seq![GroupAction::SendChildren(start_envelope(id))]
            + forward_actions(v.pre_start),
        receive_spec(v, id, start).2,
        receive_spec(v, id, start).0.started,
        receive_spec(v, id, start).0.pre_start.len() == 0,
{
    lemma_replay_user_messages(
        GroupView { started: true, pre_start: seq![], ..v },
        id,
        v.pre_start,
    );
}

/// After `Kill` no child is left running: every child that ran is cancelled,
/// remembered as killed, and the parent learns that the group stopped.
pub proof fn lemma_kill_leaves_no_child<M>(v: GroupView<M>, id: BastionId, env: Envelope<M>)
    requires
        env.msg is Kill,
    ensures
        handle_spec(v, id, env).0.launched.len() == 0,
        handle_spec(v, id, env).0.killed == v.killed + v.launched,
        handle_spec(v, id, env).1 == seq![GroupAction::<M>::KillChildren, GroupAction::Stopped(id)],
        !handle_spec(v, id, env).2,
{
}

/// A group configured with a redundancy of zero launches exactly one child.
pub proof fn lemma_zero_redundancy_launches_one(killed: Seq<BastionId>, next: int)
    ensures
        redundancy_of(0) == 1,
        launch_ids(killed, redundancy_of(0) as nat, next).len() == 1,
{
    lemma_launch_ids_len(killed, 1, next);
}

} // verus!
