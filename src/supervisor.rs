//! A supervisor: an ordered list of child nodes (children groups or other
//! supervisors) and the strategy that decides which of them restart when one
//! faults.
use crate::message::{
    BastionId, BastionMessage, Envelope, IdGen, PathElement, SupervisionStrategy,
};
use vstd::prelude::*;

verus! {

/// What the executor does on behalf of a supervisor.
#[derive(Debug, PartialEq, Eq)]
pub enum SupervisorAction<M> {
    /// Send the envelope to every supervised node.
    SendChildren(Envelope<M>),
    /// Send `Stop` to every supervised node and wait for all of them.
    StopChildren,
    /// Cancel every supervised node and wait for all of them.
    KillChildren,
    /// Kill the node `old`, wait for it to stop, and launch a new instance
    /// of it under the id `new`.
    Restart { old: BastionId, new: BastionId },
    /// Kill the node and drop it.
    Prune(BastionId),
    /// Tell the parent that the supervisor has stopped.
    Stopped(BastionId),
    /// Tell the parent that the supervisor has faulted.
    Faulted(BastionId),
}

/// Index of the first `id` in `s`; `s.len()` where there is none.
pub open spec fn first_index(s: Seq<BastionId>, id: BastionId) -> int
    decreases s.len(),
{
    if s.len() == 0 {
        0
    } else if s[0] == id {
        0
    } else {
        1 + first_index(s.drop_first(), id)
    }
}

/// The positions in `order`, from the first up to the second (excluded),
/// of the nodes to restart when `faulted` faults. An id that is not in
/// `order` restarts nothing.
pub open spec fn restart_range(
    strategy: SupervisionStrategy,
    order: Seq<BastionId>,
    faulted: BastionId,
) -> (int, int) {
    let i = first_index(order, faulted);
    if i == order.len() {
        (0, 0)
    } else {
        match strategy {
            SupervisionStrategy::OneForOne => (i, i + 1),
            SupervisionStrategy::OneForAll => (0, order.len() as int),
            SupervisionStrategy::RestForOne => (i, order.len() as int),
        }
    }
}

/// `order` after the nodes at `range` restarted under ids counted from `next`.
pub open spec fn restarted_order(order: Seq<BastionId>, range: (int, int), next: int) -> Seq<
    BastionId,
> {
    Seq::new(
        order.len(),
        |k: int|
            if range.0 <= k < range.1 {
                BastionId { raw: (next + k - range.0) as u64 }
            } else {
                order[k]
            },
    )
}

/// The actions of a restart of the nodes at `range`, in order.
pub open spec fn restart_actions<M>(order: Seq<BastionId>, range: (int, int), next: int) -> Seq<
    SupervisorAction<M>,
> {
    Seq::new(
        (range.1 - range.0) as nat,
        |j: int|
            SupervisorAction::Restart {
                old: order[range.0 + j],
                new: BastionId { raw: (next + j) as u64 },
            },
    )
}

proof fn lemma_first_index(s: Seq<BastionId>, id: BastionId)
    ensures
        0 <= first_index(s, id) <= s.len(),
        first_index(s, id) < s.len() ==> s[first_index(s, id)] == id,
        forall|j: int| 0 <= j < first_index(s, id) ==> s[j] != id,
    decreases s.len(),
{
    if s.len() > 0 && s[0] != id {
        lemma_first_index(s.drop_first(), id);
        assert forall|j: int| 0 <= j < first_index(s, id) implies s[j] != id by {
            if j > 0 {
                assert(s[j] == s.drop_first()[j - 1]);
            }
        }
    }
}

/// Position of the first `id` in `order`, or `order.len()`.
pub fn position(order: &Vec<BastionId>, id: BastionId) -> (r: usize)
    ensures
        r == first_index(order@, id),
{
    proof {
        lemma_first_index(order@, id);
    }
    let mut i: usize = 0;
    while i < order.len()
        invariant
            i <= order@.len(),
            forall|j: int| 0 <= j < i ==> order@[j] != id,
            0 <= first_index(order@, id) <= order@.len(),
            first_index(order@, id) < order@.len() ==> order@[first_index(order@, id)] == id,
            forall|j: int| 0 <= j < first_index(order@, id) ==> order@[j] != id,
        decreases order@.len() - i,
    {
        if order[i] == id {
            return i;
        }
        i = i + 1;
    }
    i
}

/// The bounds of `restart_range`.
pub fn restart_bounds(strategy: SupervisionStrategy, order: &Vec<BastionId>, faulted: BastionId) -> (r: (usize, usize))
    ensures
        r.0 as int == restart_range(strategy, order@, faulted).0,
        r.1 as int == restart_range(strategy, order@, faulted).1,
        r.0 <= r.1 <= order@.len(),
{
    let i = position(order, faulted);
    proof {
        lemma_first_index(order@, faulted);
    }
    if i == order.len() {
        (0, 0)
    } else {
        match strategy {
            SupervisionStrategy::OneForOne => (i, i + 1),
            SupervisionStrategy::OneForAll => (0, order.len()),
            SupervisionStrategy::RestForOne => (i, order.len()),
        }
    }
}

/// A supervisor and the nodes it supervises, in the order they started.
#[derive(Debug)]
pub struct Supervisor<M> {
    pub id: BastionId,
    pub strategy: SupervisionStrategy,
    pub order: Vec<BastionId>,
    /// Envelopes received before `Start`, oldest first.
    pub pre_start_msgs: Vec<Envelope<M>>,
    pub started: bool,
}

/// The state of a supervisor that its lifecycle depends on.
pub struct SupervisorView<M> {
    pub strategy: SupervisionStrategy,
    pub order: Seq<BastionId>,
    pub pre_start: Seq<Envelope<M>>,
    pub started: bool,
}

impl<M> View for Supervisor<M> {
    type V = SupervisorView<M>;

    open spec fn view(&self) -> SupervisorView<M> {
        SupervisorView {
            strategy: self.strategy,
            order: self.order@,
            pre_start: self.pre_start_msgs@,
            started: self.started,
        }
    }
}

/// Every id in `order` is below `next`: an id source at `next` handed them
/// all out, and hands out none of them again.
pub open spec fn order_issued(order: Seq<BastionId>, next: int) -> bool {
    forall|k: int| 0 <= k < order.len() ==> (#[trigger] order[k]).raw < next
}

/// Every node that `msgs` deploy has an id below `next`.
pub open spec fn deploys_issued<M>(msgs: Seq<Envelope<M>>, next: int) -> bool {
    forall|i: int|
        0 <= i < msgs.len() && (#[trigger] msgs[i]).msg is Deploy ==> msgs[i].msg->Deploy_0.raw
            < next
}

proof fn lemma_without_issued(order: Seq<BastionId>, id: BastionId, next: int)
    requires
        order_issued(order, next),
    ensures
        order_issued(without(order, id), next),
{
    lemma_first_index(order, id);
    let w = without(order, id);
    assert forall|k: int| 0 <= k < w.len() implies (#[trigger] w[k]).raw < next by {
        if first_index(order, id) < order.len() {
            if k < first_index(order, id) {
                assert(w[k] == order[k]);
            } else {
                assert(w[k] == order[k + 1]);
            }
        }
    }
}

proof fn lemma_deploys_push<M>(pre: Seq<Envelope<M>>, env: Envelope<M>, next: int)
    requires
        deploys_issued(pre.push(env), next),
    ensures
        deploys_issued(pre, next),
        deploys_issued(seq![env], next),
{
    assert forall|i: int| 0 <= i < pre.len() && (#[trigger] pre[i]).msg is Deploy implies pre[i].msg->Deploy_0.raw
        < next by {
        assert(pre.push(env)[i] == pre[i]);
    }
    assert(pre.push(env)[pre.len() as int] == env);
    assert(seq![env][0] == env);
}

/// `order` without its first `id`, if it holds one.
pub open spec fn without(order: Seq<BastionId>, id: BastionId) -> Seq<BastionId> {
    if first_index(order, id) < order.len() {
        order.remove(first_index(order, id))
    } else {
        order
    }
}

/// What a started supervisor does with one envelope when the next fresh id
/// is `next`: the new state, the next fresh id, the actions, and whether it
/// keeps running. A restart that would run out of ids escalates instead.
pub open spec fn sup_handle_spec<M>(
    v: SupervisorView<M>,
    next: int,
    id: BastionId,
    env: Envelope<M>,
) -> (SupervisorView<M>, int, Seq<SupervisorAction<M>>, bool) {
    match env.msg {
        BastionMessage::Stop => (
            SupervisorView { order: seq![], ..v },
            next,
            seq![SupervisorAction::StopChildren, SupervisorAction::Stopped(id)],
            false,
        ),
        BastionMessage::Kill => (
            SupervisorView { order: seq![], ..v },
            next,
            seq![SupervisorAction::KillChildren, SupervisorAction::Stopped(id)],
            false,
        ),
        BastionMessage::Message(_) => (v, next, seq![SupervisorAction::SendChildren(env)], true),
        BastionMessage::Deploy(node) => (
            SupervisorView { order: v.order.push(node), ..v },
            next,
            seq![],
            true,
        ),
        BastionMessage::Prune { id: node } => if v.order.contains(node) {
            (
                SupervisorView { order: without(v.order, node), ..v },
                next,
                seq![SupervisorAction::Prune(node)],
                true,
            )
        } else {
            (v, next, seq![], true)
        },
        BastionMessage::SuperviseWith(strategy) => (
            SupervisorView { strategy, ..v },
            next,
            seq![],
            true,
        ),
        BastionMessage::Stopped { id: node } => (
            SupervisorView { order: without(v.order, node), ..v },
            next,
            seq![],
            true,
        ),
        BastionMessage::Faulted { id: node } => {
            let range = restart_range(v.strategy, v.order, node);
            if next + (range.1 - range.0) > u64::MAX {
                (
                    SupervisorView { order: seq![], ..v },
                    next,
                    seq![SupervisorAction::KillChildren, SupervisorAction::Faulted(id)],
                    false,
                )
            } else {
                (
                    SupervisorView { order: restarted_order(v.order, range, next), ..v },
                    next + (range.1 - range.0),
                    restart_actions(v.order, range, next),
                    true,
                )
            }
        },
        BastionMessage::Start => (v, next, seq![], true),
    }
}

/// Handling `msgs` in order, until one of them ends the supervisor.
pub open spec fn sup_replay_spec<M>(
    v: SupervisorView<M>,
    next: int,
    id: BastionId,
    msgs: Seq<Envelope<M>>,
) -> (SupervisorView<M>, int, Seq<SupervisorAction<M>>, bool)
    decreases msgs.len(),
{
    if msgs.len() == 0 {
        (v, next, seq![], true)
    } else {
        let (v1, n1, a1, running) = sup_handle_spec(v, next, id, msgs[0]);
        if !running {
            (v1, n1, a1, false)
        } else {
            let (v2, n2, a2, running2) = sup_replay_spec(v1, n1, id, msgs.drop_first());
            (v2, n2, a1 + a2, running2)
        }
    }
}

/// What the supervisor does with one envelope from its bus.
pub open spec fn sup_receive_spec<M>(
    v: SupervisorView<M>,
    next: int,
    id: BastionId,
    env: Envelope<M>,
) -> (SupervisorView<M>, int, Seq<SupervisorAction<M>>, bool) {
    if env.msg is Start {
        let (v2, n2, a, running) = sup_replay_spec(
            SupervisorView { started: true, pre_start: seq![], ..v },
            next,
            id,
            v.pre_start,
        );
        (
            v2,
            n2,
            seq![
                SupervisorAction::SendChildren(
                    Envelope { msg: BastionMessage::Start, sender: PathElement::Supervisor(id) },
                ),
            ] + a,
            running,
        )
    } else if !v.started {
        (SupervisorView { pre_start: v.pre_start.push(env), ..v }, next, seq![], true)
    } else {
        sup_handle_spec(v, next, id, env)
    }
}

impl<M> Supervisor<M> {
    /// A supervisor without nodes, restarting one for one, not started.
    pub fn new(id: BastionId) -> (r: Supervisor<M>)
        ensures
            r.id == id,
            r.strategy == SupervisionStrategy::OneForOne,
            r.order@.len() == 0,
            r.pre_start_msgs@.len() == 0,
            !r.started,
    {
        Supervisor {
            id,
            strategy: SupervisionStrategy::OneForOne,
            order: Vec::new(),
            pre_start_msgs: Vec::new(),
            started: false,
        }
    }

    /// The supervisor's identifier.
    pub fn id(&self) -> (r: BastionId)
        ensures
            r == self.id,
    {
        self.id
    }

    /// Sets the restart strategy.
    pub fn with_strategy(self, strategy: SupervisionStrategy) -> (r: Supervisor<M>)
        ensures
            r.strategy == strategy,
            r.id == self.id,
            r.order@ == self.order@,
            r.pre_start_msgs@ == self.pre_start_msgs@,
            r.started == self.started,
    {
        let mut s = self;
        s.strategy = strategy;
        s
    }

    /// Adds a node under a fresh id, after all others.
    pub fn supervise(&mut self, ids: &mut IdGen) -> (r: BastionId)
        requires
            old(ids).next < u64::MAX,
        ensures
            r.raw == old(ids).next,
            final(ids).next == old(ids).next + 1,
            final(self).order@ == old(self).order@.push(r),
            final(self).id == old(self).id,
            final(self).strategy == old(self).strategy,
            final(self).pre_start_msgs@ == old(self).pre_start_msgs@,
            final(self).started == old(self).started,
    {
        let id = ids.fresh();
        self.order.push(id);
        id
    }

    /// The nodes that restart when `faulted` faults.
    pub fn restart_targets(&self, faulted: BastionId) -> (r: Vec<BastionId>)
        ensures
            r@ == self.order@.subrange(
                restart_range(self.strategy, self.order@, faulted).0,
                restart_range(self.strategy, self.order@, faulted).1,
            ),
    {
        let (from, to) = restart_bounds(self.strategy, &self.order, faulted);
        let mut r: Vec<BastionId> = Vec::new();
        let mut k: usize = from;
        while k < to
            invariant
                from <= k <= to <= self.order@.len(),
                r@ == self.order@.subrange(from as int, k as int),
            decreases to - k,
        {
            r.push(self.order[k]);
            k = k + 1;
            assert(r@ =~= self.order@.subrange(from as int, k as int));
        }
        r
    }

    /// The node `faulted` has faulted: the nodes that the strategy names
    /// restart, in order, each under a fresh id; the others keep theirs.
    pub fn restart(&mut self, faulted: BastionId, ids: &mut IdGen, out: &mut Vec<SupervisorAction<M>>)
        requires
            order_issued(old(self).order@, old(ids).next as int),
            old(ids).next + restart_range(old(self).strategy, old(self).order@, faulted).1
                - restart_range(old(self).strategy, old(self).order@, faulted).0 <= u64::MAX,
        ensures
            order_issued(final(self).order@, final(ids).next as int),
            forall|k: int|
                0 <= k < final(self).order@.len() && (#[trigger] final(self).order@[k]).raw
                    >= old(ids).next ==> !old(self).order@.contains(final(self).order@[k]),
            final(self).order@ == restarted_order(
                old(self).order@,
                restart_range(old(self).strategy, old(self).order@, faulted),
                old(ids).next as int,
            ),
            final(ids).next == old(ids).next + restart_range(
                old(self).strategy,
                old(self).order@,
                faulted,
            ).1 - restart_range(old(self).strategy, old(self).order@, faulted).0,
            final(out)@ == old(out)@ + restart_actions(
                old(self).order@,
                restart_range(old(self).strategy, old(self).order@, faulted),
                old(ids).next as int,
            ),
            final(self).id == old(self).id,
            final(self).strategy == old(self).strategy,
            final(self).pre_start_msgs@ == old(self).pre_start_msgs@,
            final(self).started == old(self).started,
    {
        let (from, to) = restart_bounds(self.strategy, &self.order, faulted);
        let ghost range = (from as int, to as int);
        let ghost order0 = self.order@;
        let ghost n0 = ids.next as int;
        let mut k: usize = from;
        while k < to
            invariant
                from <= k <= to <= order0.len(),
                self.order@.len() == order0.len(),
                n0 == old(ids).next,
                n0 + (to - from) <= u64::MAX,
                ids.next == n0 + k - from,
                self.id == old(self).id,
                self.strategy == old(self).strategy,
                self.pre_start_msgs@ == old(self).pre_start_msgs@,
                self.started == old(self).started,
                forall|j: int|
                    0 <= j < order0.len() ==> #[trigger] self.order@[j] == if from <= j < k {
                        BastionId { raw: (n0 + j - from) as u64 }
                    } else {
                        order0[j]
                    },
                out@ == old(out)@ + restart_actions(order0, (from as int, k as int), n0),
            decreases to - k,
        {
            let old_id = self.order[k];
            let new_id = ids.fresh();
            self.order.set(k, new_id);
            out.push(SupervisorAction::Restart { old: old_id, new: new_id });
            k = k + 1;
            assert(out@ =~= old(out)@ + restart_actions(order0, (from as int, k as int), n0));
        }
        assert(self.order@ =~= restarted_order(order0, range, n0));
        assert(out@ =~= old(out)@ + restart_actions(order0, range, n0));
        assert forall|k: int|
            0 <= k < self.order@.len() && (#[trigger] self.order@[k]).raw >= old(ids).next
                implies !order0.contains(self.order@[k]) by {
            if order0.contains(self.order@[k]) {
                let j = choose|j: int| 0 <= j < order0.len() && order0[j] == self.order@[k];
                assert(order0[j].raw < n0);
            }
        }
    }

    /// Restarting the nodes failed (the executor refused them): the
    /// supervisor cancels what it supervises and escalates to its parent.
    pub fn restart_failed(&mut self, out: &mut Vec<SupervisorAction<M>>) -> (r: Result<(), ()>)
        ensures
            r is Err,
            final(self).order@.len() == 0,
            final(out)@ == old(out)@ + seq![
                SupervisorAction::KillChildren,
                SupervisorAction::Faulted(old(self).id),
            ],
            final(self).id == old(self).id,
            final(self).strategy == old(self).strategy,
            final(self).pre_start_msgs@ == old(self).pre_start_msgs@,
            final(self).started == old(self).started,
    {
        out.push(SupervisorAction::KillChildren);
        out.push(SupervisorAction::Faulted(self.id));
        self.order = Vec::new();
        assert(out@ =~= old(out)@ + seq![
            SupervisorAction::KillChildren,
            SupervisorAction::Faulted(old(self).id),
        ]);
        Err(())
    }

    /// Handles one envelope of a started supervisor. `Err` ends it.
    pub fn handle(
        &mut self,
        env: Envelope<M>,
        ids: &mut IdGen,
        out: &mut Vec<SupervisorAction<M>>,
    ) -> (r: Result<(), ()>)
        requires
            order_issued(old(self).order@, old(ids).next as int),
            deploys_issued(seq![env], old(ids).next as int),
        ensures
            order_issued(final(self).order@, final(ids).next as int),
            final(ids).next >= old(ids).next,
            final(self)@ == sup_handle_spec(old(self)@, old(ids).next as int, old(self).id, env).0,
            final(ids).next == sup_handle_spec(old(self)@, old(ids).next as int, old(self).id, env).1,
            final(out)@ == old(out)@ + sup_handle_spec(
                old(self)@,
                old(ids).next as int,
                old(self).id,
                env,
            ).2,
            r is Ok == sup_handle_spec(old(self)@, old(ids).next as int, old(self).id, env).3,
            final(self).id == old(self).id,
    {
        let ghost out0 = out@;
        let ghost res = sup_handle_spec(old(self)@, old(ids).next as int, old(self).id, env);
        proof {
            lemma_without_issued(old(self).order@, BastionId { raw: 0 }, old(ids).next as int);
            assert(seq![env][0] == env);
        }
        match env.msg {
            BastionMessage::Stop => {
                out.push(SupervisorAction::StopChildren);
                out.push(SupervisorAction::Stopped(self.id));
                self.order = Vec::new();
                assert(out@ =~= out0 + res.2);
                assert(self@.order =~= res.0.order);
                Err(())
            },
            BastionMessage::Kill => {
                out.push(SupervisorAction::KillChildren);
                out.push(SupervisorAction::Stopped(self.id));
                self.order = Vec::new();
                assert(out@ =~= out0 + res.2);
                assert(self@.order =~= res.0.order);
                Err(())
            },
            BastionMessage::Message(_) => {
                out.push(SupervisorAction::SendChildren(env));
                assert(out@ =~= out0 + res.2);
                Ok(())
            },
            BastionMessage::Deploy(node) => {
                self.order.push(node);
                assert(out@ =~= out0 + res.2);
                Ok(())
            },
            BastionMessage::Prune { id: node } => {
                proof {
                    lemma_first_index(self.order@, node);
                }
                let i = position(&self.order, node);
                if i < self.order.len() {
                    self.order.remove(i);
                    out.push(SupervisorAction::Prune(node));
                }
                proof {
                    lemma_without_issued(old(self).order@, node, old(ids).next as int);
                }
                assert(out@ =~= out0 + res.2);
                Ok(())
            },
            BastionMessage::SuperviseWith(strategy) => {
                self.strategy = strategy;
                assert(out@ =~= out0 + res.2);
                Ok(())
            },
            BastionMessage::Stopped { id: node } => {
                proof {
                    lemma_without_issued(old(self).order@, node, old(ids).next as int);
                }
                self.child_stopped(node);
                assert(out@ =~= out0 + res.2);
                Ok(())
            },
            BastionMessage::Faulted { id: node } => {
                let (from, to) = restart_bounds(self.strategy, &self.order, node);
                if (to - from) as u64 > u64::MAX - ids.next {
                    out.push(SupervisorAction::KillChildren);
                    out.push(SupervisorAction::Faulted(self.id));
                    self.order = Vec::new();
                    assert(out@ =~= out0 + res.2);
                    assert(self@.order =~= res.0.order);
                    Err(())
                } else {
                    self.restart(node, ids, out);
                    Ok(())
                }
            },
            BastionMessage::Start => {
                assert(out@ =~= out0 + res.2);
                Ok(())
            },
        }
    }

    /// One turn of the supervisor's run loop, on the next envelope of its
    /// bus. Before `Start`, envelopes are kept in arrival order; `Start`
    /// passes on to the supervised nodes and then replays them.
    pub fn receive(
        &mut self,
        env: Envelope<M>,
        ids: &mut IdGen,
        out: &mut Vec<SupervisorAction<M>>,
    ) -> (r: Result<(), ()>)
        requires
            order_issued(old(self).order@, old(ids).next as int),
            deploys_issued(old(self).pre_start_msgs@.push(env), old(ids).next as int),
        ensures
            order_issued(final(self).order@, final(ids).next as int),
            deploys_issued(final(self).pre_start_msgs@, final(ids).next as int),
            final(self)@ == sup_receive_spec(old(self)@, old(ids).next as int, old(self).id, env).0,
            final(ids).next == sup_receive_spec(old(self)@, old(ids).next as int, old(self).id, env).1,
            final(out)@ == old(out)@ + sup_receive_spec(
                old(self)@,
                old(ids).next as int,
                old(self).id,
                env,
            ).2,
            r is Ok == sup_receive_spec(old(self)@, old(ids).next as int, old(self).id, env).3,
            final(self).id == old(self).id,
    {
        proof {
            lemma_deploys_push(old(self).pre_start_msgs@, env, old(ids).next as int);
        }
        if matches!(env.msg, BastionMessage::Start) {
            let ghost v0 = SupervisorView { started: true, pre_start: seq![], ..old(self)@ };
            let ghost total = sup_replay_spec(v0, old(ids).next as int, self.id, old(self)@.pre_start);
            let ghost base = out@.push(
                SupervisorAction::SendChildren(
                    Envelope { msg: BastionMessage::Start, sender: PathElement::Supervisor(self.id) },
                ),
            );
            self.started = true;
            out.push(
                SupervisorAction::SendChildren(
                    Envelope::new(BastionMessage::Start, PathElement::Supervisor(self.id)),
                ),
            );
            let mut msgs: Vec<Envelope<M>> = Vec::new();
            std::mem::swap(&mut msgs, &mut self.pre_start_msgs);
            let ghost mut acc: Seq<SupervisorAction<M>> = seq![];
            assert(self@.pre_start =~= seq![]);
            assert(self@ == v0);
            assert(base + acc =~= out@);
            while msgs.len() > 0
                invariant
                    order_issued(self.order@, ids.next as int),
                    deploys_issued(msgs@, ids.next as int),
                    self.pre_start_msgs@.len() == 0,
                    env.msg is Start,
                    v0 == (SupervisorView { started: true, pre_start: seq![], ..old(self)@ }),
                    total == sup_replay_spec(v0, old(ids).next as int, old(self).id, old(self)@.pre_start),
                    base == old(out)@.push(
                        SupervisorAction::SendChildren(
                            Envelope {
                                msg: BastionMessage::Start,
                                sender: PathElement::Supervisor(old(self).id),
                            },
                        ),
                    ),
                    self.id == old(self).id,
                    out@ == base + acc,
                    total.0 == sup_replay_spec(self@, ids.next as int, self.id, msgs@).0,
                    total.1 == sup_replay_spec(self@, ids.next as int, self.id, msgs@).1,
                    total.2 == acc + sup_replay_spec(self@, ids.next as int, self.id, msgs@).2,
                    total.3 == sup_replay_spec(self@, ids.next as int, self.id, msgs@).3,
                decreases msgs@.len(),
            {
                let ghost before = msgs@;
                let ghost v = self@;
                let ghost n = ids.next as int;
                let e = msgs.remove(0);
                assert(msgs@ =~= before.drop_first());
                assert(before[0] == e);
                assert(deploys_issued(seq![e], ids.next as int)) by {
                    assert(seq![e][0] == before[0]);
                }
                let res = self.handle(e, ids, out);
                assert(deploys_issued(msgs@, ids.next as int)) by {
                    assert forall|i: int| 0 <= i < msgs@.len() && (#[trigger] msgs@[i]).msg is Deploy
                        implies msgs@[i].msg->Deploy_0.raw < ids.next by {
                        assert(msgs@[i] == before[i + 1]);
                    }
                }
                let ghost a1 = sup_handle_spec(v, n, self.id, e).2;
                assert(e == before[0]);
                if res.is_err() {
                    assert(sup_replay_spec(v, n, self.id, before).0 == self@);
                    assert(sup_replay_spec(v, n, self.id, before).2 == a1);
                    assert(out@ =~= base + (acc + a1));
                    return Err(());
                }
                let ghost rest = sup_replay_spec(self@, ids.next as int, self.id, msgs@);
                assert(acc + (a1 + rest.2) =~= (acc + a1) + rest.2);
                proof {
                    acc = acc + a1;
                }
                assert(out@ =~= base + acc);
            }
            assert(old(out)@ + (seq![
                SupervisorAction::SendChildren(
                    Envelope { msg: BastionMessage::Start, sender: PathElement::Supervisor(self.id) },
                ),
            ] + acc) =~= base + acc);
            Ok(())
        } else if !self.started {
            self.pre_start_msgs.push(env);
            assert(out@ =~= old(out)@ + seq![]);
            Ok(())
        } else {
            self.handle(env, ids, out)
        }
    }

    /// The node `id` stopped: it leaves the supervisor and is not restarted.
    pub fn child_stopped(&mut self, id: BastionId)
        ensures
            final(self).order@ == without(old(self).order@, id),
            final(self).id == old(self).id,
            final(self).strategy == old(self).strategy,
            final(self).pre_start_msgs@ == old(self).pre_start_msgs@,
            final(self).started == old(self).started,
    {
        proof {
            lemma_first_index(old(self).order@, id);
        }
        let i = position(&self.order, id);
        if i < self.order.len() {
            self.order.remove(i);
        }
    }
}

/// Under one-for-all, a fault of any supervised node restarts every node of
/// the supervisor exactly once, in order, each under its own new id, and the
/// supervisor keeps running.
pub proof fn lemma_one_for_all_restarts_all<M>(
    v: SupervisorView<M>,
    next: int,
    id: BastionId,
    env: Envelope<M>,
    faulted: BastionId,
)
    requires
        v.strategy == SupervisionStrategy::OneForAll,
        env.msg == (BastionMessage::<M>::Faulted { id: faulted }),
        v.order.contains(faulted),
        0 <= next,
        next + v.order.len() <= u64::MAX,
    ensures
        sup_handle_spec(v, next, id, env).3,
        sup_handle_spec(v, next, id, env).1 == next + v.order.len(),
        sup_handle_spec(v, next, id, env).2.len() == v.order.len(),
        forall|j: int|
            0 <= j < v.order.len() ==> #[trigger] sup_handle_spec(v, next, id, env).2[j] == (
            SupervisorAction::<M>::Restart {
                old: v.order[j],
                new: BastionId { raw: (next + j) as u64 },
            }),
        sup_handle_spec(v, next, id, env).0.order.len() == v.order.len(),
        forall|j: int, k: int|
            0 <= j < k < v.order.len() ==> #[trigger] sup_handle_spec(v, next, id, env).0.order[j]
                != #[trigger] sup_handle_spec(v, next, id, env).0.order[k],
{
    lemma_first_index(v.order, faulted);
    let i = choose|i: int| 0 <= i < v.order.len() && v.order[i] == faulted;
    assert(first_index(v.order, faulted) <= i);
}

/// Under rest-for-one, a fault leaves the nodes that started before the
/// faulty one running under their ids: only the faulty node and those after
/// it restart.
pub proof fn lemma_rest_for_one_keeps_earlier<M>(
    v: SupervisorView<M>,
    next: int,
    id: BastionId,
    env: Envelope<M>,
    faulted: BastionId,
)
    requires
        v.strategy == SupervisionStrategy::RestForOne,
        env.msg == (BastionMessage::<M>::Faulted { id: faulted }),
        sup_handle_spec(v, next, id, env).3,
    ensures
        forall|k: int|
            0 <= k < first_index(v.order, faulted) && k < v.order.len() ==> #[trigger] sup_handle_spec(
                v,
                next,
                id,
                env,
            ).0.order[k] == v.order[k],
        v.order.contains(faulted) ==> sup_handle_spec(v, next, id, env).2 == restart_actions::<M>(
            v.order,
            (first_index(v.order, faulted), v.order.len() as int),
            next,
        ),
{
    lemma_first_index(v.order, faulted);
    if v.order.contains(faulted) {
        let i = choose|i: int| 0 <= i < v.order.len() && v.order[i] == faulted;
        assert(first_index(v.order, faulted) <= i);
    }
}

/// The actions that pass each of `msgs` on to the supervised nodes, in order.
pub open spec fn sup_forward_actions<M>(msgs: Seq<Envelope<M>>) -> Seq<SupervisorAction<M>> {
    msgs.map_values(|e: Envelope<M>| SupervisorAction::SendChildren(e))
}

proof fn lemma_sup_replay_user_messages<M>(
    v: SupervisorView<M>,
    next: int,
    id: BastionId,
    msgs: Seq<Envelope<M>>,
)
    requires
        forall|i: int| 0 <= i < msgs.len() ==> (#[trigger] msgs[i]).msg is Message,
    ensures
        sup_replay_spec(v, next, id, msgs) == (v, next, sup_forward_actions(msgs), true),
    decreases msgs.len(),
{
    if msgs.len() > 0 {
        assert(msgs[0].msg is Message);
        let rest = msgs.drop_first();
        assert forall|i: int| 0 <= i < rest.len() implies (#[trigger] rest[i]).msg is Message by {
            assert(rest[i] == msgs[i + 1]);
        }
        lemma_sup_replay_user_messages(v, next, id, rest);
        assert(sup_forward_actions(msgs) =~= seq![SupervisorAction::SendChildren(msgs[0])]
            + sup_forward_actions(rest));
    }
}

/// User messages that reach a supervisor before `Start` reach its nodes
/// after `Start`, in the order in which they arrived.
pub proof fn lemma_sup_pre_start_replayed_in_order<M>(
    v: SupervisorView<M>,
    next: int,
    id: BastionId,
    start: Envelope<M>,
)
    requires
        start.msg is Start,
        !v.started,
        forall|i: int| 0 <= i < v.pre_start.len() ==> (#[trigger] v.pre_start[i]).msg is Message,
    ensures
        sup_receive_spec(v, next, id, start).2 == seq![
            SupervisorAction::SendChildren(
                Envelope { msg: BastionMessage::Start, sender: PathElement::Supervisor(id) },
            ),
        ] + sup_forward_actions(v.pre_start),
        sup_receive_spec(v, next, id, start).3,
{
    lemma_sup_replay_user_messages(
        SupervisorView { started: true, pre_start: seq![], ..v },
        next,
        id,
        v.pre_start,
    );
}

} // verus!
