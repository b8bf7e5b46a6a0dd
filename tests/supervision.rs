use bastion::child::outcome_envelope;
use bastion::bastion::{Bastion, Config, SupervisorRef};
use bastion::children::{Children, GroupAction};
use bastion::message::{BastionId, BastionMessage, Envelope, IdGen, PathElement, SupervisionStrategy};
use bastion::supervisor::{Supervisor, SupervisorAction};

type Group = Children<u32, (), ()>;

fn env(msg: BastionMessage<u32>) -> Envelope<u32> {
    Envelope::new(msg, PathElement::System)
}

fn launched_group(redundancy: usize, ids: &mut IdGen) -> Group {
    let id = ids.fresh();
    let mut g: Group = Children::new(id, (), ()).with_redundancy(redundancy);
    let mut out = Vec::new();
    g.launch_elems(ids, &mut out);
    g
}

#[test]
fn redundancy_zero_gives_one_child() {
    let mut ids = IdGen::new();
    let g: Group = Children::new(ids.fresh(), (), ()).with_redundancy(0);
    assert_eq!(g.redundancy, 1);
    let mut g = g;
    let mut out = Vec::new();
    g.launch_elems(&mut ids, &mut out);
    assert_eq!(g.launched.len(), 1);
    assert_eq!(out, vec![GroupAction::Launch(BastionId { raw: 1 })]);
}

#[test]
fn launch_takes_fresh_ids() {
    let mut ids = IdGen::new();
    let g = launched_group(3, &mut ids);
    assert_eq!(
        g.launched,
        vec![BastionId { raw: 1 }, BastionId { raw: 2 }, BastionId { raw: 3 }]
    );
    assert_eq!(ids.next, 4);
}

#[test]
fn pre_start_messages_replay_in_order() {
    let mut ids = IdGen::new();
    let mut g = launched_group(2, &mut ids);
    let mut out = Vec::new();
    for m in 1..=5u32 {
        assert_eq!(g.receive(env(BastionMessage::Message(m)), &mut out), Ok(()));
    }
    assert!(out.is_empty());
    assert_eq!(g.pre_start_msgs.len(), 5);
    assert_eq!(g.receive(env(BastionMessage::Start), &mut out), Ok(()));
    assert!(g.started);
    assert!(g.pre_start_msgs.is_empty());
    assert_eq!(g.receive(env(BastionMessage::Message(6)), &mut out), Ok(()));
    let mut expected = vec![GroupAction::SendChildren(Envelope::new(
        BastionMessage::Start,
        PathElement::Children(g.id),
    ))];
    for m in 1..=6u32 {
        expected.push(GroupAction::SendChildren(env(BastionMessage::Message(m))));
    }
    assert_eq!(out, expected);
}

#[test]
fn kill_leaves_no_launched_child() {
    let mut ids = IdGen::new();
    let mut g = launched_group(2, &mut ids);
    let mut out = Vec::new();
    g.receive(env(BastionMessage::Start), &mut out).unwrap();
    out.clear();
    assert_eq!(g.receive(env(BastionMessage::Kill), &mut out), Err(()));
    assert!(g.launched.is_empty());
    assert_eq!(g.killed, vec![BastionId { raw: 1 }, BastionId { raw: 2 }]);
    assert_eq!(out, vec![GroupAction::KillChildren, GroupAction::Stopped(g.id)]);
}

#[test]
fn stop_notifies_parent() {
    let mut ids = IdGen::new();
    let mut g = launched_group(1, &mut ids);
    let mut out = Vec::new();
    g.receive(env(BastionMessage::Start), &mut out).unwrap();
    out.clear();
    assert_eq!(g.receive(env(BastionMessage::Stop), &mut out), Err(()));
    assert!(g.launched.is_empty());
    assert!(g.killed.is_empty());
    assert_eq!(out, vec![GroupAction::StopChildren, GroupAction::Stopped(g.id)]);
}

#[test]
fn stop_before_start_is_buffered_then_replayed() {
    let mut ids = IdGen::new();
    let mut g = launched_group(1, &mut ids);
    let mut out = Vec::new();
    g.receive(env(BastionMessage::Message(1)), &mut out).unwrap();
    g.receive(env(BastionMessage::Stop), &mut out).unwrap();
    g.receive(env(BastionMessage::Message(2)), &mut out).unwrap();
    assert_eq!(g.receive(env(BastionMessage::Start), &mut out), Err(()));
    assert_eq!(out.len(), 4);
    assert_eq!(out[1], GroupAction::SendChildren(env(BastionMessage::Message(1))));
    assert_eq!(out[2], GroupAction::StopChildren);
    assert_eq!(out[3], GroupAction::Stopped(g.id));
}

#[test]
fn unknown_child_notifications_are_ignored() {
    let mut ids = IdGen::new();
    let mut g = launched_group(1, &mut ids);
    let mut out = Vec::new();
    g.receive(env(BastionMessage::Start), &mut out).unwrap();
    out.clear();
    let stranger = BastionId { raw: 99 };
    assert_eq!(g.receive(env(BastionMessage::Faulted { id: stranger }), &mut out), Ok(()));
    assert_eq!(g.receive(env(BastionMessage::Stopped { id: stranger }), &mut out), Ok(()));
    assert!(out.is_empty());
    assert_eq!(g.launched.len(), 1);
}

#[test]
fn faulted_child_kills_group() {
    let mut ids = IdGen::new();
    let mut g = launched_group(2, &mut ids);
    let mut out = Vec::new();
    g.receive(env(BastionMessage::Start), &mut out).unwrap();
    out.clear();
    let child = g.launched[1];
    assert_eq!(g.receive(env(BastionMessage::Faulted { id: child }), &mut out), Err(()));
    assert_eq!(out, vec![GroupAction::KillChildren, GroupAction::Faulted(g.id)]);
    assert!(g.launched.is_empty());
}

#[test]
fn reset_relaunches_killed_ids() {
    let mut ids = IdGen::new();
    let mut g = launched_group(2, &mut ids);
    let mut out = Vec::new();
    g.receive(env(BastionMessage::Message(4)), &mut out).unwrap();
    g.reset(&mut ids, &mut out);
    assert!(!g.started);
    assert!(g.pre_start_msgs.is_empty());
    assert_eq!(g.launched, vec![BastionId { raw: 2 }, BastionId { raw: 1 }]);
    assert!(g.killed.is_empty());
    assert_eq!(ids.next, 3);
    assert_eq!(
        out,
        vec![
            GroupAction::KillChildren,
            GroupAction::Launch(BastionId { raw: 2 }),
            GroupAction::Launch(BastionId { raw: 1 }),
        ]
    );
}

fn two_groups(strategy: SupervisionStrategy, ids: &mut IdGen) -> (Supervisor<u32>, BastionId, BastionId) {
    let id = ids.fresh();
    let mut s = Supervisor::new(id).with_strategy(strategy);
    let a = s.supervise(ids);
    let b = s.supervise(ids);
    (s, a, b)
}

#[test]
fn one_for_one_restart() {
    let mut ids = IdGen::new();
    let (mut s, a, b) = two_groups(SupervisionStrategy::OneForOne, &mut ids);
    let mut out = Vec::new();
    s.restart(b, &mut ids, &mut out);
    assert_eq!(s.order[0], a);
    assert_ne!(s.order[1], b);
    assert_eq!(s.order[1], BastionId { raw: 3 });
    assert_eq!(out, vec![SupervisorAction::Restart { old: b, new: BastionId { raw: 3 } }]);
}

#[test]
fn one_for_all_restart() {
    let mut ids = IdGen::new();
    let (mut s, a, b) = two_groups(SupervisionStrategy::OneForAll, &mut ids);
    let mut out = Vec::new();
    s.restart(b, &mut ids, &mut out);
    assert_ne!(s.order[0], a);
    assert_ne!(s.order[1], b);
    assert_ne!(s.order[0], s.order[1]);
    assert_eq!(
        out,
        vec![
            SupervisorAction::Restart { old: a, new: BastionId { raw: 3 } },
            SupervisorAction::Restart { old: b, new: BastionId { raw: 4 } },
        ]
    );
}

#[test]
fn rest_for_one_keeps_earlier_nodes() {
    let mut ids = IdGen::new();
    let (mut s, a, b) = two_groups(SupervisionStrategy::RestForOne, &mut ids);
    let c = s.supervise(&mut ids);
    assert_eq!(s.restart_targets(b), vec![b, c]);
    let mut out = Vec::new();
    s.restart(b, &mut ids, &mut out);
    assert_eq!(s.order[0], a);
    assert_ne!(s.order[1], b);
    assert_ne!(s.order[2], c);
    assert_eq!(out.len(), 2);
}

#[test]
fn unknown_fault_restarts_nothing() {
    let mut ids = IdGen::new();
    let (mut s, a, b) = two_groups(SupervisionStrategy::OneForAll, &mut ids);
    let mut out = Vec::new();
    s.restart(BastionId { raw: 77 }, &mut ids, &mut out);
    assert_eq!(s.order, vec![a, b]);
    assert!(out.is_empty());
    s.child_stopped(a);
    assert_eq!(s.order, vec![b]);
}

#[test]
fn system_lifecycle() {
    let mut system: Bastion<u32> = Bastion::init();
    let r = system.supervisor(|s| s.with_strategy(SupervisionStrategy::OneForAll)).unwrap();
    assert_eq!(
        r,
        SupervisorRef { id: BastionId { raw: 0 }, path: PathElement::Supervisor(BastionId { raw: 0 }) }
    );
    assert_eq!(system.supervisors[0].strategy, SupervisionStrategy::OneForAll);
    assert_eq!(system.broadcast(9), Ok(()));
    system.start();
    system.stop();
    assert!(!system.is_stopped());
    system.kill();
    assert!(system.is_stopped());
    assert_eq!(
        system.sent,
        vec![
            BastionMessage::Deploy(BastionId { raw: 0 }),
            BastionMessage::Message(9),
            BastionMessage::Start,
            BastionMessage::Stop,
            BastionMessage::Kill,
        ]
    );
}

#[test]
fn closed_bus_returns_message() {
    let mut system: Bastion<u32> = Bastion::init_with(Config::new().hide_backtraces());
    assert!(system.hide_backtraces);
    system.open = false;
    assert_eq!(system.broadcast(5), Err(5));
    assert!(system.supervisor(|s| s).is_err());
    system.start();
    assert!(system.sent.is_empty());
}

#[test]
fn group_handle_lists_running_children() {
    let mut ids = IdGen::new();
    let g = launched_group(2, &mut ids);
    let r = g.as_ref();
    assert_eq!(r.id, g.id);
    assert_eq!(r.path, PathElement::Children(g.id));
    assert_eq!(r.elems, vec![BastionId { raw: 1 }, BastionId { raw: 2 }]);
}

fn sup_env(msg: BastionMessage<u32>) -> Envelope<u32> {
    Envelope::new(msg, PathElement::System)
}

#[test]
fn supervisor_buffers_until_start() {
    let mut ids = IdGen::new();
    let (mut s, a, b) = two_groups(SupervisionStrategy::OneForOne, &mut ids);
    let mut out = Vec::new();
    s.receive(sup_env(BastionMessage::Message(1)), &mut ids, &mut out).unwrap();
    s.receive(sup_env(BastionMessage::Faulted { id: a }), &mut ids, &mut out).unwrap();
    s.receive(sup_env(BastionMessage::Message(2)), &mut ids, &mut out).unwrap();
    assert!(out.is_empty());
    assert_eq!(s.pre_start_msgs.len(), 3);
    assert_eq!(s.receive(sup_env(BastionMessage::Start), &mut ids, &mut out), Ok(()));
    assert_eq!(
        out,
        vec![
            SupervisorAction::SendChildren(Envelope::new(BastionMessage::Start, PathElement::Supervisor(s.id))),
            SupervisorAction::SendChildren(sup_env(BastionMessage::Message(1))),
            SupervisorAction::Restart { old: a, new: BastionId { raw: 3 } },
            SupervisorAction::SendChildren(sup_env(BastionMessage::Message(2))),
        ]
    );
    assert_eq!(s.order, vec![BastionId { raw: 3 }, b]);
}

#[test]
fn supervisor_deploy_prune_and_strategy() {
    let mut ids = IdGen::new();
    let (mut s, a, b) = two_groups(SupervisionStrategy::OneForOne, &mut ids);
    let mut out = Vec::new();
    s.receive(sup_env(BastionMessage::Start), &mut ids, &mut out).unwrap();
    out.clear();
    let c = BastionId { raw: 40 };
    s.receive(sup_env(BastionMessage::Deploy(c)), &mut ids, &mut out).unwrap();
    assert_eq!(s.order, vec![a, b, c]);
    s.receive(sup_env(BastionMessage::Prune { id: a }), &mut ids, &mut out).unwrap();
    assert_eq!(s.order, vec![b, c]);
    assert_eq!(out, vec![SupervisorAction::Prune(a)]);
    s.receive(sup_env(BastionMessage::SuperviseWith(SupervisionStrategy::RestForOne)), &mut ids, &mut out)
        .unwrap();
    assert_eq!(s.strategy, SupervisionStrategy::RestForOne);
    s.receive(sup_env(BastionMessage::Stopped { id: c }), &mut ids, &mut out).unwrap();
    assert_eq!(s.order, vec![b]);
}

#[test]
fn supervisor_escalates_when_ids_run_out() {
    let mut ids = IdGen::new();
    let (mut s, a, _b) = two_groups(SupervisionStrategy::OneForAll, &mut ids);
    let mut out = Vec::new();
    s.receive(sup_env(BastionMessage::Start), &mut ids, &mut out).unwrap();
    out.clear();
    ids.next = u64::MAX - 1;
    assert_eq!(s.receive(sup_env(BastionMessage::Faulted { id: a }), &mut ids, &mut out), Err(()));
    assert_eq!(out, vec![SupervisorAction::KillChildren, SupervisorAction::Faulted(s.id)]);
    assert!(s.order.is_empty());
}

#[test]
fn supervisor_kill_stops_everything() {
    let mut ids = IdGen::new();
    let (mut s, _a, _b) = two_groups(SupervisionStrategy::OneForOne, &mut ids);
    let mut out = Vec::new();
    s.receive(sup_env(BastionMessage::Start), &mut ids, &mut out).unwrap();
    out.clear();
    assert_eq!(s.receive(sup_env(BastionMessage::Kill), &mut ids, &mut out), Err(()));
    assert_eq!(out, vec![SupervisorAction::KillChildren, SupervisorAction::Stopped(s.id)]);
    assert!(s.order.is_empty());
}

#[test]
fn system_deploys_children_group() {
    let mut system: Bastion<u32> = Bastion::init();
    let (handle, group) = system.children(|c| c.with_redundancy(3)).unwrap();
    assert_eq!(group.redundancy, 3);
    assert_eq!(handle.id, group.id);
    assert_eq!(handle.id, BastionId { raw: 0 });
    assert!(handle.elems.is_empty());
    assert_eq!(system.sent, vec![BastionMessage::Deploy(BastionId { raw: 0 })]);
    system.open = false;
    assert!(system.children(|c| c).is_err());
    assert_eq!(system.ids.next, 2);
}

#[test]
fn child_outcome_notifications() {
    let id = BastionId { raw: 5 };
    let ok: Envelope<u32> = outcome_envelope(id, Some(Ok(())));
    assert_eq!(ok, Envelope::new(BastionMessage::Stopped { id }, PathElement::Child(id)));
    let err: Envelope<u32> = outcome_envelope(id, Some(Err(())));
    assert_eq!(err.msg, BastionMessage::Faulted { id });
    let panicked: Envelope<u32> = outcome_envelope(id, None);
    assert_eq!(panicked.msg, BastionMessage::Faulted { id });
}

#[test]
fn stop_then_root_finishes() {
    let mut system: Bastion<u32> = Bastion::init();
    system.stop();
    assert!(!system.is_stopped());
    system.root_finished();
    assert!(system.is_stopped());
    assert_eq!(system.sent, vec![BastionMessage::Stop]);
}

#[test]
fn failed_restart_escalates() {
    let mut ids = IdGen::new();
    let (mut s, _a, _b) = two_groups(SupervisionStrategy::OneForOne, &mut ids);
    let mut out = Vec::new();
    assert_eq!(s.restart_failed(&mut out), Err(()));
    assert_eq!(out, vec![SupervisorAction::KillChildren, SupervisorAction::Faulted(s.id)]);
    assert!(s.order.is_empty());
}

#[test]
fn relaunch_ids_never_collide() {
    let mut ids = IdGen::new();
    let mut g = launched_group(2, &mut ids);
    let mut out = Vec::new();
    g.receive(env(BastionMessage::Kill), &mut out).unwrap();
    g.receive(env(BastionMessage::Start), &mut out).unwrap_err();
    let mut g = g.with_redundancy(3);
    g.launch_elems(&mut ids, &mut out);
    let mut seen = g.launched.clone();
    seen.sort_by_key(|i| i.raw);
    seen.dedup();
    assert_eq!(seen.len(), 3);
    assert_eq!(g.launched[2], BastionId { raw: 3 });
}
