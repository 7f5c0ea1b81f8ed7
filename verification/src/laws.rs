//! What holds of the engine as a whole: laws that relate several of its
//! operations, stated over the views of the stores.
use vstd::prelude::*;
use crate::frps::{checked_device_id, handled, upjoin_of, EventError, FrpsEventView};
use crate::maintenance::{compare_ops, compared, compared_all, not_in};
use crate::models::{DomainNodesView, NodeStatus, NodeView};
use crate::redism::{
    has_member, last_score, lemma_join_appends, lemma_last_score_is_total, lemma_leave_removes,
    lemma_list_round_trip, lemma_logical_members, lemma_rank_unique, listed, logical_weights,
    ops_allowed, rank_of, replay, scores_wf, total_weight, weight_at, RouterOpView, RouterView,
    SetOp,
};
use crate::state::{device_is, fresh_node, node_is, refresh_with, StateView};
use crate::table::{
    lemma_filter_agree, lemma_filter_all, lemma_filter_keeps_distinct, lemma_filter_remove,
    lemma_filter_twice, lemma_filter_updated,
};

verus! {

/// The status of a node after the expiry sweep.
pub open spec fn swept_status(n: NodeView, now: int, ttl: int) -> NodeStatus {
    if n.status.is_living() && n.last_avail_time is Some && n.last_avail_time->0 < now - ttl {
        NodeStatus::Unavail
    } else if n.status == NodeStatus::Online && n.last_active_time < now - ttl {
        NodeStatus::Offline
    } else {
        n.status
    }
}

/// The expiry sweep changes nothing of a node but its status. A living node
/// that last answered before `now - ttl` is unavail afterwards, whenever its
/// tunnel was last active; an online node that did not answer late, or
/// never answered, and whose tunnel was last active before `now - ttl` is
/// offline; every other node keeps its status.
pub proof fn lemma_sweep_expired(s: StateView, now: int, ttl: int, i: int)
    requires
        0 <= i < s.nodes.len(),
    ensures
        s.sweep_expired(now, ttl).nodes.len() == s.nodes.len(),
        s.sweep_expired(now, ttl).nodes[i] == (NodeView {
            status: swept_status(s.nodes[i], now, ttl),
            ..s.nodes[i]
        }),
        s.sweep_expired(now, ttl).devices == s.devices,
        s.sweep_expired(now, ttl).domain_nodes == s.domain_nodes,
{
}

/// A living node of which only the last answer is older than `now - ttl` is
/// unavail after the sweep.
pub proof fn lemma_sweep_marks_silent_node_unavail(s: StateView, now: int, ttl: int, i: int)
    requires
        0 <= i < s.nodes.len(),
        s.nodes[i].status.is_living(),
        s.nodes[i].last_avail_time is Some,
        s.nodes[i].last_avail_time->0 < now - ttl,
    ensures
        s.sweep_expired(now, ttl).nodes[i].status == NodeStatus::Unavail,
{
    lemma_sweep_expired(s, now, ttl, i);
}

/// A node that is offline stays offline through the sweep, and no node comes
/// online by it.
pub proof fn lemma_sweep_never_revives(s: StateView, now: int, ttl: int, i: int)
    requires
        0 <= i < s.nodes.len(),
    ensures
        s.nodes[i].status == NodeStatus::Offline ==> s.sweep_expired(now, ttl).nodes[i].status
            == NodeStatus::Offline,
        s.sweep_expired(now, ttl).nodes[i].status == NodeStatus::Online ==> s.nodes[i].status
            == NodeStatus::Online,
{
    lemma_sweep_expired(s, now, ttl, i);
}

/// A `Ping` moves no node's time of last activity back, whenever it comes:
/// the living nodes of its device end with the later of the time that they
/// had and the time of the `Ping`, and every other node keeps its time.
pub proof fn lemma_ping_monotone(
    s: StateView,
    frps_id: Option<Seq<char>>,
    ev: FrpsEventView,
    now: int,
)
    requires
        ev.op == Some("Ping"@),
    ensures
        handled(s, frps_id, ev, now).store.nodes.len() == s.nodes.len(),
        forall|i: int|
            0 <= i < s.nodes.len() ==> (#[trigger] handled(s, frps_id, ev, now).store.nodes[i])
                == (NodeView {
                last_active_time: handled(s, frps_id, ev, now).store.nodes[i].last_active_time,
                ..s.nodes[i]
            }) && handled(s, frps_id, ev, now).store.nodes[i].last_active_time
                >= s.nodes[i].last_active_time,
        forall|i: int|
            0 <= i < s.nodes.len() ==> (#[trigger] handled(
                s,
                frps_id,
                ev,
                now,
            ).store.nodes[i]).last_active_time == if s.nodes[i].status.is_living()
                && checked_device_id(ev.content.user.metas) == Ok::<Seq<char>, EventError>(
                s.nodes[i].device_id,
            ) && s.nodes[i].last_active_time < now {
                now
            } else {
                s.nodes[i].last_active_time
            },
{
    reveal_strlit("Ping");
    reveal_strlit("Login");
    reveal_strlit("NewProxy");
    reveal_strlit("CloseProxy");
    assert("Ping"@ != "Login"@) by {
        assert("Ping"@.len() == 4);
    }
    assert("Ping"@ != "NewProxy"@) by {
        assert("Ping"@.len() == 4);
    }
    assert("Ping"@ != "CloseProxy"@) by {
        assert("Ping"@.len() == 4);
    }
}

/// The operation that records a subdomain, where the tunnel server is known.
pub open spec fn recorded_op(subdomain: Seq<char>, frps_id: Option<Seq<char>>) -> Seq<
    RouterOpView,
> {
    match frps_id {
        Some(f) => seq![RouterOpView::SetSubdomain(subdomain, f)],
        None => Seq::empty(),
    }
}

/// Of the operations that a `NewProxy` hands to the router store, running
/// them again, all or only the first, changes nothing.
proof fn lemma_new_proxy_ops_settle(
    r: RouterView,
    subdomain: Seq<char>,
    frps_id: Option<Seq<char>>,
    s: StateView,
    node_id: Seq<char>,
)
    requires
        r.wf(),
    ensures
        r.apply_all(recorded_op(subdomain, frps_id)).apply_all(recorded_op(subdomain, frps_id))
            == r.apply_all(recorded_op(subdomain, frps_id)),
        r.apply_all(recorded_op(subdomain, frps_id) + upjoin_of(s, node_id)).apply_all(
            recorded_op(subdomain, frps_id),
        ) == r.apply_all(recorded_op(subdomain, frps_id) + upjoin_of(s, node_id)),
        r.apply_all(recorded_op(subdomain, frps_id) + upjoin_of(s, node_id)).apply_all(
            recorded_op(subdomain, frps_id) + upjoin_of(s, node_id),
        ) == r.apply_all(recorded_op(subdomain, frps_id) + upjoin_of(s, node_id)),
{
    let rec = recorded_op(subdomain, frps_id);
    let up = upjoin_of(s, node_id);
    r.lemma_apply_all_concat(rec, up);
    let r1 = r.apply_all(rec);
    let r2 = r1.apply_all(up);
    r2.lemma_apply_all_concat(rec, up);
    match frps_id {
        Some(f) => {
            let set = RouterOpView::SetSubdomain(subdomain, f);
            r.lemma_apply_all_one(set);
            r1.lemma_apply_all_one(set);
            r2.lemma_apply_all_one(set);
            r.lemma_set_subdomain_twice(subdomain, f);
            match s.membership(node_id) {
                Some(m) => {
                    let u = RouterOpView::Upjoin(m.domain, node_id, m.weight);
                    r1.lemma_apply_all_one(u);
                    r2.lemma_apply_all_one(u);
                    r.lemma_upjoin_then_set(m.domain, node_id, m.weight, subdomain, f);
                    r1.lemma_upjoin_idempotent(m.domain, node_id, m.weight);
                },
                None => {
                    r1.lemma_apply_all_one(set);
                },
            }
        },
        None => {
            let any = RouterOpView::DelSubdomain(subdomain);
            r.lemma_apply_all_one(any);
            r2.lemma_apply_all_one(any);
            match s.membership(node_id) {
                Some(m) => {
                    let u = RouterOpView::Upjoin(m.domain, node_id, m.weight);
                    r1.lemma_apply_all_one(u);
                    r2.lemma_apply_all_one(u);
                    r1.lemma_upjoin_idempotent(m.domain, node_id, m.weight);
                },
                None => {},
            }
        },
    }
}

/// Carrying out the same `NewProxy` a second time, at whatever time, leaves
/// the state store as the first left it, and running the router operations
/// of the second after those of the first leaves the router store as the
/// first left it.
pub proof fn lemma_new_proxy_idempotent(
    s: StateView,
    r: RouterView,
    frps_id: Option<Seq<char>>,
    ev: FrpsEventView,
    t1: int,
    t2: int,
)
    requires
        s.wf(),
        r.wf(),
        ev.op == Some("NewProxy"@),
    ensures
        handled(handled(s, frps_id, ev, t1).store, frps_id, ev, t2).store == handled(
            s,
            frps_id,
            ev,
            t1,
        ).store,
        r.apply_all(handled(s, frps_id, ev, t1).ops).apply_all(
            handled(handled(s, frps_id, ev, t1).store, frps_id, ev, t2).ops,
        ) == r.apply_all(handled(s, frps_id, ev, t1).ops),
{
    reveal_strlit("Login");
    reveal_strlit("NewProxy");
    assert("NewProxy"@ != "Login"@) by {
        assert("Login"@.len() == 5);
    }
    let c = ev.content;
    r.lemma_apply_all_one(RouterOpView::DelSubdomain(Seq::empty()));
    if checked_device_id(c.user.metas) is Ok && c.subdomain is Some && c.user.run_id is Some
        && c.proxy_name is Some {
        let device_id = checked_device_id(c.user.metas)->Ok_0;
        let node_id = c.subdomain->0;
        let run_id = c.user.run_id->0;
        let subdomain = c.proxy_name->0;
        lemma_new_proxy_ops_settle(r, subdomain, frps_id, s, node_id);
        let devices = s.devices.filter(device_is(device_id));
        if devices.len() > 0 {
            let d = devices[0];
            let fresh = fresh_node(
                node_id,
                device_id,
                subdomain,
                d.version,
                d.arch,
                d.os,
                d.client_address,
                d.login_time,
                t1,
                run_id,
                NodeStatus::Online,
                c.user.metas.text,
            );
            let pred = node_is(node_id);
            match s.node(node_id) {
                None => {
                    if s.create_node_error(fresh) is None {
                        s.nodes.lemma_filter_push(fresh, pred);
                    }
                },
                Some(n) => {
                    if n.status == NodeStatus::Offline {
                        if s.refresh_node_error(fresh) is None {
                            let set = refresh_with(fresh);
                            lemma_filter_updated(s.nodes, pred, set);
                        }
                    }
                },
            }
        }
    }
}

/// No node occurs twice among the pairs.
pub open spec fn ids_distinct(l: Seq<(Seq<char>, int)>) -> bool {
    forall|i: int, j: int| 0 <= i < j < l.len() ==> (#[trigger] l[i]).0 != (#[trigger] l[j]).0
}

/// No weight among the pairs is below zero.
pub open spec fn weights_nonneg(l: Seq<(Seq<char>, int)>) -> bool {
    forall|i: int| 0 <= i < l.len() ==> (#[trigger] l[i]).1 >= 0
}

/// Selects the pairs that `other` holds.
pub open spec fn is_in(other: Seq<(Seq<char>, int)>) -> spec_fn((Seq<char>, int)) -> bool {
    |p: (Seq<char>, int)| other.contains(p)
}

/// The join of a node with a weight.
pub open spec fn as_join() -> spec_fn((Seq<char>, int)) -> SetOp {
    |p: (Seq<char>, int)| SetOp::Join(p.0, p.1)
}

/// The leave of a node under a weight.
pub open spec fn as_leave() -> spec_fn((Seq<char>, int)) -> SetOp {
    |p: (Seq<char>, int)| SetOp::Leave(p.0, p.1)
}

/// What the comparison of the stores does to the members of one domain: a
/// leave for each pair that the router store holds and the state store
/// lacks, then a join for each pair that the state store has and the router
/// store lacks.
pub open spec fn reconcile_ops(ss: Seq<(Seq<char>, int)>, rs: Seq<(Seq<char>, int)>) -> Seq<SetOp> {
    rs.filter(not_in(ss)).map_values(as_leave()) + ss.filter(not_in(rs)).map_values(as_join())
}

/// The members that the router store should list after the comparison: those
/// that it listed and the state store has, in their order, and behind them
/// those that only the state store had, in its order.
pub open spec fn reconciled_list(ss: Seq<(Seq<char>, int)>, rs: Seq<(Seq<char>, int)>) -> Seq<
    (Seq<char>, int),
> {
    rs.filter(is_in(ss)) + ss.filter(not_in(rs))
}

/// The list after the comparison holds the pairs of the state store and no
/// others.
pub proof fn lemma_reconciled_members(ss: Seq<(Seq<char>, int)>, rs: Seq<(Seq<char>, int)>)
    ensures
        forall|p: (Seq<char>, int)| ss.contains(p) <==> #[trigger] reconciled_list(ss, rs).contains(p),
{
    let stays = rs.filter(is_in(ss));
    let added = ss.filter(not_in(rs));
    let result = reconciled_list(ss, rs);
    assert forall|p: (Seq<char>, int)| ss.contains(p) <==> #[trigger] result.contains(p) by {
        if ss.contains(p) {
            let k = choose|k: int| 0 <= k < ss.len() && ss[k] == p;
            if rs.contains(p) {
                let j = choose|j: int| 0 <= j < rs.len() && rs[j] == p;
                rs.lemma_filter_contains(is_in(ss), j);
                let m = choose|m: int| 0 <= m < stays.len() && stays[m] == p;
                assert(result[m] == p);
            } else {
                ss.lemma_filter_contains(not_in(rs), k);
                let m = choose|m: int| 0 <= m < added.len() && added[m] == p;
                assert(result[stays.len() + m] == p);
            }
        }
        if result.contains(p) {
            let m = choose|m: int| 0 <= m < result.len() && result[m] == p;
            if m < stays.len() {
                rs.lemma_filter_pred(is_in(ss), m);
            } else {
                ss.lemma_filter_contains_rev(not_in(rs), p);
            }
        }
    }
}

/// Running two lists of operations one after the other is running the list
/// of them all, and the whole is allowed where both parts are.
pub proof fn lemma_replay_concat(z: Seq<(Seq<char>, int)>, a: Seq<SetOp>, b: Seq<SetOp>)
    ensures
        replay(z, a + b) == replay(replay(z, a), b),
        ops_allowed(z, a + b) == (ops_allowed(z, a) && ops_allowed(replay(z, a), b)),
    decreases b.len(),
{
    if b.len() > 0 {
        lemma_replay_concat(z, a, b.drop_last());
        assert((a + b).drop_last() =~= a + b.drop_last());
    }
}

/// Joins of nodes that are no members, each once and with a weight not below
/// zero, are allowed and append the nodes in order.
proof fn lemma_joins_append(z: Seq<(Seq<char>, int)>, pairs: Seq<(Seq<char>, int)>)
    requires
        scores_wf(z),
        ids_distinct(pairs),
        weights_nonneg(pairs),
        forall|i: int| 0 <= i < pairs.len() ==> !has_member(z, (#[trigger] pairs[i]).0),
    ensures
        ops_allowed(z, pairs.map_values(as_join())),
        scores_wf(replay(z, pairs.map_values(as_join()))),
        logical_weights(replay(z, pairs.map_values(as_join()))) == logical_weights(z) + pairs,
    decreases pairs.len(),
{
    let ops = pairs.map_values(as_join());
    if pairs.len() > 0 {
        let init = pairs.drop_last();
        let p = pairs.last();
        assert(ops.drop_last() =~= init.map_values(as_join()));
        assert(ids_distinct(init));
        assert(weights_nonneg(init));
        lemma_joins_append(z, init);
        let z1 = replay(z, init.map_values(as_join()));
        let l1 = logical_weights(z1);
        assert(!has_member(z1, p.0)) by {
            lemma_logical_members(z1, p.0);
            if has_member(l1, p.0) {
                let k = rank_of(l1, p.0);
                if k < z.len() {
                    lemma_logical_members(z, p.0);
                    assert(logical_weights(z)[k].0 == p.0);
                }
            }
        }
        lemma_join_appends(z1, p.0, p.1);
    }
}

/// Leaves of members, each once and under its own weight, are allowed and
/// take exactly these members out.
proof fn lemma_leaves_remove(z: Seq<(Seq<char>, int)>, pairs: Seq<(Seq<char>, int)>)
    requires
        scores_wf(z),
        ids_distinct(pairs),
        forall|i: int| 0 <= i < pairs.len() ==> logical_weights(z).contains(#[trigger] pairs[i]),
    ensures
        ops_allowed(z, pairs.map_values(as_leave())),
        scores_wf(replay(z, pairs.map_values(as_leave()))),
        logical_weights(replay(z, pairs.map_values(as_leave()))) == logical_weights(z).filter(
            not_in(pairs),
        ),
    decreases pairs.len(),
{
    let ops = pairs.map_values(as_leave());
    let l = logical_weights(z);
    if pairs.len() == 0 {
        lemma_filter_all(l, not_in(pairs));
    } else {
        let init = pairs.drop_last();
        let p = pairs.last();
        assert(ops.drop_last() =~= init.map_values(as_leave()));
        assert(ids_distinct(init)) by {
            assert forall|i: int, j: int| 0 <= i < j < init.len() implies (#[trigger] init[i]).0 != (
            #[trigger] init[j]).0 by {}
        }
        lemma_leaves_remove(z, init);
        let z1 = replay(z, init.map_values(as_leave()));
        let l1 = logical_weights(z1);
        // The member that leaves now is still there, under its own weight.
        assert(!init.contains(p)) by {
            if init.contains(p) {
                let k = choose|k: int| 0 <= k < init.len() && init[k] == p;
            }
        }
        let at = choose|at: int| 0 <= at < l.len() && l[at] == p;
        l.lemma_filter_contains(not_in(init), at);
        let i1 = choose|i1: int| 0 <= i1 < l1.len() && l1[i1] == p;
        lemma_logical_members(z1, p.0);
        lemma_rank_unique(z1, p.0, i1);
        lemma_leave_removes(z1, p.0, p.1);
        // Taking it out is filtering it out.
        assert forall|x: (Seq<char>, int)| #[trigger] (not_in(pairs))(x) implies (not_in(init))(
            x,
        ) by {
            if init.contains(x) {
                let k = choose|k: int| 0 <= k < init.len() && init[k] == x;
            }
        }
        lemma_filter_twice(l, not_in(init), not_in(pairs));
        assert forall|j: int| 0 <= j < l1.len() && j != i1 implies (not_in(pairs))(
            #[trigger] l1[j],
        ) by {
            l.lemma_filter_pred(not_in(init), j);
            if pairs.contains(l1[j]) {
                let k = choose|k: int| 0 <= k < pairs.len() && pairs[k] == l1[j];
                if k < init.len() {
                    assert(init[k] == l1[j]);
                }
            }
        }
        lemma_filter_remove(l1, not_in(pairs), i1);
    }
}

/// The first half of a comparison: the leaves are allowed and take out what
/// the state store does not have; what is new is then no member, so that the
/// joins append it.
proof fn lemma_reconcile_leaves(z: Seq<(Seq<char>, int)>, ss: Seq<(Seq<char>, int)>)
    requires
        scores_wf(z),
        ids_distinct(ss),
        weights_nonneg(ss),
    ensures
        ops_allowed(z, logical_weights(z).filter(not_in(ss)).map_values(as_leave())),
        scores_wf(replay(z, logical_weights(z).filter(not_in(ss)).map_values(as_leave()))),
        logical_weights(replay(z, logical_weights(z).filter(not_in(ss)).map_values(as_leave())))
            == logical_weights(z).filter(is_in(ss)),
        ids_distinct(ss.filter(not_in(logical_weights(z)))),
        weights_nonneg(ss.filter(not_in(logical_weights(z)))),
        forall|i: int|
            0 <= i < ss.filter(not_in(logical_weights(z))).len() ==> !has_member(
                replay(z, logical_weights(z).filter(not_in(ss)).map_values(as_leave())),
                (#[trigger] ss.filter(not_in(logical_weights(z)))[i]).0,
            ),
{
    let rs = logical_weights(z);
    let gone = rs.filter(not_in(ss));
    let added = ss.filter(not_in(rs));
    let leaves = gone.map_values(as_leave());
    // The leaves.
    assert(ids_distinct(rs)) by {
        assert forall|i: int, j: int| 0 <= i < j < rs.len() implies (#[trigger] rs[i]).0 != (
        #[trigger] rs[j]).0 by {
            assert(z[i].0 != z[j].0);
        }
    }
    lemma_filter_keeps_distinct(rs, not_in(ss), |p: (Seq<char>, int)| p.0);
    assert forall|i: int| 0 <= i < gone.len() implies rs.contains(#[trigger] gone[i]) by {
        assert(gone.contains(gone[i]));
        rs.lemma_filter_contains_rev(not_in(ss), gone[i]);
    }
    lemma_leaves_remove(z, gone);
    let z1 = replay(z, leaves);
    let l1 = logical_weights(z1);
    // What is left.
    assert forall|i: int| 0 <= i < rs.len() implies (not_in(gone))(#[trigger] rs[i]) == (is_in(
        ss,
    ))(rs[i]) by {
        if gone.contains(rs[i]) {
            let k = choose|k: int| 0 <= k < gone.len() && gone[k] == rs[i];
            rs.lemma_filter_pred(not_in(ss), k);
        }
        if !ss.contains(rs[i]) {
            rs.lemma_filter_contains(not_in(ss), i);
        }
    }
    lemma_filter_agree(rs, not_in(gone), is_in(ss));
    assert(l1 == rs.filter(is_in(ss)));
    // What is new.
    lemma_filter_keeps_distinct(ss, not_in(rs), |p: (Seq<char>, int)| p.0);
    assert(weights_nonneg(added)) by {
        assert forall|i: int| 0 <= i < added.len() implies (#[trigger] added[i]).1 >= 0 by {
            assert(added.contains(added[i]));
            ss.lemma_filter_contains_rev(not_in(rs), added[i]);
            let k = choose|k: int| 0 <= k < ss.len() && ss[k] == added[i];
            assert(ss[k].1 >= 0);
        }
    }
    assert forall|i: int| 0 <= i < added.len() implies !has_member(z1, (#[trigger] added[i]).0) by {
        let p = added[i];
        ss.lemma_filter_pred(not_in(rs), i);
        assert(added.contains(p));
        ss.lemma_filter_contains_rev(not_in(rs), p);
        let k = choose|k: int| 0 <= k < ss.len() && ss[k] == p;
        lemma_logical_members(z1, p.0);
        if has_member(l1, p.0) {
            let j = rank_of(l1, p.0);
            rs.lemma_filter_pred(is_in(ss), j);
            let k1 = choose|k1: int| 0 <= k1 < ss.len() && ss[k1] == l1[j];
            if k1 < k {
                assert(ss[k1].0 != ss[k].0);
            } else if k < k1 {
                assert(ss[k].0 != ss[k1].0);
            }
            assert(l1.contains(p));
            rs.lemma_filter_contains_rev(is_in(ss), p);
        }
    }
}

/// One comparison brings the members that the router store lists for a
/// domain in line with those that the state store has online, from whatever
/// the two held before: each pair of node and weight of the state store is
/// listed, nothing else is, what was listed and stays keeps its place, and
/// what is new stands behind. A node that the router store held under
/// another weight than the state store has is among what is new.
pub proof fn lemma_reconcile_converges(z: Seq<(Seq<char>, int)>, ss: Seq<(Seq<char>, int)>)
    requires
        scores_wf(z),
        ids_distinct(ss),
        weights_nonneg(ss),
    ensures
        ops_allowed(z, reconcile_ops(ss, logical_weights(z))),
        scores_wf(replay(z, reconcile_ops(ss, logical_weights(z)))),
        logical_weights(replay(z, reconcile_ops(ss, logical_weights(z)))) == reconciled_list(
            ss,
            logical_weights(z),
        ),
        forall|p: (Seq<char>, int)|
            ss.contains(p) <==> #[trigger] reconciled_list(ss, logical_weights(z)).contains(p),
{
    let rs = logical_weights(z);
    let leaves = rs.filter(not_in(ss)).map_values(as_leave());
    let added = ss.filter(not_in(rs));
    lemma_reconcile_leaves(z, ss);
    lemma_joins_append(replay(z, leaves), added);
    lemma_replay_concat(z, leaves, added.map_values(as_join()));
    lemma_reconciled_members(ss, rs);
}

/// The operation on the router store that does `op` to the members of
/// `domain`.
pub open spec fn on_domain(domain: Seq<char>) -> spec_fn(SetOp) -> RouterOpView {
    |op: SetOp|
        match op {
            SetOp::Join(n, w) => RouterOpView::Join(domain, n, w),
            SetOp::Upjoin(n, w) => RouterOpView::Upjoin(domain, n, w),
            SetOp::Leave(n, w) => RouterOpView::Leave(domain, n, w),
        }
}

/// Whether the scores stay within the range of a signed 64-bit integer
/// through the operation.
pub open spec fn op_in_range(z: Seq<(Seq<char>, int)>, op: SetOp) -> bool {
    match op {
        SetOp::Join(n, w) => last_score(z) + w <= i64::MAX,
        SetOp::Upjoin(n, w) => if has_member(z, n) {
            last_score(z) + (w - weight_at(z, rank_of(z, n))) <= i64::MAX
        } else {
            last_score(z) + w <= i64::MAX
        },
        SetOp::Leave(n, w) => true,
    }
}

/// Whether the scores stay within range through every operation of the
/// sequence.
pub open spec fn ops_in_range(z: Seq<(Seq<char>, int)>, ops: Seq<SetOp>) -> bool
    decreases ops.len(),
{
    ops.len() == 0 || (ops_in_range(z, ops.drop_last()) && op_in_range(
        replay(z, ops.drop_last()),
        ops.last(),
    ))
}

/// The router store carries out a sequence of operations on the members of
/// one domain as `replay` says, where each of them is allowed and keeps the
/// scores in range; nothing else in the store changes.
pub proof fn lemma_router_replays(r: RouterView, domain: Seq<char>, ops: Seq<SetOp>)
    requires
        r.wf(),
        ops_allowed(r.zset(domain), ops),
        ops_in_range(r.zset(domain), ops),
    ensures
        r.apply_all(ops.map_values(on_domain(domain))).wf(),
        r.apply_all(ops.map_values(on_domain(domain))).zset(domain) == replay(r.zset(domain), ops),
        forall|d: Seq<char>|
            d != domain ==> #[trigger] r.apply_all(ops.map_values(on_domain(domain))).zset(d)
                == r.zset(d),
        r.apply_all(ops.map_values(on_domain(domain))).subdomains == r.subdomains,
        r.apply_all(ops.map_values(on_domain(domain))).leases == r.leases,
        r.refused(ops.map_values(on_domain(domain))) == 0,
    decreases ops.len(),
{
    let z = r.zset(domain);
    let rops = ops.map_values(on_domain(domain));
    if ops.len() > 0 {
        let init = ops.drop_last();
        lemma_router_replays(r, domain, init);
        assert(rops.drop_last() =~= init.map_values(on_domain(domain)));
        let r1 = r.apply_all(rops.drop_last());
        lemma_list_round_trip(z, init);
        match ops.last() {
            SetOp::Leave(n, w) => {
                if has_member(r1.zset(domain), n) {
                    lemma_leave_removes(r1.zset(domain), n, w);
                }
            },
            _ => {},
        }
        r1.lemma_apply_keeps_wf(rops.last());
        let r2 = r1.apply(rops.last());
        assert forall|d: Seq<char>| d != domain implies #[trigger] r2.zset(d) == r.zset(d) by {
            assert(r1.zset(d) == r.zset(d));
        }
    }
}

/// After any sequence of allowed operations on the members of a domain that
/// keep the scores in range, the router store refuses none of them and lists
/// the members in the order in which they joined, each with the weight
/// supplied last.
pub proof fn lemma_router_list_round_trip(r: RouterView, domain: Seq<char>, ops: Seq<SetOp>)
    requires
        r.wf(),
        ops_allowed(r.zset(domain), ops),
        ops_in_range(r.zset(domain), ops),
    ensures
        r.apply_all(ops.map_values(on_domain(domain))).list(domain) == listed(
            r.list(domain),
            ops,
        ),
        r.refused(ops.map_values(on_domain(domain))) == 0,
{
    lemma_router_replays(r, domain, ops);
    lemma_list_round_trip(r.zset(domain), ops);
}

proof fn lemma_total_weight_concat(a: Seq<(Seq<char>, int)>, b: Seq<(Seq<char>, int)>)
    ensures
        total_weight(a + b) == total_weight(a) + total_weight(b),
    decreases b.len(),
{
    if b.len() > 0 {
        lemma_total_weight_concat(a, b.drop_last());
        assert((a + b).drop_last() =~= a + b.drop_last());
    }
}

/// Joins that append stay in range where the sum of all weights does.
proof fn lemma_joins_in_range(z: Seq<(Seq<char>, int)>, pairs: Seq<(Seq<char>, int)>)
    requires
        scores_wf(z),
        ids_distinct(pairs),
        weights_nonneg(pairs),
        forall|i: int| 0 <= i < pairs.len() ==> !has_member(z, (#[trigger] pairs[i]).0),
        last_score(z) + total_weight(pairs) <= i64::MAX,
    ensures
        ops_in_range(z, pairs.map_values(as_join())),
    decreases pairs.len(),
{
    let ops = pairs.map_values(as_join());
    if pairs.len() > 0 {
        let init = pairs.drop_last();
        assert(ops.drop_last() =~= init.map_values(as_join()));
        assert forall|i: int| 0 <= i < init.len() implies !has_member(z, (#[trigger] init[i]).0) by {}
        assert(ids_distinct(init)) by {
            assert forall|i: int, j: int| 0 <= i < j < init.len() implies (#[trigger] init[i]).0 != (
            #[trigger] init[j]).0 by {}
        }
        assert(weights_nonneg(init)) by {
            assert forall|i: int| 0 <= i < init.len() implies (#[trigger] init[i]).1 >= 0 by {}
        }
        lemma_joins_in_range(z, init);
        lemma_joins_append(z, init);
        let z1 = replay(z, init.map_values(as_join()));
        lemma_last_score_is_total(z1);
        lemma_last_score_is_total(z);
        lemma_total_weight_concat(logical_weights(z), init);
    }
}

proof fn lemma_leaves_in_range(z: Seq<(Seq<char>, int)>, pairs: Seq<(Seq<char>, int)>)
    ensures
        ops_in_range(z, pairs.map_values(as_leave())),
    decreases pairs.len(),
{
    let ops = pairs.map_values(as_leave());
    if pairs.len() > 0 {
        lemma_leaves_in_range(z, pairs.drop_last());
        assert(ops.drop_last() =~= pairs.drop_last().map_values(as_leave()));
    }
}

proof fn lemma_in_range_concat(z: Seq<(Seq<char>, int)>, a: Seq<SetOp>, b: Seq<SetOp>)
    ensures
        ops_in_range(z, a + b) == (ops_in_range(z, a) && ops_in_range(replay(z, a), b)),
    decreases b.len(),
{
    if b.len() > 0 {
        lemma_in_range_concat(z, a, b.drop_last());
        lemma_replay_concat(z, a, b.drop_last());
        assert((a + b).drop_last() =~= a + b.drop_last());
    }
}

impl crate::state::StateView {
    /// Among the online members of a domain no node occurs twice.
    pub proof fn lemma_online_members_distinct(self, domain: Seq<char>)
        requires
            self.wf(),
        ensures
            ids_distinct(self.online_by_domain(domain)),
    {
        let pred = self.online_member_of(domain);
        let key = |m: DomainNodesView| (m.domain, m.node_id);
        lemma_filter_keeps_distinct(self.domain_nodes, pred, key);
        let l = self.online_by_domain(domain);
        assert forall|i: int, j: int| 0 <= i < j < l.len() implies (#[trigger] l[i]).0 != (
        #[trigger] l[j]).0 by {
            self.domain_nodes.lemma_filter_pred(pred, i);
            self.domain_nodes.lemma_filter_pred(pred, j);
        }
    }
}

/// What `lemma_compared_converges` asks of a domain: no weight of an online
/// member is below zero, and the sum of the weights that the router store is
/// to hold stays in the range of a signed 64-bit integer.
pub open spec fn comparable(s: StateView, r: RouterView, domain: Seq<char>) -> bool {
    &&& weights_nonneg(s.online_by_domain(domain))
    &&& total_weight(reconciled_list(s.online_by_domain(domain), r.list(domain))) <= i64::MAX
}

/// One comparison of the stores for a domain brings the members that the
/// router store lists in line with the online members that the state store
/// has, whatever the router store held: each pair of node and weight of the
/// state store is listed, nothing else is, no operation is refused, and no
/// other domain changes. This holds where no weight in the state store is
/// below zero and the sum of the weights stays in range.
pub proof fn lemma_compared_converges(s: StateView, r: RouterView, domain: Seq<char>)
    requires
        s.wf(),
        r.wf(),
        comparable(s, r, domain),
    ensures
        compared(s, r, domain).wf(),
        compared(s, r, domain).list(domain) == reconciled_list(
            s.online_by_domain(domain),
            r.list(domain),
        ),
        forall|p: (Seq<char>, int)|
            s.online_by_domain(domain).contains(p) <==> #[trigger] compared(s, r, domain).list(
                domain,
            ).contains(p),
        r.refused(compare_ops(domain, s.online_by_domain(domain), r.list(domain))) == 0,
        forall|d: Seq<char>| d != domain ==> #[trigger] compared(s, r, domain).zset(d) == r.zset(d),
        compared(s, r, domain).subdomains == r.subdomains,
        compared(s, r, domain).leases == r.leases,
{
    let ss = s.online_by_domain(domain);
    let z = r.zset(domain);
    let rs = logical_weights(z);
    let added = ss.filter(not_in(rs));
    let gone = rs.filter(not_in(ss));
    let leaves = gone.map_values(as_leave());
    let ops = reconcile_ops(ss, rs);
    s.lemma_online_members_distinct(domain);
    lemma_reconcile_converges(z, ss);
    // The scores stay in range.
    lemma_reconcile_leaves(z, ss);
    let z1 = replay(z, leaves);
    lemma_last_score_is_total(z1);
    lemma_total_weight_concat(rs.filter(is_in(ss)), added);
    lemma_leaves_in_range(z, gone);
    lemma_joins_in_range(z1, added);
    lemma_in_range_concat(z, leaves, added.map_values(as_join()));
    lemma_router_replays(r, domain, ops);
    assert(ops.map_values(on_domain(domain)) =~= compare_ops(domain, ss, rs));
}

/// One cycle of the comparison over a list of domains, each named once,
/// brings the members that the router store lists for each of them in line
/// with the online members that the state store has, and changes nothing
/// else in the router store.
pub proof fn lemma_cycle_converges(s: StateView, r: RouterView, domains: Seq<Seq<char>>)
    requires
        s.wf(),
        r.wf(),
        forall|i: int, j: int|
            0 <= i < j < domains.len() ==> #[trigger] domains[i] != #[trigger] domains[j],
        forall|i: int| 0 <= i < domains.len() ==> comparable(s, r, #[trigger] domains[i]),
    ensures
        compared_all(s, r, domains).wf(),
        forall|i: int|
            0 <= i < domains.len() ==> compared_all(s, r, domains).list(#[trigger] domains[i])
                == reconciled_list(s.online_by_domain(domains[i]), r.list(domains[i])),
        forall|i: int, p: (Seq<char>, int)|
            0 <= i < domains.len() ==> (s.online_by_domain(#[trigger] domains[i]).contains(p)
                <==> #[trigger] compared_all(s, r, domains).list(domains[i]).contains(p)),
        forall|d: Seq<char>|
            !domains.contains(d) ==> #[trigger] compared_all(s, r, domains).zset(d) == r.zset(d),
        compared_all(s, r, domains).subdomains == r.subdomains,
        compared_all(s, r, domains).leases == r.leases,
    decreases domains.len(),
{
    if domains.len() > 0 {
        let init = domains.drop_last();
        let d = domains.last();
        lemma_cycle_converges(s, r, init);
        let r0 = compared_all(s, r, init);
        assert(!init.contains(d)) by {
            if init.contains(d) {
                let k = choose|k: int| 0 <= k < init.len() && init[k] == d;
                assert(domains[k] != domains[domains.len() - 1]);
            }
        }
        lemma_compared_converges(s, r0, d);
        let r1 = compared(s, r0, d);
        assert forall|i: int| 0 <= i < domains.len() implies r1.list(#[trigger] domains[i])
            == reconciled_list(s.online_by_domain(domains[i]), r.list(domains[i])) by {
            if i < init.len() {
                assert(init[i] == domains[i]);
            }
        }
        assert forall|i: int, p: (Seq<char>, int)| 0 <= i < domains.len() implies (s.online_by_domain(
            #[trigger] domains[i],
        ).contains(p) <==> #[trigger] r1.list(domains[i]).contains(p)) by {
            lemma_reconciled_members(s.online_by_domain(domains[i]), r.list(domains[i]));
        }
        assert forall|x: Seq<char>| !domains.contains(x) implies #[trigger] r1.zset(x) == r.zset(
            x,
        ) by {}
    }
}

/// No notification takes a device or a node out of the store, and none
/// touches the memberships.
pub proof fn lemma_events_keep_rows(
    s: StateView,
    frps_id: Option<Seq<char>>,
    ev: FrpsEventView,
    now: int,
)
    ensures
        forall|d: Seq<char>|
            s.has_device(d) ==> #[trigger] handled(s, frps_id, ev, now).store.has_device(d),
        forall|n: Seq<char>| s.has_node(n) ==> #[trigger] handled(s, frps_id, ev, now).store.has_node(n),
        handled(s, frps_id, ev, now).store.domain_nodes == s.domain_nodes,
{
    let after = handled(s, frps_id, ev, now).store;
    assert forall|d: Seq<char>| s.has_device(d) implies #[trigger] after.has_device(d) by {
        let i = choose|i: int| 0 <= i < s.devices.len() && (#[trigger] s.devices[i]).device_id == d;
        assert(after.devices[i].device_id == d);
    }
    assert forall|n: Seq<char>| s.has_node(n) implies #[trigger] after.has_node(n) by {
        let i = choose|i: int| 0 <= i < s.nodes.len() && (#[trigger] s.nodes[i]).node_id == n;
        assert(after.nodes[i].node_id == n);
    }
}

} // verus!
