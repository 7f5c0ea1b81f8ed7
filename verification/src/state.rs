//! The state store as a mathematical value: the three tables in row order,
//! and the vocabulary in which queries and updates are stated.
use vstd::prelude::*;
use crate::db::StoreError;
use crate::models::{
    DeviceView, DomainNodesView, LivingNodeView, NodeLimitedView, NodeStatus, NodeView,
};
use crate::table::{first_of, lemma_filter_all, lemma_filter_empty_iff, update_where};

verus! {

/// The three tables, each in row order.
pub struct StateView {
    pub devices: Seq<DeviceView>,
    pub nodes: Seq<NodeView>,
    pub domain_nodes: Seq<DomainNodesView>,
}

/// Selects the node with the given id.
pub open spec fn node_is(node_id: Seq<char>) -> spec_fn(NodeView) -> bool {
    |n: NodeView| n.node_id == node_id
}

/// Selects the nodes of the given device.
pub open spec fn node_of_device(device_id: Seq<char>) -> spec_fn(NodeView) -> bool {
    |n: NodeView| n.device_id == device_id
}

/// Selects the node with the given subdomain.
pub open spec fn node_at_subdomain(subdomain: Seq<char>) -> spec_fn(NodeView) -> bool {
    |n: NodeView| n.subdomain == subdomain
}

/// Selects the node of the given device with the given subdomain.
pub open spec fn node_of_device_at(device_id: Seq<char>, subdomain: Seq<char>) -> spec_fn(
    NodeView,
) -> bool {
    |n: NodeView| n.device_id == device_id && n.subdomain == subdomain
}

/// Selects the nodes of the given device that are online or unavail.
pub open spec fn living_node_of(device_id: Seq<char>) -> spec_fn(NodeView) -> bool {
    |n: NodeView| n.device_id == device_id && n.status.is_living()
}

/// Selects the node with the given id if it is online.
pub open spec fn online_node_is(node_id: Seq<char>) -> spec_fn(NodeView) -> bool {
    |n: NodeView| n.node_id == node_id && n.status == NodeStatus::Online
}

/// Selects the living nodes that last answered before `t`. A node that never
/// answered is not selected.
pub open spec fn avail_expired(t: int) -> spec_fn(NodeView) -> bool {
    |n: NodeView| n.status.is_living() && n.last_avail_time is Some && n.last_avail_time->0 < t
}

/// Selects the online nodes whose tunnel was last active before `t`.
pub open spec fn active_expired(t: int) -> spec_fn(NodeView) -> bool {
    |n: NodeView| n.status == NodeStatus::Online && n.last_active_time < t
}

/// Sets the status.
pub open spec fn set_status(status: NodeStatus) -> spec_fn(NodeView) -> NodeView {
    |n: NodeView| NodeView { status, ..n }
}

/// Moves the time of last tunnel activity forward to `t`; a time that is
/// already later stays.
pub open spec fn raise_last_active(t: int) -> spec_fn(NodeView) -> NodeView {
    |n: NodeView|
        NodeView {
            last_active_time: if n.last_active_time < t {
                t
            } else {
                n.last_active_time
            },
            ..n
        }
}

/// Sets the time of last tunnel activity and the status.
pub open spec fn set_active_status(t: int, status: NodeStatus) -> spec_fn(NodeView) -> NodeView {
    |n: NodeView| NodeView { last_active_time: t, status, ..n }
}

/// Sets the time of the last answer and the status.
pub open spec fn set_avail_status(t: int, status: NodeStatus) -> spec_fn(NodeView) -> NodeView {
    |n: NodeView| NodeView { last_avail_time: Some(t), status, ..n }
}

/// Sets what a node reports of itself.
pub open spec fn set_info(
    node_version: Seq<char>,
    chat_model: Seq<char>,
    embedding_model: Seq<char>,
) -> spec_fn(NodeView) -> NodeView {
    |n: NodeView| NodeView { node_version, chat_model, embedding_model, ..n }
}

/// The row of a node as a tunnel event describes it: nothing has been
/// reported by the node itself yet.
pub open spec fn fresh_node(
    node_id: Seq<char>,
    device_id: Seq<char>,
    subdomain: Seq<char>,
    version: Seq<char>,
    arch: Seq<char>,
    os: Seq<char>,
    client_address: Seq<char>,
    login_time: int,
    last_active_time: int,
    run_id: Seq<char>,
    status: NodeStatus,
    meta: Seq<char>,
) -> NodeView {
    NodeView {
        node_id,
        device_id,
        subdomain,
        version,
        arch,
        os,
        client_address,
        login_time,
        last_active_time,
        last_avail_time: None,
        run_id,
        meta,
        node_version: Seq::empty(),
        chat_model: Seq::empty(),
        embedding_model: Seq::empty(),
        status,
    }
}

/// Rewrites a row with what a tunnel event says of the node. What the node
/// itself reported, and when it last answered, stay.
pub open spec fn refresh_with(fresh: NodeView) -> spec_fn(NodeView) -> NodeView {
    |n: NodeView|
        NodeView {
            last_avail_time: n.last_avail_time,
            node_version: n.node_version,
            chat_model: n.chat_model,
            embedding_model: n.embedding_model,
            ..fresh
        }
}

/// Selects the device with the given id.
pub open spec fn device_is(device_id: Seq<char>) -> spec_fn(DeviceView) -> bool {
    |d: DeviceView| d.device_id == device_id
}

/// Sets the login time.
pub open spec fn set_login_time(t: int) -> spec_fn(DeviceView) -> DeviceView {
    |d: DeviceView| DeviceView { login_time: t, ..d }
}

/// Selects the membership of the given node in the given domain.
pub open spec fn member_is(domain: Seq<char>, node_id: Seq<char>) -> spec_fn(
    DomainNodesView,
) -> bool {
    |m: DomainNodesView| m.domain == domain && m.node_id == node_id
}

/// Selects every membership but that of the given node in the given domain.
pub open spec fn member_is_not(domain: Seq<char>, node_id: Seq<char>) -> spec_fn(
    DomainNodesView,
) -> bool {
    |m: DomainNodesView| !(m.domain == domain && m.node_id == node_id)
}

/// Selects the memberships of the given domain.
pub open spec fn member_of_domain(domain: Seq<char>) -> spec_fn(DomainNodesView) -> bool {
    |m: DomainNodesView| m.domain == domain
}

/// Selects the memberships of the given node.
pub open spec fn member_for_node(node_id: Seq<char>) -> spec_fn(DomainNodesView) -> bool {
    |m: DomainNodesView| m.node_id == node_id
}

/// Sets the weight.
pub open spec fn set_weight(weight: int) -> spec_fn(DomainNodesView) -> DomainNodesView {
    |m: DomainNodesView| DomainNodesView { weight, ..m }
}

/// The filters of a node listing.
pub struct NodeQueryView {
    pub status: Option<Seq<char>>,
    pub device_id: Option<Seq<char>>,
    pub chat_model: Option<Seq<char>>,
    pub ids: Option<Seq<Seq<char>>>,
    pub lived_secs: Option<int>,
}

/// Selects the nodes that pass every filter of the query.
pub open spec fn matches_query(q: NodeQueryView) -> spec_fn(NodeView) -> bool {
    |n: NodeView|
        {
            &&& q.status is Some ==> n.status.name() == q.status->0
            &&& q.device_id is Some ==> n.device_id == q.device_id->0
            &&& q.chat_model is Some ==> n.chat_model == q.chat_model->0
            &&& q.ids is Some ==> q.ids->0.contains(n.node_id)
            &&& q.lived_secs is Some ==> n.lived_secs() >= q.lived_secs->0
        }
}

/// Selects the living nodes that logged in after `after` and have lived for
/// `lived_secs` seconds at least.
pub open spec fn living_longer(lived_secs: int, after: int) -> spec_fn(NodeView) -> bool {
    |n: NodeView| n.status.is_living() && n.login_time > after && n.lived_secs() >= lived_secs
}

/// Selects the online nodes that have lived for `lived_secs` seconds at
/// least.
pub open spec fn online_longer(lived_secs: int) -> spec_fn(NodeView) -> bool {
    |n: NodeView| n.status == NodeStatus::Online && n.lived_secs() >= lived_secs
}

/// Projects a node to the columns that the health probe needs.
pub open spec fn to_living() -> spec_fn(NodeView) -> LivingNodeView {
    |n: NodeView| n.living()
}

/// Projects a node to the columns that a listing shows.
pub open spec fn to_limited() -> spec_fn(NodeView) -> NodeLimitedView {
    |n: NodeView| n.limited()
}

/// The login time, by which living nodes are ordered.
pub open spec fn login_time_of() -> spec_fn(LivingNodeView) -> int {
    |n: LivingNodeView| n.login_time
}

/// The distinct values of `s`, each at the place where it occurs first.
pub open spec fn distinct(s: Seq<Seq<char>>) -> Seq<Seq<char>>
    decreases s.len(),
{
    if s.len() == 0 {
        s
    } else if distinct(s.drop_last()).contains(s.last()) {
        distinct(s.drop_last())
    } else {
        distinct(s.drop_last()).push(s.last())
    }
}

/// The domain of a membership.
pub open spec fn domain_of() -> spec_fn(DomainNodesView) -> Seq<char> {
    |m: DomainNodesView| m.domain
}

/// The node and the weight of a membership.
pub open spec fn node_weight_of() -> spec_fn(DomainNodesView) -> (Seq<char>, int) {
    |m: DomainNodesView| (m.node_id, m.weight)
}

impl StateView {
    /// Whether the store holds a device with the given id.
    pub open spec fn has_device(self, device_id: Seq<char>) -> bool {
        exists|i: int| 0 <= i < self.devices.len() && (#[trigger] self.devices[i]).device_id == device_id
    }

    /// Whether the store holds a node with the given id.
    pub open spec fn has_node(self, node_id: Seq<char>) -> bool {
        exists|i: int| 0 <= i < self.nodes.len() && (#[trigger] self.nodes[i]).node_id == node_id
    }

    /// Whether the store holds a node with the given subdomain.
    pub open spec fn has_subdomain(self, subdomain: Seq<char>) -> bool {
        exists|i: int| 0 <= i < self.nodes.len() && (#[trigger] self.nodes[i]).subdomain == subdomain
    }

    /// Whether the node is a member of the domain.
    pub open spec fn has_member(self, domain: Seq<char>, node_id: Seq<char>) -> bool {
        exists|i: int|
            0 <= i < self.domain_nodes.len() && (#[trigger] self.domain_nodes[i]).domain == domain
                && self.domain_nodes[i].node_id == node_id
    }

    /// The node with the given id, if the store holds one.
    pub open spec fn node(self, node_id: Seq<char>) -> Option<NodeView> {
        first_of(self.nodes.filter(node_is(node_id)))
    }

    /// The node with the given subdomain, if the store holds one.
    pub open spec fn node_at(self, subdomain: Seq<char>) -> Option<NodeView> {
        first_of(self.nodes.filter(node_at_subdomain(subdomain)))
    }

    /// The first membership of the given node, if it has one.
    pub open spec fn membership(self, node_id: Seq<char>) -> Option<DomainNodesView> {
        first_of(self.domain_nodes.filter(|m: DomainNodesView| m.node_id == node_id))
    }

    /// Device ids, node ids, subdomains and (domain, node) pairs are unique,
    /// and every node belongs to a device that the store holds.
    pub open spec fn wf(self) -> bool {
        &&& forall|i: int, j: int|
            0 <= i < j < self.devices.len() ==> (#[trigger] self.devices[i]).device_id != (
            #[trigger] self.devices[j]).device_id
        &&& forall|i: int, j: int|
            0 <= i < j < self.nodes.len() ==> (#[trigger] self.nodes[i]).node_id != (
            #[trigger] self.nodes[j]).node_id
        &&& forall|i: int, j: int|
            0 <= i < j < self.nodes.len() ==> (#[trigger] self.nodes[i]).subdomain != (
            #[trigger] self.nodes[j]).subdomain
        &&& forall|i: int|
            0 <= i < self.nodes.len() ==> self.has_device((#[trigger] self.nodes[i]).device_id)
        &&& forall|i: int, j: int|
            0 <= i < j < self.domain_nodes.len() ==> !((#[trigger] self.domain_nodes[i]).domain == (
            #[trigger] self.domain_nodes[j]).domain && self.domain_nodes[i].node_id
                == self.domain_nodes[j].node_id)
    }

    /// The store without rows.
    pub open spec fn empty() -> StateView {
        StateView { devices: Seq::empty(), nodes: Seq::empty(), domain_nodes: Seq::empty() }
    }

    /// The store after rewriting with `set` every node that `pred` selects.
    pub open spec fn update_nodes(
        self,
        pred: spec_fn(NodeView) -> bool,
        set: spec_fn(NodeView) -> NodeView,
    ) -> StateView {
        StateView { nodes: update_where(self.nodes, pred, set), ..self }
    }

    /// Why the store refuses to add `n`, if it does: its id or its subdomain
    /// is taken, or its device is unknown.
    pub open spec fn create_node_error(self, n: NodeView) -> Option<StoreError> {
        if self.has_node(n.node_id) || self.has_subdomain(n.subdomain) {
            Some(StoreError::UniqueViolation)
        } else if !self.has_device(n.device_id) {
            Some(StoreError::ForeignKeyViolation)
        } else {
            None
        }
    }

    /// The store after an attempt to add `n`.
    pub open spec fn create_node(self, n: NodeView) -> StateView {
        if self.create_node_error(n) is None {
            StateView { nodes: self.nodes.push(n), ..self }
        } else {
            self
        }
    }

    /// Whether a node other than `node_id` holds `subdomain`.
    pub open spec fn subdomain_taken_by_other(
        self,
        node_id: Seq<char>,
        subdomain: Seq<char>,
    ) -> bool {
        exists|i: int|
            0 <= i < self.nodes.len() && (#[trigger] self.nodes[i]).subdomain == subdomain
                && self.nodes[i].node_id != node_id
    }

    /// Why the store refuses to rewrite the node `fresh.node_id` with `fresh`,
    /// if it does. A node that the store does not hold is no error: nothing
    /// is written.
    pub open spec fn refresh_node_error(self, fresh: NodeView) -> Option<StoreError> {
        if !self.has_node(fresh.node_id) {
            None
        } else if self.subdomain_taken_by_other(fresh.node_id, fresh.subdomain) {
            Some(StoreError::UniqueViolation)
        } else if !self.has_device(fresh.device_id) {
            Some(StoreError::ForeignKeyViolation)
        } else {
            None
        }
    }

    /// The store after an attempt to rewrite the node `fresh.node_id`.
    pub open spec fn refresh_node(self, fresh: NodeView) -> StateView {
        if self.refresh_node_error(fresh) is None {
            self.update_nodes(node_is(fresh.node_id), refresh_with(fresh))
        } else {
            self
        }
    }

    /// Whether the store holds an online node with the given id.
    pub open spec fn node_online(self, node_id: Seq<char>) -> bool {
        exists|i: int|
            0 <= i < self.nodes.len() && (#[trigger] self.nodes[i]).node_id == node_id
                && self.nodes[i].status == NodeStatus::Online
    }

    /// Selects the memberships of `domain` whose node is online.
    pub open spec fn online_member_of(self, domain: Seq<char>) -> spec_fn(DomainNodesView) -> bool {
        |m: DomainNodesView| m.domain == domain && self.node_online(m.node_id)
    }

    /// The online nodes of `domain` with their weights, in row order of the
    /// memberships.
    pub open spec fn online_by_domain(self, domain: Seq<char>) -> Seq<(Seq<char>, int)> {
        self.domain_nodes.filter(self.online_member_of(domain)).map_values(node_weight_of())
    }

    /// The store after the expiry sweep at time `now` with the given time to
    /// live: first every living node that last answered before `now - ttl`
    /// is marked unavail, then every node that is still online and whose
    /// tunnel was last active before `now - ttl` is marked offline.
    pub open spec fn sweep_expired(self, now: int, ttl: int) -> StateView {
        self.update_nodes(avail_expired(now - ttl), set_status(NodeStatus::Unavail)).update_nodes(
            active_expired(now - ttl),
            set_status(NodeStatus::Offline),
        )
    }

    /// The store after setting the login time of the device.
    pub open spec fn update_device(self, device_id: Seq<char>, login_time: int) -> StateView {
        StateView {
            devices: update_where(self.devices, device_is(device_id), set_login_time(login_time)),
            ..self
        }
    }

    /// The store after setting the weight of a node in a domain.
    pub open spec fn update_member(
        self,
        domain: Seq<char>,
        node_id: Seq<char>,
        weight: int,
    ) -> StateView {
        StateView {
            domain_nodes: update_where(
                self.domain_nodes,
                member_is(domain, node_id),
                set_weight(weight),
            ),
            ..self
        }
    }

    /// The store after adding a node to a domain.
    pub open spec fn insert_member(
        self,
        domain: Seq<char>,
        node_id: Seq<char>,
        weight: int,
    ) -> StateView {
        StateView {
            domain_nodes: self.domain_nodes.push(DomainNodesView { domain, node_id, weight }),
            ..self
        }
    }

    /// The store after removing a node from a domain.
    pub open spec fn delete_member(self, domain: Seq<char>, node_id: Seq<char>) -> StateView {
        StateView {
            domain_nodes: self.domain_nodes.filter(member_is_not(domain, node_id)),
            ..self
        }
    }

    /// The membership of a node in a domain, if it has one.
    pub open spec fn member(
        self,
        domain: Seq<char>,
        node_id: Seq<char>,
    ) -> Option<DomainNodesView> {
        first_of(self.domain_nodes.filter(member_is(domain, node_id)))
    }

    /// A node is a member of a domain exactly when looking its membership up
    /// yields a row, and that row is of the node and the domain.
    pub proof fn lemma_member_lookup(self, domain: Seq<char>, node_id: Seq<char>)
        ensures
            self.member(domain, node_id) is Some <==> self.has_member(domain, node_id),
            self.member(domain, node_id) matches Some(m) ==> m.domain == domain && m.node_id
                == node_id,
    {
        let pred = member_is(domain, node_id);
        lemma_filter_empty_iff(self.domain_nodes, pred);
        if self.domain_nodes.filter(pred).len() > 0 {
            self.domain_nodes.lemma_filter_pred(pred, 0);
        }
    }

    /// Removing a node that is no member of the domain changes nothing.
    pub proof fn lemma_delete_absent(self, domain: Seq<char>, node_id: Seq<char>)
        requires
            !self.has_member(domain, node_id),
        ensures
            self.delete_member(domain, node_id) == self,
    {
        let keep = member_is_not(domain, node_id);
        lemma_filter_all(self.domain_nodes, keep);
    }
}

/// `distinct` holds every value of `s`, and each once.
pub proof fn lemma_distinct(s: Seq<Seq<char>>)
    ensures
        forall|x: Seq<char>| #[trigger] distinct(s).contains(x) <==> s.contains(x),
        forall|i: int, j: int|
            0 <= i < j < distinct(s).len() ==> #[trigger] distinct(s)[i] != #[trigger] distinct(s)[j],
    decreases s.len(),
{
    if s.len() > 0 {
        let init = s.drop_last();
        lemma_distinct(init);
        let d = distinct(init);
        assert forall|x: Seq<char>| #[trigger] distinct(s).contains(x) <==> s.contains(x) by {
            if s.contains(x) {
                let k = choose|k: int| 0 <= k < s.len() && s[k] == x;
                if k < init.len() {
                    assert(init[k] == x);
                    assert(d.contains(x));
                    let m = choose|m: int| 0 <= m < d.len() && d[m] == x;
                    assert(distinct(s)[m] == x);
                } else if !d.contains(s.last()) {
                    assert(distinct(s)[d.len() as int] == x);
                } else {
                    let m = choose|m: int| 0 <= m < d.len() && d[m] == x;
                }
            }
            if distinct(s).contains(x) {
                let m = choose|m: int| 0 <= m < distinct(s).len() && distinct(s)[m] == x;
                if m < d.len() {
                    assert(d.contains(x));
                }
            }
        }
        assert forall|i: int, j: int| 0 <= i < j < distinct(s).len() implies #[trigger] distinct(
            s,
        )[i] != #[trigger] distinct(s)[j] by {}
    }
}

} // verus!
