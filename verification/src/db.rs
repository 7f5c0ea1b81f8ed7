//! The state store: devices, nodes and domain memberships, with the queries
//! and updates that the services run on them.
use vstd::prelude::*;
use crate::models::{
    views, weights_view, Device, DeviceView, DomainNodes, DomainNodesView, LivingNode, NewDevice,
    NewNode, Node, NodeLimited, NodeStatus, NodeView,
};
use crate::state::{
    active_expired, avail_expired, device_is, distinct, domain_of, fresh_node, living_longer,
    living_node_of, login_time_of, matches_query, member_for_node, member_is, member_is_not,
    member_of_domain, node_at_subdomain, node_is, node_of_device, node_of_device_at, node_weight_of,
    online_longer, online_node_is, raise_last_active, refresh_with, set_active_status,
    set_avail_status, set_info, set_login_time, set_status, set_weight, to_limited, to_living,
    NodeQueryView, StateView,
};
use crate::table::{
    first_of, lemma_filter_agree, lemma_filter_all, lemma_filter_empty_iff, lemma_filter_remove,
    lemma_filter_single, lemma_filter_step, lemma_first_kept, lemma_insert_ordered_at, order_by,
    page_of, update_where,
};
use crate::text::{str_eq, strings_view, text_view};

verus! {

/// Why the store refused a write.
#[derive(Clone, Copy, PartialEq, Eq, Structural, Debug)]
pub enum StoreError {
    /// A row with the same key is already there.
    UniqueViolation,
    /// The row names a device that the store does not hold.
    ForeignKeyViolation,
}

/// The three tables, each in row order.
pub struct StateStore {
    devices: Vec<Device>,
    nodes: Vec<Node>,
    domain_nodes: Vec<DomainNodes>,
}

impl View for StateStore {
    type V = StateView;

    closed spec fn view(&self) -> StateView {
        StateView {
            devices: views(self.devices@),
            nodes: views(self.nodes@),
            domain_nodes: views(self.domain_nodes@),
        }
    }
}

impl StateStore {
    /// A store without rows.
    pub fn new() -> (store: StateStore)
        ensures
            store@ == StateView::empty(),
            store@.wf(),
    {
        let store = StateStore { devices: Vec::new(), nodes: Vec::new(), domain_nodes: Vec::new() };
        assert(store@.devices =~= Seq::empty());
        assert(store@.nodes =~= Seq::empty());
        assert(store@.domain_nodes =~= Seq::empty());
        store
    }

    /// The devices, in row order.
    pub fn devices(&self) -> (r: &Vec<Device>)
        ensures
            views(r@) == self@.devices,
    {
        &self.devices
    }

    /// The nodes, in row order.
    pub fn nodes(&self) -> (r: &Vec<Node>)
        ensures
            views(r@) == self@.nodes,
    {
        &self.nodes
    }

    /// The memberships, in row order.
    pub fn domain_nodes(&self) -> (r: &Vec<DomainNodes>)
        ensures
            views(r@) == self@.domain_nodes,
    {
        &self.domain_nodes
    }
}

/// The index of the first device with the given id.
fn find_device(devices: &Vec<Device>, device_id: &str) -> (r: Option<usize>)
    ensures
        match r {
            Some(i) => i < devices.len() && devices[i as int].device_id@ == device_id@ && forall|
                j: int,
            |
                0 <= j < i ==> devices[j].device_id@ != device_id@,
            None => forall|j: int| 0 <= j < devices.len() ==> devices[j].device_id@ != device_id@,
        },
{
    let mut i: usize = 0;
    while i < devices.len()
        invariant
            i <= devices.len(),
            forall|j: int| 0 <= j < i ==> devices[j].device_id@ != device_id@,
        decreases devices.len() - i,
    {
        if str_eq(devices[i].device_id.as_str(), device_id) {
            return Some(i);
        }
        i += 1;
    }
    None
}

/// Whether no two of the devices have the same id.
fn devices_distinct(devices: &Vec<Device>) -> (r: bool)
    ensures
        r == forall|a: int, b: int|
            0 <= a < b < devices.len() ==> (#[trigger] devices[a]).device_id@ != (
            #[trigger] devices[b]).device_id@,
{
    let mut i: usize = 0;
    while i < devices.len()
        invariant
            i <= devices.len(),
            forall|a: int, b: int|
                0 <= a < b < i ==> (#[trigger] devices[a]).device_id@ != (
                #[trigger] devices[b]).device_id@,
        decreases devices.len() - i,
    {
        let mut j: usize = 0;
        while j < i
            invariant
                j <= i < devices.len(),
                forall|a: int|
                    0 <= a < j ==> (#[trigger] devices[a]).device_id@
                        != devices[i as int].device_id@,
            decreases i - j,
        {
            if str_eq(devices[j].device_id.as_str(), devices[i].device_id.as_str()) {
                return false;
            }
            j += 1;
        }
        i += 1;
    }
    true
}

/// Whether one of the devices has the given id.
spec fn device_known(devices: Seq<Device>, device_id: Seq<char>) -> bool {
    exists|k: int| 0 <= k < devices.len() && (#[trigger] devices[k]).device_id@ == device_id
}

/// Whether no two of the nodes have the same id or the same subdomain, and
/// each of them belongs to one of the devices.
fn nodes_consistent(devices: &Vec<Device>, nodes: &Vec<Node>) -> (r: bool)
    ensures
        r == {
            &&& forall|a: int, b: int|
                0 <= a < b < nodes.len() ==> (#[trigger] nodes[a]).node_id@ != (
                #[trigger] nodes[b]).node_id@
            &&& forall|a: int, b: int|
                0 <= a < b < nodes.len() ==> (#[trigger] nodes[a]).subdomain@ != (
                #[trigger] nodes[b]).subdomain@
            &&& forall|a: int|
                0 <= a < nodes.len() ==> device_known(devices@, (#[trigger] nodes[a]).device_id@)
        },
{
    let mut i: usize = 0;
    while i < nodes.len()
        invariant
            i <= nodes.len(),
            forall|a: int, b: int|
                0 <= a < b < i ==> (#[trigger] nodes[a]).node_id@ != (#[trigger] nodes[b]).node_id@,
            forall|a: int, b: int|
                0 <= a < b < i ==> (#[trigger] nodes[a]).subdomain@ != (
                #[trigger] nodes[b]).subdomain@,
            forall|a: int|
                0 <= a < i ==> device_known(devices@, (#[trigger] nodes[a]).device_id@),
        decreases nodes.len() - i,
    {
        let mut j: usize = 0;
        while j < i
            invariant
                j <= i < nodes.len(),
                forall|a: int|
                    0 <= a < j ==> (#[trigger] nodes[a]).node_id@ != nodes[i as int].node_id@
                        && nodes[a].subdomain@ != nodes[i as int].subdomain@,
            decreases i - j,
        {
            if str_eq(nodes[j].node_id.as_str(), nodes[i].node_id.as_str()) || str_eq(
                nodes[j].subdomain.as_str(),
                nodes[i].subdomain.as_str(),
            ) {
                return false;
            }
            j += 1;
        }
        match find_device(devices, nodes[i].device_id.as_str()) {
            Some(k) => {},
            None => {
                return false;
            },
        }
        i += 1;
    }
    true
}

/// Whether no two of the memberships are of the same node in the same
/// domain.
fn members_distinct(members: &Vec<DomainNodes>) -> (r: bool)
    ensures
        r == forall|a: int, b: int|
            0 <= a < b < members.len() ==> !((#[trigger] members[a]).domain@ == (
            #[trigger] members[b]).domain@ && members[a].node_id@ == members[b].node_id@),
{
    let mut i: usize = 0;
    while i < members.len()
        invariant
            i <= members.len(),
            forall|a: int, b: int|
                0 <= a < b < i ==> !((#[trigger] members[a]).domain@ == (
                #[trigger] members[b]).domain@ && members[a].node_id@ == members[b].node_id@),
        decreases members.len() - i,
    {
        let mut j: usize = 0;
        while j < i
            invariant
                j <= i < members.len(),
                forall|a: int|
                    0 <= a < j ==> !((#[trigger] members[a]).domain@ == members[i as int].domain@
                        && members[a].node_id@ == members[i as int].node_id@),
            decreases i - j,
        {
            if str_eq(members[j].domain.as_str(), members[i].domain.as_str()) && str_eq(
                members[j].node_id.as_str(),
                members[i].node_id.as_str(),
            ) {
                return false;
            }
            j += 1;
        }
        i += 1;
    }
    true
}

/// The store that holds the given rows, where these are well formed.
pub fn load(devices: Vec<Device>, nodes: Vec<Node>, domain_nodes: Vec<DomainNodes>) -> (r: Option<
    StateStore,
>)
    ensures
        r is Some <==> (StateView {
            devices: views(devices@),
            nodes: views(nodes@),
            domain_nodes: views(domain_nodes@),
        }).wf(),
        r matches Some(store) ==> store@ == (StateView {
            devices: views(devices@),
            nodes: views(nodes@),
            domain_nodes: views(domain_nodes@),
        }),
{
    let ghost v = StateView {
        devices: views(devices@),
        nodes: views(nodes@),
        domain_nodes: views(domain_nodes@),
    };
    let ok = devices_distinct(&devices) && nodes_consistent(&devices, &nodes) && members_distinct(
        &domain_nodes,
    );
    proof {
        if ok {
            assert forall|a: int| 0 <= a < v.nodes.len() implies v.has_device(
                (#[trigger] v.nodes[a]).device_id,
            ) by {
                let k = choose|k: int|
                    0 <= k < devices.len() && (#[trigger] devices[k]).device_id@
                        == nodes[a].device_id@;
                assert(v.devices[k].device_id == v.nodes[a].device_id);
            }
        }
        if v.wf() {
            assert forall|a: int, b: int| 0 <= a < b < devices.len() implies (
            #[trigger] devices[a]).device_id@ != (#[trigger] devices[b]).device_id@ by {
                assert(v.devices[a].device_id != v.devices[b].device_id);
            }
            assert forall|a: int, b: int| 0 <= a < b < nodes.len() implies (
            #[trigger] nodes[a]).node_id@ != (#[trigger] nodes[b]).node_id@ by {
                assert(v.nodes[a].node_id != v.nodes[b].node_id);
            }
            assert forall|a: int, b: int| 0 <= a < b < nodes.len() implies (
            #[trigger] nodes[a]).subdomain@ != (#[trigger] nodes[b]).subdomain@ by {
                assert(v.nodes[a].subdomain != v.nodes[b].subdomain);
            }
            assert forall|a: int| 0 <= a < nodes.len() implies device_known(
                devices@,
                (#[trigger] nodes[a]).device_id@,
            ) by {
                let k = choose|k: int|
                    0 <= k < v.devices.len() && (#[trigger] v.devices[k]).device_id
                        == v.nodes[a].device_id;
            }
            assert forall|a: int, b: int| 0 <= a < b < domain_nodes.len() implies !((
            #[trigger] domain_nodes[a]).domain@ == (#[trigger] domain_nodes[b]).domain@
                && domain_nodes[a].node_id@ == domain_nodes[b].node_id@) by {
                assert(!(v.domain_nodes[a].domain == v.domain_nodes[b].domain
                    && v.domain_nodes[a].node_id == v.domain_nodes[b].node_id));
            }
        }
    }
    if ok {
        Some(StateStore { devices, nodes, domain_nodes })
    } else {
        None
    }
}

/// Stores a device that logs in for the first time. Refused when the store
/// already holds a device with this id.
pub fn create_device(
    store: &mut StateStore,
    device_id: &str,
    os: &str,
    arch: &str,
    version: &str,
    client_address: &str,
    metas: &str,
    login_time: i64,
) -> (r: Result<usize, StoreError>)
    requires
        old(store)@.wf(),
    ensures
        final(store)@.wf(),
        old(store)@.has_device(device_id@) ==> r == Err::<usize, StoreError>(
            StoreError::UniqueViolation,
        ) && final(store)@ == old(store)@,
        !old(store)@.has_device(device_id@) ==> r == Ok::<usize, StoreError>(1) && final(store)@
            == (StateView {
            devices: old(store)@.devices.push(
                DeviceView {
                    device_id: device_id@,
                    version: version@,
                    arch: arch@,
                    os: os@,
                    client_address: client_address@,
                    login_time: login_time as int,
                    meta: metas@,
                },
            ),
            ..old(store)@
        }),
{
    let device = NewDevice {
        device_id,
        os,
        arch,
        version,
        client_address,
        login_time,
        meta: metas,
    };
    match find_device(&store.devices, device_id) {
        Some(i) => {
            assert(store@.devices[i as int].device_id == device_id@);
            Err(StoreError::UniqueViolation)
        },
        None => {
            let row = device.to_device();
            store.devices.push(row);
            proof {
                assert(store@.devices =~= old(store)@.devices.push(row@));
                assert forall|i: int| 0 <= i < store@.nodes.len() implies store@.has_device(
                    (#[trigger] store@.nodes[i]).device_id,
                ) by {
                    let k = choose|k: int|
                        0 <= k < old(store)@.devices.len() && (
                        #[trigger] old(store)@.devices[k]).device_id
                            == old(store)@.nodes[i].device_id;
                    assert(store@.devices[k] == old(store)@.devices[k]);
                }
            }
            Ok(1)
        },
    }
}

/// Which nodes a query or an update selects.
enum NodeSel<'a> {
    NodeId(&'a str),
    DeviceId(&'a str),
    Subdomain(&'a str),
    DeviceSubdomain(&'a str, &'a str),
    LivingOfDevice(&'a str),
    OnlineNodeId(&'a str),
    LivingAvailBefore(i64),
    OnlineActiveBefore(i64),
}

/// What an update writes into the nodes that it selects.
enum NodePatch<'a> {
    Status(NodeStatus),
    LastActive(i64),
    ActiveStatus(i64, NodeStatus),
    AvailStatus(i64, NodeStatus),
    Info(&'a str, &'a str, &'a str),
}

impl<'a> NodeSel<'a> {
    spec fn pred(self) -> spec_fn(NodeView) -> bool {
        match self {
            NodeSel::NodeId(id) => node_is(id@),
            NodeSel::DeviceId(id) => node_of_device(id@),
            NodeSel::Subdomain(sub) => node_at_subdomain(sub@),
            NodeSel::DeviceSubdomain(id, sub) => node_of_device_at(id@, sub@),
            NodeSel::LivingOfDevice(id) => living_node_of(id@),
            NodeSel::OnlineNodeId(id) => online_node_is(id@),
            NodeSel::LivingAvailBefore(t) => avail_expired(t as int),
            NodeSel::OnlineActiveBefore(t) => active_expired(t as int),
        }
    }

    fn test(&self, n: &Node) -> (r: bool)
        ensures
            r == (self.pred())(n@),
    {
        match self {
            NodeSel::NodeId(id) => str_eq(n.node_id.as_str(), id),
            NodeSel::DeviceId(id) => str_eq(n.device_id.as_str(), id),
            NodeSel::Subdomain(sub) => str_eq(n.subdomain.as_str(), sub),
            NodeSel::DeviceSubdomain(id, sub) => str_eq(n.device_id.as_str(), id) && str_eq(
                n.subdomain.as_str(),
                sub,
            ),
            NodeSel::LivingOfDevice(id) => str_eq(n.device_id.as_str(), id) && n.status.living(),
            NodeSel::OnlineNodeId(id) => str_eq(n.node_id.as_str(), id) && n.status
                == NodeStatus::Online,
            NodeSel::LivingAvailBefore(t) => n.status.living() && match n.last_avail_time {
                Some(a) => a < *t,
                None => false,
            },
            NodeSel::OnlineActiveBefore(t) => n.status == NodeStatus::Online && n.last_active_time
                < *t,
        }
    }
}

impl<'a> NodePatch<'a> {
    spec fn set(self) -> spec_fn(NodeView) -> NodeView {
        match self {
            NodePatch::Status(s) => set_status(s),
            NodePatch::LastActive(t) => raise_last_active(t as int),
            NodePatch::ActiveStatus(t, s) => set_active_status(t as int, s),
            NodePatch::AvailStatus(t, s) => set_avail_status(t as int, s),
            NodePatch::Info(v, c, e) => set_info(v@, c@, e@),
        }
    }

    fn apply(&self, n: &mut Node)
        ensures
            final(n)@ == (self.set())(old(n)@),
    {
        match self {
            NodePatch::Status(s) => {
                n.status = *s;
            },
            NodePatch::LastActive(t) => {
                if n.last_active_time < *t {
                    n.last_active_time = *t;
                }
            },
            NodePatch::ActiveStatus(t, s) => {
                n.last_active_time = *t;
                n.status = *s;
            },
            NodePatch::AvailStatus(t, s) => {
                n.last_avail_time = Some(*t);
                n.status = *s;
            },
            NodePatch::Info(v, c, e) => {
                n.node_version = (*v).to_owned();
                n.chat_model = (*c).to_owned();
                n.embedding_model = (*e).to_owned();
            },
        }
    }

    /// A patch writes no column that a uniqueness or reference rule reads.
    proof fn lemma_keeps_keys(self, n: NodeView)
        ensures
            (self.set())(n).node_id == n.node_id,
            (self.set())(n).subdomain == n.subdomain,
            (self.set())(n).device_id == n.device_id,
    {
    }
}

/// Rewriting nodes without touching their ids, subdomains and devices keeps
/// the store well formed.
proof fn lemma_node_update_keeps_wf(s0: StateView, s1: StateView)
    requires
        s0.wf(),
        s1.devices == s0.devices,
        s1.domain_nodes == s0.domain_nodes,
        s1.nodes.len() == s0.nodes.len(),
        forall|i: int|
            0 <= i < s0.nodes.len() ==> (#[trigger] s1.nodes[i]).node_id == s0.nodes[i].node_id
                && s1.nodes[i].subdomain == s0.nodes[i].subdomain && s1.nodes[i].device_id
                == s0.nodes[i].device_id,
    ensures
        s1.wf(),
{
}

/// Writes `patch` into every node that `sel` selects; the number of nodes
/// selected.
fn update_nodes(store: &mut StateStore, sel: &NodeSel, patch: &NodePatch) -> (r: usize)
    requires
        old(store)@.wf(),
    ensures
        final(store)@.wf(),
        final(store)@ == old(store)@.update_nodes(sel.pred(), patch.set()),
        r == old(store)@.nodes.filter(sel.pred()).len(),
{
    let ghost before = views(store.nodes@);
    let ghost pred = sel.pred();
    let ghost set = patch.set();
    let mut count: usize = 0;
    let mut i: usize = 0;
    assert(before.take(0).filter(pred) =~= Seq::empty()) by {
        reveal(Seq::filter);
    }
    while i < store.nodes.len()
        invariant
            i <= store.nodes.len(),
            store.nodes.len() == before.len(),
            store.devices == old(store).devices,
            store.domain_nodes == old(store).domain_nodes,
            forall|j: int|
                0 <= j < i ==> (#[trigger] store.nodes[j])@ == update_where(before, pred, set)[j],
            forall|j: int| i <= j < store.nodes.len() ==> (#[trigger] store.nodes[j])@ == before[j],
            count == before.take(i as int).filter(pred).len(),
            count <= i,
            pred == sel.pred(),
            set == patch.set(),
        decreases store.nodes.len() - i,
    {
        proof {
            lemma_filter_step(before, pred, i as int);
        }
        if sel.test(&store.nodes[i]) {
            patch.apply(&mut store.nodes[i]);
            count += 1;
        }
        i += 1;
    }
    proof {
        assert(before.take(before.len() as int) == before);
        assert(views(store.nodes@) =~= update_where(before, pred, set));
        assert forall|i: int| 0 <= i < before.len() implies (#[trigger] store@.nodes[i]).node_id
            == before[i].node_id && store@.nodes[i].subdomain == before[i].subdomain
            && store@.nodes[i].device_id == before[i].device_id by {
            patch.lemma_keeps_keys(before[i]);
        }
        lemma_node_update_keeps_wf(old(store)@, store@);
    }
    count
}

/// The nodes that `sel` selects, in row order.
fn select_nodes(store: &StateStore, sel: &NodeSel) -> (r: Vec<Node>)
    ensures
        views(r@) == store@.nodes.filter(sel.pred()),
{
    let ghost rows = views(store.nodes@);
    let ghost pred = sel.pred();
    let mut out: Vec<Node> = Vec::new();
    let mut i: usize = 0;
    assert(rows.take(0).filter(pred) =~= Seq::empty()) by {
        reveal(Seq::filter);
    }
    while i < store.nodes.len()
        invariant
            i <= store.nodes.len(),
            rows == views(store.nodes@),
            views(out@) == rows.take(i as int).filter(pred),
            pred == sel.pred(),
        decreases store.nodes.len() - i,
    {
        proof {
            lemma_filter_step(rows, pred, i as int);
        }
        if sel.test(&store.nodes[i]) {
            let row = store.nodes[i].clone();
            out.push(row);
        }
        i += 1;
    }
    assert(rows.take(rows.len() as int) == rows);
    out
}

/// The first node that `sel` selects.
fn first_node(store: &StateStore, sel: &NodeSel) -> (r: Option<Node>)
    ensures
        node_view(r) == first_of(store@.nodes.filter(sel.pred())),
{
    let ghost rows = views(store.nodes@);
    let ghost pred = sel.pred();
    let mut i: usize = 0;
    assert(rows.take(0).filter(pred) =~= Seq::empty()) by {
        reveal(Seq::filter);
    }
    while i < store.nodes.len()
        invariant
            i <= store.nodes.len(),
            rows == views(store.nodes@),
            rows.take(i as int).filter(pred).len() == 0,
            pred == sel.pred(),
        decreases store.nodes.len() - i,
    {
        proof {
            lemma_filter_step(rows, pred, i as int);
        }
        if sel.test(&store.nodes[i]) {
            let row = store.nodes[i].clone();
            proof {
                lemma_first_kept(rows, pred, i as int + 1);
            }
            return Some(row);
        }
        i += 1;
    }
    assert(rows.take(rows.len() as int) == rows);
    None
}

/// The view of an optional node.
pub open spec fn node_view(n: Option<Node>) -> Option<NodeView> {
    match n {
        Some(n) => Some(n@),
        None => None,
    }
}

/// The index of the first node for which `sel` holds.
fn find_node(store: &StateStore, sel: &NodeSel) -> (r: Option<usize>)
    ensures
        match r {
            Some(i) => i < store@.nodes.len() && (sel.pred())(store@.nodes[i as int]) && forall|
                j: int,
            |
                0 <= j < i ==> !(sel.pred())(#[trigger] store@.nodes[j]),
            None => forall|j: int|
                0 <= j < store@.nodes.len() ==> !(sel.pred())(#[trigger] store@.nodes[j]),
        },
{
    let mut i: usize = 0;
    while i < store.nodes.len()
        invariant
            i <= store.nodes.len(),
            forall|j: int| 0 <= j < i ==> !(sel.pred())(#[trigger] store@.nodes[j]),
        decreases store.nodes.len() - i,
    {
        if sel.test(&store.nodes[i]) {
            return Some(i);
        }
        i += 1;
    }
    None
}

/// Stores a node that a tunnel event announces for the first time. Its id
/// and its subdomain must be free, and its device known.
pub fn create_node_status(
    store: &mut StateStore,
    node_id: &str,
    device_id: &str,
    subdomain: &str,
    version: &str,
    arch: &str,
    os: &str,
    client_address: &str,
    login_time: i64,
    last_active_time: i64,
    run_id: &str,
    status: NodeStatus,
    metas: &str,
) -> (r: Result<usize, StoreError>)
    requires
        old(store)@.wf(),
    ensures
        final(store)@.wf(),
        final(store)@ == old(store)@.create_node(
            fresh_node(
                node_id@,
                device_id@,
                subdomain@,
                version@,
                arch@,
                os@,
                client_address@,
                login_time as int,
                last_active_time as int,
                run_id@,
                status,
                metas@,
            ),
        ),
        r == match old(store)@.create_node_error(
            fresh_node(
                node_id@,
                device_id@,
                subdomain@,
                version@,
                arch@,
                os@,
                client_address@,
                login_time as int,
                last_active_time as int,
                run_id@,
                status,
                metas@,
            ),
        ) {
            Some(e) => Err::<usize, StoreError>(e),
            None => Ok::<usize, StoreError>(1),
        },
{
    let node = NewNode {
        node_id,
        device_id,
        subdomain,
        version,
        arch,
        os,
        client_address,
        status,
        login_time,
        last_active_time,
        run_id,
        meta: metas,
    };
    if find_node(store, &NodeSel::NodeId(node_id)).is_some() {
        return Err(StoreError::UniqueViolation);
    }
    if find_node(store, &NodeSel::Subdomain(subdomain)).is_some() {
        return Err(StoreError::UniqueViolation);
    }
    if find_device(&store.devices, device_id).is_none() {
        return Err(StoreError::ForeignKeyViolation);
    }
    let row = node.to_node();
    store.nodes.push(row);
    proof {
        let s0 = old(store)@;
        assert(store@.nodes =~= s0.nodes.push(row@));
        let k = choose|k: int|
            0 <= k < old(store).devices.len() && old(store).devices[k].device_id@ == device_id@;
        assert(s0.devices[k].device_id == device_id@);
        assert(store@.devices == s0.devices);
        assert(store@.domain_nodes == s0.domain_nodes);
    }
    Ok(1)
}

/// Rewrites the node `node_id` with what a tunnel event says of it. Refused
/// when another node holds the subdomain or the device is unknown; a node
/// that the store does not hold is left out without error.
pub fn update_node_status_more(
    store: &mut StateStore,
    node_id: &str,
    subdomain: &str,
    device_id: &str,
    version: &str,
    arch: &str,
    os: &str,
    client_address: &str,
    login_time: i64,
    last_active_time: i64,
    run_id: &str,
    status: NodeStatus,
    metas: &str,
) -> (r: Result<usize, StoreError>)
    requires
        old(store)@.wf(),
    ensures
        final(store)@.wf(),
        final(store)@ == old(store)@.refresh_node(
            fresh_node(
                node_id@,
                device_id@,
                subdomain@,
                version@,
                arch@,
                os@,
                client_address@,
                login_time as int,
                last_active_time as int,
                run_id@,
                status,
                metas@,
            ),
        ),
        r == match old(store)@.refresh_node_error(
            fresh_node(
                node_id@,
                device_id@,
                subdomain@,
                version@,
                arch@,
                os@,
                client_address@,
                login_time as int,
                last_active_time as int,
                run_id@,
                status,
                metas@,
            ),
        ) {
            Some(e) => Err::<usize, StoreError>(e),
            None => Ok::<usize, StoreError>(
                if old(store)@.has_node(node_id@) {
                    1usize
                } else {
                    0usize
                },
            ),
        },
{
    let ghost s0 = store@;
    let ghost fresh = fresh_node(
        node_id@,
        device_id@,
        subdomain@,
        version@,
        arch@,
        os@,
        client_address@,
        login_time as int,
        last_active_time as int,
        run_id@,
        status,
        metas@,
    );
    let i = match find_node(store, &NodeSel::NodeId(node_id)) {
        Some(i) => i,
        None => {
            proof {
                assert(store@.nodes =~= update_where(s0.nodes, node_is(node_id@), refresh_with(fresh)));
            }
            return Ok(0);
        },
    };
    match find_node(store, &NodeSel::Subdomain(subdomain)) {
        Some(k) => {
            if k != i {
                return Err(StoreError::UniqueViolation);
            }
        },
        None => {},
    }
    assert(!s0.subdomain_taken_by_other(node_id@, subdomain@));
    if find_device(&store.devices, device_id).is_none() {
        return Err(StoreError::ForeignKeyViolation);
    }
    proof {
        let k = choose|k: int|
            0 <= k < old(store).devices.len() && old(store).devices[k].device_id@ == device_id@;
        assert(s0.devices[k].device_id == device_id@);
    }
    store.nodes[i].subdomain = subdomain.to_owned();
    store.nodes[i].device_id = device_id.to_owned();
    store.nodes[i].version = version.to_owned();
    store.nodes[i].arch = arch.to_owned();
    store.nodes[i].os = os.to_owned();
    store.nodes[i].client_address = client_address.to_owned();
    store.nodes[i].login_time = login_time;
    store.nodes[i].last_active_time = last_active_time;
    store.nodes[i].run_id = run_id.to_owned();
    store.nodes[i].status = status;
    store.nodes[i].meta = metas.to_owned();
    proof {
        assert(store@.nodes =~= update_where(s0.nodes, node_is(node_id@), refresh_with(fresh)));
        assert(store@.devices == s0.devices);
        assert(store@.domain_nodes == s0.domain_nodes);
        assert forall|a: int, b: int| 0 <= a < b < store@.nodes.len() implies (
        #[trigger] store@.nodes[a]).subdomain != (#[trigger] store@.nodes[b]).subdomain by {}
        assert forall|a: int, b: int| 0 <= a < b < store@.nodes.len() implies (
        #[trigger] store@.nodes[a]).node_id != (#[trigger] store@.nodes[b]).node_id by {}
    }
    Ok(1)
}

/// Records tunnel activity of a device at the given time: each of its nodes
/// that is online or unavail has its time of last activity moved forward to
/// it. A time of last activity is never moved back.
pub fn update_online_node_last_active_time(
    store: &mut StateStore,
    device_id: &str,
    last_active_time: i64,
) -> (r: usize)
    requires
        old(store)@.wf(),
    ensures
        final(store)@.wf(),
        final(store)@ == old(store)@.update_nodes(
            living_node_of(device_id@),
            raise_last_active(last_active_time as int),
        ),
        r == old(store)@.nodes.filter(living_node_of(device_id@)).len(),
{
    update_nodes(
        store,
        &NodeSel::LivingOfDevice(device_id),
        &NodePatch::LastActive(last_active_time),
    )
}

/// Sets the time of last activity and the status of the node of the given
/// device with the given subdomain.
pub fn update_node_active_status(
    store: &mut StateStore,
    device_id: &str,
    subdomain: &str,
    last_active_time: i64,
    status: NodeStatus,
) -> (r: usize)
    requires
        old(store)@.wf(),
    ensures
        final(store)@.wf(),
        final(store)@ == old(store)@.update_nodes(
            node_of_device_at(device_id@, subdomain@),
            set_active_status(last_active_time as int, status),
        ),
        r == old(store)@.nodes.filter(node_of_device_at(device_id@, subdomain@)).len(),
{
    update_nodes(
        store,
        &NodeSel::DeviceSubdomain(device_id, subdomain),
        &NodePatch::ActiveStatus(last_active_time, status),
    )
}

/// Sets the time at which the node last answered, together with its status.
pub fn update_node_avail_time_and_status(
    store: &mut StateStore,
    node_id: &str,
    last_avail_time: i64,
    status: NodeStatus,
) -> (r: usize)
    requires
        old(store)@.wf(),
    ensures
        final(store)@.wf(),
        final(store)@ == old(store)@.update_nodes(
            node_is(node_id@),
            set_avail_status(last_avail_time as int, status),
        ),
        r == old(store)@.nodes.filter(node_is(node_id@)).len(),
{
    update_nodes(store, &NodeSel::NodeId(node_id), &NodePatch::AvailStatus(last_avail_time, status))
}

/// Sets the status of the node.
pub fn update_node_status(store: &mut StateStore, node_id: &str, status: NodeStatus) -> (r: usize)
    requires
        old(store)@.wf(),
    ensures
        final(store)@.wf(),
        final(store)@ == old(store)@.update_nodes(node_is(node_id@), set_status(status)),
        r == old(store)@.nodes.filter(node_is(node_id@)).len(),
{
    update_nodes(store, &NodeSel::NodeId(node_id), &NodePatch::Status(status))
}

/// Marks the node unavail if it is online.
pub fn unavail_node(store: &mut StateStore, node_id: &str) -> (r: usize)
    requires
        old(store)@.wf(),
    ensures
        final(store)@.wf(),
        final(store)@ == old(store)@.update_nodes(
            online_node_is(node_id@),
            set_status(NodeStatus::Unavail),
        ),
        r == old(store)@.nodes.filter(online_node_is(node_id@)).len(),
{
    update_nodes(store, &NodeSel::OnlineNodeId(node_id), &NodePatch::Status(NodeStatus::Unavail))
}

/// Sets the status of every node of the device.
pub fn update_nodes_status_by_device_id(
    store: &mut StateStore,
    device_id: &str,
    status: NodeStatus,
) -> (r: usize)
    requires
        old(store)@.wf(),
    ensures
        final(store)@.wf(),
        final(store)@ == old(store)@.update_nodes(node_of_device(device_id@), set_status(status)),
        r == old(store)@.nodes.filter(node_of_device(device_id@)).len(),
{
    update_nodes(store, &NodeSel::DeviceId(device_id), &NodePatch::Status(status))
}

/// Records what the nodes of a device report of themselves.
pub fn update_nodes_info_by_device_id(
    store: &mut StateStore,
    device_id: &str,
    node_version: &str,
    chat_model: &str,
    embedding_model_name: &str,
) -> (r: usize)
    requires
        old(store)@.wf(),
    ensures
        final(store)@.wf(),
        final(store)@ == old(store)@.update_nodes(
            node_of_device(device_id@),
            set_info(node_version@, chat_model@, embedding_model_name@),
        ),
        r == old(store)@.nodes.filter(node_of_device(device_id@)).len(),
{
    update_nodes(
        store,
        &NodeSel::DeviceId(device_id),
        &NodePatch::Info(node_version, chat_model, embedding_model_name),
    )
}

/// Records what a node reports of itself.
pub fn update_node_info_by_node_id(
    store: &mut StateStore,
    node_id: &str,
    node_version: &str,
    chat_model: &str,
    embedding_model_name: &str,
) -> (r: usize)
    requires
        old(store)@.wf(),
    ensures
        final(store)@.wf(),
        final(store)@ == old(store)@.update_nodes(
            node_is(node_id@),
            set_info(node_version@, chat_model@, embedding_model_name@),
        ),
        r == old(store)@.nodes.filter(node_is(node_id@)).len(),
{
    update_nodes(
        store,
        &NodeSel::NodeId(node_id),
        &NodePatch::Info(node_version, chat_model, embedding_model_name),
    )
}

/// Marks offline every online node whose tunnel was last active before
/// `seconds_before`.
pub fn close_expired_nodes(store: &mut StateStore, seconds_before: i64) -> (r: usize)
    requires
        old(store)@.wf(),
    ensures
        final(store)@.wf(),
        final(store)@ == old(store)@.update_nodes(
            active_expired(seconds_before as int),
            set_status(NodeStatus::Offline),
        ),
        r == old(store)@.nodes.filter(active_expired(seconds_before as int)).len(),
{
    update_nodes(
        store,
        &NodeSel::OnlineActiveBefore(seconds_before),
        &NodePatch::Status(NodeStatus::Offline),
    )
}

/// Marks unavail every living node that last answered before
/// `seconds_before`.
pub fn unavail_expired_nodes(store: &mut StateStore, seconds_before: i64) -> (r: usize)
    requires
        old(store)@.wf(),
    ensures
        final(store)@.wf(),
        final(store)@ == old(store)@.update_nodes(
            avail_expired(seconds_before as int),
            set_status(NodeStatus::Unavail),
        ),
        r == old(store)@.nodes.filter(avail_expired(seconds_before as int)).len(),
{
    update_nodes(
        store,
        &NodeSel::LivingAvailBefore(seconds_before),
        &NodePatch::Status(NodeStatus::Unavail),
    )
}

/// The node with the given id.
pub fn query_node_by_node_id(store: &StateStore, node_id: &str) -> (r: Option<Node>)
    ensures
        node_view(r) == store@.node(node_id@),
{
    first_node(store, &NodeSel::NodeId(node_id))
}

/// The nodes of the given device, in row order.
pub fn query_nodes_by_device_id(store: &StateStore, device_id: &str) -> (r: Vec<Node>)
    ensures
        views(r@) == store@.nodes.filter(node_of_device(device_id@)),
{
    select_nodes(store, &NodeSel::DeviceId(device_id))
}

/// The node with the given subdomain.
pub fn query_node_by_subdomain(store: &StateStore, subdomain: &str) -> (r: Option<Node>)
    ensures
        node_view(r) == store@.node_at(subdomain@),
{
    first_node(store, &NodeSel::Subdomain(subdomain))
}

/// The view of an optional membership.
pub open spec fn member_view(m: Option<DomainNodes>) -> Option<DomainNodesView> {
    match m {
        Some(m) => Some(m@),
        None => None,
    }
}

/// Sets the login time of the device.
pub fn update_device(store: &mut StateStore, device_id: &str, login_time: i64) -> (r: usize)
    requires
        old(store)@.wf(),
    ensures
        final(store)@.wf(),
        final(store)@ == (StateView {
            devices: update_where(
                old(store)@.devices,
                device_is(device_id@),
                set_login_time(login_time as int),
            ),
            ..old(store)@
        }),
        r == old(store)@.devices.filter(device_is(device_id@)).len(),
{
    let ghost before = store@.devices;
    let ghost pred = device_is(device_id@);
    let ghost set = set_login_time(login_time as int);
    let mut count: usize = 0;
    let mut i: usize = 0;
    assert(before.take(0).filter(pred) =~= Seq::empty()) by {
        reveal(Seq::filter);
    }
    while i < store.devices.len()
        invariant
            i <= store.devices.len(),
            store.devices.len() == before.len(),
            store.nodes == old(store).nodes,
            store.domain_nodes == old(store).domain_nodes,
            forall|j: int|
                0 <= j < i ==> (#[trigger] store.devices[j])@ == update_where(before, pred, set)[j],
            forall|j: int|
                i <= j < store.devices.len() ==> (#[trigger] store.devices[j])@ == before[j],
            count == before.take(i as int).filter(pred).len(),
            count <= i,
            pred == device_is(device_id@),
            set == set_login_time(login_time as int),
        decreases store.devices.len() - i,
    {
        proof {
            lemma_filter_step(before, pred, i as int);
        }
        if str_eq(store.devices[i].device_id.as_str(), device_id) {
            store.devices[i].login_time = login_time;
            count += 1;
        }
        i += 1;
    }
    proof {
        assert(before.take(before.len() as int) == before);
        assert(store@.devices =~= update_where(before, pred, set));
        assert forall|a: int| 0 <= a < store@.nodes.len() implies store@.has_device(
            (#[trigger] store@.nodes[a]).device_id,
        ) by {
            let k = choose|k: int|
                0 <= k < before.len() && (#[trigger] before[k]).device_id
                    == old(store)@.nodes[a].device_id;
            assert(store@.devices[k].device_id == before[k].device_id);
        }
    }
    count
}

/// The number of devices with the given id.
pub fn count_device_by_device_id(store: &StateStore, device_id: &str) -> (r: i64)
    requires
        store@.wf(),
    ensures
        r == store@.devices.filter(device_is(device_id@)).len(),
        r == if store@.has_device(device_id@) {
            1int
        } else {
            0int
        },
{
    let ghost rows = store@.devices;
    let ghost pred = device_is(device_id@);
    match find_device(&store.devices, device_id) {
        Some(i) => {
            proof {
                assert forall|j: int| 0 <= j < rows.len() && j != i implies !pred(
                    #[trigger] rows[j],
                ) by {
                    if j > i {
                        assert(rows[i as int].device_id != rows[j].device_id);
                    }
                }
                lemma_filter_single(rows, pred, i as int);
            }
            1
        },
        None => {
            proof {
                lemma_filter_empty_iff(rows, pred);
            }
            0
        },
    }
}

/// The devices with the given id, in row order.
pub fn query_device_by_device_id(store: &StateStore, device_id: &str) -> (r: Vec<Device>)
    ensures
        views(r@) == store@.devices.filter(device_is(device_id@)),
{
    let ghost rows = store@.devices;
    let ghost pred = device_is(device_id@);
    let mut out: Vec<Device> = Vec::new();
    let mut i: usize = 0;
    assert(rows.take(0).filter(pred) =~= Seq::empty()) by {
        reveal(Seq::filter);
    }
    while i < store.devices.len()
        invariant
            i <= store.devices.len(),
            rows == views(store.devices@),
            views(out@) == rows.take(i as int).filter(pred),
            pred == device_is(device_id@),
        decreases store.devices.len() - i,
    {
        proof {
            lemma_filter_step(rows, pred, i as int);
        }
        if str_eq(store.devices[i].device_id.as_str(), device_id) {
            let row = store.devices[i].clone();
            out.push(row);
        }
        i += 1;
    }
    assert(rows.take(rows.len() as int) == rows);
    out
}

/// Which memberships a query or an update selects.
enum MemberSel<'a> {
    Pair(&'a str, &'a str),
    Domain(&'a str),
    Node(&'a str),
}

impl<'a> MemberSel<'a> {
    spec fn pred(self) -> spec_fn(DomainNodesView) -> bool {
        match self {
            MemberSel::Pair(d, n) => member_is(d@, n@),
            MemberSel::Domain(d) => member_of_domain(d@),
            MemberSel::Node(n) => member_for_node(n@),
        }
    }

    fn test(&self, m: &DomainNodes) -> (r: bool)
        ensures
            r == (self.pred())(m@),
    {
        match self {
            MemberSel::Pair(d, n) => str_eq(m.domain.as_str(), d) && str_eq(m.node_id.as_str(), n),
            MemberSel::Domain(d) => str_eq(m.domain.as_str(), d),
            MemberSel::Node(n) => str_eq(m.node_id.as_str(), n),
        }
    }
}

/// The index of the first membership that `sel` selects.
fn find_member(store: &StateStore, sel: &MemberSel) -> (r: Option<usize>)
    ensures
        match r {
            Some(i) => i < store@.domain_nodes.len() && i < store.domain_nodes.len() && (sel.pred())(
                store@.domain_nodes[i as int],
            ) && forall|j: int| 0 <= j < i ==> !(sel.pred())(#[trigger] store@.domain_nodes[j]),
            None => forall|j: int|
                0 <= j < store@.domain_nodes.len() ==> !(sel.pred())(
                    #[trigger] store@.domain_nodes[j],
                ),
        },
        member_view(
            match r {
                Some(i) => Some(store.domain_nodes[i as int]),
                None => None,
            },
        ) == first_of(store@.domain_nodes.filter(sel.pred())),
{
    let ghost rows = store@.domain_nodes;
    let ghost pred = sel.pred();
    let mut i: usize = 0;
    assert(rows.take(0).filter(pred) =~= Seq::empty()) by {
        reveal(Seq::filter);
    }
    while i < store.domain_nodes.len()
        invariant
            i <= store.domain_nodes.len(),
            rows == views(store.domain_nodes@),
            rows.take(i as int).filter(pred).len() == 0,
            forall|j: int| 0 <= j < i ==> !pred(#[trigger] rows[j]),
            pred == sel.pred(),
        decreases store.domain_nodes.len() - i,
    {
        proof {
            lemma_filter_step(rows, pred, i as int);
        }
        if sel.test(&store.domain_nodes[i]) {
            proof {
                lemma_first_kept(rows, pred, i as int + 1);
            }
            return Some(i);
        }
        i += 1;
    }
    assert(rows.take(rows.len() as int) == rows);
    None
}

/// The memberships that `sel` selects, in row order.
fn select_members(store: &StateStore, sel: &MemberSel) -> (r: Vec<DomainNodes>)
    ensures
        views(r@) == store@.domain_nodes.filter(sel.pred()),
{
    let ghost rows = store@.domain_nodes;
    let ghost pred = sel.pred();
    let mut out: Vec<DomainNodes> = Vec::new();
    let mut i: usize = 0;
    assert(rows.take(0).filter(pred) =~= Seq::empty()) by {
        reveal(Seq::filter);
    }
    while i < store.domain_nodes.len()
        invariant
            i <= store.domain_nodes.len(),
            rows == views(store.domain_nodes@),
            views(out@) == rows.take(i as int).filter(pred),
            pred == sel.pred(),
        decreases store.domain_nodes.len() - i,
    {
        proof {
            lemma_filter_step(rows, pred, i as int);
        }
        if sel.test(&store.domain_nodes[i]) {
            let row = store.domain_nodes[i].clone();
            out.push(row);
        }
        i += 1;
    }
    assert(rows.take(rows.len() as int) == rows);
    out
}

/// Adds a node to a domain with the given weight. Refused when the node is
/// already a member of that domain.
pub fn insert_domain_node(store: &mut StateStore, domain: &str, node_id: &str, weight: i64) -> (r:
    Result<usize, StoreError>)
    requires
        old(store)@.wf(),
    ensures
        final(store)@.wf(),
        old(store)@.has_member(domain@, node_id@) ==> r == Err::<usize, StoreError>(
            StoreError::UniqueViolation,
        ) && final(store)@ == old(store)@,
        !old(store)@.has_member(domain@, node_id@) ==> r == Ok::<usize, StoreError>(1)
            && final(store)@ == (StateView {
            domain_nodes: old(store)@.domain_nodes.push(
                DomainNodesView { domain: domain@, node_id: node_id@, weight: weight as int },
            ),
            ..old(store)@
        }),
{
    let ghost s0 = store@;
    match find_member(store, &MemberSel::Pair(domain, node_id)) {
        Some(i) => {
            Err(StoreError::UniqueViolation)
        },
        None => {
            let row = DomainNodes {
                domain: domain.to_owned(),
                node_id: node_id.to_owned(),
                weight,
            };
            store.domain_nodes.push(row);
            proof {
                assert(store@.domain_nodes =~= s0.domain_nodes.push(row@));
                assert(store@.devices == s0.devices);
                assert forall|a: int| 0 <= a < store@.nodes.len() implies store@.has_device(
                    (#[trigger] store@.nodes[a]).device_id,
                ) by {}
            }
            Ok(1)
        },
    }
}

/// Sets the weight of a node in a domain.
pub fn update_domain_node(store: &mut StateStore, domain: &str, node_id: &str, weight: i64) -> (r:
    usize)
    requires
        old(store)@.wf(),
    ensures
        final(store)@.wf(),
        final(store)@ == (StateView {
            domain_nodes: update_where(
                old(store)@.domain_nodes,
                member_is(domain@, node_id@),
                set_weight(weight as int),
            ),
            ..old(store)@
        }),
        r == old(store)@.domain_nodes.filter(member_is(domain@, node_id@)).len(),
        r == if old(store)@.has_member(domain@, node_id@) {
            1int
        } else {
            0int
        },
{
    let ghost s0 = store@;
    let ghost rows = s0.domain_nodes;
    let ghost pred = member_is(domain@, node_id@);
    match find_member(store, &MemberSel::Pair(domain, node_id)) {
        Some(i) => {
            store.domain_nodes[i].weight = weight;
            proof {
                lemma_filter_single(rows, pred, i as int);
                assert(store@.domain_nodes =~= update_where(rows, pred, set_weight(weight as int)));
                assert(store@.devices == s0.devices);
                assert forall|a: int| 0 <= a < store@.nodes.len() implies store@.has_device(
                    (#[trigger] store@.nodes[a]).device_id,
                ) by {}
                assert forall|a: int, b: int|
                    0 <= a < b < store@.domain_nodes.len() implies !((
                #[trigger] store@.domain_nodes[a]).domain == (#[trigger] store@.domain_nodes[b]).domain
                    && store@.domain_nodes[a].node_id == store@.domain_nodes[b].node_id) by {}
            }
            1
        },
        None => {
            proof {
                lemma_filter_empty_iff(rows, pred);
                assert(store@.domain_nodes =~= update_where(rows, pred, set_weight(weight as int)));
                assert(!s0.has_member(domain@, node_id@));
            }
            0
        },
    }
}

/// The memberships of a domain, in row order.
pub fn query_domain_nodes(store: &StateStore, domain: &str) -> (r: Vec<DomainNodes>)
    ensures
        views(r@) == store@.domain_nodes.filter(member_of_domain(domain@)),
{
    select_members(store, &MemberSel::Domain(domain))
}

/// The membership of a node in a domain.
pub fn query_domain_node(store: &StateStore, domain: &str, node_id: &str) -> (r: Option<
    DomainNodes,
>)
    ensures
        member_view(r) == first_of(store@.domain_nodes.filter(member_is(domain@, node_id@))),
{
    match find_member(store, &MemberSel::Pair(domain, node_id)) {
        Some(i) => Some(store.domain_nodes[i].clone()),
        None => None,
    }
}

/// The first membership of a node, whatever the domain.
pub fn query_domain_node_by_node_id(store: &StateStore, node_id: &str) -> (r: Option<DomainNodes>)
    ensures
        member_view(r) == store@.membership(node_id@),
{
    match find_member(store, &MemberSel::Node(node_id)) {
        Some(i) => Some(store.domain_nodes[i].clone()),
        None => None,
    }
}

/// Removes a node from a domain and hands back the membership that was
/// removed, if there was one.
pub fn delete_domain_node(store: &mut StateStore, domain: &str, node_id: &str) -> (r: Option<
    DomainNodes,
>)
    requires
        old(store)@.wf(),
    ensures
        final(store)@.wf(),
        member_view(r) == first_of(old(store)@.domain_nodes.filter(member_is(domain@, node_id@))),
        r is Some <==> old(store)@.has_member(domain@, node_id@),
        final(store)@ == (StateView {
            domain_nodes: old(store)@.domain_nodes.filter(member_is_not(domain@, node_id@)),
            ..old(store)@
        }),
{
    let ghost s0 = store@;
    let ghost rows = s0.domain_nodes;
    let ghost keep = member_is_not(domain@, node_id@);
    match find_member(store, &MemberSel::Pair(domain, node_id)) {
        Some(i) => {
            let row = store.domain_nodes.remove(i);
            proof {
                lemma_filter_remove(rows, keep, i as int);
                assert(store@.domain_nodes =~= rows.remove(i as int));
                assert(store@.devices == s0.devices);
                assert forall|a: int| 0 <= a < store@.nodes.len() implies store@.has_device(
                    (#[trigger] store@.nodes[a]).device_id,
                ) by {}
                assert forall|a: int, b: int|
                    0 <= a < b < store@.domain_nodes.len() implies !((
                #[trigger] store@.domain_nodes[a]).domain == (#[trigger] store@.domain_nodes[b]).domain
                    && store@.domain_nodes[a].node_id == store@.domain_nodes[b].node_id) by {}
            }
            Some(row)
        },
        None => {
            proof {
                lemma_filter_all(rows, keep);
                assert(!s0.has_member(domain@, node_id@));
            }
            None
        },
    }
}

/// The filters of a node listing; a filter that is `None` lets every node
/// through.
#[derive(Debug, PartialEq, Eq)]
pub struct NodeQuery {
    /// The name of the status that the node must have.
    pub status: Option<String>,
    pub device_id: Option<String>,
    pub chat_model: Option<String>,
    /// The ids among which the node's id must be.
    pub ids: Option<Vec<String>>,
    /// The least number of seconds between login and last activity.
    pub lived_secs: Option<u64>,
}

impl View for NodeQuery {
    type V = NodeQueryView;

    open spec fn view(&self) -> NodeQueryView {
        NodeQueryView {
            status: text_view(self.status),
            device_id: text_view(self.device_id),
            chat_model: text_view(self.chat_model),
            ids: match self.ids {
                Some(v) => Some(strings_view(v@)),
                None => None,
            },
            lived_secs: match self.lived_secs {
                Some(l) => Some(l as int),
                None => None,
            },
        }
    }
}

impl NodeQuery {
    /// The query without filters.
    pub fn new() -> (r: NodeQuery)
        ensures
            r@ == (NodeQueryView {
                status: None,
                device_id: None,
                chat_model: None,
                ids: None,
                lived_secs: None,
            }),
    {
        NodeQuery { status: None, device_id: None, chat_model: None, ids: None, lived_secs: None }
    }
}

fn contains_text(list: &Vec<String>, s: &str) -> (r: bool)
    ensures
        r == strings_view(list@).contains(s@),
{
    let mut i: usize = 0;
    while i < list.len()
        invariant
            i <= list.len(),
            forall|j: int| 0 <= j < i ==> strings_view(list@)[j] != s@,
        decreases list.len() - i,
    {
        if str_eq(list[i].as_str(), s) {
            assert(strings_view(list@)[i as int] == s@);
            return true;
        }
        i += 1;
    }
    false
}

fn lived_at_least(n: &Node, lived_secs: u64) -> (r: bool)
    ensures
        r == (n@.lived_secs() >= lived_secs),
{
    n.last_active_time as i128 - n.login_time as i128 >= lived_secs as i128
}

fn passes(q: &NodeQuery, n: &Node) -> (r: bool)
    ensures
        r == (matches_query(q@))(n@),
{
    let status_ok = match &q.status {
        Some(s) => str_eq(n.status.as_str(), s.as_str()),
        None => true,
    };
    let device_ok = match &q.device_id {
        Some(s) => str_eq(n.device_id.as_str(), s.as_str()),
        None => true,
    };
    let model_ok = match &q.chat_model {
        Some(s) => str_eq(n.chat_model.as_str(), s.as_str()),
        None => true,
    };
    let ids_ok = match &q.ids {
        Some(v) => contains_text(v, n.node_id.as_str()),
        None => true,
    };
    let lived_ok = match q.lived_secs {
        Some(l) => lived_at_least(n, l),
        None => true,
    };
    status_ok && device_ok && model_ok && ids_ok && lived_ok
}

/// The nodes that pass every filter of the query, in row order, each with the
/// columns that a listing shows.
pub fn query_nodes_by_parameters(store: &StateStore, params: &NodeQuery) -> (r: Vec<NodeLimited>)
    ensures
        views(r@) == store@.nodes.filter(matches_query(params@)).map_values(to_limited()),
{
    let ghost rows = store@.nodes;
    let ghost pred = matches_query(params@);
    let mut out: Vec<NodeLimited> = Vec::new();
    let mut i: usize = 0;
    assert(rows.take(0).filter(pred) =~= Seq::empty()) by {
        reveal(Seq::filter);
    }
    while i < store.nodes.len()
        invariant
            i <= store.nodes.len(),
            rows == views(store.nodes@),
            views(out@) == rows.take(i as int).filter(pred).map_values(to_limited()),
            pred == matches_query(params@),
        decreases store.nodes.len() - i,
    {
        proof {
            lemma_filter_step(rows, pred, i as int);
        }
        if passes(params, &store.nodes[i]) {
            let row = store.nodes[i].to_limited();
            let ghost prev = out@;
            out.push(row);
            proof {
                assert(views(out@) =~= views(prev).push(row@));
            }
        }
        i += 1;
    }
    assert(rows.take(rows.len() as int) == rows);
    out
}

/// Which nodes a living-node listing selects.
enum LivingSel {
    Living(u64, i64),
    Online(u64),
}

impl LivingSel {
    spec fn pred(self) -> spec_fn(NodeView) -> bool {
        match self {
            LivingSel::Living(lived, after) => living_longer(lived as int, after as int),
            LivingSel::Online(lived) => online_longer(lived as int),
        }
    }

    fn test(&self, n: &Node) -> (r: bool)
        ensures
            r == (self.pred())(n@),
    {
        match self {
            LivingSel::Living(lived, after) => n.status.living() && n.login_time > *after
                && lived_at_least(n, *lived),
            LivingSel::Online(lived) => n.status == NodeStatus::Online && lived_at_least(n, *lived),
        }
    }
}

/// The selected nodes in ascending order of login time.
fn living_ordered(store: &StateStore, sel: &LivingSel) -> (r: Vec<LivingNode>)
    ensures
        views(r@) == order_by(store@.nodes.filter(sel.pred()).map_values(to_living()), login_time_of()),
{
    let ghost rows = store@.nodes;
    let ghost pred = sel.pred();
    let ghost key = login_time_of();
    let mut out: Vec<LivingNode> = Vec::new();
    let mut i: usize = 0;
    assert(rows.take(0).filter(pred) =~= Seq::empty()) by {
        reveal(Seq::filter);
    }
    while i < store.nodes.len()
        invariant
            i <= store.nodes.len(),
            rows == views(store.nodes@),
            views(out@) == order_by(rows.take(i as int).filter(pred).map_values(to_living()), key),
            pred == sel.pred(),
            key == login_time_of(),
        decreases store.nodes.len() - i,
    {
        proof {
            lemma_filter_step(rows, pred, i as int);
        }
        if sel.test(&store.nodes[i]) {
            let row = store.nodes[i].to_living();
            let ghost prev = views(out@);
            let mut j: usize = out.len();
            while j > 0 && out[j - 1].login_time > row.login_time
                invariant
                    j <= out.len(),
                    prev == views(out@),
                    key == login_time_of(),
                    forall|k: int| j <= k < out.len() ==> key(#[trigger] prev[k]) > key(row@),
                decreases j,
            {
                j -= 1;
            }
            out.insert(j, row);
            proof {
                let kept = rows.take(i as int).filter(pred);
                lemma_insert_ordered_at(prev, row@, key, j as int);
                let mapped = kept.push(rows[i as int]).map_values(to_living());
                assert(mapped.drop_last() =~= kept.map_values(to_living()));
            }
        }
        i += 1;
    }
    assert(rows.take(rows.len() as int) == rows);
    out
}

/// The rows of one page of `rows`.
fn take_page(rows: Vec<LivingNode>, offset: usize, limit: usize) -> (r: Vec<LivingNode>)
    ensures
        views(r@) == page_of(views(rows@), offset as int, limit as int),
{
    let mut rows = rows;
    if limit == 0 || offset >= rows.len() {
        let r: Vec<LivingNode> = Vec::new();
        return r;
    }
    let mut page = rows.split_off(offset);
    page.truncate(limit);
    page
}

/// One page of the living nodes that logged in after `earliest_login_time`
/// and have lived for `lived_secs` seconds at least: the first `page_size`
/// of them in ascending order of login time. A page size below zero gives no
/// rows.
pub fn query_living_nodes_by_login_time(
    store: &StateStore,
    lived_secs: u64,
    page_size: i64,
    earliest_login_time: i64,
) -> (r: Vec<LivingNode>)
    ensures
        views(r@) == page_of(
            order_by(
                store@.nodes.filter(
                    living_longer(lived_secs as int, earliest_login_time as int),
                ).map_values(to_living()),
                login_time_of(),
            ),
            0,
            page_size as int,
        ),
{
    let all = living_ordered(store, &LivingSel::Living(lived_secs, earliest_login_time));
    if page_size <= 0 {
        let r: Vec<LivingNode> = Vec::new();
        return r;
    }
    if page_size as u64 > usize::MAX as u64 {
        let n = all.len();
        return take_page(all, 0, n);
    }
    take_page(all, 0, page_size as usize)
}

/// One page of the online nodes that have lived for `lived_secs` seconds at
/// least, in ascending order of login time: `size` rows after the first
/// `page * size`. A page or a size below zero gives no rows.
pub fn query_living_nodes(store: &StateStore, lived_secs: u64, page: i64, size: i64) -> (r: Vec<
    LivingNode,
>)
    ensures
        views(r@) == page_of(
            order_by(
                store@.nodes.filter(online_longer(lived_secs as int)).map_values(to_living()),
                login_time_of(),
            ),
            if page < 0 {
                -1
            } else {
                page * size
            },
            size as int,
        ),
{
    let all = living_ordered(store, &LivingSel::Online(lived_secs));
    if page < 0 || size <= 0 {
        let r: Vec<LivingNode> = Vec::new();
        return r;
    }
    assert(0 <= page * size <= 0x7fff_ffff_ffff_ffff * 0x7fff_ffff_ffff_ffff) by (nonlinear_arith)
        requires
            0 <= page <= 0x7fff_ffff_ffff_ffff,
            0 < size <= 0x7fff_ffff_ffff_ffff,
    ;
    let offset: i128 = page as i128 * size as i128;
    let n = all.len();
    if offset >= n as i128 {
        let r: Vec<LivingNode> = Vec::new();
        return r;
    }
    let limit: usize = if size as u64 > n as u64 {
        n
    } else {
        size as usize
    };
    take_page(all, offset as usize, limit)
}

/// The domains that have a member, each once, in the order in which they
/// first occur.
pub fn get_distinct_domains(store: &StateStore) -> (r: Vec<String>)
    ensures
        strings_view(r@) == distinct(store@.domain_nodes.map_values(domain_of())),
{
    let ghost all = store@.domain_nodes.map_values(domain_of());
    let mut out: Vec<String> = Vec::new();
    let mut i: usize = 0;
    while i < store.domain_nodes.len()
        invariant
            i <= store.domain_nodes.len(),
            all == views(store.domain_nodes@).map_values(domain_of()),
            strings_view(out@) == distinct(all.take(i as int)),
        decreases store.domain_nodes.len() - i,
    {
        proof {
            assert(all.take(i as int + 1).drop_last() =~= all.take(i as int));
        }
        if !contains_text(&out, store.domain_nodes[i].domain.as_str()) {
            let d = store.domain_nodes[i].domain.clone();
            out.push(d);
        }
        i += 1;
    }
    assert(all.take(all.len() as int) =~= all);
    out
}

fn is_online(store: &StateStore, node_id: &str) -> (r: bool)
    ensures
        r == store@.node_online(node_id@),
{
    let mut i: usize = 0;
    while i < store.nodes.len()
        invariant
            i <= store.nodes.len(),
            forall|j: int|
                0 <= j < i ==> !((#[trigger] store@.nodes[j]).node_id == node_id@
                    && store@.nodes[j].status == NodeStatus::Online),
        decreases store.nodes.len() - i,
    {
        if str_eq(store.nodes[i].node_id.as_str(), node_id) && store.nodes[i].status
            == NodeStatus::Online {
            assert(store@.nodes[i as int].node_id == node_id@);
            return true;
        }
        i += 1;
    }
    false
}

/// The online nodes of `domain` with their weights.
pub fn get_nodes_by_domain(store: &StateStore, domain: &str) -> (r: Vec<(String, i64)>)
    ensures
        weights_view(r@) == store@.online_by_domain(domain@),
{
    let ghost rows = store@.domain_nodes;
    let ghost pred = store@.online_member_of(domain@);
    let mut out: Vec<(String, i64)> = Vec::new();
    let mut i: usize = 0;
    assert(rows.take(0).filter(pred) =~= Seq::empty()) by {
        reveal(Seq::filter);
    }
    while i < store.domain_nodes.len()
        invariant
            i <= store.domain_nodes.len(),
            rows == views(store.domain_nodes@),
            weights_view(out@) == rows.take(i as int).filter(pred).map_values(node_weight_of()),
            pred == store@.online_member_of(domain@),
        decreases store.domain_nodes.len() - i,
    {
        proof {
            lemma_filter_step(rows, pred, i as int);
        }
        if str_eq(store.domain_nodes[i].domain.as_str(), domain) && is_online(
            store,
            store.domain_nodes[i].node_id.as_str(),
        ) {
            let entry = (store.domain_nodes[i].node_id.clone(), store.domain_nodes[i].weight);
            let ghost prev = out@;
            out.push(entry);
            proof {
                assert(weights_view(out@) =~= weights_view(prev).push((entry.0@, entry.1 as int)));
            }
        }
        i += 1;
    }
    assert(rows.take(rows.len() as int) == rows);
    out
}

/// Runs the expiry sweep at time `now`. The number of nodes that the first
/// phase selects, and the number that the second phase marks offline.
pub fn sweep_expired(store: &mut StateStore, now: i64, ttl: u64) -> (r: (usize, usize))
    requires
        old(store)@.wf(),
    ensures
        final(store)@.wf(),
        final(store)@ == old(store)@.sweep_expired(now as int, ttl as int),
        r.0 == old(store)@.nodes.filter(avail_expired(now - ttl)).len(),
        r.1 == old(store)@.update_nodes(
            avail_expired(now - ttl),
            set_status(NodeStatus::Unavail),
        ).nodes.filter(active_expired(now - ttl)).len(),
{
    let t: i128 = now as i128 - ttl as i128;
    let before: i64 = if t < i64::MIN as i128 {
        i64::MIN
    } else {
        t as i64
    };
    let ghost s0 = store@;
    let n_unavail = unavail_expired_nodes(store, before);
    let ghost s1 = store@;
    let n_closed = close_expired_nodes(store, before);
    proof {
        let exact_avail = avail_expired(now - ttl);
        let exact_active = active_expired(now - ttl);
        lemma_filter_agree(s0.nodes, avail_expired(before as int), exact_avail);
        assert(s1.nodes =~= update_where(s0.nodes, exact_avail, set_status(NodeStatus::Unavail)));
        lemma_filter_agree(s1.nodes, active_expired(before as int), exact_active);
        assert(store@.nodes =~= update_where(s1.nodes, exact_active, set_status(NodeStatus::Offline)));
    }
    (n_unavail, n_closed)
}

} // verus!
