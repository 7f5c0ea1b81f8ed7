//! Routing of requests and the three maintenance jobs: the expiry sweep, the
//! health probe and the comparison of the two stores.
use vstd::prelude::*;
use crate::db::{
    get_distinct_domains, get_nodes_by_domain, query_living_nodes_by_login_time, sweep_expired,
    unavail_node, StateStore,
};
use crate::frps::{frps_path_matches, is_frps_path};
use crate::models::{views, weights_view, LivingNode, NodeStatus};
use crate::node_services::{is_node_api_path, node_api_path_matches};
use crate::redism::{
    apply_all, get_domain_nodes, lease_end, ops_view, try_acquire_lease, RouterOp, RouterOpView,
    RouterStore, RouterView,
};
use crate::state::{
    active_expired, avail_expired, distinct, domain_of, living_longer, login_time_of,
    online_node_is, set_status, to_living, StateView,
};
use crate::table::{lemma_filter_step, order_by, page_of};
use crate::text::str_eq;

verus! {

/// Seconds without a sign of life after which a node counts as gone.
pub const NODE_LIVING_DURATION: u64 = 180;

/// Seconds between two comparisons of the stores.
pub const CROSS_COMPARE_INTERVAL: u64 = 60;

/// Seconds for which the lease of the health probe is taken.
pub const CHECKING_NODES_HEALTH_DURATION: u64 = 3600;

/// Seconds between two attempts to run the health probe.
pub const CHECKING_NODES_HEALTH_INTERVAL: u64 = 60;

/// The least time that a node must have lived to be probed, in seconds.
pub const PROBE_LEAST_LIVED_SECS: u64 = 10;

/// The number of nodes that the health probe takes at a time.
pub const PROBE_PAGE_SIZE: i64 = 100;

/// The number of probes that may be under way at once.
pub const PROBE_CONCURRENCY: usize = 10;

/// Seconds after which a probe that got no answer is given up.
pub const PROBE_TIMEOUT_SECS: u64 = 5;

/// The method of a request.
#[derive(Clone, Copy, PartialEq, Eq, Structural, Debug)]
pub enum Method {
    Get,
    Post,
    Put,
    Delete,
    Other,
}

/// The service that answers a request.
#[derive(Clone, Copy, PartialEq, Eq, Structural, Debug)]
pub enum Route {
    /// The tunnel-server webhook.
    Frps,
    /// A report of a node.
    NodeApi,
    /// The filtered node listing.
    QueryNodes,
    /// The pageable listing of living nodes.
    LivingNodes,
    /// The liveness probe of this service.
    HealthCheck,
    /// The members of a domain.
    GetDomainNodes,
    /// Creation and update of members.
    CreateDomainNode,
    /// Removal of members.
    RemoveDomainNode,
    NotFound,
}

/// The service that answers a request with the given method and path.
pub open spec fn route_of(method: Method, path: Seq<char>) -> Route {
    match method {
        Method::Post => if frps_path_matches(path) {
            Route::Frps
        } else if node_api_path_matches(path) {
            Route::NodeApi
        } else {
            Route::NotFound
        },
        Method::Get => if path == "/inner/nodes"@ {
            Route::QueryNodes
        } else if path == "/inner/living_nodes"@ {
            Route::LivingNodes
        } else if path == "/health-check"@ {
            Route::HealthCheck
        } else if path == "/domain_nodes"@ {
            Route::GetDomainNodes
        } else {
            Route::NotFound
        },
        Method::Put => if path == "/domain_nodes"@ {
            Route::CreateDomainNode
        } else {
            Route::NotFound
        },
        Method::Delete => if path == "/domain_nodes"@ {
            Route::RemoveDomainNode
        } else {
            Route::NotFound
        },
        Method::Other => Route::NotFound,
    }
}

/// The service that answers a request with the given method and path.
pub fn routers(method: Method, path: &str) -> (r: Route)
    ensures
        r == route_of(method, path@),
{
    match method {
        Method::Post => {
            if is_frps_path(path) {
                Route::Frps
            } else if is_node_api_path(path) {
                Route::NodeApi
            } else {
                Route::NotFound
            }
        },
        Method::Get => {
            if str_eq(path, "/inner/nodes") {
                Route::QueryNodes
            } else if str_eq(path, "/inner/living_nodes") {
                Route::LivingNodes
            } else if str_eq(path, "/health-check") {
                Route::HealthCheck
            } else if str_eq(path, "/domain_nodes") {
                Route::GetDomainNodes
            } else {
                Route::NotFound
            }
        },
        Method::Put => {
            if str_eq(path, "/domain_nodes") {
                Route::CreateDomainNode
            } else {
                Route::NotFound
            }
        },
        Method::Delete => {
            if str_eq(path, "/domain_nodes") {
                Route::RemoveDomainNode
            } else {
                Route::NotFound
            }
        },
        Method::Other => Route::NotFound,
    }
}

/// The body of the answer to the liveness probe of this service.
pub fn health() -> (r: &'static str)
    ensures
        r@ == "ok"@,
{
    "ok"
}

/// Runs the expiry sweep at time `now` with the living duration as time to
/// live. The number of nodes that the first phase selects, and the number
/// that the second phase marks offline.
pub fn close_expired_nodes(store: &mut StateStore, now: i64) -> (r: (usize, usize))
    requires
        old(store)@.wf(),
    ensures
        final(store)@.wf(),
        final(store)@ == old(store)@.sweep_expired(now as int, NODE_LIVING_DURATION as int),
        r.0 == old(store)@.nodes.filter(avail_expired(now - NODE_LIVING_DURATION)).len(),
        r.1 == old(store)@.update_nodes(
            avail_expired(now - NODE_LIVING_DURATION),
            set_status(NodeStatus::Unavail),
        ).nodes.filter(active_expired(now - NODE_LIVING_DURATION)).len(),
{
    sweep_expired(store, now, NODE_LIVING_DURATION)
}

/// How a probe of a node ended.
#[derive(Clone, Copy, PartialEq, Eq, Structural, Debug)]
pub enum ProbeOutcome {
    /// The node answered with this HTTP status.
    Status(u16),
    /// No answer came: a network error or a timeout.
    NoResponse,
}

/// Whether a probe that ended like this leaves the node available: only an
/// answer with a status outside 200 to 299 does not.
pub open spec fn probe_passed(outcome: ProbeOutcome) -> bool {
    match outcome {
        ProbeOutcome::Status(code) => 200 <= code < 300,
        ProbeOutcome::NoResponse => true,
    }
}

/// Whether a probe that ended like this leaves the node available.
pub fn determine_node_avail(outcome: ProbeOutcome) -> (r: bool)
    ensures
        r == probe_passed(outcome),
{
    match outcome {
        ProbeOutcome::Status(code) => 200 <= code && code < 300,
        ProbeOutcome::NoResponse => true,
    }
}

/// The address to which the probe of a node is sent.
pub open spec fn probe_address(subdomain: Seq<char>) -> Seq<char> {
    "https://"@ + subdomain + "/v1/chat/completions"@
}

/// The address to which the probe of a node is sent.
pub fn probe_url(node: &LivingNode) -> (r: String)
    ensures
        r@ == probe_address(node.subdomain@),
{
    let mut url = "https://".to_owned();
    url.append(node.subdomain.as_str());
    url.append("/v1/chat/completions");
    url
}

/// Records how the probe of the node `node_id` ended: the node is marked
/// unavail if it is online and the probe did not pass. Whether the probe
/// passed.
pub fn record_probe(store: &mut StateStore, node_id: &str, outcome: ProbeOutcome) -> (r: bool)
    requires
        old(store)@.wf(),
    ensures
        final(store)@.wf(),
        r == probe_passed(outcome),
        final(store)@ == if probe_passed(outcome) {
            old(store)@
        } else {
            old(store)@.update_nodes(online_node_is(node_id@), set_status(NodeStatus::Unavail))
        },
{
    let passed = determine_node_avail(outcome);
    if !passed {
        unavail_node(store, node_id);
    }
    passed
}

/// The nodes to probe next, and where to go on.
#[derive(Debug, PartialEq, Eq)]
pub struct HealthPage {
    pub nodes: Vec<LivingNode>,
    /// The login time after which the next page starts; `None` when this
    /// page is the last.
    pub next: Option<i64>,
}

/// The living nodes that the health probe takes after those that logged in
/// up to `after`.
pub open spec fn probe_page(s: StateView, after: int) -> Seq<crate::models::LivingNodeView> {
    page_of(
        order_by(
            s.nodes.filter(living_longer(PROBE_LEAST_LIVED_SECS as int, after)).map_values(
                to_living(),
            ),
            login_time_of(),
        ),
        0,
        PROBE_PAGE_SIZE as int,
    )
}

/// One step of the health probe: the page of living nodes that logged in
/// after `earliest_login_time`, in ascending order of login time. The probe
/// goes on behind the last node of a full page and ends with a page that is
/// not full.
pub fn check_nodes_health(store: &StateStore, earliest_login_time: i64) -> (r: HealthPage)
    ensures
        views(r.nodes@) == probe_page(store@, earliest_login_time as int),
        r.next == if r.nodes@.len() == PROBE_PAGE_SIZE {
            Some(r.nodes@.last().login_time)
        } else {
            None
        },
{
    let nodes = query_living_nodes_by_login_time(
        store,
        PROBE_LEAST_LIVED_SECS,
        PROBE_PAGE_SIZE,
        earliest_login_time,
    );
    let n = nodes.len();
    let next = if n == 100 {
        Some(nodes[n - 1].login_time)
    } else {
        None
    };
    HealthPage { nodes, next }
}

/// Selects the pairs that `other` does not hold.
pub open spec fn not_in(other: Seq<(Seq<char>, int)>) -> spec_fn((Seq<char>, int)) -> bool {
    |p: (Seq<char>, int)| !other.contains(p)
}

/// The operation that joins a node to `domain` with a weight.
pub open spec fn join_of(domain: Seq<char>) -> spec_fn((Seq<char>, int)) -> RouterOpView {
    |p: (Seq<char>, int)| RouterOpView::Join(domain, p.0, p.1)
}

/// The operation that takes a node out of `domain` under a weight.
pub open spec fn leave_of(domain: Seq<char>) -> spec_fn((Seq<char>, int)) -> RouterOpView {
    |p: (Seq<char>, int)| RouterOpView::Leave(domain, p.0, p.1)
}

/// The operations that bring the router store in line with the state store
/// for one domain: first a leave for each pair of node and weight that the
/// router store holds and the state store does not have online, then a join
/// for each pair that the state store has online and the router store lacks.
/// A node that both hold under different weights so leaves under the weight
/// that the router store has for it and joins under the weight of the state
/// store.
pub open spec fn compare_ops(
    domain: Seq<char>,
    nodes: Seq<(Seq<char>, int)>,
    nodes_by_redis: Seq<(Seq<char>, int)>,
) -> Seq<RouterOpView> {
    nodes_by_redis.filter(not_in(nodes)).map_values(leave_of(domain)) + nodes.filter(
        not_in(nodes_by_redis),
    ).map_values(join_of(domain))
}

fn holds_pair(list: &Vec<(String, i64)>, node_id: &str, weight: i64) -> (r: bool)
    ensures
        r == weights_view(list@).contains((node_id@, weight as int)),
{
    let mut i: usize = 0;
    while i < list.len()
        invariant
            i <= list.len(),
            forall|j: int| 0 <= j < i ==> weights_view(list@)[j] != (node_id@, weight as int),
        decreases list.len() - i,
    {
        if str_eq(list[i].0.as_str(), node_id) && list[i].1 == weight {
            assert(weights_view(list@)[i as int] == (node_id@, weight as int));
            return true;
        }
        i += 1;
    }
    false
}

/// The operations that bring the router store in line with the state store
/// for `domain`, given the online members that the state store has and the
/// members that the router store lists.
pub fn compare_domain(
    domain: &str,
    nodes: &Vec<(String, i64)>,
    nodes_by_redis: &Vec<(String, i64)>,
) -> (r: Vec<RouterOp>)
    ensures
        ops_view(r@) == compare_ops(domain@, weights_view(nodes@), weights_view(nodes_by_redis@)),
{
    let ghost ss = weights_view(nodes@);
    let ghost rs = weights_view(nodes_by_redis@);
    let mut ops: Vec<RouterOp> = Vec::new();
    let mut k: usize = 0;
    assert(rs.take(0).filter(not_in(ss)) =~= Seq::empty()) by {
        reveal(Seq::filter);
    }
    while k < nodes_by_redis.len()
        invariant
            k <= nodes_by_redis.len(),
            ss == weights_view(nodes@),
            rs == weights_view(nodes_by_redis@),
            ops_view(ops@) == rs.take(k as int).filter(not_in(ss)).map_values(leave_of(domain@)),
        decreases nodes_by_redis.len() - k,
    {
        proof {
            lemma_filter_step(rs, not_in(ss), k as int);
        }
        if !holds_pair(nodes, nodes_by_redis[k].0.as_str(), nodes_by_redis[k].1) {
            let op = RouterOp::Leave(
                domain.to_owned(),
                nodes_by_redis[k].0.clone(),
                nodes_by_redis[k].1,
            );
            let ghost prev = ops_view(ops@);
            ops.push(op);
            proof {
                assert(ops_view(ops@) =~= prev.push(op@));
            }
        }
        k += 1;
    }
    assert(rs.take(rs.len() as int) =~= rs);
    let ghost leaves = ops_view(ops@);
    let mut i: usize = 0;
    assert(ss.take(0).filter(not_in(rs)) =~= Seq::empty()) by {
        reveal(Seq::filter);
    }
    while i < nodes.len()
        invariant
            i <= nodes.len(),
            ss == weights_view(nodes@),
            rs == weights_view(nodes_by_redis@),
            ops_view(ops@) == leaves + ss.take(i as int).filter(not_in(rs)).map_values(
                join_of(domain@),
            ),
        decreases nodes.len() - i,
    {
        proof {
            lemma_filter_step(ss, not_in(rs), i as int);
        }
        if !holds_pair(nodes_by_redis, nodes[i].0.as_str(), nodes[i].1) {
            let op = RouterOp::Join(domain.to_owned(), nodes[i].0.clone(), nodes[i].1);
            let ghost prev = ops_view(ops@);
            ops.push(op);
            proof {
                assert(ops_view(ops@) =~= prev.push(op@));
            }
        }
        i += 1;
    }
    assert(ss.take(ss.len() as int) =~= ss);
    ops
}

/// The router store after the comparison with the state store for one
/// domain.
pub open spec fn compared(s: StateView, r: RouterView, domain: Seq<char>) -> RouterView {
    r.apply_all(compare_ops(domain, s.online_by_domain(domain), r.list(domain)))
}

/// The router store after the comparison for each of the domains, in order.
pub open spec fn compared_all(s: StateView, r: RouterView, domains: Seq<Seq<char>>) -> RouterView
    decreases domains.len(),
{
    if domains.len() == 0 {
        r
    } else {
        compared(s, compared_all(s, r, domains.drop_last()), domains.last())
    }
}

/// One cycle of the comparison of the stores: for each domain that has a
/// member in the state store, the router store leaves what the state store
/// does not have online and joins what it lacks. An operation that the
/// router store refuses is passed over.
pub fn cross_compare_domain_nodes(store: &StateStore, router: &mut RouterStore)
    requires
        old(router).wf(),
    ensures
        final(router).wf(),
        final(router)@ == compared_all(
            store@,
            old(router)@,
            distinct(store@.domain_nodes.map_values(domain_of())),
        ),
{
    let domains = get_distinct_domains(store);
    let ghost all = distinct(store@.domain_nodes.map_values(domain_of()));
    let mut i: usize = 0;
    while i < domains.len()
        invariant
            i <= domains.len(),
            all == crate::text::strings_view(domains@),
            router.wf(),
            router@ == compared_all(store@, old(router)@, all.take(i as int)),
        decreases domains.len() - i,
    {
        proof {
            assert(all.take(i as int + 1).drop_last() =~= all.take(i as int));
        }
        let domain = domains[i].as_str();
        let nodes = get_nodes_by_domain(store, domain);
        let nodes_by_redis = get_domain_nodes(router, domain);
        let ops = compare_domain(domain, &nodes, &nodes_by_redis);
        let _ = apply_all(router, &ops);
        i += 1;
    }
    assert(all.take(all.len() as int) =~= all);
}

/// One of the three maintenance jobs.
#[derive(Clone, Copy, PartialEq, Eq, Structural, Debug)]
pub enum Job {
    ExpireNodes,
    CheckNodesHealth,
    CrossCompare,
}

/// When a job runs and under which lease.
#[derive(Debug, PartialEq, Eq)]
pub struct Schedule {
    /// Seconds between two attempts to run the job.
    pub interval: u64,
    /// The name of the lease of the job.
    pub lock_key: &'static str,
    /// Seconds for which the lease is taken.
    pub lock_duration: u64,
}

/// When `job` runs and under which lease.
pub fn schedule(job: Job) -> (r: Schedule)
    ensures
        match job {
            Job::ExpireNodes => r.interval == NODE_LIVING_DURATION && r.lock_key@
                == "expiry_nodes_lock"@ && r.lock_duration == NODE_LIVING_DURATION,
            Job::CheckNodesHealth => r.interval == CHECKING_NODES_HEALTH_INTERVAL && r.lock_key@
                == "check_nodes_health_lock"@ && r.lock_duration == CHECKING_NODES_HEALTH_DURATION,
            Job::CrossCompare => r.interval == CROSS_COMPARE_INTERVAL && r.lock_key@
                == "cross_compare_domain_nodes_lock"@ && r.lock_duration == CROSS_COMPARE_INTERVAL,
        },
{
    match job {
        Job::ExpireNodes => Schedule {
            interval: NODE_LIVING_DURATION,
            lock_key: "expiry_nodes_lock",
            lock_duration: NODE_LIVING_DURATION,
        },
        Job::CheckNodesHealth => Schedule {
            interval: CHECKING_NODES_HEALTH_INTERVAL,
            lock_key: "check_nodes_health_lock",
            lock_duration: CHECKING_NODES_HEALTH_DURATION,
        },
        Job::CrossCompare => Schedule {
            interval: CROSS_COMPARE_INTERVAL,
            lock_key: "cross_compare_domain_nodes_lock",
            lock_duration: CROSS_COMPARE_INTERVAL,
        },
    }
}

/// Whether a job runs at this tick, given whether the service is one replica
/// of a cluster and, if so, whether it got the lease of the job.
pub fn runs(cluster: bool, lease_taken: bool) -> (r: bool)
    ensures
        r == (!cluster || lease_taken),
{
    !cluster || lease_taken
}

/// One tick of a job at time `now`: alone, the service runs the job; as one
/// replica of a cluster it runs the job if it gets the lease `lock_key` for
/// `lock_duration` seconds. Whether the job runs.
pub fn cronjob(
    router: &mut RouterStore,
    cluster: bool,
    lock_key: &str,
    lock_duration: u64,
    holder: &str,
    now: i64,
) -> (r: bool)
    requires
        old(router).wf(),
    ensures
        final(router).wf(),
        r == (!cluster || old(router)@.lease_free(lock_key@, now as int)),
        final(router)@ == if cluster && old(router)@.lease_free(lock_key@, now as int) {
            RouterView {
                leases: old(router)@.leases.insert(
                    lock_key@,
                    (holder@, lease_end(now as int, lock_duration as int)),
                ),
                ..old(router)@
            }
        } else {
            old(router)@
        },
{
    if cluster {
        let taken = try_acquire_lease(router, lock_key, holder, lock_duration, now);
        runs(cluster, taken)
    } else {
        runs(cluster, false)
    }
}

} // verus!
