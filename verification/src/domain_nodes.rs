//! The domain membership service: adding nodes to routing domains with a
//! weight, removing them, and listing the members of a domain.
use vstd::prelude::*;
use crate::db::{
    delete_domain_node, insert_domain_node, query_domain_node, query_domain_nodes,
    query_node_by_node_id, update_domain_node, StateStore,
};
use crate::models::{views, DomainNodes, DomainNodesView, NodeStatus};
use crate::query::{get_param, param, parse_query, query_pairs};
use crate::redism::{ops_view, RouterOp, RouterOpView};
use crate::state::{member_of_domain, StateView};
use crate::text::{chars_of, lowercase, strings_view, to_lowercase};

verus! {

/// Whether a domain name may hold `c`: an ASCII letter or digit, `_` or `-`.
pub open spec fn is_domain_char(c: char) -> bool {
    ('A' <= c && c <= 'Z') || ('a' <= c && c <= 'z') || ('0' <= c && c <= '9') || c == '_' || c
        == '-'
}

/// Whether `s` is a domain name: one character or more, each of them
/// allowed.
pub open spec fn is_domain_name(s: Seq<char>) -> bool {
    s.len() > 0 && forall|i: int| 0 <= i < s.len() ==> is_domain_char(#[trigger] s[i])
}

/// Whether `domain` is a domain name.
pub fn valid_domain_name(domain: &str) -> (r: bool)
    ensures
        r == is_domain_name(domain@),
{
    let chars = chars_of(domain);
    if chars.len() == 0 {
        return false;
    }
    let mut i: usize = 0;
    while i < chars.len()
        invariant
            i <= chars.len(),
            chars@ == domain@,
            forall|j: int| 0 <= j < i ==> is_domain_char(#[trigger] chars@[j]),
        decreases chars.len() - i,
    {
        let c = chars[i];
        let ok = (c >= 'A' && c <= 'Z') || (c >= 'a' && c <= 'z') || (c >= '0' && c <= '9') || c
            == '_' || c == '-';
        if !ok {
            return false;
        }
        i += 1;
    }
    true
}

/// A node and the weight that it is to have.
#[derive(Debug, PartialEq, Eq)]
pub struct NodeWeight {
    pub node_id: String,
    pub weight: i64,
}

/// The view of a `NodeWeight`.
pub struct NodeWeightView {
    pub node_id: Seq<char>,
    pub weight: int,
}

impl View for NodeWeight {
    type V = NodeWeightView;

    open spec fn view(&self) -> NodeWeightView {
        NodeWeightView { node_id: self.node_id@, weight: self.weight as int }
    }
}

/// A domain and the nodes that are to be its members.
#[derive(Debug, PartialEq, Eq)]
pub struct DomainNodesWeights {
    pub domain: String,
    pub nodes_weights: Vec<NodeWeight>,
}

/// The view of a `DomainNodesWeights`.
pub struct DomainNodesWeightsView {
    pub domain: Seq<char>,
    pub nodes_weights: Seq<NodeWeightView>,
}

impl View for DomainNodesWeights {
    type V = DomainNodesWeightsView;

    open spec fn view(&self) -> DomainNodesWeightsView {
        DomainNodesWeightsView {
            domain: self.domain@,
            nodes_weights: views(self.nodes_weights@),
        }
    }
}

/// A domain and the nodes that are to leave it.
#[derive(Debug, PartialEq, Eq)]
pub struct DomainNodeIds {
    pub domain: String,
    pub nodes_ids: Vec<String>,
}

/// The view of a `DomainNodeIds`.
pub struct DomainNodeIdsView {
    pub domain: Seq<char>,
    pub nodes_ids: Seq<Seq<char>>,
}

impl View for DomainNodeIds {
    type V = DomainNodeIdsView;

    open spec fn view(&self) -> DomainNodeIdsView {
        DomainNodeIdsView { domain: self.domain@, nodes_ids: strings_view(self.nodes_ids@) }
    }
}

/// What became of the request to make a node a member.
#[derive(Clone, Copy, PartialEq, Eq, Structural, Debug)]
pub enum CreateResultCode {
    /// The node is a member with the weight asked for.
    Created,
    /// The store holds no such node.
    NodeNotExist,
    /// The node is not online.
    NodeOffline,
}

impl CreateResultCode {
    /// The name under which the code is reported.
    pub open spec fn name(self) -> Seq<char> {
        match self {
            CreateResultCode::Created => "created"@,
            CreateResultCode::NodeNotExist => "node_not_exist"@,
            CreateResultCode::NodeOffline => "node_offline"@,
        }
    }

    /// The name under which the code is reported.
    pub fn as_str(&self) -> (r: &'static str)
        ensures
            r@ == self.name(),
    {
        match self {
            CreateResultCode::Created => "created",
            CreateResultCode::NodeNotExist => "node_not_exist",
            CreateResultCode::NodeOffline => "node_offline",
        }
    }
}

/// The answer to one request to make a node a member.
#[derive(Debug, PartialEq, Eq)]
pub struct CreateResult {
    pub domain: String,
    pub node_id: String,
    pub code: CreateResultCode,
}

/// The view of a `CreateResult`.
pub struct CreateResultView {
    pub domain: Seq<char>,
    pub node_id: Seq<char>,
    pub code: CreateResultCode,
}

impl View for CreateResult {
    type V = CreateResultView;

    open spec fn view(&self) -> CreateResultView {
        CreateResultView { domain: self.domain@, node_id: self.node_id@, code: self.code }
    }
}

/// The answers of a batch and the router operations that follow from it.
#[derive(Debug, PartialEq, Eq)]
pub struct Created {
    pub results: Vec<CreateResult>,
    pub ops: Vec<RouterOp>,
}

/// A batch that is under way: the store as it stands, the answers given and
/// the router operations gathered so far.
pub struct Batch {
    pub store: StateView,
    pub results: Seq<CreateResultView>,
    pub ops: Seq<RouterOpView>,
}

/// One request to make a node a member of `domain`. A request for a weight
/// below zero is passed over: nothing is written and nothing is answered.
/// Else a member keeps its place and takes the weight asked for, where that
/// is another than it has, and a node that is no member becomes one if the
/// store holds it and it is online.
pub open spec fn add_member(acc: Batch, domain: Seq<char>, nw: NodeWeightView) -> Batch {
    if nw.weight < 0 {
        acc
    } else {
        add_weighted_member(acc, domain, nw)
    }
}

/// One request to make a node a member of `domain` with a weight that is not
/// below zero.
pub open spec fn add_weighted_member(acc: Batch, domain: Seq<char>, nw: NodeWeightView) -> Batch {
    let s = acc.store;
    let answer = |code: CreateResultCode|
        acc.results.push(CreateResultView { domain, node_id: nw.node_id, code });
    match s.member(domain, nw.node_id) {
        Some(m) => if m.weight != nw.weight {
            Batch {
                store: s.update_member(domain, nw.node_id, nw.weight),
                results: answer(CreateResultCode::Created),
                ops: acc.ops.push(RouterOpView::Upjoin(domain, nw.node_id, nw.weight)),
            }
        } else {
            Batch { results: answer(CreateResultCode::Created), ..acc }
        },
        None => match s.node(nw.node_id) {
            None => Batch { results: answer(CreateResultCode::NodeNotExist), ..acc },
            Some(n) => if n.status != NodeStatus::Online {
                Batch { results: answer(CreateResultCode::NodeOffline), ..acc }
            } else {
                Batch {
                    store: s.insert_member(domain, nw.node_id, nw.weight),
                    results: answer(CreateResultCode::Created),
                    ops: acc.ops.push(RouterOpView::Join(domain, nw.node_id, nw.weight)),
                }
            },
        },
    }
}

/// The requests for one domain, in order.
pub open spec fn add_members(acc: Batch, domain: Seq<char>, nws: Seq<NodeWeightView>) -> Batch
    decreases nws.len(),
{
    if nws.len() == 0 {
        acc
    } else {
        add_member(add_members(acc, domain, nws.drop_last()), domain, nws.last())
    }
}

/// The requests of one entry: none where its domain is no domain name, else
/// those for the domain in lower case.
pub open spec fn add_entry(acc: Batch, entry: DomainNodesWeightsView) -> Batch {
    if is_domain_name(entry.domain) {
        add_members(acc, lowercase(entry.domain), entry.nodes_weights)
    } else {
        acc
    }
}

/// The entries of a batch, in order.
pub open spec fn add_entries(acc: Batch, entries: Seq<DomainNodesWeightsView>) -> Batch
    decreases entries.len(),
{
    if entries.len() == 0 {
        acc
    } else {
        add_entry(add_entries(acc, entries.drop_last()), entries.last())
    }
}

/// A batch on which nothing was done yet.
pub open spec fn batch_start(s: StateView) -> Batch {
    Batch { store: s, results: Seq::empty(), ops: Seq::empty() }
}

fn create_one(store: &mut StateStore, out: &mut Created, domain: &str, nw: &NodeWeight)
    requires
        old(store)@.wf(),
    ensures
        final(store)@.wf(),
        (Batch {
            store: final(store)@,
            results: views(final(out).results@),
            ops: ops_view(final(out).ops@),
        }) == add_member(
            Batch {
                store: old(store)@,
                results: views(old(out).results@),
                ops: ops_view(old(out).ops@),
            },
            domain@,
            nw@,
        ),
{
    if nw.weight < 0 {
        return;
    }
    let ghost s = store@;
    let ghost results0 = views(out.results@);
    let ghost ops0 = ops_view(out.ops@);
    let mut code = CreateResultCode::Created;
    proof {
        s.lemma_member_lookup(domain@, nw.node_id@);
    }
    match query_domain_node(store, domain, nw.node_id.as_str()) {
        Some(m) => {
            if m.weight != nw.weight {
                let updated = update_domain_node(store, domain, nw.node_id.as_str(), nw.weight);
                if updated > 0 {
                    let op = RouterOp::Upjoin(domain.to_owned(), nw.node_id.clone(), nw.weight);
                    out.ops.push(op);
                    assert(ops_view(out.ops@) =~= ops0.push(op@));
                }
            }
        },
        None => {
            match query_node_by_node_id(store, nw.node_id.as_str()) {
                None => {
                    code = CreateResultCode::NodeNotExist;
                },
                Some(node) => {
                    if node.status != NodeStatus::Online {
                        code = CreateResultCode::NodeOffline;
                    } else {
                        match insert_domain_node(store, domain, nw.node_id.as_str(), nw.weight) {
                            Ok(_) => {
                                let op = RouterOp::Join(
                                    domain.to_owned(),
                                    nw.node_id.clone(),
                                    nw.weight,
                                );
                                out.ops.push(op);
                                assert(ops_view(out.ops@) =~= ops0.push(op@));
                            },
                            Err(_) => {},
                        }
                    }
                },
            }
        },
    }
    let result = CreateResult { domain: domain.to_owned(), node_id: nw.node_id.clone(), code };
    out.results.push(result);
    assert(views(out.results@) =~= results0.push(result@));
}

/// Makes the nodes of each entry members of its domain, with the weights
/// asked for. An entry whose domain is no domain name is passed over, and so
/// is a request for a weight below zero. The
/// answer to each request, and the router operations to run, in order.
pub fn create_domain_node(store: &mut StateStore, domain_nodes: &Vec<DomainNodesWeights>) -> (r:
    Created)
    requires
        old(store)@.wf(),
    ensures
        final(store)@.wf(),
        (Batch { store: final(store)@, results: views(r.results@), ops: ops_view(r.ops@) })
            == add_entries(batch_start(old(store)@), views(domain_nodes@)),
{
    let ghost start = batch_start(store@);
    let ghost entries = views(domain_nodes@);
    let mut out = Created { results: Vec::new(), ops: Vec::new() };
    assert(views(out.results@) =~= Seq::empty());
    assert(ops_view(out.ops@) =~= Seq::empty());
    let mut i: usize = 0;
    while i < domain_nodes.len()
        invariant
            i <= domain_nodes.len(),
            entries == views(domain_nodes@),
            store@.wf(),
            (Batch { store: store@, results: views(out.results@), ops: ops_view(out.ops@) })
                == add_entries(start, entries.take(i as int)),
        decreases domain_nodes.len() - i,
    {
        let entry = &domain_nodes[i];
        proof {
            assert(entries.take(i as int + 1).drop_last() =~= entries.take(i as int));
        }
        if valid_domain_name(entry.domain.as_str()) {
            let domain = to_lowercase(entry.domain.as_str());
            let ghost before = Batch {
                store: store@,
                results: views(out.results@),
                ops: ops_view(out.ops@),
            };
            let ghost nws = views(entry.nodes_weights@);
            let mut j: usize = 0;
            while j < entry.nodes_weights.len()
                invariant
                    j <= entry.nodes_weights.len(),
                    nws == views(entry.nodes_weights@),
                    store@.wf(),
                    (Batch { store: store@, results: views(out.results@), ops: ops_view(out.ops@) })
                        == add_members(before, domain@, nws.take(j as int)),
                decreases entry.nodes_weights.len() - j,
            {
                proof {
                    assert(nws.take(j as int + 1).drop_last() =~= nws.take(j as int));
                }
                create_one(store, &mut out, domain.as_str(), &entry.nodes_weights[j]);
                j += 1;
            }
            assert(nws.take(nws.len() as int) =~= nws);
        }
        i += 1;
    }
    assert(entries.take(entries.len() as int) =~= entries);
    out
}

/// The store and the router operations of a removal that is under way.
pub struct Removal {
    pub store: StateView,
    pub ops: Seq<RouterOpView>,
}

/// One request to take a node out of `domain`: where it is a member, its
/// membership is deleted and it leaves the router store under the weight
/// that it had.
pub open spec fn remove_member(acc: Removal, domain: Seq<char>, node_id: Seq<char>) -> Removal {
    match acc.store.member(domain, node_id) {
        Some(m) => Removal {
            store: acc.store.delete_member(domain, node_id),
            ops: acc.ops.push(RouterOpView::Leave(domain, node_id, m.weight)),
        },
        None => acc,
    }
}

/// The requests for one domain, in order.
pub open spec fn remove_members(acc: Removal, domain: Seq<char>, ids: Seq<Seq<char>>) -> Removal
    decreases ids.len(),
{
    if ids.len() == 0 {
        acc
    } else {
        remove_member(remove_members(acc, domain, ids.drop_last()), domain, ids.last())
    }
}

/// The requests of one entry: none where its domain is no domain name, else
/// those for the domain in lower case.
pub open spec fn remove_entry(acc: Removal, entry: DomainNodeIdsView) -> Removal {
    if is_domain_name(entry.domain) {
        remove_members(acc, lowercase(entry.domain), entry.nodes_ids)
    } else {
        acc
    }
}

/// The entries of a removal, in order.
pub open spec fn remove_entries(acc: Removal, entries: Seq<DomainNodeIdsView>) -> Removal
    decreases entries.len(),
{
    if entries.len() == 0 {
        acc
    } else {
        remove_entry(remove_entries(acc, entries.drop_last()), entries.last())
    }
}

/// Takes the nodes of each entry out of its domain. An entry whose domain is
/// no domain name is passed over. The router operations to run, in order.
pub fn remove_domain_node(store: &mut StateStore, domain_nodes: &Vec<DomainNodeIds>) -> (r: Vec<
    RouterOp,
>)
    requires
        old(store)@.wf(),
    ensures
        final(store)@.wf(),
        (Removal { store: final(store)@, ops: ops_view(r@) }) == remove_entries(
            Removal { store: old(store)@, ops: Seq::empty() },
            views(domain_nodes@),
        ),
{
    let ghost start = Removal { store: store@, ops: Seq::empty() };
    let ghost entries = views(domain_nodes@);
    let mut ops: Vec<RouterOp> = Vec::new();
    assert(ops_view(ops@) =~= Seq::empty());
    let mut i: usize = 0;
    while i < domain_nodes.len()
        invariant
            i <= domain_nodes.len(),
            entries == views(domain_nodes@),
            store@.wf(),
            (Removal { store: store@, ops: ops_view(ops@) }) == remove_entries(
                start,
                entries.take(i as int),
            ),
        decreases domain_nodes.len() - i,
    {
        let entry = &domain_nodes[i];
        proof {
            assert(entries.take(i as int + 1).drop_last() =~= entries.take(i as int));
        }
        if valid_domain_name(entry.domain.as_str()) {
            let domain = to_lowercase(entry.domain.as_str());
            let ghost before = Removal { store: store@, ops: ops_view(ops@) };
            let ghost ids = strings_view(entry.nodes_ids@);
            let mut j: usize = 0;
            while j < entry.nodes_ids.len()
                invariant
                    j <= entry.nodes_ids.len(),
                    ids == strings_view(entry.nodes_ids@),
                    store@.wf(),
                    (Removal { store: store@, ops: ops_view(ops@) }) == remove_members(
                        before,
                        domain@,
                        ids.take(j as int),
                    ),
                decreases entry.nodes_ids.len() - j,
            {
                proof {
                    assert(ids.take(j as int + 1).drop_last() =~= ids.take(j as int));
                }
                let node_id = entry.nodes_ids[j].as_str();
                let ghost ops0 = ops_view(ops@);
                match delete_domain_node(store, domain.as_str(), node_id) {
                    Some(deleted) => {
                        let op = RouterOp::Leave(domain.clone(), node_id.to_owned(), deleted.weight);
                        ops.push(op);
                        assert(ops_view(ops@) =~= ops0.push(op@));
                    },
                    None => {
                        proof {
                            let s = remove_members(before, domain@, ids.take(j as int)).store;
                            s.lemma_member_lookup(domain@, node_id@);
                            s.lemma_delete_absent(domain@, node_id@);
                        }
                    },
                }
                j += 1;
            }
            assert(ids.take(ids.len() as int) =~= ids);
        }
        i += 1;
    }
    assert(entries.take(entries.len() as int) =~= entries);
    ops
}

/// Why a listing of members was refused.
#[derive(Clone, Copy, PartialEq, Eq, Structural, Debug)]
pub enum DomainError {
    /// The request names no domain.
    MissingDomain,
}

/// The members that a listing shows for the domain named `name`: those of
/// the domain in lower case, in row order, whether their nodes are online or
/// not; none where `name` is no domain name.
pub open spec fn members_listed(s: StateView, name: Seq<char>) -> Seq<DomainNodesView> {
    if is_domain_name(name) {
        s.domain_nodes.filter(member_of_domain(lowercase(name)))
    } else {
        Seq::empty()
    }
}

/// The members of the domain that the parameters name. A name that is no
/// domain name has no members.
pub fn get_domain_nodes_for(store: &StateStore, pairs: &Vec<(String, String)>) -> (r: Result<
    Vec<DomainNodes>,
    DomainError,
>)
    ensures
        match param(pairs.deep_view(), "domain"@) {
            None => r == Err::<Vec<DomainNodes>, DomainError>(DomainError::MissingDomain),
            Some(d) => r is Ok && views(r->Ok_0@) == members_listed(store@, d),
        },
{
    match get_param(pairs, "domain") {
        Some(d) => {
            if !valid_domain_name(d) {
                let none: Vec<DomainNodes> = Vec::new();
                assert(views(none@) =~= Seq::empty());
                return Ok(none);
            }
            let domain = to_lowercase(d);
            Ok(query_domain_nodes(store, domain.as_str()))
        },
        None => Err(DomainError::MissingDomain),
    }
}

/// The members of the domain that the query string names.
pub fn get_domain_nodes(store: &StateStore, query: &str) -> (r: Result<
    Vec<DomainNodes>,
    DomainError,
>)
    ensures
        match param(query_pairs(query@), "domain"@) {
            None => r == Err::<Vec<DomainNodes>, DomainError>(DomainError::MissingDomain),
            Some(d) => r is Ok && views(r->Ok_0@) == members_listed(store@, d),
        },
{
    let pairs = parse_query(query);
    get_domain_nodes_for(store, &pairs)
}

} // verus!
