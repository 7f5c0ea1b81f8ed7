//! The tunnel event processor: what a tunnel server's notification does to
//! devices and nodes, and which router operations follow from it.
use vstd::prelude::*;
use crate::db::{
    count_device_by_device_id, create_device, create_node_status, query_device_by_device_id,
    query_domain_node_by_node_id, query_living_nodes, query_node_by_node_id,
    query_node_by_subdomain, query_nodes_by_parameters, update_device, update_node_active_status,
    update_node_status_more, update_online_node_last_active_time, NodeQuery, StateStore, StoreError,
};
use crate::models::{views, DeviceView, LivingNode, NodeLimited, NodeStatus};
use crate::query::{get_param, param, parse_query, query_pairs};
use crate::redism::{ops_view, RouterOp, RouterOpView};
use crate::state::{
    device_is, fresh_node, living_node_of, login_time_of, matches_query, node_of_device_at,
    online_longer, raise_last_active, set_active_status, to_limited, to_living, NodeQueryView,
    StateView,
};
use crate::table::{order_by, page_of};
use crate::text::{
    all_digits, chars_of, has_at, holds_at, is_digit, parse_i64, parse_u64, parsed_i64, parsed_u64,
    split, split_on, str_eq, str_view, string_of, text_view,
};

verus! {

/// The `metas` object of a notification.
#[derive(Debug, PartialEq, Eq)]
pub struct Metas {
    /// Its `deviceId`, where that is a string.
    pub device_id: Option<String>,
    /// The object as JSON text.
    pub text: String,
}

/// The view of a `Metas`.
pub struct MetasView {
    pub device_id: Option<Seq<char>>,
    pub text: Seq<char>,
}

impl View for Metas {
    type V = MetasView;

    open spec fn view(&self) -> MetasView {
        MetasView { device_id: text_view(self.device_id), text: self.text@ }
    }
}

/// The `user` object of a notification.
#[derive(Debug, PartialEq, Eq)]
pub struct User {
    pub run_id: Option<String>,
    pub metas: Metas,
}

/// The view of a `User`.
pub struct UserView {
    pub run_id: Option<Seq<char>>,
    pub metas: MetasView,
}

impl View for User {
    type V = UserView;

    open spec fn view(&self) -> UserView {
        UserView { run_id: text_view(self.run_id), metas: self.metas@ }
    }
}

/// The `content` object of a notification. A field is `None` where the
/// notification does not hold it as a string.
#[derive(Debug, PartialEq, Eq)]
pub struct Content {
    pub os: Option<String>,
    pub arch: Option<String>,
    pub version: Option<String>,
    pub client_address: Option<String>,
    pub subdomain: Option<String>,
    pub proxy_name: Option<String>,
    pub metas: Metas,
    pub user: User,
}

/// The view of a `Content`.
pub struct ContentView {
    pub os: Option<Seq<char>>,
    pub arch: Option<Seq<char>>,
    pub version: Option<Seq<char>>,
    pub client_address: Option<Seq<char>>,
    pub subdomain: Option<Seq<char>>,
    pub proxy_name: Option<Seq<char>>,
    pub metas: MetasView,
    pub user: UserView,
}

impl View for Content {
    type V = ContentView;

    open spec fn view(&self) -> ContentView {
        ContentView {
            os: text_view(self.os),
            arch: text_view(self.arch),
            version: text_view(self.version),
            client_address: text_view(self.client_address),
            subdomain: text_view(self.subdomain),
            proxy_name: text_view(self.proxy_name),
            metas: self.metas@,
            user: self.user@,
        }
    }
}

/// A notification of a tunnel server.
#[derive(Debug, PartialEq, Eq)]
pub struct FrpsEvent {
    pub op: Option<String>,
    pub content: Content,
}

/// The view of a `FrpsEvent`.
pub struct FrpsEventView {
    pub op: Option<Seq<char>>,
    pub content: ContentView,
}

impl View for FrpsEvent {
    type V = FrpsEventView;

    open spec fn view(&self) -> FrpsEventView {
        FrpsEventView { op: text_view(self.op), content: self.content@ }
    }
}

/// Why a notification changed nothing, or not all that it should have.
#[derive(Clone, Copy, PartialEq, Eq, Structural, Debug)]
pub enum EventError {
    MissingOp,
    MissingDeviceId,
    EmptyDeviceId,
    MissingClientAddress,
    MissingNodeId,
    MissingRunId,
    MissingSubdomain,
    DeviceNotFound,
    Store(StoreError),
}

/// What a notification leads to.
#[derive(Debug, PartialEq, Eq)]
pub struct Handled {
    /// The router operations to run, in order.
    pub ops: Vec<RouterOp>,
    pub result: Result<(), EventError>,
}

/// What a notification leads to: the store after it, the router operations
/// to run, and whether it was carried out.
pub struct Outcome {
    pub store: StateView,
    pub ops: Seq<RouterOpView>,
    pub result: Result<(), EventError>,
}

/// The device id that a `metas` object gives: a string that is not empty.
pub open spec fn checked_device_id(m: MetasView) -> Result<Seq<char>, EventError> {
    match m.device_id {
        None => Err(EventError::MissingDeviceId),
        Some(id) => if id.len() == 0 {
            Err(EventError::EmptyDeviceId)
        } else {
            Ok(id)
        },
    }
}

/// The value, or `default` where there is none.
pub open spec fn or_default(v: Option<Seq<char>>, default: Seq<char>) -> Seq<char> {
    match v {
        Some(v) => v,
        None => default,
    }
}

/// A notification that is refused before anything is done.
pub open spec fn refused(s: StateView, e: EventError) -> Outcome {
    Outcome { store: s, ops: Seq::empty(), result: Err(e) }
}

/// `Login`: a device that is new is stored, a known device has its login
/// time set.
pub open spec fn login(s: StateView, c: ContentView, now: int) -> Outcome {
    match checked_device_id(c.metas) {
        Err(e) => refused(s, e),
        Ok(device_id) => match c.client_address {
            None => refused(s, EventError::MissingClientAddress),
            Some(client_address) => Outcome {
                store: if s.has_device(device_id) {
                    s.update_device(device_id, now)
                } else {
                    StateView {
                        devices: s.devices.push(
                            DeviceView {
                                device_id,
                                version: or_default(c.version, "0.0.0"@),
                                arch: or_default(c.arch, "default_arch"@),
                                os: or_default(c.os, "default_os"@),
                                client_address,
                                login_time: now,
                                meta: c.metas.text,
                            },
                        ),
                        ..s
                    }
                },
                ops: Seq::empty(),
                result: Ok(()),
            },
        },
    }
}

/// The operation that brings the weight of a node that has come online to
/// the router store, where the node is a member of a domain.
pub open spec fn upjoin_of(s: StateView, node_id: Seq<char>) -> Seq<RouterOpView> {
    match s.membership(node_id) {
        Some(m) => seq![RouterOpView::Upjoin(m.domain, node_id, m.weight)],
        None => Seq::empty(),
    }
}

/// The operation that takes a node out of the router store, where the node
/// is a member of a domain.
pub open spec fn leave_of(s: StateView, node_id: Seq<char>) -> Seq<RouterOpView> {
    match s.membership(node_id) {
        Some(m) => seq![RouterOpView::Leave(m.domain, node_id, m.weight)],
        None => Seq::empty(),
    }
}

/// `NewProxy`: a node that the store does not hold is created online with
/// what its device logged in with, an offline node is rewritten and comes
/// online, and a node that is online or unavail stays as it is. Where the
/// tunnel server is known, the subdomain is recorded for it first.
pub open spec fn new_proxy(
    s: StateView,
    frps_id: Option<Seq<char>>,
    c: ContentView,
    now: int,
) -> Outcome {
    match checked_device_id(c.user.metas) {
        Err(e) => refused(s, e),
        Ok(device_id) => match c.subdomain {
            None => refused(s, EventError::MissingNodeId),
            Some(node_id) => match c.user.run_id {
                None => refused(s, EventError::MissingRunId),
                Some(run_id) => match c.proxy_name {
                    None => refused(s, EventError::MissingSubdomain),
                    Some(subdomain) => {
                        let recorded = match frps_id {
                            Some(f) => seq![RouterOpView::SetSubdomain(subdomain, f)],
                            None => Seq::empty(),
                        };
                        let devices = s.devices.filter(device_is(device_id));
                        if devices.len() == 0 {
                            Outcome {
                                store: s,
                                ops: recorded,
                                result: Err(EventError::DeviceNotFound),
                            }
                        } else {
                            let d = devices[0];
                            let fresh = fresh_node(
                                node_id,
                                device_id,
                                subdomain,
                                d.version,
                                d.arch,
                                d.os,
                                d.client_address,
                                d.login_time,
                                now,
                                run_id,
                                NodeStatus::Online,
                                c.user.metas.text,
                            );
                            match s.node(node_id) {
                                None => Outcome {
                                    store: s.create_node(fresh),
                                    ops: recorded + upjoin_of(s, node_id),
                                    result: Ok(()),
                                },
                                Some(n) => if n.status == NodeStatus::Offline {
                                    match s.refresh_node_error(fresh) {
                                        Some(e) => Outcome {
                                            store: s,
                                            ops: recorded,
                                            result: Err(EventError::Store(e)),
                                        },
                                        None => Outcome {
                                            store: s.refresh_node(fresh),
                                            ops: recorded + upjoin_of(s, node_id),
                                            result: Ok(()),
                                        },
                                    }
                                } else {
                                    Outcome { store: s, ops: recorded, result: Ok(()) }
                                },
                            }
                        }
                    },
                },
            },
        },
    }
}

/// `CloseProxy`: the node of the device at the subdomain goes offline, and
/// the node at the subdomain leaves the router store.
pub open spec fn close_proxy(
    s: StateView,
    frps_id: Option<Seq<char>>,
    c: ContentView,
    now: int,
) -> Outcome {
    match checked_device_id(c.user.metas) {
        Err(e) => refused(s, e),
        Ok(device_id) => match c.proxy_name {
            None => refused(s, EventError::MissingSubdomain),
            Some(subdomain) => {
                let forgotten = match frps_id {
                    Some(f) => seq![RouterOpView::DelSubdomain(subdomain)],
                    None => Seq::empty(),
                };
                let closed = s.update_nodes(
                    node_of_device_at(device_id, subdomain),
                    set_active_status(now, NodeStatus::Offline),
                );
                Outcome {
                    store: closed,
                    ops: forgotten + match closed.node_at(subdomain) {
                        Some(n) => leave_of(closed, n.node_id),
                        None => Seq::empty(),
                    },
                    result: Ok(()),
                }
            },
        },
    }
}

/// `Ping`: every living node of the device has its time of last activity
/// moved forward to `now`; where it is later than `now` already, it stays.
pub open spec fn ping(s: StateView, c: ContentView, now: int) -> Outcome {
    match checked_device_id(c.user.metas) {
        Err(e) => refused(s, e),
        Ok(device_id) => Outcome {
            store: s.update_nodes(living_node_of(device_id), raise_last_active(now)),
            ops: Seq::empty(),
            result: Ok(()),
        },
    }
}

/// What the notification `ev`, received at time `now` from the tunnel server
/// `frps_id`, leads to. An operation that is not known changes nothing.
pub open spec fn handled(
    s: StateView,
    frps_id: Option<Seq<char>>,
    ev: FrpsEventView,
    now: int,
) -> Outcome {
    match ev.op {
        None => refused(s, EventError::MissingOp),
        Some(op) => if op == "Login"@ {
            login(s, ev.content, now)
        } else if op == "NewProxy"@ {
            new_proxy(s, frps_id, ev.content, now)
        } else if op == "CloseProxy"@ {
            close_proxy(s, frps_id, ev.content, now)
        } else if op == "Ping"@ {
            ping(s, ev.content, now)
        } else {
            Outcome { store: s, ops: Seq::empty(), result: Ok(()) }
        },
    }
}

fn device_id_of(m: &Metas) -> (r: Result<&str, EventError>)
    ensures
        match r {
            Ok(id) => checked_device_id(m@) == Ok::<Seq<char>, EventError>(id@),
            Err(e) => checked_device_id(m@) == Err::<Seq<char>, EventError>(e),
        },
{
    match &m.device_id {
        None => Err(EventError::MissingDeviceId),
        Some(id) => {
            if id.as_str().is_empty() {
                Err(EventError::EmptyDeviceId)
            } else {
                Ok(id.as_str())
            }
        },
    }
}

fn text_or<'a>(v: &'a Option<String>, default: &'a str) -> (r: &'a str)
    ensures
        r@ == or_default(text_view(*v), default@),
{
    match v {
        Some(v) => v.as_str(),
        None => default,
    }
}

fn no_ops() -> (r: Vec<RouterOp>)
    ensures
        ops_view(r@) == Seq::<RouterOpView>::empty(),
{
    let r: Vec<RouterOp> = Vec::new();
    r
}

fn push_op(ops: &mut Vec<RouterOp>, op: RouterOp)
    ensures
        ops_view(final(ops)@) == ops_view(old(ops)@) + seq![op@],
{
    ops.push(op);
}

fn handle_login(store: &mut StateStore, c: &Content, now: i64) -> (r: Handled)
    requires
        old(store)@.wf(),
    ensures
        final(store)@.wf(),
        final(store)@ == login(old(store)@, c@, now as int).store,
        ops_view(r.ops@) == login(old(store)@, c@, now as int).ops,
        r.result == login(old(store)@, c@, now as int).result,
{
    let device_id = match device_id_of(&c.metas) {
        Ok(id) => id,
        Err(e) => {
            return Handled { ops: no_ops(), result: Err(e) };
        },
    };
    let os = text_or(&c.os, "default_os");
    let arch = text_or(&c.arch, "default_arch");
    let version = text_or(&c.version, "0.0.0");
    let client_address = match &c.client_address {
        Some(a) => a.as_str(),
        None => {
            return Handled { ops: no_ops(), result: Err(EventError::MissingClientAddress) };
        },
    };
    let count = count_device_by_device_id(store, device_id);
    if count == 0 {
        let _ = create_device(
            store,
            device_id,
            os,
            arch,
            version,
            client_address,
            c.metas.text.as_str(),
            now,
        );
    } else {
        update_device(store, device_id, now);
    }
    Handled { ops: no_ops(), result: Ok(()) }
}

fn handle_new_proxy(store: &mut StateStore, frps_id: Option<&str>, c: &Content, now: i64) -> (r:
    Handled)
    requires
        old(store)@.wf(),
    ensures
        final(store)@.wf(),
        final(store)@ == new_proxy(old(store)@, str_view(frps_id), c@, now as int).store,
        ops_view(r.ops@) == new_proxy(old(store)@, str_view(frps_id), c@, now as int).ops,
        r.result == new_proxy(old(store)@, str_view(frps_id), c@, now as int).result,
{
    let device_id = match device_id_of(&c.user.metas) {
        Ok(id) => id,
        Err(e) => {
            return Handled { ops: no_ops(), result: Err(e) };
        },
    };
    let node_id = match &c.subdomain {
        Some(id) => id.as_str(),
        None => {
            return Handled { ops: no_ops(), result: Err(EventError::MissingNodeId) };
        },
    };
    let run_id = match &c.user.run_id {
        Some(id) => id.as_str(),
        None => {
            return Handled { ops: no_ops(), result: Err(EventError::MissingRunId) };
        },
    };
    let subdomain = match &c.proxy_name {
        Some(name) => name.as_str(),
        None => {
            return Handled { ops: no_ops(), result: Err(EventError::MissingSubdomain) };
        },
    };
    let mut ops = no_ops();
    match frps_id {
        Some(f) => {
            push_op(&mut ops, RouterOp::SetSubdomain(subdomain.to_owned(), f.to_owned()));
        },
        None => {},
    }
    let devices = query_device_by_device_id(store, device_id);
    if devices.len() == 0 {
        return Handled { ops, result: Err(EventError::DeviceNotFound) };
    }
    let device = &devices[0];
    let node = query_node_by_node_id(store, node_id);
    let online = match node {
        Some(node) => {
            if node.status == NodeStatus::Offline {
                match update_node_status_more(
                    store,
                    node_id,
                    subdomain,
                    device_id,
                    device.version.as_str(),
                    device.arch.as_str(),
                    device.os.as_str(),
                    device.client_address.as_str(),
                    device.login_time,
                    now,
                    run_id,
                    NodeStatus::Online,
                    c.user.metas.text.as_str(),
                ) {
                    Ok(_) => true,
                    Err(e) => {
                        return Handled { ops, result: Err(EventError::Store(e)) };
                    },
                }
            } else {
                false
            }
        },
        None => {
            let _ = create_node_status(
                store,
                node_id,
                device_id,
                subdomain,
                device.version.as_str(),
                device.arch.as_str(),
                device.os.as_str(),
                device.client_address.as_str(),
                device.login_time,
                now,
                run_id,
                NodeStatus::Online,
                c.user.metas.text.as_str(),
            );
            true
        },
    };
    if online {
        match query_domain_node_by_node_id(store, node_id) {
            Some(m) => {
                push_op(&mut ops, RouterOp::Upjoin(m.domain, node_id.to_owned(), m.weight));
            },
            None => {},
        }
    }
    Handled { ops, result: Ok(()) }
}

fn handle_close_proxy(store: &mut StateStore, frps_id: Option<&str>, c: &Content, now: i64) -> (r:
    Handled)
    requires
        old(store)@.wf(),
    ensures
        final(store)@.wf(),
        final(store)@ == close_proxy(old(store)@, str_view(frps_id), c@, now as int).store,
        ops_view(r.ops@) == close_proxy(old(store)@, str_view(frps_id), c@, now as int).ops,
        r.result == close_proxy(old(store)@, str_view(frps_id), c@, now as int).result,
{
    let device_id = match device_id_of(&c.user.metas) {
        Ok(id) => id,
        Err(e) => {
            return Handled { ops: no_ops(), result: Err(e) };
        },
    };
    let subdomain = match &c.proxy_name {
        Some(name) => name.as_str(),
        None => {
            return Handled { ops: no_ops(), result: Err(EventError::MissingSubdomain) };
        },
    };
    let mut ops = no_ops();
    if frps_id.is_some() {
        push_op(&mut ops, RouterOp::DelSubdomain(subdomain.to_owned()));
    }
    update_node_active_status(store, device_id, subdomain, now, NodeStatus::Offline);
    match query_node_by_subdomain(store, subdomain) {
        Some(node) => {
            match query_domain_node_by_node_id(store, node.node_id.as_str()) {
                Some(m) => {
                    push_op(&mut ops, RouterOp::Leave(m.domain, node.node_id, m.weight));
                },
                None => {},
            }
        },
        None => {},
    }
    Handled { ops, result: Ok(()) }
}

fn handle_ping(store: &mut StateStore, c: &Content, now: i64) -> (r: Handled)
    requires
        old(store)@.wf(),
    ensures
        final(store)@.wf(),
        final(store)@ == ping(old(store)@, c@, now as int).store,
        ops_view(r.ops@) == ping(old(store)@, c@, now as int).ops,
        r.result == ping(old(store)@, c@, now as int).result,
{
    let device_id = match device_id_of(&c.user.metas) {
        Ok(id) => id,
        Err(e) => {
            return Handled { ops: no_ops(), result: Err(e) };
        },
    };
    update_online_node_last_active_time(store, device_id, now);
    Handled { ops: no_ops(), result: Ok(()) }
}

/// Carries out the notification `data`, received at time `now` from the
/// tunnel server `frps_id`, on the store. The router operations that it hands
/// back are to be run in order, also where it reports an error.
pub fn handler_inner(store: &mut StateStore, frps_id: Option<&str>, data: &FrpsEvent, now: i64) -> (r:
    Handled)
    requires
        old(store)@.wf(),
    ensures
        final(store)@.wf(),
        final(store)@ == handled(old(store)@, str_view(frps_id), data@, now as int).store,
        ops_view(r.ops@) == handled(old(store)@, str_view(frps_id), data@, now as int).ops,
        r.result == handled(old(store)@, str_view(frps_id), data@, now as int).result,
{
    let op = match &data.op {
        Some(op) => op.as_str(),
        None => {
            return Handled { ops: no_ops(), result: Err(EventError::MissingOp) };
        },
    };
    if str_eq(op, "Login") {
        handle_login(store, &data.content, now)
    } else if str_eq(op, "NewProxy") {
        handle_new_proxy(store, frps_id, &data.content, now)
    } else if str_eq(op, "CloseProxy") {
        handle_close_proxy(store, frps_id, &data.content, now)
    } else if str_eq(op, "Ping") {
        handle_ping(store, &data.content, now)
    } else {
        Handled { ops: no_ops(), result: Ok(()) }
    }
}

/// Whether `id` names a tunnel server: `frps_` and one decimal digit or more.
pub open spec fn frps_id_shape(id: Seq<char>) -> bool {
    holds_at(id, 0, "frps_"@) && id.len() > 5 && all_digits(id.skip(5))
}

/// Whether `path` is a path of the tunnel-server webhook: `/inner/frps`, or
/// `/inner/frps/` and the name of a tunnel server.
pub open spec fn frps_path_matches(path: Seq<char>) -> bool {
    path == "/inner/frps"@ || (holds_at(path, 0, "/inner/frps/"@) && frps_id_shape(path.skip(12)))
}

/// The tunnel server that a webhook path names, if it names one.
pub open spec fn frps_id_in(path: Seq<char>) -> Option<Seq<char>> {
    if holds_at(path, 0, "/inner/frps/"@) && frps_id_shape(path.skip(12)) {
        Some(path.skip(12))
    } else {
        None
    }
}

/// Whether `path` is a path of the tunnel-server webhook.
pub fn is_frps_path(path: &str) -> (r: bool)
    ensures
        r == frps_path_matches(path@),
{
    if str_eq(path, "/inner/frps") {
        return true;
    }
    frps_id_of_path(path).is_some()
}

/// The tunnel server that a webhook path names, if it names one.
pub fn frps_id_of_path(path: &str) -> (r: Option<String>)
    ensures
        text_view(r) == frps_id_in(path@),
{
    proof {
        reveal_strlit("/inner/frps/");
        reveal_strlit("frps_");
    }
    let chars = chars_of(path);
    if !has_at(&chars, 0, "/inner/frps/") {
        return None;
    }
    let n = chars.len();
    let ghost id = path@.skip(12);
    if !has_at(&chars, 12, "frps_") {
        proof {
            if holds_at(id, 0, "frps_"@) {
                assert(chars@.subrange(12, 17) =~= id.subrange(0, 5));
            }
        }
        return None;
    }
    assert(chars@.subrange(12, 17) =~= id.subrange(0, 5));
    if n <= 17 {
        return None;
    }
    let mut i: usize = 17;
    while i < n
        invariant
            17 <= i <= n,
            n == chars.len(),
            chars@ == path@,
            id == path@.skip(12),
            forall|j: int| 5 <= j < i - 12 ==> is_digit(#[trigger] id[j]),
        decreases n - i,
    {
        let c = chars[i];
        if !(c >= '0' && c <= '9') {
            assert(id.skip(5)[i - 17] == c);
            return None;
        }
        i += 1;
    }
    let r = string_of(&chars, 12, n);
    Some(r)
}

/// Carries out the notification `data` that reached the webhook at `path`
/// at time `now`.
pub fn handler(store: &mut StateStore, path: &str, data: &FrpsEvent, now: i64) -> (r: Handled)
    requires
        old(store)@.wf(),
    ensures
        final(store)@.wf(),
        final(store)@ == handled(old(store)@, frps_id_in(path@), data@, now as int).store,
        ops_view(r.ops@) == handled(old(store)@, frps_id_in(path@), data@, now as int).ops,
        r.result == handled(old(store)@, frps_id_in(path@), data@, now as int).result,
{
    let frps_id = frps_id_of_path(path);
    match &frps_id {
        Some(id) => handler_inner(store, Some(id.as_str()), data, now),
        None => handler_inner(store, None, data, now),
    }
}

/// Whether the fields of an object hold `key`.
pub open spec fn has_field(fields: Seq<(Seq<char>, Seq<char>)>, key: Seq<char>) -> bool {
    exists|i: int| 0 <= i < fields.len() && (#[trigger] fields[i]).0 == key
}

/// The fields of an object after `key` is set to `value`: the value is
/// replaced where the object holds the key, and the field is added behind
/// the others where it does not.
pub open spec fn set_field(
    fields: Seq<(Seq<char>, Seq<char>)>,
    key: Seq<char>,
    value: Seq<char>,
) -> Seq<(Seq<char>, Seq<char>)> {
    if has_field(fields, key) {
        fields.map_values(
            |f: (Seq<char>, Seq<char>)|
                if f.0 == key {
                    (key, value)
                } else {
                    f
                },
        )
    } else {
        fields.push((key, value))
    }
}

/// The reply to a notification: the notification itself with `reject` set
/// to `false` and `unchange` set to `true`.
pub open spec fn admitted(fields: Seq<(Seq<char>, Seq<char>)>) -> Seq<(Seq<char>, Seq<char>)> {
    set_field(set_field(fields, "reject"@, "false"@), "unchange"@, "true"@)
}

fn put_field(fields: &mut Vec<(String, String)>, key: &str, value: &str)
    ensures
        final(fields).deep_view() == set_field(old(fields).deep_view(), key@, value@),
{
    let ghost before = fields.deep_view();
    let mut found = false;
    let mut i: usize = 0;
    while i < fields.len()
        invariant
            i <= fields.len(),
            fields.len() == before.len(),
            found == exists|j: int| 0 <= j < i && (#[trigger] before[j]).0 == key@,
            forall|j: int|
                0 <= j < i ==> (#[trigger] fields.deep_view()[j]) == if before[j].0 == key@ {
                    (key@, value@)
                } else {
                    before[j]
                },
            forall|j: int| i <= j < fields.len() ==> (#[trigger] fields.deep_view()[j]) == before[j],
        decreases fields.len() - i,
    {
        let ghost cur = fields.deep_view();
        assert(cur[i as int] == before[i as int]);
        if str_eq(fields[i].0.as_str(), key) {
            fields[i].1 = value.to_owned();
            found = true;
            assert(fields.deep_view() =~= cur.update(i as int, (key@, value@)));
        }
        i += 1;
    }
    if !found {
        let ghost cur = fields.deep_view();
        fields.push((key.to_owned(), value.to_owned()));
        assert(fields.deep_view() =~= cur.push((key@, value@)));
    }
}

/// The fields of the reply to a notification with the given fields; each
/// field is a name and a value in JSON text.
pub fn process_json_data_and_build_response(data: Vec<(String, String)>) -> (r: Vec<
    (String, String),
>)
    ensures
        r.deep_view() == admitted(data.deep_view()),
{
    let mut fields = data;
    put_field(&mut fields, "reject", "false");
    put_field(&mut fields, "unchange", "true");
    fields
}

/// Why a listing of living nodes was refused.
#[derive(Clone, Copy, PartialEq, Eq, Structural, Debug)]
pub enum QueryError {
    /// `page` is no integer, or below zero.
    InvalidPage,
    /// `size` is no integer, or below zero.
    InvalidSize,
}

/// A parameter filters only where it is given and not empty.
pub open spec fn filter_text(v: Option<Seq<char>>) -> Option<Seq<char>> {
    match v {
        Some(v) => if v.len() > 0 {
            Some(v)
        } else {
            None
        },
        None => None,
    }
}

/// The number of seconds that `lived_secs` asks for; a value that is no
/// number counts as 0.
pub open spec fn lived_secs_of(pairs: Seq<(Seq<char>, Seq<char>)>) -> u64 {
    match param(pairs, "lived_secs"@) {
        Some(v) => match parsed_u64(v) {
            Some(n) => n,
            None => 0,
        },
        None => 0,
    }
}

/// The filters that the parameters of a node listing ask for. Only `status`,
/// `device_id`, `chat_model`, `ids` and `lived_secs` filter: `location` and
/// every other parameter select nothing, whatever they hold.
pub open spec fn node_query_of(pairs: Seq<(Seq<char>, Seq<char>)>) -> NodeQueryView {
    NodeQueryView {
        status: filter_text(param(pairs, "status"@)),
        device_id: filter_text(param(pairs, "device_id"@)),
        chat_model: filter_text(param(pairs, "chat_model"@)),
        ids: match param(pairs, "ids"@) {
            Some(v) => Some(split_on(v, ',')),
            None => None,
        },
        lived_secs: if lived_secs_of(pairs) > 0 {
            Some(lived_secs_of(pairs) as int)
        } else {
            None
        },
    }
}

fn text_filter(v: Option<&str>) -> (r: Option<String>)
    ensures
        text_view(r) == filter_text(str_view(v)),
{
    match v {
        Some(v) => {
            if v.is_empty() {
                None
            } else {
                Some(v.to_owned())
            }
        },
        None => None,
    }
}

fn lived_secs_param(pairs: &Vec<(String, String)>) -> (r: u64)
    ensures
        r == lived_secs_of(pairs.deep_view()),
{
    match get_param(pairs, "lived_secs") {
        Some(v) => match parse_u64(v) {
            Some(n) => n,
            None => 0,
        },
        None => 0,
    }
}

/// The filters that the parameters of a node listing ask for.
pub fn build_node_query(pairs: &Vec<(String, String)>) -> (r: NodeQuery)
    ensures
        r@ == node_query_of(pairs.deep_view()),
{
    let lived = lived_secs_param(pairs);
    let ids = match get_param(pairs, "ids") {
        Some(v) => Some(split(v, ',')),
        None => None,
    };
    NodeQuery {
        status: text_filter(get_param(pairs, "status")),
        device_id: text_filter(get_param(pairs, "device_id")),
        chat_model: text_filter(get_param(pairs, "chat_model")),
        ids,
        lived_secs: if lived > 0 {
            Some(lived)
        } else {
            None
        },
    }
}

/// The listing that the given parameters ask for: the nodes that pass every
/// filter, in row order. No parameter makes the listing fail.
pub fn query_nodes_for(store: &StateStore, pairs: &Vec<(String, String)>) -> (r: Vec<NodeLimited>)
    ensures
        views(r@) == store@.nodes.filter(
            matches_query(node_query_of(pairs.deep_view())),
        ).map_values(to_limited()),
{
    let q = build_node_query(pairs);
    query_nodes_by_parameters(store, &q)
}

/// The node listing that the query string `query` asks for.
pub fn query_nodes(store: &StateStore, query: &str) -> (r: Vec<NodeLimited>)
    ensures
        views(r@) == store@.nodes.filter(
            matches_query(node_query_of(query_pairs(query@))),
        ).map_values(to_limited()),
{
    let pairs = parse_query(query);
    query_nodes_for(store, &pairs)
}

/// The page that the parameters ask for; 0 where none is given.
pub open spec fn page_param(pairs: Seq<(Seq<char>, Seq<char>)>) -> Option<i64> {
    match param(pairs, "page"@) {
        Some(v) => match parsed_i64(v) {
            Some(n) => if n >= 0 {
                Some(n)
            } else {
                None
            },
            None => None,
        },
        None => Some(0),
    }
}

/// The page size that the parameters ask for; 10 where none is given.
pub open spec fn size_param(pairs: Seq<(Seq<char>, Seq<char>)>) -> Option<i64> {
    match param(pairs, "size"@) {
        Some(v) => match parsed_i64(v) {
            Some(n) => if n >= 0 {
                Some(n)
            } else {
                None
            },
            None => None,
        },
        None => Some(10),
    }
}

fn count_param(pairs: &Vec<(String, String)>, name: &str, default: i64) -> (r: Option<i64>)
    ensures
        r == match param(pairs.deep_view(), name@) {
            Some(v) => match parsed_i64(v) {
                Some(n) => if n >= 0 {
                    Some(n)
                } else {
                    None
                },
                None => None,
            },
            None => Some(default),
        },
{
    match get_param(pairs, name) {
        Some(v) => match parse_i64(v) {
            Some(n) => {
                if n >= 0 {
                    Some(n)
                } else {
                    None
                }
            },
            None => None,
        },
        None => Some(default),
    }
}

/// The page of online nodes that the given parameters ask for, in ascending
/// order of login time. Refused where `page` or `size` is no integer or is
/// below zero.
pub fn get_living_nodes_for(store: &StateStore, pairs: &Vec<(String, String)>) -> (r: Result<
    Vec<LivingNode>,
    QueryError,
>)
    ensures
        match page_param(pairs.deep_view()) {
            None => r == Err::<Vec<LivingNode>, QueryError>(QueryError::InvalidPage),
            Some(page) => match size_param(pairs.deep_view()) {
                None => r == Err::<Vec<LivingNode>, QueryError>(QueryError::InvalidSize),
                Some(size) => r is Ok && views(r->Ok_0@) == page_of(
                    order_by(
                        store@.nodes.filter(
                            online_longer(lived_secs_of(pairs.deep_view()) as int),
                        ).map_values(to_living()),
                        login_time_of(),
                    ),
                    page * size,
                    size as int,
                ),
            },
        },
{
    let page = match count_param(pairs, "page", 0) {
        Some(n) => n,
        None => {
            return Err(QueryError::InvalidPage);
        },
    };
    let size = match count_param(pairs, "size", 10) {
        Some(n) => n,
        None => {
            return Err(QueryError::InvalidSize);
        },
    };
    let lived = lived_secs_param(pairs);
    Ok(query_living_nodes(store, lived, page, size))
}

/// The page of online nodes that the query string `query` asks for.
pub fn get_living_nodes(store: &StateStore, query: &str) -> (r: Result<Vec<LivingNode>, QueryError>)
    ensures
        match page_param(query_pairs(query@)) {
            None => r == Err::<Vec<LivingNode>, QueryError>(QueryError::InvalidPage),
            Some(page) => match size_param(query_pairs(query@)) {
                None => r == Err::<Vec<LivingNode>, QueryError>(QueryError::InvalidSize),
                Some(size) => r is Ok && views(r->Ok_0@) == page_of(
                    order_by(
                        store@.nodes.filter(
                            online_longer(lived_secs_of(query_pairs(query@)) as int),
                        ).map_values(to_living()),
                        login_time_of(),
                    ),
                    page * size,
                    size as int,
                ),
            },
        },
{
    let pairs = parse_query(query);
    get_living_nodes_for(store, &pairs)
}

} // verus!
