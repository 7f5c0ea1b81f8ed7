//! The rows of the state store and their mathematical views.
use vstd::prelude::*;

verus! {

/// Liveness of a node as the control plane sees it.
#[derive(Clone, Copy, PartialEq, Eq, Structural, Debug)]
pub enum NodeStatus {
    /// The tunnel is up and the node answers.
    Online,
    /// The tunnel is up but the node does not answer.
    Unavail,
    /// The tunnel is closed or has gone silent.
    Offline,
}

impl NodeStatus {
    /// The name under which the status is stored and reported.
    pub open spec fn name(self) -> Seq<char> {
        match self {
            NodeStatus::Online => "online"@,
            NodeStatus::Unavail => "unavail"@,
            NodeStatus::Offline => "offline"@,
        }
    }

    /// The status that carries the given name, if any.
    pub open spec fn named(s: Seq<char>) -> Option<NodeStatus> {
        if s == "online"@ {
            Some(NodeStatus::Online)
        } else if s == "unavail"@ {
            Some(NodeStatus::Unavail)
        } else if s == "offline"@ {
            Some(NodeStatus::Offline)
        } else {
            None
        }
    }

    /// A living node is one whose tunnel is up: online or unavail.
    pub open spec fn is_living(self) -> bool {
        self != NodeStatus::Offline
    }

    /// The name under which the status is stored and reported.
    pub fn as_str(&self) -> (r: &'static str)
        ensures
            r@ == self.name(),
    {
        match self {
            NodeStatus::Online => "online",
            NodeStatus::Unavail => "unavail",
            NodeStatus::Offline => "offline",
        }
    }

    /// The status that carries the given name, if any.
    pub fn parse(s: &str) -> (r: Option<NodeStatus>)
        ensures
            r == NodeStatus::named(s@),
    {
        if *s == *"online" {
            Some(NodeStatus::Online)
        } else if *s == *"unavail" {
            Some(NodeStatus::Unavail)
        } else if *s == *"offline" {
            Some(NodeStatus::Offline)
        } else {
            None
        }
    }

    /// Whether the tunnel of a node with this status is up.
    pub fn living(&self) -> (r: bool)
        ensures
            r == self.is_living(),
    {
        match self {
            NodeStatus::Offline => false,
            _ => true,
        }
    }
}

/// An end-user machine that has logged in through a tunnel.
#[derive(Debug, PartialEq, Eq)]
pub struct Device {
    pub device_id: String,
    pub version: String,
    pub arch: String,
    pub os: String,
    pub client_address: String,
    /// Seconds since the epoch, UTC.
    pub login_time: i64,
    /// Opaque JSON text.
    pub meta: String,
}

/// The view of a `Device`.
pub struct DeviceView {
    pub device_id: Seq<char>,
    pub version: Seq<char>,
    pub arch: Seq<char>,
    pub os: Seq<char>,
    pub client_address: Seq<char>,
    pub login_time: int,
    pub meta: Seq<char>,
}

impl View for Device {
    type V = DeviceView;

    open spec fn view(&self) -> DeviceView {
        DeviceView {
            device_id: self.device_id@,
            version: self.version@,
            arch: self.arch@,
            os: self.os@,
            client_address: self.client_address@,
            login_time: self.login_time as int,
            meta: self.meta@,
        }
    }
}

impl Clone for Device {
    fn clone(&self) -> (r: Self)
        ensures
            r == *self,
    {
        Device {
            device_id: self.device_id.clone(),
            version: self.version.clone(),
            arch: self.arch.clone(),
            os: self.os.clone(),
            client_address: self.client_address.clone(),
            login_time: self.login_time,
            meta: self.meta.clone(),
        }
    }
}

/// The attributes of a device that is about to be stored.
#[derive(Debug)]
pub struct NewDevice<'a> {
    pub device_id: &'a str,
    pub version: &'a str,
    pub arch: &'a str,
    pub os: &'a str,
    pub client_address: &'a str,
    pub login_time: i64,
    pub meta: &'a str,
}

impl<'a> View for NewDevice<'a> {
    type V = DeviceView;

    open spec fn view(&self) -> DeviceView {
        DeviceView {
            device_id: self.device_id@,
            version: self.version@,
            arch: self.arch@,
            os: self.os@,
            client_address: self.client_address@,
            login_time: self.login_time as int,
            meta: self.meta@,
        }
    }
}

impl<'a> NewDevice<'a> {
    /// The row that stores these attributes.
    pub fn to_device(&self) -> (r: Device)
        ensures
            r@ == self@,
    {
        Device {
            device_id: self.device_id.to_owned(),
            version: self.version.to_owned(),
            arch: self.arch.to_owned(),
            os: self.os.to_owned(),
            client_address: self.client_address.to_owned(),
            login_time: self.login_time,
            meta: self.meta.to_owned(),
        }
    }
}

/// One exposed proxy on one tunnel server.
#[derive(Debug, PartialEq, Eq)]
pub struct Node {
    pub node_id: String,
    pub device_id: String,
    pub subdomain: String,
    pub version: String,
    pub arch: String,
    pub os: String,
    pub client_address: String,
    pub login_time: i64,
    pub last_active_time: i64,
    pub last_avail_time: Option<i64>,
    pub run_id: String,
    /// Opaque JSON text.
    pub meta: String,
    pub node_version: String,
    pub chat_model: String,
    pub embedding_model: String,
    pub status: NodeStatus,
}

/// The view of a `Node`.
pub struct NodeView {
    pub node_id: Seq<char>,
    pub device_id: Seq<char>,
    pub subdomain: Seq<char>,
    pub version: Seq<char>,
    pub arch: Seq<char>,
    pub os: Seq<char>,
    pub client_address: Seq<char>,
    pub login_time: int,
    pub last_active_time: int,
    pub last_avail_time: Option<int>,
    pub run_id: Seq<char>,
    pub meta: Seq<char>,
    pub node_version: Seq<char>,
    pub chat_model: Seq<char>,
    pub embedding_model: Seq<char>,
    pub status: NodeStatus,
}

/// The view of an optional timestamp.
pub open spec fn time_view(t: Option<i64>) -> Option<int> {
    match t {
        Some(v) => Some(v as int),
        None => None,
    }
}

impl View for Node {
    type V = NodeView;

    open spec fn view(&self) -> NodeView {
        NodeView {
            node_id: self.node_id@,
            device_id: self.device_id@,
            subdomain: self.subdomain@,
            version: self.version@,
            arch: self.arch@,
            os: self.os@,
            client_address: self.client_address@,
            login_time: self.login_time as int,
            last_active_time: self.last_active_time as int,
            last_avail_time: time_view(self.last_avail_time),
            run_id: self.run_id@,
            meta: self.meta@,
            node_version: self.node_version@,
            chat_model: self.chat_model@,
            embedding_model: self.embedding_model@,
            status: self.status,
        }
    }
}

impl NodeView {
    /// Seconds between login and the last sign of tunnel activity.
    pub open spec fn lived_secs(self) -> int {
        self.last_active_time - self.login_time
    }
}

impl Clone for Node {
    fn clone(&self) -> (r: Self)
        ensures
            r == *self,
    {
        Node {
            node_id: self.node_id.clone(),
            device_id: self.device_id.clone(),
            subdomain: self.subdomain.clone(),
            version: self.version.clone(),
            arch: self.arch.clone(),
            os: self.os.clone(),
            client_address: self.client_address.clone(),
            login_time: self.login_time,
            last_active_time: self.last_active_time,
            last_avail_time: self.last_avail_time,
            run_id: self.run_id.clone(),
            meta: self.meta.clone(),
            node_version: self.node_version.clone(),
            chat_model: self.chat_model.clone(),
            embedding_model: self.embedding_model.clone(),
            status: self.status,
        }
    }
}

/// The attributes that a tunnel event supplies for a node.
#[derive(Debug)]
pub struct NewNode<'a> {
    pub node_id: &'a str,
    pub device_id: &'a str,
    pub subdomain: &'a str,
    pub version: &'a str,
    pub arch: &'a str,
    pub os: &'a str,
    pub client_address: &'a str,
    pub status: NodeStatus,
    pub login_time: i64,
    pub last_active_time: i64,
    pub run_id: &'a str,
    pub meta: &'a str,
}

impl<'a> NewNode<'a> {
    /// The row of a node that was just created from these attributes: nothing
    /// has been reported by the node itself yet.
    pub open spec fn created(&self) -> NodeView {
        NodeView {
            node_id: self.node_id@,
            device_id: self.device_id@,
            subdomain: self.subdomain@,
            version: self.version@,
            arch: self.arch@,
            os: self.os@,
            client_address: self.client_address@,
            login_time: self.login_time as int,
            last_active_time: self.last_active_time as int,
            last_avail_time: None,
            run_id: self.run_id@,
            meta: self.meta@,
            node_version: Seq::empty(),
            chat_model: Seq::empty(),
            embedding_model: Seq::empty(),
            status: self.status,
        }
    }

    /// The row of a node that was just created from these attributes.
    pub fn to_node(&self) -> (r: Node)
        ensures
            r@ == self.created(),
    {
        Node {
            node_id: self.node_id.to_owned(),
            device_id: self.device_id.to_owned(),
            subdomain: self.subdomain.to_owned(),
            version: self.version.to_owned(),
            arch: self.arch.to_owned(),
            os: self.os.to_owned(),
            client_address: self.client_address.to_owned(),
            login_time: self.login_time,
            last_active_time: self.last_active_time,
            last_avail_time: None,
            run_id: self.run_id.to_owned(),
            meta: self.meta.to_owned(),
            node_version: String::new(),
            chat_model: String::new(),
            embedding_model: String::new(),
            status: self.status,
        }
    }
}

/// What a node listing shows of a node.
#[derive(Debug, PartialEq, Eq)]
pub struct NodeLimited {
    pub subdomain: String,
    pub node_id: String,
    pub status: NodeStatus,
    pub node_version: String,
    pub chat_model: String,
    pub embedding_model: String,
    pub device_id: String,
    pub client_address: String,
}

/// The view of a `NodeLimited`.
pub struct NodeLimitedView {
    pub subdomain: Seq<char>,
    pub node_id: Seq<char>,
    pub status: NodeStatus,
    pub node_version: Seq<char>,
    pub chat_model: Seq<char>,
    pub embedding_model: Seq<char>,
    pub device_id: Seq<char>,
    pub client_address: Seq<char>,
}

impl View for NodeLimited {
    type V = NodeLimitedView;

    open spec fn view(&self) -> NodeLimitedView {
        NodeLimitedView {
            subdomain: self.subdomain@,
            node_id: self.node_id@,
            status: self.status,
            node_version: self.node_version@,
            chat_model: self.chat_model@,
            embedding_model: self.embedding_model@,
            device_id: self.device_id@,
            client_address: self.client_address@,
        }
    }
}

impl NodeView {
    /// The columns that a node listing shows.
    pub open spec fn limited(self) -> NodeLimitedView {
        NodeLimitedView {
            subdomain: self.subdomain,
            node_id: self.node_id,
            status: self.status,
            node_version: self.node_version,
            chat_model: self.chat_model,
            embedding_model: self.embedding_model,
            device_id: self.device_id,
            client_address: self.client_address,
        }
    }

    /// The columns that the health probe needs.
    pub open spec fn living(self) -> LivingNodeView {
        LivingNodeView {
            node_id: self.node_id,
            subdomain: self.subdomain,
            chat_model: self.chat_model,
            login_time: self.login_time,
            status: self.status,
        }
    }
}

impl Node {
    /// The columns that a node listing shows.
    pub fn to_limited(&self) -> (r: NodeLimited)
        ensures
            r@ == self@.limited(),
    {
        NodeLimited {
            subdomain: self.subdomain.clone(),
            node_id: self.node_id.clone(),
            status: self.status,
            node_version: self.node_version.clone(),
            chat_model: self.chat_model.clone(),
            embedding_model: self.embedding_model.clone(),
            device_id: self.device_id.clone(),
            client_address: self.client_address.clone(),
        }
    }

    /// The columns that the health probe needs.
    pub fn to_living(&self) -> (r: LivingNode)
        ensures
            r@ == self@.living(),
    {
        LivingNode {
            node_id: self.node_id.clone(),
            subdomain: self.subdomain.clone(),
            chat_model: self.chat_model.clone(),
            login_time: self.login_time,
            status: self.status,
        }
    }
}

/// What the health probe needs to know of a living node.
#[derive(Debug, PartialEq, Eq)]
pub struct LivingNode {
    pub node_id: String,
    pub subdomain: String,
    pub chat_model: String,
    pub login_time: i64,
    pub status: NodeStatus,
}

/// The view of a `LivingNode`.
pub struct LivingNodeView {
    pub node_id: Seq<char>,
    pub subdomain: Seq<char>,
    pub chat_model: Seq<char>,
    pub login_time: int,
    pub status: NodeStatus,
}

impl View for LivingNode {
    type V = LivingNodeView;

    open spec fn view(&self) -> LivingNodeView {
        LivingNodeView {
            node_id: self.node_id@,
            subdomain: self.subdomain@,
            chat_model: self.chat_model@,
            login_time: self.login_time as int,
            status: self.status,
        }
    }
}

/// Membership of one node in one routing domain.
#[derive(Debug, PartialEq, Eq)]
pub struct DomainNodes {
    pub domain: String,
    pub node_id: String,
    pub weight: i64,
}

/// The view of a `DomainNodes`.
pub struct DomainNodesView {
    pub domain: Seq<char>,
    pub node_id: Seq<char>,
    pub weight: int,
}

impl View for DomainNodes {
    type V = DomainNodesView;

    open spec fn view(&self) -> DomainNodesView {
        DomainNodesView { domain: self.domain@, node_id: self.node_id@, weight: self.weight as int }
    }
}

impl Clone for DomainNodes {
    fn clone(&self) -> (r: Self)
        ensures
            r == *self,
    {
        DomainNodes {
            domain: self.domain.clone(),
            node_id: self.node_id.clone(),
            weight: self.weight,
        }
    }
}

/// The views of the rows of a table, in row order.
pub open spec fn views<T: View>(rows: Seq<T>) -> Seq<T::V> {
    rows.map_values(|r: T| r@)
}

/// The views of (node id, weight) pairs, in order.
pub open spec fn weights_view(pairs: Seq<(String, i64)>) -> Seq<(Seq<char>, int)> {
    pairs.map_values(|p: (String, i64)| (p.0@, p.1 as int))
}

} // verus!
