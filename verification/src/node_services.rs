//! The node service: what a node reports of itself, and of its health.
use vstd::prelude::*;
use crate::db::{
    query_node_by_node_id, update_node_avail_time_and_status, update_node_info_by_node_id,
    update_node_status, StateStore,
};
use crate::maintenance::NODE_LIVING_DURATION;
use crate::models::NodeStatus;
use crate::state::{node_is, set_avail_status, set_info, set_status, StateView};
use crate::text::{chars_of, has_at, holds_at, string_of, text_view};

verus! {

/// Which of the two reports a path stands for.
#[derive(Clone, Copy, PartialEq, Eq, Structural, Debug)]
pub enum NodeApi {
    Info,
    Health,
}

/// Whether a node id in a path may hold `c`: an ASCII letter or digit, `_`,
/// `.` or `-`.
pub open spec fn is_id_char(c: char) -> bool {
    ('A' <= c && c <= 'Z') || ('a' <= c && c <= 'z') || ('0' <= c && c <= '9') || c == '_' || c
        == '.' || c == '-'
}

/// Whether a node id in a path may hold every character of `s`.
pub open spec fn is_id_text(s: Seq<char>) -> bool {
    forall|i: int| 0 <= i < s.len() ==> is_id_char(#[trigger] s[i])
}

/// What a path of the node service says: the report, and behind it the node
/// id, which may be missing. `None` for any other path.
pub open spec fn node_api_path(path: Seq<char>) -> Option<(NodeApi, Seq<char>)> {
    if holds_at(path, 0, "/node-info/"@) && is_id_text(path.skip(11)) {
        Some((NodeApi::Info, path.skip(11)))
    } else if holds_at(path, 0, "/node-health/"@) && is_id_text(path.skip(13)) {
        Some((NodeApi::Health, path.skip(13)))
    } else {
        None
    }
}

/// Whether `path` is a path of the node service.
pub open spec fn node_api_path_matches(path: Seq<char>) -> bool {
    node_api_path(path) is Some
}

fn id_after(chars: &Vec<char>, from: usize) -> (r: Option<String>)
    requires
        from <= chars.len(),
    ensures
        r is Some <==> is_id_text(chars@.skip(from as int)),
        r matches Some(id) ==> id@ == chars@.skip(from as int),
{
    let ghost id = chars@.skip(from as int);
    let mut i: usize = from;
    while i < chars.len()
        invariant
            from <= i <= chars.len(),
            id == chars@.skip(from as int),
            forall|j: int| 0 <= j < i - from ==> is_id_char(#[trigger] id[j]),
        decreases chars.len() - i,
    {
        let c = chars[i];
        let ok = (c >= 'A' && c <= 'Z') || (c >= 'a' && c <= 'z') || (c >= '0' && c <= '9') || c
            == '_' || c == '.' || c == '-';
        if !ok {
            assert(id[i - from] == c);
            return None;
        }
        i += 1;
    }
    let r = string_of(chars, from, chars.len());
    Some(r)
}

/// Reads a path of the node service.
pub fn parse_node_api_path(path: &str) -> (r: Option<(NodeApi, String)>)
    ensures
        match r {
            Some((api, id)) => node_api_path(path@) == Some((api, id@)),
            None => node_api_path(path@) is None,
        },
{
    proof {
        reveal_strlit("/node-info/");
        reveal_strlit("/node-health/");
    }
    let chars = chars_of(path);
    if has_at(&chars, 0, "/node-info/") {
        match id_after(&chars, 11) {
            Some(id) => Some((NodeApi::Info, id)),
            None => {
                proof {
                    if holds_at(path@, 0, "/node-health/"@) {
                        assert(path@.subrange(0, 11)[6] == path@[6]);
                    }
                }
                None
            },
        }
    } else if has_at(&chars, 0, "/node-health/") {
        match id_after(&chars, 13) {
            Some(id) => Some((NodeApi::Health, id)),
            None => None,
        }
    } else {
        None
    }
}

/// Whether `path` is a path of the node service.
pub fn is_node_api_path(path: &str) -> (r: bool)
    ensures
        r == node_api_path_matches(path@),
{
    parse_node_api_path(path).is_some()
}

/// What a node sends with a report. A field is `None` where the report does
/// not hold it with the type that it should have.
#[derive(Debug, PartialEq, Eq)]
pub struct NodeReport {
    /// `health`, a boolean.
    pub health: Option<bool>,
    /// `node_version`, a string.
    pub node_version: Option<String>,
    /// `chat_model.name`, a string.
    pub chat_model: Option<String>,
    /// `embedding_model.name`, a string.
    pub embedding_model: Option<String>,
}

/// The view of a `NodeReport`.
pub struct NodeReportView {
    pub health: Option<bool>,
    pub node_version: Option<Seq<char>>,
    pub chat_model: Option<Seq<char>>,
    pub embedding_model: Option<Seq<char>>,
}

impl View for NodeReport {
    type V = NodeReportView;

    open spec fn view(&self) -> NodeReportView {
        NodeReportView {
            health: self.health,
            node_version: text_view(self.node_version),
            chat_model: text_view(self.chat_model),
            embedding_model: text_view(self.embedding_model),
        }
    }
}

/// Why a report was refused.
#[derive(Clone, Copy, PartialEq, Eq, Structural, Debug)]
pub enum NodeError {
    /// The path is none of the node service.
    InvalidPath,
    /// The path names no node.
    InvalidNodeId,
    /// The report holds no `health`.
    MissingHealth,
    /// The report holds no `chat_model.name`.
    MissingChatModel,
    /// The report holds no `embedding_model.name`.
    MissingEmbeddingModel,
    /// The store holds no such node.
    NodeNotFound,
}

/// The store after and the answer to a report.
pub struct Reported {
    pub store: StateView,
    pub result: Result<(), NodeError>,
}

/// A capability report: the version of the node and the names of its two
/// models are written to the node.
pub open spec fn info_reported(
    s: StateView,
    node_id: Seq<char>,
    report: NodeReportView,
) -> Reported {
    match report.chat_model {
        None => Reported { store: s, result: Err(NodeError::MissingChatModel) },
        Some(chat_model) => match report.embedding_model {
            None => Reported { store: s, result: Err(NodeError::MissingEmbeddingModel) },
            Some(embedding_model) => Reported {
                store: s.update_nodes(
                    node_is(node_id),
                    set_info(
                        match report.node_version {
                            Some(v) => v,
                            None => Seq::empty(),
                        },
                        chat_model,
                        embedding_model,
                    ),
                ),
                result: Ok(()),
            },
        },
    }
}

/// Whether a node that reports itself healthy at `now` is set online: an
/// online node is, and an unavail node is if its tunnel showed activity
/// within the living duration.
pub open spec fn reopens(status: NodeStatus, last_active_time: int, now: int) -> bool {
    status == NodeStatus::Online || (status == NodeStatus::Unavail && last_active_time > now
        - NODE_LIVING_DURATION)
}

/// A health report at time `now`.
pub open spec fn health_reported(
    s: StateView,
    node_id: Seq<char>,
    report: NodeReportView,
    now: int,
) -> Reported {
    match report.health {
        None => Reported { store: s, result: Err(NodeError::MissingHealth) },
        Some(healthy) => match s.node(node_id) {
            None => Reported { store: s, result: Err(NodeError::NodeNotFound) },
            Some(n) => Reported {
                store: if healthy {
                    if reopens(n.status, n.last_active_time, now) {
                        s.update_nodes(node_is(node_id), set_avail_status(now, NodeStatus::Online))
                    } else {
                        s
                    }
                } else if n.status == NodeStatus::Online {
                    s.update_nodes(node_is(node_id), set_status(NodeStatus::Unavail))
                } else {
                    s
                },
                result: Ok(()),
            },
        },
    }
}

/// What a report that reaches `path` at time `now` leads to.
pub open spec fn api_reported(
    s: StateView,
    path: Seq<char>,
    report: NodeReportView,
    now: int,
) -> Reported {
    match node_api_path(path) {
        None => Reported { store: s, result: Err(NodeError::InvalidPath) },
        Some((api, node_id)) => if node_id.len() == 0 {
            Reported { store: s, result: Err(NodeError::InvalidNodeId) }
        } else {
            match api {
                NodeApi::Info => info_reported(s, node_id, report),
                NodeApi::Health => health_reported(s, node_id, report, now),
            }
        },
    }
}

/// Records what the node `node_id` reports of itself.
pub fn device_info_handler(store: &mut StateStore, node_id: &str, report: &NodeReport) -> (r: Result<
    (),
    NodeError,
>)
    requires
        old(store)@.wf(),
    ensures
        final(store)@.wf(),
        final(store)@ == info_reported(old(store)@, node_id@, report@).store,
        r == info_reported(old(store)@, node_id@, report@).result,
{
    let node_version = match &report.node_version {
        Some(v) => v.as_str(),
        None => "",
    };
    proof {
        reveal_strlit("");
        assert(""@ =~= Seq::<char>::empty());
    }
    let chat_model = match &report.chat_model {
        Some(m) => m.as_str(),
        None => {
            return Err(NodeError::MissingChatModel);
        },
    };
    let embedding_model = match &report.embedding_model {
        Some(m) => m.as_str(),
        None => {
            return Err(NodeError::MissingEmbeddingModel);
        },
    };
    update_node_info_by_node_id(store, node_id, node_version, chat_model, embedding_model);
    Ok(())
}

/// Records the health that the node `node_id` reports at time `now`.
pub fn device_health_handler(store: &mut StateStore, node_id: &str, report: &NodeReport, now: i64) -> (r:
    Result<(), NodeError>)
    requires
        old(store)@.wf(),
    ensures
        final(store)@.wf(),
        final(store)@ == health_reported(old(store)@, node_id@, report@, now as int).store,
        r == health_reported(old(store)@, node_id@, report@, now as int).result,
{
    let healthy = match report.health {
        Some(h) => h,
        None => {
            return Err(NodeError::MissingHealth);
        },
    };
    let node = match query_node_by_node_id(store, node_id) {
        Some(node) => node,
        None => {
            return Err(NodeError::NodeNotFound);
        },
    };
    if healthy {
        let reopen = match node.status {
            NodeStatus::Online => true,
            NodeStatus::Unavail => node.last_active_time as i128 > now as i128
                - NODE_LIVING_DURATION as i128,
            NodeStatus::Offline => false,
        };
        if reopen {
            update_node_avail_time_and_status(store, node_id, now, NodeStatus::Online);
        }
    } else if node.status == NodeStatus::Online {
        update_node_status(store, node_id, NodeStatus::Unavail);
    }
    Ok(())
}

/// Carries out the report that reaches `path` at time `now`.
pub fn device_api_handler(store: &mut StateStore, path: &str, report: &NodeReport, now: i64) -> (r:
    Result<(), NodeError>)
    requires
        old(store)@.wf(),
    ensures
        final(store)@.wf(),
        final(store)@ == api_reported(old(store)@, path@, report@, now as int).store,
        r == api_reported(old(store)@, path@, report@, now as int).result,
{
    match parse_node_api_path(path) {
        None => Err(NodeError::InvalidPath),
        Some((api, node_id)) => {
            if node_id.as_str().is_empty() {
                return Err(NodeError::InvalidNodeId);
            }
            match api {
                NodeApi::Info => device_info_handler(store, node_id.as_str(), report),
                NodeApi::Health => device_health_handler(store, node_id.as_str(), report, now),
            }
        },
    }
}

} // verus!
