use gaia_hub::db::{
    create_device, create_node_status, query_domain_nodes, query_node_by_node_id,
    update_node_status, StateStore,
};
use gaia_hub::domain_nodes::{
    create_domain_node, get_domain_nodes, get_domain_nodes_for, remove_domain_node,
    valid_domain_name, CreateResult, CreateResultCode, DomainError, DomainNodeIds,
    DomainNodesWeights, NodeWeight,
};
use gaia_hub::models::{DomainNodes, NodeStatus};
use gaia_hub::node_services::{
    device_api_handler, device_health_handler, device_info_handler, is_node_api_path,
    parse_node_api_path, NodeApi, NodeError, NodeReport,
};
use gaia_hub::redism::RouterOp;

fn fleet() -> StateStore {
    let mut store = StateStore::new();
    create_device(&mut store, "d1", "linux", "x64", "1.0", "1.2.3.4", "{}", 50).unwrap();
    for n in ["A", "B", "C", "off"] {
        create_node_status(
            &mut store, n, "d1", n, "1.0", "x64", "linux", "1.2.3.4", 50, 1000, "r",
            NodeStatus::Online, "{}",
        )
        .unwrap();
    }
    update_node_status(&mut store, "off", NodeStatus::Offline);
    store
}

fn entry(domain: &str, nodes: &[(&str, i64)]) -> DomainNodesWeights {
    DomainNodesWeights {
        domain: domain.to_string(),
        nodes_weights: nodes
            .iter()
            .map(|(n, w)| NodeWeight { node_id: n.to_string(), weight: *w })
            .collect(),
    }
}

fn answer(domain: &str, node: &str, code: CreateResultCode) -> CreateResult {
    CreateResult { domain: domain.to_string(), node_id: node.to_string(), code }
}

fn member(d: &str, n: &str, w: i64) -> DomainNodes {
    DomainNodes { domain: d.to_string(), node_id: n.to_string(), weight: w }
}

#[test]
fn domain_names_are_ascii_words() {
    assert!(valid_domain_name("llama"));
    assert!(valid_domain_name("Llama-3_70B"));
    assert!(valid_domain_name("_"));
    assert!(valid_domain_name("-"));
    assert!(!valid_domain_name(""));
    assert!(!valid_domain_name("a b"));
    assert!(!valid_domain_name("a.b"));
    assert!(!valid_domain_name("caf\u{e9}"));
    assert!(!valid_domain_name("a/b"));
    assert!(!valid_domain_name("a\n"));
}

#[test]
fn create_reports_each_request() {
    let mut store = fleet();
    let created = create_domain_node(
        &mut store,
        &vec![
            entry("Llama", &[("A", 10), ("ghost", 1), ("off", 2), ("B", 20)]),
            entry("bad name", &[("C", 5)]),
            entry("", &[("C", 5)]),
            entry("LLAMA", &[("A", 10), ("B", 25)]),
        ],
    );
    assert_eq!(
        created.results,
        vec![
            answer("llama", "A", CreateResultCode::Created),
            answer("llama", "ghost", CreateResultCode::NodeNotExist),
            answer("llama", "off", CreateResultCode::NodeOffline),
            answer("llama", "B", CreateResultCode::Created),
            answer("llama", "A", CreateResultCode::Created),
            answer("llama", "B", CreateResultCode::Created),
        ]
    );
    assert_eq!(
        created.ops,
        vec![
            RouterOp::Join("llama".to_string(), "A".to_string(), 10),
            RouterOp::Join("llama".to_string(), "B".to_string(), 20),
            RouterOp::Upjoin("llama".to_string(), "B".to_string(), 25),
        ]
    );
    assert_eq!(
        query_domain_nodes(&store, "llama"),
        vec![member("llama", "A", 10), member("llama", "B", 25)]
    );
    assert!(query_domain_nodes(&store, "Llama").is_empty());
    assert!(query_domain_nodes(&store, "bad name").is_empty());
}

#[test]
fn request_for_a_weight_below_zero_is_passed_over() {
    let mut store = fleet();
    let created = create_domain_node(
        &mut store,
        &vec![entry("llama", &[("A", -1), ("B", 0), ("ghost", -5), ("C", 7)])],
    );
    assert_eq!(
        created.results,
        vec![
            answer("llama", "B", CreateResultCode::Created),
            answer("llama", "C", CreateResultCode::Created),
        ]
    );
    assert_eq!(
        created.ops,
        vec![
            RouterOp::Join("llama".to_string(), "B".to_string(), 0),
            RouterOp::Join("llama".to_string(), "C".to_string(), 7),
        ]
    );
    let again = create_domain_node(&mut store, &vec![entry("llama", &[("C", -7), ("C", 8)])]);
    assert_eq!(again.results, vec![answer("llama", "C", CreateResultCode::Created)]);
    assert_eq!(again.ops, vec![RouterOp::Upjoin("llama".to_string(), "C".to_string(), 8)]);
    assert_eq!(
        query_domain_nodes(&store, "llama"),
        vec![member("llama", "B", 0), member("llama", "C", 8)]
    );
}

#[test]
fn created_codes_have_names() {
    assert_eq!(CreateResultCode::Created.as_str(), "created");
    assert_eq!(CreateResultCode::NodeNotExist.as_str(), "node_not_exist");
    assert_eq!(CreateResultCode::NodeOffline.as_str(), "node_offline");
}

#[test]
fn unavail_node_cannot_become_member() {
    let mut store = fleet();
    update_node_status(&mut store, "C", NodeStatus::Unavail);
    let created = create_domain_node(&mut store, &vec![entry("d", &[("C", 5)])]);
    assert_eq!(created.results, vec![answer("d", "C", CreateResultCode::NodeOffline)]);
    assert!(created.ops.is_empty());
}

#[test]
fn remove_hands_back_the_weights() {
    let mut store = fleet();
    create_domain_node(&mut store, &vec![entry("llama", &[("A", 10), ("B", 20), ("C", 30)])]);
    let ids = |d: &str, n: &[&str]| DomainNodeIds {
        domain: d.to_string(),
        nodes_ids: n.iter().map(|s| s.to_string()).collect(),
    };
    let ops = remove_domain_node(
        &mut store,
        &vec![ids("LLAMA", &["B", "ghost", "B"]), ids("no pe", &["A"]), ids("other", &["A"])],
    );
    assert_eq!(ops, vec![RouterOp::Leave("llama".to_string(), "B".to_string(), 20)]);
    assert_eq!(
        query_domain_nodes(&store, "llama"),
        vec![member("llama", "A", 10), member("llama", "C", 30)]
    );
}

#[test]
fn list_shows_members_whatever_their_status() {
    let mut store = fleet();
    create_domain_node(&mut store, &vec![entry("llama", &[("A", 10), ("B", 20)])]);
    update_node_status(&mut store, "A", NodeStatus::Offline);
    let q = |k: &str, v: &str| vec![(k.to_string(), v.to_string())];
    assert_eq!(
        get_domain_nodes_for(&store, &q("domain", "LLama")),
        Ok(vec![member("llama", "A", 10), member("llama", "B", 20)])
    );
    assert_eq!(get_domain_nodes_for(&store, &q("domain", "none")), Ok(vec![]));
    assert_eq!(get_domain_nodes_for(&store, &q("domain", "")), Ok(vec![]));
    assert_eq!(get_domain_nodes_for(&store, &q("domain", "lla ma")), Ok(vec![]));
    assert_eq!(get_domain_nodes_for(&store, &q("domain", "llam\u{e4}")), Ok(vec![]));
    assert_eq!(get_domain_nodes(&store, "domain=llama%2F"), Ok(vec![]));
    assert_eq!(get_domain_nodes_for(&store, &q("other", "llama")), Err(DomainError::MissingDomain));
    assert_eq!(
        get_domain_nodes(&store, "x=1&domain=LL%61ma"),
        Ok(vec![member("llama", "A", 10), member("llama", "B", 20)])
    );
    assert_eq!(get_domain_nodes(&store, ""), Err(DomainError::MissingDomain));
}

#[test]
fn node_paths_name_report_and_node() {
    assert_eq!(
        parse_node_api_path("/node-info/n1"),
        Some((NodeApi::Info, "n1".to_string()))
    );
    assert_eq!(
        parse_node_api_path("/node-health/0x.a-b_C"),
        Some((NodeApi::Health, "0x.a-b_C".to_string()))
    );
    assert_eq!(parse_node_api_path("/node-info/"), Some((NodeApi::Info, String::new())));
    assert_eq!(parse_node_api_path("/node-info"), None);
    assert_eq!(parse_node_api_path("/node-info/a/b"), None);
    assert_eq!(parse_node_api_path("/node-health/a b"), None);
    assert_eq!(parse_node_api_path("/node-heal/a"), None);
    assert_eq!(parse_node_api_path("/device-info/a"), None);
    assert!(is_node_api_path("/node-health/n1"));
    assert!(!is_node_api_path("/node-health"));
}

fn health(h: bool) -> NodeReport {
    NodeReport { health: Some(h), node_version: None, chat_model: None, embedding_model: None }
}

#[test]
fn health_report_follows_the_status() {
    let mut store = fleet();
    assert_eq!(device_health_handler(&mut store, "A", &health(true), 1100), Ok(()));
    let a = query_node_by_node_id(&store, "A").unwrap();
    assert_eq!((a.status, a.last_avail_time), (NodeStatus::Online, Some(1100)));
    assert_eq!(device_health_handler(&mut store, "A", &health(false), 1110), Ok(()));
    let a = query_node_by_node_id(&store, "A").unwrap();
    assert_eq!((a.status, a.last_avail_time), (NodeStatus::Unavail, Some(1100)));
    assert_eq!(device_health_handler(&mut store, "A", &health(false), 1115), Ok(()));
    assert_eq!(query_node_by_node_id(&store, "A").unwrap().status, NodeStatus::Unavail);
    // The tunnel was last active at 1000: it reopens the node up to 1179.
    assert_eq!(device_health_handler(&mut store, "A", &health(true), 1180), Ok(()));
    let a = query_node_by_node_id(&store, "A").unwrap();
    assert_eq!((a.status, a.last_avail_time), (NodeStatus::Unavail, Some(1100)));
    assert_eq!(device_health_handler(&mut store, "A", &health(true), 1179), Ok(()));
    let a = query_node_by_node_id(&store, "A").unwrap();
    assert_eq!((a.status, a.last_avail_time), (NodeStatus::Online, Some(1179)));
    assert_eq!(device_health_handler(&mut store, "off", &health(true), 1001), Ok(()));
    assert_eq!(device_health_handler(&mut store, "off", &health(false), 1001), Ok(()));
    let off = query_node_by_node_id(&store, "off").unwrap();
    assert_eq!((off.status, off.last_avail_time), (NodeStatus::Offline, None));
    assert_eq!(query_node_by_node_id(&store, "B").unwrap().last_avail_time, None);
}

#[test]
fn health_report_errors() {
    let mut store = fleet();
    let mut none = health(true);
    none.health = None;
    assert_eq!(device_health_handler(&mut store, "A", &none, 1), Err(NodeError::MissingHealth));
    assert_eq!(
        device_health_handler(&mut store, "ghost", &health(true), 1),
        Err(NodeError::NodeNotFound)
    );
    assert_eq!(
        device_api_handler(&mut store, "/node-health/", &health(true), 1),
        Err(NodeError::InvalidNodeId)
    );
    assert_eq!(
        device_api_handler(&mut store, "/health/A", &health(true), 1),
        Err(NodeError::InvalidPath)
    );
    assert_eq!(query_node_by_node_id(&store, "A").unwrap().last_avail_time, None);
}

#[test]
fn info_report_writes_three_columns() {
    let mut store = fleet();
    let report = NodeReport {
        health: None,
        node_version: Some("0.9".to_string()),
        chat_model: Some("llama".to_string()),
        embedding_model: Some("nomic".to_string()),
    };
    assert_eq!(device_api_handler(&mut store, "/node-info/A", &report, 1), Ok(()));
    let a = query_node_by_node_id(&store, "A").unwrap();
    assert_eq!(a.node_version, "0.9");
    assert_eq!(a.chat_model, "llama");
    assert_eq!(a.embedding_model, "nomic");
    assert_eq!(a.status, NodeStatus::Online);
    assert_eq!(query_node_by_node_id(&store, "B").unwrap().chat_model, "");
    let mut partial = NodeReport {
        health: None,
        node_version: None,
        chat_model: Some("m".to_string()),
        embedding_model: Some("e".to_string()),
    };
    assert_eq!(device_info_handler(&mut store, "A", &partial), Ok(()));
    assert_eq!(query_node_by_node_id(&store, "A").unwrap().node_version, "");
    assert_eq!(device_info_handler(&mut store, "ghost", &partial), Ok(()));
    partial.embedding_model = None;
    assert_eq!(
        device_info_handler(&mut store, "A", &partial),
        Err(NodeError::MissingEmbeddingModel)
    );
    partial.chat_model = None;
    assert_eq!(device_info_handler(&mut store, "A", &partial), Err(NodeError::MissingChatModel));
    assert_eq!(query_node_by_node_id(&store, "A").unwrap().chat_model, "m");
}

#[test]
fn health_report_through_the_path() {
    let mut store = fleet();
    assert_eq!(device_api_handler(&mut store, "/node-health/B", &health(false), 1010), Ok(()));
    assert_eq!(query_node_by_node_id(&store, "B").unwrap().status, NodeStatus::Unavail);
    assert_eq!(device_api_handler(&mut store, "/node-health/B", &health(true), 1020), Ok(()));
    let b = query_node_by_node_id(&store, "B").unwrap();
    assert_eq!((b.status, b.last_avail_time), (NodeStatus::Online, Some(1020)));
}
