use gaia_hub::db::{
    create_device, create_node_status, insert_domain_node, query_device_by_device_id,
    query_node_by_node_id, update_node_status, StateStore, StoreError,
};
use gaia_hub::frps::{
    frps_id_of_path, handler, handler_inner, is_frps_path, process_json_data_and_build_response,
    Content, EventError, FrpsEvent, Handled, Metas, User,
};
use gaia_hub::models::NodeStatus;
use gaia_hub::redism::{apply_all, get_domain_nodes, get_subdomain_frps_id, RouterOp, RouterStore};

fn metas(device_id: Option<&str>) -> Metas {
    Metas {
        device_id: device_id.map(|s| s.to_string()),
        text: match device_id {
            Some(id) => format!("{{\"deviceId\":\"{}\"}}", id),
            None => "null".to_string(),
        },
    }
}

fn blank() -> Content {
    Content {
        os: None,
        arch: None,
        version: None,
        client_address: None,
        subdomain: None,
        proxy_name: None,
        metas: metas(None),
        user: User { run_id: None, metas: metas(None) },
    }
}

fn login_event(device: &str) -> FrpsEvent {
    let mut c = blank();
    c.os = Some("linux".to_string());
    c.arch = Some("x64".to_string());
    c.version = Some("1.0".to_string());
    c.client_address = Some("1.2.3.4".to_string());
    c.metas = metas(Some(device));
    FrpsEvent { op: Some("Login".to_string()), content: c }
}

fn proxy_event(op: &str, device: &str, node: &str, proxy: &str) -> FrpsEvent {
    let mut c = blank();
    c.subdomain = Some(node.to_string());
    c.proxy_name = Some(proxy.to_string());
    c.user = User { run_id: Some("r1".to_string()), metas: metas(Some(device)) };
    FrpsEvent { op: Some(op.to_string()), content: c }
}

fn ping_event(device: &str) -> FrpsEvent {
    let mut c = blank();
    c.user = User { run_id: None, metas: metas(Some(device)) };
    FrpsEvent { op: Some("Ping".to_string()), content: c }
}

fn done(ops: Vec<RouterOp>) -> Handled {
    Handled { ops, result: Ok(()) }
}

fn refused(e: EventError) -> Handled {
    Handled { ops: Vec::new(), result: Err(e) }
}

#[test]
fn node_lifecycle() {
    let mut store = StateStore::new();
    assert_eq!(handler_inner(&mut store, None, &login_event("d1"), 1000), done(vec![]));
    let devices = query_device_by_device_id(&store, "d1");
    assert_eq!(devices.len(), 1);
    assert_eq!(devices[0].os, "linux");
    assert_eq!(devices[0].arch, "x64");
    assert_eq!(devices[0].version, "1.0");
    assert_eq!(devices[0].client_address, "1.2.3.4");
    assert_eq!(devices[0].login_time, 1000);
    assert_eq!(devices[0].meta, "{\"deviceId\":\"d1\"}");
    let r = handler_inner(&mut store, None, &proxy_event("NewProxy", "d1", "n1", "n1"), 1010);
    assert_eq!(r, done(vec![]));
    let node = query_node_by_node_id(&store, "n1").unwrap();
    assert_eq!(node.node_id, "n1");
    assert_eq!(node.subdomain, "n1");
    assert_eq!(node.device_id, "d1");
    assert_eq!(node.status, NodeStatus::Online);
    assert_eq!(node.login_time, 1000);
    assert_eq!(node.last_active_time, 1010);
    assert_eq!(node.run_id, "r1");
    assert_eq!(node.os, "linux");
    assert_eq!(node.client_address, "1.2.3.4");
    let r = handler_inner(&mut store, None, &proxy_event("CloseProxy", "d1", "n1", "n1"), 1020);
    assert_eq!(r, done(vec![]));
    let node = query_node_by_node_id(&store, "n1").unwrap();
    assert_eq!(node.status, NodeStatus::Offline);
    assert_eq!(node.last_active_time, 1020);
}

#[test]
fn login_defaults_and_relogin() {
    let mut store = StateStore::new();
    let mut ev = login_event("d1");
    ev.content.os = None;
    ev.content.arch = None;
    ev.content.version = None;
    handler_inner(&mut store, None, &ev, 5);
    let d = &query_device_by_device_id(&store, "d1")[0];
    assert_eq!(d.os, "default_os");
    assert_eq!(d.arch, "default_arch");
    assert_eq!(d.version, "0.0.0");
    let mut again = login_event("d1");
    again.content.os = Some("mac".to_string());
    assert_eq!(handler_inner(&mut store, None, &again, 9), done(vec![]));
    let devices = query_device_by_device_id(&store, "d1");
    assert_eq!(devices.len(), 1);
    assert_eq!(devices[0].os, "default_os");
    assert_eq!(devices[0].login_time, 9);
}

#[test]
fn invalid_events_change_nothing() {
    let mut store = StateStore::new();
    handler_inner(&mut store, None, &login_event("d1"), 1);
    let mut no_op = login_event("d2");
    no_op.op = None;
    assert_eq!(handler_inner(&mut store, None, &no_op, 2), refused(EventError::MissingOp));
    let mut no_id = login_event("d2");
    no_id.content.metas = metas(None);
    assert_eq!(handler_inner(&mut store, None, &no_id, 2), refused(EventError::MissingDeviceId));
    assert_eq!(
        handler_inner(&mut store, None, &login_event(""), 2),
        refused(EventError::EmptyDeviceId)
    );
    let mut no_addr = login_event("d2");
    no_addr.content.client_address = None;
    assert_eq!(
        handler_inner(&mut store, None, &no_addr, 2),
        refused(EventError::MissingClientAddress)
    );
    assert!(query_device_by_device_id(&store, "d2").is_empty());
    let mut ev = proxy_event("NewProxy", "d1", "n1", "n1");
    ev.content.subdomain = None;
    assert_eq!(
        handler_inner(&mut store, Some("frps_0"), &ev, 2),
        refused(EventError::MissingNodeId)
    );
    let mut ev = proxy_event("NewProxy", "d1", "n1", "n1");
    ev.content.user.run_id = None;
    assert_eq!(handler_inner(&mut store, None, &ev, 2), refused(EventError::MissingRunId));
    let mut ev = proxy_event("NewProxy", "d1", "n1", "n1");
    ev.content.proxy_name = None;
    assert_eq!(handler_inner(&mut store, None, &ev, 2), refused(EventError::MissingSubdomain));
    let mut ev = proxy_event("CloseProxy", "d1", "n1", "n1");
    ev.content.proxy_name = None;
    assert_eq!(
        handler_inner(&mut store, Some("frps_0"), &ev, 2),
        refused(EventError::MissingSubdomain)
    );
    assert_eq!(
        handler_inner(&mut store, None, &proxy_event("Ping", "", "", ""), 2),
        refused(EventError::EmptyDeviceId)
    );
    assert!(query_node_by_node_id(&store, "n1").is_none());
    assert_eq!(
        handler_inner(&mut store, None, &proxy_event("Shrug", "d1", "n1", "n1"), 2),
        done(vec![])
    );
    assert!(query_node_by_node_id(&store, "n1").is_none());
}

#[test]
fn new_proxy_for_unknown_device_records_subdomain_only() {
    let mut store = StateStore::new();
    let r = handler_inner(&mut store, Some("frps_3"), &proxy_event("NewProxy", "d1", "n1", "s1"), 7);
    assert_eq!(
        r,
        Handled {
            ops: vec![RouterOp::SetSubdomain("s1".to_string(), "frps_3".to_string())],
            result: Err(EventError::DeviceNotFound),
        }
    );
    assert!(query_node_by_node_id(&store, "n1").is_none());
}

#[test]
fn new_proxy_revives_offline_node_and_upjoins() {
    let mut store = StateStore::new();
    handler_inner(&mut store, None, &login_event("d1"), 100);
    handler_inner(&mut store, None, &proxy_event("NewProxy", "d1", "n1", "n1"), 110);
    insert_domain_node(&mut store, "llama", "n1", 7).unwrap();
    let r = handler_inner(&mut store, Some("frps_0"), &proxy_event("CloseProxy", "d1", "n1", "n1"), 120);
    assert_eq!(
        r,
        done(vec![
            RouterOp::DelSubdomain("n1".to_string()),
            RouterOp::Leave("llama".to_string(), "n1".to_string(), 7),
        ])
    );
    handler_inner(&mut store, None, &login_event("d1"), 130);
    let r = handler_inner(&mut store, Some("frps_1"), &proxy_event("NewProxy", "d1", "n1", "n1b"), 140);
    assert_eq!(
        r,
        done(vec![
            RouterOp::SetSubdomain("n1b".to_string(), "frps_1".to_string()),
            RouterOp::Upjoin("llama".to_string(), "n1".to_string(), 7),
        ])
    );
    let node = query_node_by_node_id(&store, "n1").unwrap();
    assert_eq!(node.status, NodeStatus::Online);
    assert_eq!(node.subdomain, "n1b");
    assert_eq!(node.login_time, 130);
    assert_eq!(node.last_active_time, 140);
}

#[test]
fn new_proxy_twice_is_idempotent() {
    let mut store = StateStore::new();
    let mut router = RouterStore::new();
    handler_inner(&mut store, None, &login_event("d1"), 100);
    insert_domain_node(&mut store, "llama", "n1", 7).unwrap();
    let ev = proxy_event("NewProxy", "d1", "n1", "n1");
    let first = handler_inner(&mut store, Some("frps_0"), &ev, 110);
    assert_eq!(
        first,
        done(vec![
            RouterOp::SetSubdomain("n1".to_string(), "frps_0".to_string()),
            RouterOp::Upjoin("llama".to_string(), "n1".to_string(), 7),
        ])
    );
    apply_all(&mut router, &first.ops);
    let node_after_first = query_node_by_node_id(&store, "n1").unwrap();
    let second = handler_inner(&mut store, Some("frps_0"), &ev, 150);
    assert_eq!(
        second,
        done(vec![RouterOp::SetSubdomain("n1".to_string(), "frps_0".to_string())])
    );
    apply_all(&mut router, &second.ops);
    assert_eq!(query_node_by_node_id(&store, "n1").unwrap(), node_after_first);
    assert_eq!(gaia_hub::db::query_nodes_by_device_id(&store, "d1").len(), 1);
    assert_eq!(get_domain_nodes(&router, "llama"), vec![("n1".to_string(), 7)]);
    assert_eq!(get_subdomain_frps_id(&router, "n1"), Some("frps_0".to_string()));
}

#[test]
fn new_proxy_leaves_unavail_node_alone() {
    let mut store = StateStore::new();
    handler_inner(&mut store, None, &login_event("d1"), 100);
    handler_inner(&mut store, None, &proxy_event("NewProxy", "d1", "n1", "n1"), 110);
    insert_domain_node(&mut store, "llama", "n1", 7).unwrap();
    update_node_status(&mut store, "n1", NodeStatus::Unavail);
    let r = handler_inner(&mut store, None, &proxy_event("NewProxy", "d1", "n1", "other"), 170);
    assert_eq!(r, done(vec![]));
    let node = query_node_by_node_id(&store, "n1").unwrap();
    assert_eq!(node.status, NodeStatus::Unavail);
    assert_eq!(node.subdomain, "n1");
    assert_eq!(node.last_active_time, 110);
}

#[test]
fn new_proxy_reports_refused_refresh() {
    let mut store = StateStore::new();
    create_device(&mut store, "d1", "linux", "x64", "1.0", "1.2.3.4", "{}", 50).unwrap();
    for n in ["n1", "n2"] {
        create_node_status(
            &mut store, n, "d1", n, "1.0", "x64", "linux", "1.2.3.4", 50, 60, "r",
            NodeStatus::Offline, "{}",
        )
        .unwrap();
    }
    let r = handler_inner(&mut store, Some("frps_0"), &proxy_event("NewProxy", "d1", "n1", "n2"), 70);
    assert_eq!(
        r,
        Handled {
            ops: vec![RouterOp::SetSubdomain("n2".to_string(), "frps_0".to_string())],
            result: Err(EventError::Store(StoreError::UniqueViolation)),
        }
    );
    assert_eq!(query_node_by_node_id(&store, "n1").unwrap().status, NodeStatus::Offline);
}

#[test]
fn new_proxy_with_taken_subdomain_creates_nothing() {
    let mut store = StateStore::new();
    handler_inner(&mut store, None, &login_event("d1"), 100);
    handler_inner(&mut store, None, &proxy_event("NewProxy", "d1", "n1", "s"), 110);
    insert_domain_node(&mut store, "llama", "n2", 3).unwrap();
    let r = handler_inner(&mut store, None, &proxy_event("NewProxy", "d1", "n2", "s"), 120);
    assert_eq!(r, done(vec![RouterOp::Upjoin("llama".to_string(), "n2".to_string(), 3)]));
    assert!(query_node_by_node_id(&store, "n2").is_none());
}

#[test]
fn close_proxy_goes_by_device_and_subdomain() {
    let mut store = StateStore::new();
    handler_inner(&mut store, None, &login_event("d1"), 100);
    handler_inner(&mut store, None, &login_event("d2"), 100);
    handler_inner(&mut store, None, &proxy_event("NewProxy", "d1", "n1", "s1"), 110);
    insert_domain_node(&mut store, "llama", "n1", 7).unwrap();
    let r = handler_inner(&mut store, None, &proxy_event("CloseProxy", "d2", "zz", "s1"), 120);
    assert_eq!(r, done(vec![RouterOp::Leave("llama".to_string(), "n1".to_string(), 7)]));
    assert_eq!(query_node_by_node_id(&store, "n1").unwrap().status, NodeStatus::Online);
    let r = handler_inner(&mut store, None, &proxy_event("CloseProxy", "d1", "zz", "nowhere"), 130);
    assert_eq!(r, done(vec![]));
    let r = handler_inner(&mut store, Some("frps_2"), &proxy_event("CloseProxy", "d1", "zz", "s1"), 140);
    assert_eq!(
        r,
        done(vec![
            RouterOp::DelSubdomain("s1".to_string()),
            RouterOp::Leave("llama".to_string(), "n1".to_string(), 7),
        ])
    );
    let node = query_node_by_node_id(&store, "n1").unwrap();
    assert_eq!(node.status, NodeStatus::Offline);
    assert_eq!(node.last_active_time, 140);
}

#[test]
fn ping_touches_living_nodes_and_never_moves_time_back() {
    let mut store = StateStore::new();
    handler_inner(&mut store, None, &login_event("d1"), 100);
    handler_inner(&mut store, None, &proxy_event("NewProxy", "d1", "n1", "n1"), 110);
    handler_inner(&mut store, None, &proxy_event("NewProxy", "d1", "n2", "n2"), 110);
    handler_inner(&mut store, None, &proxy_event("NewProxy", "d1", "n3", "n3"), 110);
    update_node_status(&mut store, "n2", NodeStatus::Unavail);
    update_node_status(&mut store, "n3", NodeStatus::Offline);
    let mut last = [110i64; 3];
    for now in [120i64, 120, 135, 200] {
        assert_eq!(handler_inner(&mut store, None, &ping_event("d1"), now), done(vec![]));
        for (i, n) in ["n1", "n2", "n3"].iter().enumerate() {
            let t = query_node_by_node_id(&store, n).unwrap().last_active_time;
            assert!(t >= last[i]);
            last[i] = t;
        }
    }
    assert_eq!(last, [200, 200, 110]);
    assert_eq!(handler_inner(&mut store, None, &ping_event("d9"), 300), done(vec![]));
    assert_eq!(query_node_by_node_id(&store, "n1").unwrap().last_active_time, 200);
}

#[test]
fn ping_from_a_lagging_clock_keeps_the_later_time() {
    let mut store = StateStore::new();
    handler_inner(&mut store, None, &login_event("d1"), 100);
    handler_inner(&mut store, None, &proxy_event("NewProxy", "d1", "n1", "n1"), 110);
    handler_inner(&mut store, None, &proxy_event("NewProxy", "d1", "n2", "n2"), 90);
    assert_eq!(handler_inner(&mut store, None, &ping_event("d1"), 105), done(vec![]));
    assert_eq!(query_node_by_node_id(&store, "n1").unwrap().last_active_time, 110);
    assert_eq!(query_node_by_node_id(&store, "n2").unwrap().last_active_time, 105);
    assert_eq!(handler_inner(&mut store, None, &ping_event("d1"), i64::MIN), done(vec![]));
    assert_eq!(query_node_by_node_id(&store, "n1").unwrap().last_active_time, 110);
    assert_eq!(query_node_by_node_id(&store, "n2").unwrap().last_active_time, 105);
    assert_eq!(handler_inner(&mut store, None, &ping_event("d1"), 110), done(vec![]));
    assert_eq!(query_node_by_node_id(&store, "n2").unwrap().last_active_time, 110);
}

#[test]
fn webhook_path_names_the_tunnel_server() {
    assert!(is_frps_path("/inner/frps"));
    assert!(is_frps_path("/inner/frps/frps_0"));
    assert!(is_frps_path("/inner/frps/frps_0123456789"));
    assert!(!is_frps_path("/inner/frps/"));
    assert!(!is_frps_path("/inner/frps/frps_"));
    assert!(!is_frps_path("/inner/frps/frps_1a"));
    assert!(!is_frps_path("/inner/frps/frps_1/"));
    assert!(!is_frps_path("/inner/frps/other_1"));
    assert!(!is_frps_path("/inner/frpsx"));
    assert!(!is_frps_path("inner/frps"));
    assert!(!is_frps_path(""));
    assert_eq!(frps_id_of_path("/inner/frps/frps_12"), Some("frps_12".to_string()));
    assert_eq!(frps_id_of_path("/inner/frps"), None);
    assert_eq!(frps_id_of_path("/inner/frps/frps_x"), None);
}

#[test]
fn handler_takes_the_tunnel_server_from_the_path() {
    let mut store = StateStore::new();
    handler(&mut store, "/inner/frps", &login_event("d1"), 100);
    let r = handler(&mut store, "/inner/frps/frps_1", &proxy_event("NewProxy", "d1", "n1", "s1"), 110);
    assert_eq!(r, done(vec![RouterOp::SetSubdomain("s1".to_string(), "frps_1".to_string())]));
    let r = handler(&mut store, "/inner/frps", &proxy_event("CloseProxy", "d1", "n1", "s1"), 120);
    assert_eq!(r, done(vec![]));
    assert_eq!(query_node_by_node_id(&store, "n1").unwrap().status, NodeStatus::Offline);
}

#[test]
fn reply_admits_without_change() {
    let f = |k: &str, v: &str| (k.to_string(), v.to_string());
    let reply = process_json_data_and_build_response(vec![
        f("op", "\"Ping\""),
        f("content", "{\"user\":{}}"),
    ]);
    assert_eq!(
        reply,
        vec![
            f("op", "\"Ping\""),
            f("content", "{\"user\":{}}"),
            f("reject", "false"),
            f("unchange", "true"),
        ]
    );
    let reply = process_json_data_and_build_response(vec![
        f("unchange", "false"),
        f("op", "\"Login\""),
        f("reject", "true"),
    ]);
    assert_eq!(
        reply,
        vec![f("unchange", "true"), f("op", "\"Login\""), f("reject", "false")]
    );
    assert_eq!(
        process_json_data_and_build_response(Vec::new()),
        vec![f("reject", "false"), f("unchange", "true")]
    );
}
