use gaia_hub::db::{
    close_expired_nodes, count_device_by_device_id, create_device, create_node_status,
    delete_domain_node, get_distinct_domains, get_nodes_by_domain, insert_domain_node,
    query_device_by_device_id, query_domain_node, query_domain_node_by_node_id,
    query_domain_nodes, query_living_nodes, query_living_nodes_by_login_time,
    query_node_by_node_id, query_node_by_subdomain, query_nodes_by_device_id,
    query_nodes_by_parameters, sweep_expired, unavail_expired_nodes, unavail_node,
    update_device, update_domain_node, update_node_active_status,
    update_node_avail_time_and_status, update_node_info_by_node_id, update_node_status,
    update_node_status_more, update_nodes_info_by_device_id, update_nodes_status_by_device_id,
    update_online_node_last_active_time, NodeQuery, StateStore, StoreError,
};
use gaia_hub::models::{DomainNodes, NodeStatus};

fn store_with_device(id: &str) -> StateStore {
    let mut store = StateStore::new();
    assert_eq!(create_device(&mut store, id, "linux", "x64", "1.0", "1.2.3.4", "{}", 50), Ok(1));
    store
}

fn add_node(store: &mut StateStore, node: &str, device: &str, login: i64, active: i64) {
    assert_eq!(
        create_node_status(
            store, node, device, node, "1.0", "x64", "linux", "1.2.3.4", login, active, "r",
            NodeStatus::Online, "{}"
        ),
        Ok(1)
    );
}

fn status_of(store: &StateStore, node: &str) -> NodeStatus {
    query_node_by_node_id(store, node).unwrap().status
}

#[test]
fn device_is_stored_once() {
    let mut store = store_with_device("d1");
    assert_eq!(
        create_device(&mut store, "d1", "mac", "arm", "2.0", "5.6.7.8", "{}", 60),
        Err(StoreError::UniqueViolation)
    );
    assert_eq!(count_device_by_device_id(&store, "d1"), 1);
    assert_eq!(count_device_by_device_id(&store, "d2"), 0);
    let devices = query_device_by_device_id(&store, "d1");
    assert_eq!(devices.len(), 1);
    assert_eq!(devices[0].os, "linux");
    assert_eq!(devices[0].login_time, 50);
    assert_eq!(devices[0].meta, "{}");
    assert!(query_device_by_device_id(&store, "d2").is_empty());
}

#[test]
fn login_time_is_updated() {
    let mut store = store_with_device("d1");
    assert_eq!(update_device(&mut store, "d1", 99), 1);
    assert_eq!(update_device(&mut store, "d2", 99), 0);
    assert_eq!(query_device_by_device_id(&store, "d1")[0].login_time, 99);
    assert_eq!(query_device_by_device_id(&store, "d1")[0].version, "1.0");
}

#[test]
fn node_needs_free_keys_and_known_device() {
    let mut store = store_with_device("d1");
    add_node(&mut store, "n1", "d1", 50, 60);
    let dup_id = create_node_status(
        &mut store, "n1", "d1", "other", "1", "a", "o", "c", 1, 2, "r", NodeStatus::Online, "{}",
    );
    assert_eq!(dup_id, Err(StoreError::UniqueViolation));
    let dup_sub = create_node_status(
        &mut store, "n2", "d1", "n1", "1", "a", "o", "c", 1, 2, "r", NodeStatus::Online, "{}",
    );
    assert_eq!(dup_sub, Err(StoreError::UniqueViolation));
    let no_device = create_node_status(
        &mut store, "n2", "d9", "n2", "1", "a", "o", "c", 1, 2, "r", NodeStatus::Online, "{}",
    );
    assert_eq!(no_device, Err(StoreError::ForeignKeyViolation));
    assert!(query_node_by_node_id(&store, "n2").is_none());
    let node = query_node_by_node_id(&store, "n1").unwrap();
    assert_eq!(node.device_id, "d1");
    assert_eq!(node.subdomain, "n1");
    assert_eq!(node.login_time, 50);
    assert_eq!(node.last_active_time, 60);
    assert_eq!(node.last_avail_time, None);
    assert_eq!(node.node_version, "");
    assert_eq!(node.status, NodeStatus::Online);
}

#[test]
fn refresh_rewrites_event_columns_only() {
    let mut store = store_with_device("d1");
    create_device(&mut store, "d2", "mac", "arm", "2.0", "9.9.9.9", "{}", 70).unwrap();
    add_node(&mut store, "n1", "d1", 50, 60);
    add_node(&mut store, "n2", "d1", 50, 60);
    update_node_info_by_node_id(&mut store, "n1", "0.5", "llama", "embed");
    update_node_avail_time_and_status(&mut store, "n1", 65, NodeStatus::Offline);
    let r = update_node_status_more(
        &mut store, "n1", "s1", "d2", "2.0", "arm", "mac", "9.9.9.9", 70, 80, "r2",
        NodeStatus::Online, "{\"deviceId\":\"d2\"}",
    );
    assert_eq!(r, Ok(1));
    let node = query_node_by_node_id(&store, "n1").unwrap();
    assert_eq!(node.subdomain, "s1");
    assert_eq!(node.device_id, "d2");
    assert_eq!(node.os, "mac");
    assert_eq!(node.login_time, 70);
    assert_eq!(node.last_active_time, 80);
    assert_eq!(node.run_id, "r2");
    assert_eq!(node.meta, "{\"deviceId\":\"d2\"}");
    assert_eq!(node.status, NodeStatus::Online);
    assert_eq!(node.last_avail_time, Some(65));
    assert_eq!(node.node_version, "0.5");
    assert_eq!(node.chat_model, "llama");
    assert_eq!(node.embedding_model, "embed");
    let taken = update_node_status_more(
        &mut store, "n1", "n2", "d2", "2.0", "arm", "mac", "9", 70, 80, "r", NodeStatus::Online, "{}",
    );
    assert_eq!(taken, Err(StoreError::UniqueViolation));
    let unknown = update_node_status_more(
        &mut store, "n1", "s1", "d7", "2.0", "arm", "mac", "9", 70, 80, "r", NodeStatus::Online, "{}",
    );
    assert_eq!(unknown, Err(StoreError::ForeignKeyViolation));
    let absent = update_node_status_more(
        &mut store, "n7", "n2", "d7", "2.0", "arm", "mac", "9", 70, 80, "r", NodeStatus::Online, "{}",
    );
    assert_eq!(absent, Ok(0));
    assert_eq!(query_node_by_node_id(&store, "n1").unwrap().subdomain, "s1");
}

#[test]
fn activity_touches_living_nodes_of_the_device() {
    let mut store = store_with_device("d1");
    create_device(&mut store, "d2", "mac", "arm", "2.0", "9.9.9.9", "{}", 70).unwrap();
    add_node(&mut store, "on", "d1", 50, 60);
    add_node(&mut store, "un", "d1", 50, 60);
    add_node(&mut store, "off", "d1", 50, 60);
    add_node(&mut store, "other", "d2", 50, 60);
    update_node_status(&mut store, "un", NodeStatus::Unavail);
    update_node_status(&mut store, "off", NodeStatus::Offline);
    assert_eq!(update_online_node_last_active_time(&mut store, "d1", 100), 2);
    assert_eq!(query_node_by_node_id(&store, "on").unwrap().last_active_time, 100);
    assert_eq!(query_node_by_node_id(&store, "un").unwrap().last_active_time, 100);
    assert_eq!(query_node_by_node_id(&store, "off").unwrap().last_active_time, 60);
    assert_eq!(query_node_by_node_id(&store, "other").unwrap().last_active_time, 60);
    assert_eq!(update_online_node_last_active_time(&mut store, "d1", 99), 2);
    assert_eq!(query_node_by_node_id(&store, "on").unwrap().last_active_time, 100);
    assert_eq!(update_online_node_last_active_time(&mut store, "d2", 59), 1);
    assert_eq!(query_node_by_node_id(&store, "other").unwrap().last_active_time, 60);
    assert_eq!(update_online_node_last_active_time(&mut store, "d2", 61), 1);
    assert_eq!(query_node_by_node_id(&store, "other").unwrap().last_active_time, 61);
}

#[test]
fn status_updates_select_by_their_keys() {
    let mut store = store_with_device("d1");
    add_node(&mut store, "n1", "d1", 50, 60);
    add_node(&mut store, "n2", "d1", 50, 60);
    assert_eq!(update_node_active_status(&mut store, "d1", "n1", 77, NodeStatus::Offline), 1);
    assert_eq!(update_node_active_status(&mut store, "d9", "n2", 77, NodeStatus::Offline), 0);
    assert_eq!(status_of(&store, "n1"), NodeStatus::Offline);
    assert_eq!(query_node_by_node_id(&store, "n1").unwrap().last_active_time, 77);
    assert_eq!(status_of(&store, "n2"), NodeStatus::Online);
    assert_eq!(update_node_avail_time_and_status(&mut store, "n2", 88, NodeStatus::Unavail), 1);
    assert_eq!(query_node_by_node_id(&store, "n2").unwrap().last_avail_time, Some(88));
    assert_eq!(status_of(&store, "n2"), NodeStatus::Unavail);
    assert_eq!(update_node_status(&mut store, "n2", NodeStatus::Online), 1);
    assert_eq!(update_node_status(&mut store, "n9", NodeStatus::Online), 0);
    assert_eq!(update_nodes_status_by_device_id(&mut store, "d1", NodeStatus::Unavail), 2);
    assert_eq!(status_of(&store, "n1"), NodeStatus::Unavail);
    assert_eq!(update_nodes_info_by_device_id(&mut store, "d1", "v", "c", "e"), 2);
    assert_eq!(query_node_by_node_id(&store, "n1").unwrap().chat_model, "c");
    assert_eq!(query_node_by_subdomain(&store, "n2").unwrap().embedding_model, "e");
    assert!(query_node_by_subdomain(&store, "zz").is_none());
    assert_eq!(query_nodes_by_device_id(&store, "d1").len(), 2);
    assert!(query_nodes_by_device_id(&store, "d3").is_empty());
}

#[test]
fn unavail_node_touches_online_nodes_only() {
    let mut store = store_with_device("d1");
    add_node(&mut store, "n1", "d1", 50, 60);
    add_node(&mut store, "n2", "d1", 50, 60);
    update_node_status(&mut store, "n2", NodeStatus::Offline);
    assert_eq!(unavail_node(&mut store, "n1"), 1);
    assert_eq!(unavail_node(&mut store, "n2"), 0);
    assert_eq!(unavail_node(&mut store, "n1"), 0);
    assert_eq!(status_of(&store, "n1"), NodeStatus::Unavail);
    assert_eq!(status_of(&store, "n2"), NodeStatus::Offline);
}

#[test]
fn expiry_thresholds_are_strict() {
    let mut store = store_with_device("d1");
    add_node(&mut store, "old", "d1", 50, 439);
    add_node(&mut store, "edge", "d1", 50, 440);
    add_node(&mut store, "never", "d1", 50, 500);
    update_node_avail_time_and_status(&mut store, "old", 439, NodeStatus::Online);
    update_node_avail_time_and_status(&mut store, "edge", 440, NodeStatus::Online);
    assert_eq!(unavail_expired_nodes(&mut store, 440), 1);
    assert_eq!(status_of(&store, "old"), NodeStatus::Unavail);
    assert_eq!(status_of(&store, "edge"), NodeStatus::Online);
    assert_eq!(status_of(&store, "never"), NodeStatus::Online);
    assert_eq!(close_expired_nodes(&mut store, 441), 1);
    assert_eq!(status_of(&store, "edge"), NodeStatus::Offline);
    assert_eq!(status_of(&store, "old"), NodeStatus::Unavail);
    assert_eq!(status_of(&store, "never"), NodeStatus::Online);
}

#[test]
fn sweep_runs_the_avail_phase_first() {
    let mut store = store_with_device("d1");
    add_node(&mut store, "silent", "d1", 50, 100);
    add_node(&mut store, "quiet_tunnel", "d1", 50, 100);
    add_node(&mut store, "no_answer_yet", "d1", 50, 100);
    add_node(&mut store, "fresh", "d1", 50, 450);
    add_node(&mut store, "answers_late", "d1", 50, 450);
    update_node_avail_time_and_status(&mut store, "silent", 100, NodeStatus::Online);
    update_node_avail_time_and_status(&mut store, "quiet_tunnel", 450, NodeStatus::Online);
    update_node_avail_time_and_status(&mut store, "fresh", 450, NodeStatus::Online);
    update_node_avail_time_and_status(&mut store, "answers_late", 100, NodeStatus::Online);
    assert_eq!(sweep_expired(&mut store, 500, 60), (2, 2));
    // Marked unavail by the first phase, so the second no longer finds it online.
    assert_eq!(status_of(&store, "silent"), NodeStatus::Unavail);
    assert_eq!(status_of(&store, "answers_late"), NodeStatus::Unavail);
    assert_eq!(status_of(&store, "quiet_tunnel"), NodeStatus::Offline);
    assert_eq!(status_of(&store, "no_answer_yet"), NodeStatus::Offline);
    assert_eq!(status_of(&store, "fresh"), NodeStatus::Online);
}

#[test]
fn sweep_far_in_the_past_touches_nothing() {
    let mut store = store_with_device("d1");
    add_node(&mut store, "n1", "d1", i64::MIN, i64::MIN);
    update_node_avail_time_and_status(&mut store, "n1", i64::MIN, NodeStatus::Online);
    assert_eq!(sweep_expired(&mut store, i64::MIN + 5, u64::MAX), (0, 0));
    assert_eq!(status_of(&store, "n1"), NodeStatus::Online);
    assert_eq!(sweep_expired(&mut store, i64::MIN + 5, 4), (1, 0));
    assert_eq!(status_of(&store, "n1"), NodeStatus::Unavail);
}

#[test]
fn memberships_are_unique_per_domain_and_node() {
    let mut store = StateStore::new();
    assert_eq!(insert_domain_node(&mut store, "d", "A", 10), Ok(1));
    assert_eq!(insert_domain_node(&mut store, "d", "B", 20), Ok(1));
    assert_eq!(insert_domain_node(&mut store, "e", "A", 30), Ok(1));
    assert_eq!(insert_domain_node(&mut store, "d", "A", 11), Err(StoreError::UniqueViolation));
    assert_eq!(update_domain_node(&mut store, "d", "A", 12), 1);
    assert_eq!(update_domain_node(&mut store, "d", "Z", 12), 0);
    let member = |d: &str, n: &str, w: i64| DomainNodes {
        domain: d.to_string(),
        node_id: n.to_string(),
        weight: w,
    };
    assert_eq!(query_domain_nodes(&store, "d"), vec![member("d", "A", 12), member("d", "B", 20)]);
    assert_eq!(query_domain_node(&store, "e", "A"), Some(member("e", "A", 30)));
    assert_eq!(query_domain_node(&store, "e", "B"), None);
    assert_eq!(query_domain_node_by_node_id(&store, "A"), Some(member("d", "A", 12)));
    assert_eq!(query_domain_node_by_node_id(&store, "Q"), None);
    assert_eq!(get_distinct_domains(&store), vec!["d".to_string(), "e".to_string()]);
    assert_eq!(delete_domain_node(&mut store, "d", "A"), Some(member("d", "A", 12)));
    assert_eq!(delete_domain_node(&mut store, "d", "A"), None);
    assert_eq!(query_domain_nodes(&store, "d"), vec![member("d", "B", 20)]);
    assert_eq!(query_domain_node_by_node_id(&store, "A"), Some(member("e", "A", 30)));
}

#[test]
fn online_members_join_nodes_and_memberships() {
    let mut store = store_with_device("d1");
    add_node(&mut store, "A", "d1", 50, 60);
    add_node(&mut store, "B", "d1", 50, 60);
    add_node(&mut store, "C", "d1", 50, 60);
    update_node_status(&mut store, "B", NodeStatus::Offline);
    update_node_status(&mut store, "C", NodeStatus::Unavail);
    insert_domain_node(&mut store, "d", "C", 5).unwrap();
    insert_domain_node(&mut store, "d", "A", 10).unwrap();
    insert_domain_node(&mut store, "d", "B", 20).unwrap();
    insert_domain_node(&mut store, "d", "ghost", 1).unwrap();
    insert_domain_node(&mut store, "e", "A", 7).unwrap();
    assert_eq!(get_nodes_by_domain(&store, "d"), vec![("A".to_string(), 10)]);
    assert_eq!(get_nodes_by_domain(&store, "e"), vec![("A".to_string(), 7)]);
    assert!(get_nodes_by_domain(&store, "f").is_empty());
}

#[test]
fn listing_filters_combine() {
    let mut store = store_with_device("d1");
    create_device(&mut store, "d2", "mac", "arm", "2.0", "9.9.9.9", "{}", 70).unwrap();
    add_node(&mut store, "n1", "d1", 50, 60);
    add_node(&mut store, "n2", "d1", 50, 150);
    add_node(&mut store, "n3", "d2", 50, 250);
    update_node_info_by_node_id(&mut store, "n2", "v", "llama", "e");
    update_node_info_by_node_id(&mut store, "n3", "v", "llama", "e");
    update_node_status(&mut store, "n3", NodeStatus::Unavail);
    let ids = |q: &NodeQuery| -> Vec<String> {
        query_nodes_by_parameters(&store, q).into_iter().map(|n| n.node_id).collect()
    };
    assert_eq!(ids(&NodeQuery::new()), vec!["n1", "n2", "n3"]);
    let mut q = NodeQuery::new();
    q.status = Some("online".to_string());
    assert_eq!(ids(&q), vec!["n1", "n2"]);
    q.chat_model = Some("llama".to_string());
    assert_eq!(ids(&q), vec!["n2"]);
    let mut q = NodeQuery::new();
    q.status = Some("sleeping".to_string());
    assert!(ids(&q).is_empty());
    let mut q = NodeQuery::new();
    q.device_id = Some("d2".to_string());
    assert_eq!(ids(&q), vec!["n3"]);
    let mut q = NodeQuery::new();
    q.ids = Some(vec!["n3".to_string(), "n1".to_string(), "zz".to_string()]);
    assert_eq!(ids(&q), vec!["n1", "n3"]);
    q.lived_secs = Some(11);
    assert_eq!(ids(&q), vec!["n3"]);
    let mut q = NodeQuery::new();
    q.lived_secs = Some(100);
    assert_eq!(ids(&q), vec!["n2", "n3"]);
    q.lived_secs = Some(101);
    assert_eq!(ids(&q), vec!["n3"]);
    let shown = query_nodes_by_parameters(&store, &q);
    assert_eq!(shown[0].status, NodeStatus::Unavail);
    assert_eq!(shown[0].device_id, "d2");
    assert_eq!(shown[0].client_address, "1.2.3.4");
}

#[test]
fn living_pages_follow_login_time() {
    let mut store = store_with_device("d1");
    add_node(&mut store, "late", "d1", 300, 400);
    add_node(&mut store, "early", "d1", 100, 400);
    add_node(&mut store, "mid_a", "d1", 200, 400);
    add_node(&mut store, "young", "d1", 250, 255);
    add_node(&mut store, "mid_b", "d1", 200, 400);
    add_node(&mut store, "gone", "d1", 150, 400);
    add_node(&mut store, "sick", "d1", 120, 400);
    update_node_status(&mut store, "gone", NodeStatus::Offline);
    update_node_status(&mut store, "sick", NodeStatus::Unavail);
    let ids = |rows: Vec<gaia_hub::models::LivingNode>| -> Vec<String> {
        rows.into_iter().map(|n| n.node_id).collect()
    };
    assert_eq!(
        ids(query_living_nodes_by_login_time(&store, 10, 100, 0)),
        vec!["early", "sick", "mid_a", "mid_b", "late"]
    );
    assert_eq!(
        ids(query_living_nodes_by_login_time(&store, 10, 2, 0)),
        vec!["early", "sick"]
    );
    assert_eq!(
        ids(query_living_nodes_by_login_time(&store, 10, 2, 120)),
        vec!["mid_a", "mid_b"]
    );
    assert_eq!(ids(query_living_nodes_by_login_time(&store, 10, 2, 200)), vec!["late"]);
    assert!(query_living_nodes_by_login_time(&store, 10, 2, 300).is_empty());
    assert!(query_living_nodes_by_login_time(&store, 10, 0, 0).is_empty());
    assert!(query_living_nodes_by_login_time(&store, 10, -1, 0).is_empty());
    assert_eq!(
        ids(query_living_nodes_by_login_time(&store, 5, 100, 200)),
        vec!["young", "late"]
    );
    assert_eq!(ids(query_living_nodes(&store, 10, 0, 3)), vec!["early", "mid_a", "mid_b"]);
    assert_eq!(ids(query_living_nodes(&store, 10, 1, 3)), vec!["late"]);
    assert_eq!(ids(query_living_nodes(&store, 10, 1, 2)), vec!["mid_b", "late"]);
    assert!(query_living_nodes(&store, 10, 2, 3).is_empty());
    assert!(query_living_nodes(&store, 10, -1, 3).is_empty());
    assert!(query_living_nodes(&store, 10, 0, -3).is_empty());
    assert!(query_living_nodes(&store, 10, i64::MAX, i64::MAX).is_empty());
    assert_eq!(query_living_nodes(&store, 0, 0, i64::MAX).len(), 5);
    let first = &query_living_nodes(&store, 10, 0, 1)[0];
    assert_eq!(first.subdomain, "early");
    assert_eq!(first.login_time, 100);
    assert_eq!(first.status, NodeStatus::Online);
}

fn device_row(id: &str) -> gaia_hub::models::Device {
    gaia_hub::models::Device {
        device_id: id.to_string(),
        version: "1.0".to_string(),
        arch: "x64".to_string(),
        os: "linux".to_string(),
        client_address: "1.2.3.4".to_string(),
        login_time: 50,
        meta: "{}".to_string(),
    }
}

fn node_row(id: &str, device: &str, subdomain: &str) -> gaia_hub::models::Node {
    gaia_hub::models::Node {
        node_id: id.to_string(),
        device_id: device.to_string(),
        subdomain: subdomain.to_string(),
        version: "1.0".to_string(),
        arch: "x64".to_string(),
        os: "linux".to_string(),
        client_address: "1.2.3.4".to_string(),
        login_time: 50,
        last_active_time: 60,
        last_avail_time: Some(55),
        run_id: "r".to_string(),
        meta: "{}".to_string(),
        node_version: "0.1".to_string(),
        chat_model: "llama".to_string(),
        embedding_model: "nomic".to_string(),
        status: NodeStatus::Unavail,
    }
}

fn member_row(d: &str, n: &str, w: i64) -> DomainNodes {
    DomainNodes { domain: d.to_string(), node_id: n.to_string(), weight: w }
}

#[test]
fn load_keeps_well_formed_rows() {
    let store = gaia_hub::db::load(
        vec![device_row("d1"), device_row("d2")],
        vec![node_row("n1", "d1", "s1"), node_row("n2", "d2", "s2")],
        vec![member_row("x", "n1", 1), member_row("y", "n1", 2), member_row("x", "ghost", 3)],
    )
    .unwrap();
    assert_eq!(store.devices(), &vec![device_row("d1"), device_row("d2")]);
    assert_eq!(store.nodes().len(), 2);
    assert_eq!(store.nodes()[1], node_row("n2", "d2", "s2"));
    assert_eq!(store.domain_nodes().len(), 3);
    assert_eq!(query_node_by_node_id(&store, "n1"), Some(node_row("n1", "d1", "s1")));
    let empty = gaia_hub::db::load(Vec::new(), Vec::new(), Vec::new()).unwrap();
    assert!(empty.devices().is_empty() && empty.nodes().is_empty());
    assert!(StateStore::new().domain_nodes().is_empty());
}

#[test]
fn load_refuses_broken_rows() {
    let load = gaia_hub::db::load;
    assert!(load(vec![device_row("d1"), device_row("d1")], vec![], vec![]).is_none());
    assert!(load(vec![], vec![node_row("n1", "d1", "s1")], vec![]).is_none());
    assert!(load(
        vec![device_row("d1")],
        vec![node_row("n1", "d1", "s1"), node_row("n1", "d1", "s2")],
        vec![]
    )
    .is_none());
    assert!(load(
        vec![device_row("d1")],
        vec![node_row("n1", "d1", "s1"), node_row("n2", "d1", "s1")],
        vec![]
    )
    .is_none());
    assert!(load(vec![], vec![], vec![member_row("x", "n", 1), member_row("x", "n", 2)]).is_none());
    assert!(load(vec![], vec![], vec![member_row("x", "n", 1), member_row("x", "m", 1)]).is_some());
}
