use gaia_hub::db::{create_device, create_node_status, update_node_info_by_node_id, update_node_status, NodeQuery, StateStore};
use gaia_hub::frps::{
    build_node_query, get_living_nodes, get_living_nodes_for, query_nodes, query_nodes_for,
    QueryError,
};
use gaia_hub::models::NodeStatus;
use gaia_hub::query::get_param;

fn listing_store() -> StateStore {
    let mut store = StateStore::new();
    create_device(&mut store, "d 1", "linux", "x64", "1.0", "1.2.3.4", "{}", 50).unwrap();
    for (n, login, active) in [("n1", 100, 110), ("n,2", 90, 300), ("n3", 80, 85)] {
        create_node_status(
            &mut store, n, "d 1", n, "1.0", "x64", "linux", "1.2.3.4", login, active, "r",
            NodeStatus::Online, "{}",
        )
        .unwrap();
    }
    update_node_info_by_node_id(&mut store, "n,2", "v", "llama&co", "e");
    update_node_status(&mut store, "n3", NodeStatus::Unavail);
    store
}

fn q(p: &[(&str, &str)]) -> Vec<(String, String)> {
    p.iter().map(|(k, v)| (k.to_string(), v.to_string())).collect()
}

fn ids(rows: Vec<gaia_hub::models::NodeLimited>) -> Vec<String> {
    rows.into_iter().map(|n| n.node_id).collect()
}

#[test]
fn last_parameter_of_a_name_counts() {
    let pairs = q(&[("a", "1"), ("b", "2"), ("a", "3")]);
    assert_eq!(get_param(&pairs, "a"), Some("3"));
    assert_eq!(get_param(&pairs, "b"), Some("2"));
    assert_eq!(get_param(&pairs, "c"), None);
    assert_eq!(get_param(&Vec::new(), "a"), None);
}

#[test]
fn node_query_from_parameters() {
    let built = build_node_query(&q(&[
        ("status", "online"),
        ("device_id", ""),
        ("ids", "a,b,"),
        ("lived_secs", "30"),
        ("page", "4"),
        ("country", "x"),
        ("location", "us"),
    ]));
    let expected = NodeQuery {
        status: Some("online".to_string()),
        device_id: None,
        chat_model: None,
        ids: Some(vec!["a".to_string(), "b".to_string(), String::new()]),
        lived_secs: Some(30),
    };
    assert_eq!(built, expected);
    assert_eq!(build_node_query(&Vec::new()), NodeQuery::new());
    let zero = build_node_query(&q(&[("lived_secs", "0")]));
    assert_eq!(zero.lived_secs, None);
    let junk = build_node_query(&q(&[("lived_secs", "soon")]));
    assert_eq!(junk.lived_secs, None);
    let neg = build_node_query(&q(&[("lived_secs", "-5")]));
    assert_eq!(neg.lived_secs, None);
}

#[test]
fn location_selects_nothing() {
    let store = listing_store();
    let all = vec!["n1".to_string(), "n,2".to_string(), "n3".to_string()];
    for location in ["us,ca,sf", ",,", "a,b,c,d", "", "us,ca", "us", ",", "n1"] {
        assert_eq!(build_node_query(&q(&[("location", location)])), NodeQuery::new());
        assert_eq!(ids(query_nodes_for(&store, &q(&[("location", location)]))), all);
        assert_eq!(
            ids(query_nodes_for(&store, &q(&[("location", location), ("status", "unavail")]))),
            vec!["n3".to_string()]
        );
    }
    assert_eq!(ids(query_nodes(&store, "location=us")), all);
    assert_eq!(ids(query_nodes(&store, "location=a%2Cb&status=online")), vec!["n1", "n,2"]);
}

#[test]
fn query_string_is_decoded() {
    let store = listing_store();
    assert_eq!(ids(query_nodes(&store, "")), vec!["n1", "n,2", "n3"]);
    assert_eq!(ids(query_nodes(&store, "status=online")), vec!["n1", "n,2"]);
    assert_eq!(ids(query_nodes(&store, "device_id=d+1&status=unavail")), vec!["n3"]);
    assert_eq!(ids(query_nodes(&store, "device_id=d%201")).len(), 3);
    assert!(ids(query_nodes(&store, "device_id=d1")).is_empty());
    assert_eq!(ids(query_nodes(&store, "chat_model=llama%26co")), vec!["n,2"]);
    assert_eq!(ids(query_nodes(&store, "ids=n3,n1")), vec!["n1", "n3"]);
    assert!(ids(query_nodes(&store, "ids=n%2C2")).is_empty());
    assert_eq!(ids(query_nodes(&store, "lived_secs=10")), vec!["n1", "n,2"]);
    assert_eq!(ids(query_nodes(&store, "lived_secs=11&unknown=1")), vec!["n,2"]);
    assert_eq!(ids(query_nodes(&store, "status=offline&status=unavail")), vec!["n3"]);
    assert_eq!(ids(query_nodes(&store, "&&status=unavail&")), vec!["n3"]);
}

#[test]
fn living_listing_pages() {
    let store = listing_store();
    let names = |r: Result<Vec<gaia_hub::models::LivingNode>, QueryError>| {
        r.map(|v| v.into_iter().map(|n| n.node_id).collect::<Vec<String>>())
    };
    assert_eq!(names(get_living_nodes(&store, "")).unwrap(), vec!["n,2", "n1"]);
    assert_eq!(names(get_living_nodes(&store, "size=1")).unwrap(), vec!["n,2"]);
    assert_eq!(names(get_living_nodes(&store, "size=1&page=1")).unwrap(), vec!["n1"]);
    assert!(names(get_living_nodes(&store, "size=1&page=2")).unwrap().is_empty());
    assert!(names(get_living_nodes(&store, "size=0")).unwrap().is_empty());
    assert_eq!(names(get_living_nodes(&store, "lived_secs=11")).unwrap(), vec!["n,2"]);
    assert_eq!(names(get_living_nodes(&store, "lived_secs=x&page=%2B0")).unwrap().len(), 2);
    assert_eq!(names(get_living_nodes(&store, "page=-1")), Err(QueryError::InvalidPage));
    assert_eq!(names(get_living_nodes(&store, "page=one")), Err(QueryError::InvalidPage));
    assert_eq!(names(get_living_nodes(&store, "size=-1")), Err(QueryError::InvalidSize));
    assert_eq!(names(get_living_nodes(&store, "size=")), Err(QueryError::InvalidSize));
    assert_eq!(
        names(get_living_nodes_for(&store, &q(&[("page", "x"), ("size", "y")]))),
        Err(QueryError::InvalidPage)
    );
}
