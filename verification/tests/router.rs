use gaia_hub::redism::{
    apply, apply_all, compose_key_name, del_subdomain, get_domain_nodes, get_subdomain_frps_id,
    node_lefts, nodes_join, nodes_upjoin, set_subdomain_frps_id, try_acquire_lease, RouterError,
    RouterOp, RouterStore, WeightedSet, ZsetWrite,
};

fn pairs(v: &[(&str, i64)]) -> Vec<(String, i64)> {
    v.iter().map(|(n, w)| (n.to_string(), *w)).collect()
}

fn abc() -> WeightedSet {
    let mut set = WeightedSet::new();
    set.join("A", 10).unwrap();
    set.join("B", 20).unwrap();
    set.join("C", 30).unwrap();
    set
}

#[test]
fn join_appends_with_cumulative_score() {
    let mut set = WeightedSet::new();
    let writes = set.join("A", 10).unwrap();
    assert_eq!(writes, vec![ZsetWrite::Add("A".to_string(), 10)]);
    let writes = set.join("B", 20).unwrap();
    assert_eq!(writes, vec![ZsetWrite::Add("B".to_string(), 30)]);
    assert_eq!(set.scores(), pairs(&[("A", 10), ("B", 30)]));
    assert_eq!(set.list(), pairs(&[("A", 10), ("B", 20)]));
    assert_eq!(set.len(), 2);
}

#[test]
fn upjoin_preserves_order() {
    let mut set = abc();
    let writes = set.upjoin("B", 50).unwrap();
    assert_eq!(
        writes,
        vec![ZsetWrite::Add("B".to_string(), 60), ZsetWrite::Add("C".to_string(), 90)]
    );
    assert_eq!(set.list(), pairs(&[("A", 10), ("B", 50), ("C", 30)]));
    assert_eq!(set.scores(), pairs(&[("A", 10), ("B", 60), ("C", 90)]));
}

#[test]
fn leave_shifts_followers() {
    let mut set = abc();
    set.upjoin("B", 50).unwrap();
    let writes = set.leave("B", 50).unwrap();
    assert_eq!(
        writes,
        vec![ZsetWrite::Add("C".to_string(), 40), ZsetWrite::Remove("B".to_string())]
    );
    assert_eq!(set.list(), pairs(&[("A", 10), ("C", 30)]));
    assert_eq!(set.scores(), pairs(&[("A", 10), ("C", 40)]));
}

#[test]
fn upjoin_of_first_member_moves_every_score() {
    let mut set = abc();
    set.upjoin("A", 4).unwrap();
    assert_eq!(set.scores(), pairs(&[("A", 4), ("B", 24), ("C", 54)]));
    assert_eq!(set.list(), pairs(&[("A", 4), ("B", 20), ("C", 30)]));
}

#[test]
fn upjoin_with_same_weight_writes_nothing() {
    let mut set = abc();
    let writes = set.upjoin("B", 20).unwrap();
    assert!(writes.is_empty());
    assert_eq!(set.scores(), pairs(&[("A", 10), ("B", 30), ("C", 60)]));
}

#[test]
fn upjoin_of_stranger_joins() {
    let mut set = abc();
    set.upjoin("D", 5).unwrap();
    assert_eq!(set.list(), pairs(&[("A", 10), ("B", 20), ("C", 30), ("D", 5)]));
}

#[test]
fn leave_of_stranger_is_noop() {
    let mut set = abc();
    let writes = set.leave("Z", 7).unwrap();
    assert!(writes.is_empty());
    assert_eq!(set.list(), pairs(&[("A", 10), ("B", 20), ("C", 30)]));
}

#[test]
fn leave_of_last_member_only_removes() {
    let mut set = abc();
    let writes = set.leave("C", 30).unwrap();
    assert_eq!(writes, vec![ZsetWrite::Remove("C".to_string())]);
    assert_eq!(set.scores(), pairs(&[("A", 10), ("B", 30)]));
}

#[test]
fn leave_under_another_weight_lowers_by_that_weight() {
    let mut set = abc();
    let writes = set.leave("B", 21).unwrap();
    assert_eq!(
        writes,
        vec![ZsetWrite::Add("C".to_string(), 39), ZsetWrite::Remove("B".to_string())]
    );
    assert_eq!(set.scores(), pairs(&[("A", 10), ("C", 39)]));
    assert_eq!(set.list(), pairs(&[("A", 10), ("C", 29)]));
    let mut set = abc();
    set.leave("B", 0).unwrap();
    assert_eq!(set.list(), pairs(&[("A", 10), ("C", 50)]));
    let mut set = abc();
    set.leave("B", -5).unwrap();
    assert_eq!(set.scores(), pairs(&[("A", 10), ("C", 65)]));
}

#[test]
fn leave_keeps_the_set_in_score_order() {
    let mut set = abc();
    set.join("D", 40).unwrap();
    // C drops to 5 and so below A; D drops to 45.
    let writes = set.leave("B", 55).unwrap();
    assert_eq!(
        writes,
        vec![
            ZsetWrite::Add("C".to_string(), 5),
            ZsetWrite::Add("D".to_string(), 45),
            ZsetWrite::Remove("B".to_string()),
        ]
    );
    assert_eq!(set.scores(), pairs(&[("C", 5), ("A", 10), ("D", 45)]));
    assert_eq!(set.list(), pairs(&[("C", 5), ("A", 5), ("D", 35)]));
    assert_eq!(set.rank("A"), Some(1));
    // A score that meets one that stands already comes behind it.
    let mut set = abc();
    set.leave("B", 50).unwrap();
    assert_eq!(set.scores(), pairs(&[("A", 10), ("C", 10)]));
    let mut set = abc();
    set.leave("B", 60).unwrap();
    assert_eq!(set.scores(), pairs(&[("C", 0), ("A", 10)]));
}

#[test]
fn leave_is_refused_only_out_of_range() {
    let mut set = abc();
    assert_eq!(set.leave("B", 61), Err(RouterError::ScoreOutOfRange));
    assert_eq!(set.leave("A", 31), Err(RouterError::ScoreOutOfRange));
    assert_eq!(set.leave("A", i64::MIN), Err(RouterError::ScoreOutOfRange));
    assert_eq!(set.leave("B", 60 - i64::MAX - 1), Err(RouterError::ScoreOutOfRange));
    assert_eq!(set.scores(), pairs(&[("A", 10), ("B", 30), ("C", 60)]));
    set.leave("B", 60 - i64::MAX).unwrap();
    assert_eq!(set.scores(), pairs(&[("A", 10), ("C", i64::MAX)]));
    // The last member has nothing behind it: any weight takes it out.
    assert_eq!(set.leave("C", i64::MIN), Ok(vec![ZsetWrite::Remove("C".to_string())]));
    assert_eq!(set.leave("A", i64::MAX), Ok(vec![ZsetWrite::Remove("A".to_string())]));
    assert_eq!(set.len(), 0);
}

#[test]
fn negative_weight_is_refused() {
    let mut set = abc();
    assert_eq!(set.join("D", -1), Err(RouterError::NegativeWeight));
    assert_eq!(set.upjoin("B", -1), Err(RouterError::NegativeWeight));
    assert_eq!(set.list(), pairs(&[("A", 10), ("B", 20), ("C", 30)]));
}

#[test]
fn score_overflow_is_refused() {
    let mut set = abc();
    assert_eq!(set.join("D", i64::MAX - 59), Err(RouterError::ScoreOutOfRange));
    assert_eq!(set.upjoin("A", i64::MAX - 49), Err(RouterError::ScoreOutOfRange));
    assert_eq!(set.scores(), pairs(&[("A", 10), ("B", 30), ("C", 60)]));
    set.join("D", i64::MAX - 60).unwrap();
    assert_eq!(set.scores().last().unwrap().1, i64::MAX);
}

#[test]
fn join_of_member_moves_it_last() {
    let mut set = abc();
    set.join("A", 5).unwrap();
    assert_eq!(set.scores(), pairs(&[("B", 30), ("C", 60), ("A", 65)]));
    assert_eq!(set.list(), pairs(&[("B", 30), ("C", 30), ("A", 5)]));
}

#[test]
fn zero_weight_members_keep_their_order() {
    let mut set = WeightedSet::new();
    set.join("Z", 10).unwrap();
    set.join("A", 0).unwrap();
    set.join("M", 0).unwrap();
    assert_eq!(set.list(), pairs(&[("Z", 10), ("A", 0), ("M", 0)]));
    set.upjoin("A", 3).unwrap();
    assert_eq!(set.list(), pairs(&[("Z", 10), ("A", 3), ("M", 0)]));
    set.leave("A", 3).unwrap();
    assert_eq!(set.list(), pairs(&[("Z", 10), ("M", 0)]));
}

#[test]
fn from_scores_accepts_ascending_unique_entries() {
    let set = WeightedSet::from_scores(pairs(&[("A", 10), ("B", 60), ("C", 90)])).unwrap();
    assert_eq!(set.list(), pairs(&[("A", 10), ("B", 50), ("C", 30)]));
    assert_eq!(set.rank("B"), Some(1));
    assert_eq!(set.rank("Q"), None);
    assert!(WeightedSet::from_scores(Vec::new()).is_some());
}

#[test]
fn from_scores_refuses_broken_entries() {
    assert!(WeightedSet::from_scores(pairs(&[("A", 10), ("B", 5)])).is_none());
    assert!(WeightedSet::from_scores(pairs(&[("A", -1)])).is_none());
    assert!(WeightedSet::from_scores(pairs(&[("A", 10), ("A", 20)])).is_none());
}

#[test]
fn list_round_trips_through_every_operation() {
    let mut set = WeightedSet::new();
    set.join("n1", 3).unwrap();
    set.upjoin("n2", 4).unwrap();
    set.join("n3", 5).unwrap();
    set.upjoin("n1", 30).unwrap();
    set.leave("n2", 4).unwrap();
    set.upjoin("n4", 1).unwrap();
    set.upjoin("n3", 0).unwrap();
    assert_eq!(set.list(), pairs(&[("n1", 30), ("n3", 0), ("n4", 1)]));
    assert_eq!(set.scores(), pairs(&[("n1", 30), ("n3", 30), ("n4", 31)]));
}

#[test]
fn domains_are_kept_apart() {
    let mut router = RouterStore::new();
    nodes_join(&mut router, "d1", "A", 10).unwrap();
    nodes_join(&mut router, "d2", "A", 7).unwrap();
    nodes_upjoin(&mut router, "d1", "B", 20).unwrap();
    nodes_upjoin(&mut router, "d1", "A", 1).unwrap();
    assert_eq!(get_domain_nodes(&router, "d1"), pairs(&[("A", 1), ("B", 20)]));
    assert_eq!(get_domain_nodes(&router, "d2"), pairs(&[("A", 7)]));
    assert_eq!(get_domain_nodes(&router, "d3"), pairs(&[]));
    node_lefts(&mut router, "d1", "A", 1).unwrap();
    assert_eq!(get_domain_nodes(&router, "d1"), pairs(&[("B", 20)]));
    assert_eq!(node_lefts(&mut router, "d3", "A", 1), Ok(()));
    nodes_join(&mut router, "d2", "B", 9).unwrap();
    assert_eq!(node_lefts(&mut router, "d2", "A", 17), Err(RouterError::ScoreOutOfRange));
    assert_eq!(get_domain_nodes(&router, "d2"), pairs(&[("A", 7), ("B", 9)]));
    assert_eq!(node_lefts(&mut router, "d2", "A", 8), Ok(()));
    assert_eq!(get_domain_nodes(&router, "d2"), pairs(&[("B", 8)]));
    assert_eq!(nodes_join(&mut router, "d9", "A", -3), Err(RouterError::NegativeWeight));
    assert_eq!(get_domain_nodes(&router, "d9"), pairs(&[]));
}

#[test]
fn subdomains_are_recorded_and_forgotten() {
    let mut router = RouterStore::new();
    assert_eq!(get_subdomain_frps_id(&router, "n1"), None);
    set_subdomain_frps_id(&mut router, "n1", "frps_0");
    set_subdomain_frps_id(&mut router, "n2", "frps_1");
    set_subdomain_frps_id(&mut router, "n1", "frps_2");
    assert_eq!(get_subdomain_frps_id(&router, "n1"), Some("frps_2".to_string()));
    assert_eq!(get_subdomain_frps_id(&router, "n2"), Some("frps_1".to_string()));
    del_subdomain(&mut router, "n1");
    del_subdomain(&mut router, "n7");
    assert_eq!(get_subdomain_frps_id(&router, "n1"), None);
    assert_eq!(get_subdomain_frps_id(&router, "n2"), Some("frps_1".to_string()));
}

#[test]
fn key_name_carries_the_suffix() {
    assert_eq!(compose_key_name("llama"), "llama_nodes_weights");
    assert_eq!(compose_key_name(""), "_nodes_weights");
}

#[test]
fn lease_is_exclusive_until_it_runs_out() {
    let mut router = RouterStore::new();
    assert!(try_acquire_lease(&mut router, "expiry_nodes_lock", "a", 180, 1000));
    assert!(!try_acquire_lease(&mut router, "expiry_nodes_lock", "b", 180, 1001));
    assert!(!try_acquire_lease(&mut router, "expiry_nodes_lock", "b", 180, 1179));
    assert!(try_acquire_lease(&mut router, "expiry_nodes_lock", "b", 180, 1180));
    assert!(!try_acquire_lease(&mut router, "expiry_nodes_lock", "a", 180, 1350));
    assert!(try_acquire_lease(&mut router, "check_nodes_health_lock", "a", 3600, 1350));
}

#[test]
fn lease_end_saturates() {
    let mut router = RouterStore::new();
    assert!(try_acquire_lease(&mut router, "k", "a", u64::MAX, 5));
    assert!(!try_acquire_lease(&mut router, "k", "b", 1, i64::MAX - 1));
    assert!(try_acquire_lease(&mut router, "k", "b", 1, i64::MAX));
}

#[test]
fn operations_run_in_order_and_refusals_are_passed_over() {
    let mut router = RouterStore::new();
    let ops = vec![
        RouterOp::SetSubdomain("n1".to_string(), "frps_0".to_string()),
        RouterOp::Join("d".to_string(), "A".to_string(), 10),
        RouterOp::Join("d".to_string(), "B".to_string(), -1),
        RouterOp::Upjoin("d".to_string(), "C".to_string(), 5),
        RouterOp::Leave("d".to_string(), "A".to_string(), 16),
        RouterOp::Leave("d".to_string(), "A".to_string(), 11),
        RouterOp::Leave("d".to_string(), "A".to_string(), 10),
        RouterOp::DelSubdomain("n1".to_string()),
    ];
    assert_eq!(apply_all(&mut router, &ops), 2);
    assert_eq!(get_domain_nodes(&router, "d"), pairs(&[("C", 4)]));
    assert_eq!(get_subdomain_frps_id(&router, "n1"), None);
    assert_eq!(
        apply(&mut router, &RouterOp::Join("d".to_string(), "D".to_string(), i64::MAX)),
        Err(RouterError::ScoreOutOfRange)
    );
    assert_eq!(apply(&mut router, &RouterOp::Upjoin("d".to_string(), "C".to_string(), 9)), Ok(()));
    assert_eq!(apply(&mut router, &RouterOp::Leave("d".to_string(), "C".to_string(), 2)), Ok(()));
    assert_eq!(get_domain_nodes(&router, "d"), pairs(&[]));
}
