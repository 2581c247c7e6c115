use gossip_node::unique_id::GenerateIdNode;

#[test]
fn ids_count_up_from_zero() {
    let mut g = GenerateIdNode::from_init();
    let node = "n1".to_string();
    assert_eq!(g.generate(&node), "n1-0");
    assert_eq!(g.generate(&node), "n1-1");
}

#[test]
fn ids_of_many_counts_are_distinct() {
    let mut g = GenerateIdNode::from_init();
    let node = "n2".to_string();
    let ids: Vec<String> = (0..12).map(|_| g.generate(&node)).collect();
    assert_eq!(ids[10], "n2-10");
    assert_eq!(ids[11], "n2-11");
    let mut unique = ids.clone();
    unique.sort();
    unique.dedup();
    assert_eq!(unique.len(), 12);
}

#[test]
fn node_name_with_hyphen_and_digits_is_kept() {
    let mut g = GenerateIdNode::from_init();
    assert_eq!(g.generate(&"c-7".to_string()), "c-7-0");
}
