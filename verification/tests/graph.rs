use linkpath::graph::{GraphStore, Node};

#[test]
fn new_store_holds_the_root_alone() {
    let store = GraphStore::new("A");
    assert_eq!(store.len(), 1);
    assert_eq!(store.get(0), &Node { parent: None, link: "A".to_string() });
    assert!(store.contains("A"));
    assert!(!store.contains("B"));
}

#[test]
fn append_hands_out_increasing_indices() {
    let mut store = GraphStore::new("A");
    assert_eq!(store.append("B", 0), Some(1));
    assert_eq!(store.append("C", 0), Some(2));
    assert_eq!(store.append("D", 2), Some(3));
    assert_eq!(store.len(), 4);
    assert_eq!(store.get(3), &Node { parent: Some(2), link: "D".to_string() });
}

#[test]
fn append_refuses_a_stored_identifier() {
    let mut store = GraphStore::new("A");
    assert_eq!(store.append("B", 0), Some(1));
    assert_eq!(store.append("B", 0), None);
    assert_eq!(store.append("A", 1), None);
    assert_eq!(store.len(), 2);
}

#[test]
fn append_refuses_a_parent_that_is_not_stored() {
    let mut store = GraphStore::new("A");
    assert_eq!(store.append("B", 1), None);
    assert_eq!(store.append("B", 7), None);
    assert_eq!(store.len(), 1);
    assert!(!store.contains("B"));
}

#[test]
fn no_two_nodes_share_an_identifier() {
    let mut store = GraphStore::new("A");
    for link in ["B", "C", "B", "A", "D", "C", "E", "E"] {
        let parent = store.len() - 1;
        store.append(link, parent);
    }
    assert_eq!(store.len(), 5);
    for i in 0..store.len() {
        for j in 0..store.len() {
            if i != j {
                assert_ne!(store.get(i).link, store.get(j).link);
            }
        }
    }
}

#[test]
fn depth_counts_the_hops_to_the_root() {
    let mut store = GraphStore::new("A");
    store.append("B", 0);
    store.append("C", 1);
    store.append("D", 2);
    store.append("E", 0);
    assert_eq!(store.depth(0), 0);
    assert_eq!(store.depth(1), 1);
    assert_eq!(store.depth(2), 2);
    assert_eq!(store.depth(3), 3);
    assert_eq!(store.depth(4), 1);
}

#[test]
fn path_to_root_lists_the_chain_root_first() {
    let mut store = GraphStore::new("A");
    store.append("B", 0);
    store.append("C", 1);
    store.append("D", 2);
    store.append("E", 0);
    assert_eq!(store.path_to_root(0), vec!["A".to_string()]);
    assert_eq!(
        store.path_to_root(3),
        vec!["A".to_string(), "B".to_string(), "C".to_string(), "D".to_string()]
    );
    assert_eq!(store.path_to_root(4), vec!["A".to_string(), "E".to_string()]);
}

#[test]
fn path_to_root_follows_the_parents() {
    let mut store = GraphStore::new("A");
    store.append("B", 0);
    store.append("C", 0);
    store.append("D", 2);
    store.append("E", 3);
    let path = store.path_to_root(4);
    assert_eq!(path.len(), store.depth(4) + 1);
    let mut at = 4;
    for link in path.iter().rev() {
        assert_eq!(&store.get(at).link, link);
        at = store.get(at).parent.unwrap_or(0);
    }
    assert_eq!(at, 0);
}
