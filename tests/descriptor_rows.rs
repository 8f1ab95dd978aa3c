use xorf_generator::descriptor::{Descriptor, Edge, Edges, Node, Row};

fn key(n: u8) -> Vec<u8> {
    vec![1, 0, n]
}

fn node_row(k: Vec<u8>, reason: Option<&str>, carryover: Option<u32>) -> Row {
    Row {
        public_key: k,
        target_key: None,
        reason: reason.map(|r| r.to_string()),
        carryover,
    }
}

fn edge_row(a: Vec<u8>, b: Vec<u8>, reason: Option<&str>, carryover: Option<u32>) -> Row {
    Row {
        public_key: a,
        target_key: Some(b),
        reason: reason.map(|r| r.to_string()),
        carryover,
    }
}

fn endpoints(d: &Descriptor) -> Vec<(Vec<u8>, Vec<u8>)> {
    let e = d.edges.as_ref().expect("edges");
    e.edges
        .iter()
        .map(|x| (e.keys[x.source as usize].clone(), e.keys[x.target as usize].clone()))
        .collect()
}

fn node_keys(d: &Descriptor) -> Vec<Vec<u8>> {
    d.nodes.iter().map(|n| n.key.clone()).collect()
}

#[test]
fn three_nodes_and_one_edge() {
    let rows = vec![
        node_row(key(3), None, None),
        node_row(key(1), Some("bad"), Some(4)),
        node_row(key(2), None, None),
        edge_row(key(5), key(4), None, None),
    ];
    let d = Descriptor::from_rows(&rows);
    assert_eq!(node_keys(&d), vec![key(1), key(2), key(3)]);
    assert_eq!(d.nodes[0].reason, "bad");
    assert_eq!(d.nodes[0].carryover, 4);
    assert_eq!(d.nodes[1].carryover, 0);
    assert_eq!(endpoints(&d), vec![(key(4), key(5))]);
    let e = d.edges.as_ref().expect("edges");
    assert_eq!(e.keys, vec![key(4), key(5)]);
    assert!(d.is_well_formed());
}

#[test]
fn node_row_drops_edges_in_either_order() {
    let before = vec![node_row(key(1), None, None), edge_row(key(1), key(2), None, None)];
    let after = vec![edge_row(key(2), key(1), None, None), node_row(key(1), None, None)];
    for rows in [before, after] {
        let d = Descriptor::from_rows(&rows);
        assert_eq!(node_keys(&d), vec![key(1)]);
        assert!(endpoints(&d).is_empty());
        assert!(d.edges.as_ref().expect("edges").keys.is_empty());
    }
}

#[test]
fn first_occurrence_wins() {
    let rows = vec![
        node_row(key(1), Some("first"), Some(1)),
        node_row(key(1), Some("second"), Some(2)),
        edge_row(key(3), key(2), Some("edge first"), Some(5)),
        edge_row(key(2), key(3), Some("edge second"), Some(6)),
    ];
    let d = Descriptor::from_rows(&rows);
    assert_eq!(d.nodes.len(), 1);
    assert_eq!(d.nodes[0].reason, "first");
    assert_eq!(d.nodes[0].carryover, 1);
    let e = d.edges.as_ref().expect("edges");
    assert_eq!(e.edges.len(), 1);
    assert_eq!(e.edges[0].reason, "edge first");
    assert_eq!(e.edges[0].carryover, 5);
    assert_eq!(endpoints(&d), vec![(key(2), key(3))]);
}

#[test]
fn edges_ascend_and_keys_keep_first_appearance() {
    let rows = vec![
        edge_row(key(9), key(8), None, None),
        edge_row(key(1), key(7), None, None),
        edge_row(key(1), key(2), None, None),
    ];
    let d = Descriptor::from_rows(&rows);
    assert_eq!(
        endpoints(&d),
        vec![(key(1), key(2)), (key(1), key(7)), (key(8), key(9))]
    );
    let e = d.edges.as_ref().expect("edges");
    assert_eq!(e.keys, vec![key(8), key(9), key(1), key(7), key(2)]);
}

#[test]
fn permuted_rows_give_the_same_nodes_and_edges() {
    let rows = vec![
        node_row(key(4), None, None),
        edge_row(key(1), key(2), None, None),
        node_row(key(3), None, None),
        edge_row(key(6), key(5), None, None),
    ];
    let mut reversed = rows.iter().map(|r| Row {
        public_key: r.public_key.clone(),
        target_key: r.target_key.clone(),
        reason: r.reason.clone(),
        carryover: r.carryover,
    }).collect::<Vec<_>>();
    reversed.reverse();
    let a = Descriptor::from_rows(&rows);
    let b = Descriptor::from_rows(&reversed);
    assert_eq!(node_keys(&a), node_keys(&b));
    assert_eq!(endpoints(&a), endpoints(&b));
}

#[test]
fn edge_counts_mark_nodes_and_count_endpoints() {
    let d = Descriptor {
        nodes: vec![Node { key: key(1), reason: String::new(), carryover: 0 }],
        edges: Some(Edges {
            keys: vec![key(2), key(3), key(4), key(5)],
            edges: vec![
                Edge { source: 0, target: 1, reason: String::new(), carryover: 0 },
                Edge { source: 0, target: 2, reason: String::new(), carryover: 0 },
            ],
        }),
    };
    let counts = d.edge_counts();
    assert_eq!(counts, vec![(key(1), -1), (key(2), 2), (key(3), 1), (key(4), 1)]);
}

#[test]
fn find_node_and_edges() {
    let rows = vec![
        node_row(key(1), Some("r"), Some(3)),
        edge_row(key(2), key(3), Some("e"), Some(1)),
        edge_row(key(4), key(2), None, None),
    ];
    let d = Descriptor::from_rows(&rows);
    let n = d.find_node(&key(1)).expect("node");
    assert_eq!(n.reason, Some("r".to_string()));
    assert_eq!(n.carryover, 3);
    assert!(d.find_node(&key(2)).is_none());
    let edges = d.find_edges(&key(2));
    assert_eq!(edges.len(), 2);
    assert_eq!(edges[0].source, key(2));
    assert_eq!(edges[0].target, key(3));
    assert_eq!(edges[0].reason, Some("e".to_string()));
    assert_eq!(edges[1].reason, None);
    assert!(d.find_edges(&key(9)).is_empty());
}
