use recollection::graph::{Direction, Edge, Net, Node, NIL};

#[test]
fn empty_counts() {
    let g = Net::<u8, u8>::new_directed();
    assert_eq!(g.node_count(), 0);
    assert_eq!(g.edge_count(), 0);
    let h = Net::<u8, u8>::new_undirected();
    assert_eq!(h.node_count(), 0);
    assert_eq!(h.edge_count(), 0);
}

#[test]
fn clear_on_empty_store_is_idempotent() {
    let mut g = Net::<u8, u8>::new_directed();
    g.clear();
    assert_eq!(g.node_count(), 0);
    assert_eq!(g.edge_count(), 0);
    g.clear();
    assert_eq!(g.node_count(), 0);
    assert_eq!(g.edge_count(), 0);
}

#[test]
fn self_loop_add_and_remove() {
    let mut g = Net::<&str, &str>::new_directed();
    let n = g.add("only");
    let other = g.add("other");
    let loop_edge = g.add_edge(n, n, "to itself");
    let plain = g.add_edge(n, other, "out");
    assert_eq!(g.edge_count(), 2);
    // the loop sits on both of n's lists but is one edge
    let w = g.remove_edge(loop_edge);
    assert_eq!(w, Some("to itself"));
    assert_eq!(g.edge_count(), 1);
    assert_eq!(g.edge_endpoints(0), Some((n, other)));
    let _ = plain;
}

#[test]
fn removing_node_with_self_loop_counts_it_once() {
    let mut g = Net::<u32, u32>::new_directed();
    let a = g.add(0);
    let b = g.add(1);
    g.add_edge(a, a, 10); // self-loop: out-degree and in-degree of a
    g.add_edge(a, b, 11); // a -> b
    g.add_edge(b, a, 12); // b -> a
    g.add_edge(b, b, 13); // untouched self-loop at b
    assert_eq!(g.edge_count(), 4);
    // d_out = 2, d_in = 2, one self-loop: 2 + 2 - 1 = 3 edges go
    let w = g.remove(a);
    assert_eq!(w, Some(0));
    assert_eq!(g.node_count(), 1);
    assert_eq!(g.edge_count(), 1);
    assert_eq!(g.edge_endpoints(0), Some((0, 0)));
    assert_eq!(g.weight(0), Some(&1));
}

#[test]
fn remove_of_absent_indices_is_none() {
    let mut g = Net::<u8, u8>::new_directed();
    assert_eq!(g.remove(0), None);
    assert_eq!(g.remove_edge(0), None);
    let n = g.add(1);
    assert_eq!(g.remove(n + 1), None);
    assert_eq!(g.remove_edge(5), None);
    assert_eq!(g.node_count(), 1);
}

#[test]
fn undirected_lookup_is_symmetric() {
    let mut g = Net::<u8, &str>::new_undirected();
    let a = g.add(0);
    let b = g.add(1);
    let c = g.add(2);
    g.add_edge(a, b, "ab");
    assert!(g.get_edge(a, b).is_some());
    assert!(g.get_edge(b, a).is_some());
    assert!(g.contains_edge(a, b));
    assert!(g.contains_edge(b, a));
    assert!(g.get_edge(a, c).is_none());
    assert!(g.get_edge(c, a).is_none());
}

#[test]
fn directed_lookup_is_oriented() {
    let mut g = Net::<u8, &str>::new_directed();
    let a = g.add(0);
    let b = g.add(1);
    let e = g.add_edge(a, b, "ab");
    assert_eq!(g.get_edge(a, b), Some(e));
    assert!(g.get_edge(b, a).is_none());
    assert!(g.contains_edge(a, b));
    assert!(!g.contains_edge(b, a));
}

#[test]
fn update_edge_overwrites_or_adds() {
    let mut g = Net::<u8, u32>::new_directed();
    let a = g.add(0);
    let b = g.add(1);
    let e = g.add_edge(a, b, 5);
    let same = g.update_edge(a, b, 50);
    assert_eq!(same, e);
    assert_eq!(g.edge_count(), 1);
    assert_eq!(g.edge_weight(e), Some(&50));
    let fresh = g.update_edge(b, a, 7);
    assert_eq!(fresh, 1);
    assert_eq!(g.edge_count(), 2);
    assert_eq!(g.edge_weight(fresh), Some(&7));
}

#[test]
fn weights_and_endpoints() {
    let mut g = Net::<&str, u16>::new_directed();
    let a = g.add("a");
    let b = g.add("b");
    let e = g.add_edge(a, b, 42);
    assert_eq!(g.weight(a), Some(&"a"));
    assert_eq!(g.weight(9), None);
    assert_eq!(g.edge_weight(e), Some(&42));
    assert_eq!(g.edge_weight(9), None);
    assert_eq!(g.edge_endpoints(e), Some((a, b)));
    assert_eq!(g.edge_endpoints(9), None);
    if let Some(w) = g.weight_mut(a) {
        *w = "z";
    }
    assert_eq!(g.weight(a), Some(&"z"));
    if let Some(w) = g.edge_weight_mut(e) {
        *w = 43;
    }
    assert_eq!(g.edge_weight(e), Some(&43));
    assert!(g.weight_mut(9).is_none());
    assert!(g.edge_weight_mut(9).is_none());
}

#[test]
fn adjacency_is_newest_first() {
    let mut g = Net::<u8, u8>::new_directed();
    let a = g.add(0);
    let b = g.add(1);
    let c = g.add(2);
    let e1 = g.add_edge(a, b, 1);
    let e2 = g.add_edge(a, c, 2);
    // the newest edge heads the outgoing list
    assert_eq!(g.first_edge(a, Direction::Outgoing), Some(e2));
    assert_eq!(g.next_edge(e2, Direction::Outgoing), Some(e1));
    assert_eq!(g.next_edge(e1, Direction::Outgoing), None);
    assert_eq!(g.first_edge(b, Direction::Incoming), Some(e1));
    assert_eq!(g.first_edge(b, Direction::Outgoing), None);
    assert_eq!(g.first_edge(77, Direction::Outgoing), None);
    assert_eq!(g.next_edge(77, Direction::Outgoing), None);
}

#[test]
fn clear_edges_keeps_nodes() {
    let mut g = Net::<u8, u8>::new_directed();
    let a = g.add(0);
    let b = g.add(1);
    g.add_edge(a, b, 1);
    g.add_edge(b, a, 2);
    g.clear_edges();
    assert_eq!(g.edge_count(), 0);
    assert_eq!(g.node_count(), 2);
    assert_eq!(g.first_edge(a, Direction::Outgoing), None);
    assert_eq!(g.first_edge(a, Direction::Incoming), None);
    assert!(g.get_edge(a, b).is_none());
}

#[test]
fn capacity_covers_live_elements() {
    let mut g = Net::<u8, u8>::new_directed();
    for i in 0..9 {
        g.add(i);
    }
    g.add_edge(0, 1, 0);
    let (ncap, ecap) = g.capacity();
    assert!(ncap >= g.node_count());
    assert!(ecap >= g.edge_count());
}

#[test]
fn slices_expose_elements() {
    let mut g = Net::<u8, u8>::new_directed();
    g.add(3);
    g.add(4);
    g.add_edge(0, 1, 9);
    assert_eq!(g.nodes().len(), 2);
    assert_eq!(g.nodes()[0].weight, 3);
    assert_eq!(g.edges().len(), 1);
    assert_eq!(g.edges()[0].weight, 9);
}

#[test]
fn node_and_edge_constructors() {
    let n = Node::new(7u8, NIL, NIL);
    assert_eq!(n.weight, 7);
    let n2 = Node::init(8u8);
    assert_eq!(n2.weight, 8);
    let e = Edge::init("w", 0, 1);
    assert_eq!(e.node(&Direction::Outgoing), 0);
    assert_eq!(e.node(&Direction::Incoming), 1);
    assert_eq!(e.clone().a(), 0);
    assert_eq!(e.b(), 1);
    let e2 = Edge::new("x", 2, 3, NIL, NIL);
    assert_eq!(e2.a(), 2);
}

#[test]
fn detached_walker_starts_exhausted() {
    let mut g = Net::<u8, u8>::new_directed();
    let a = g.add(0);
    let b = g.add(1);
    g.add_edge(a, b, 1);
    let mut walk = g.neighbors(a).detach();
    assert_eq!(walk.next(&g), None);
    assert_eq!(walk.next_node(&g), None);
    assert_eq!(walk.next_edge(&g), None);
    let dir = Direction::iter();
    assert!(matches!(dir, Direction::Outgoing));
}

#[test]
fn swap_compaction_relinks_moved_edge() {
    let mut g = Net::<u8, u32>::new_directed();
    let a = g.add(0);
    let b = g.add(1);
    let c = g.add(2);
    let ab = g.add_edge(a, b, 10);
    let _bc = g.add_edge(b, c, 11);
    let _ca = g.add_edge(c, a, 12);
    // removing the first edge moves the last one into slot 0
    assert_eq!(g.remove_edge(ab), Some(10));
    assert_eq!(g.edge_count(), 2);
    assert_eq!(g.edge_endpoints(0), Some((c, a)));
    assert_eq!(g.edge_weight(0), Some(&12));
    // the relocated edge is still found through the lists
    assert_eq!(g.get_edge(c, a), Some(0));
    assert_eq!(g.get_edge(b, c), Some(1));
    assert!(g.get_edge(a, b).is_none());
}

#[test]
fn node_swap_compaction_renames_endpoints() {
    let mut g = Net::<&str, u8>::new_directed();
    let a = g.add("a");
    let b = g.add("b");
    let c = g.add("c");
    let d = g.add("d");
    g.add_edge(c, d, 1);
    g.add_edge(d, c, 2);
    g.add_edge(b, c, 3);
    // removing node a (no edges) moves node d into index 0
    assert_eq!(g.remove(a), Some("a"));
    assert_eq!(g.node_count(), 3);
    assert_eq!(g.edge_count(), 3);
    assert_eq!(g.weight(0), Some(&"d"));
    // d's edges now name index 0
    assert_eq!(g.get_edge(c, 0), Some(0));
    assert_eq!(g.get_edge(0, c), Some(1));
    assert_eq!(g.get_edge(b, c), Some(2));
}

#[test]
fn links_resolve_after_removals() {
    let mut g = Net::<u32, u32>::new_directed();
    let mut nodes = Vec::new();
    for i in 0..6u32 {
        nodes.push(g.add(i));
    }
    for i in 0..6usize {
        for j in 0..6usize {
            if (i + 2 * j) % 3 == 0 {
                g.add_edge(nodes[i], nodes[j], (i * 10 + j) as u32);
            }
        }
    }
    g.remove_edge(2);
    g.remove(1);
    g.remove(3);
    // every link stored anywhere still resolves to a live edge with
    // the right endpoint
    for n in 0..g.node_count() {
        let mut cur = g.first_edge(n, Direction::Outgoing);
        while let Some(e) = cur {
            assert!(e < g.edge_count());
            assert_eq!(g.edge_endpoints(e).unwrap().0, n);
            cur = g.next_edge(e, Direction::Outgoing);
        }
        let mut cur = g.first_edge(n, Direction::Incoming);
        while let Some(e) = cur {
            assert!(e < g.edge_count());
            assert_eq!(g.edge_endpoints(e).unwrap().1, n);
            cur = g.next_edge(e, Direction::Incoming);
        }
    }
}

#[test]
fn lookup_prefers_newest_parallel_edge() {
    let mut g = Net::<u8, &str>::new_directed();
    let a = g.add(0);
    let b = g.add(1);
    let first = g.add_edge(a, b, "older");
    let second = g.add_edge(a, b, "newer");
    // LIFO adjacency: the lookup walks the list from its head, so the
    // newest parallel edge is found, and update_edge touches that one
    assert_eq!(g.get_edge(a, b), Some(second));
    let ix = g.update_edge(a, b, "updated");
    assert_eq!(ix, second);
    assert_eq!(g.edge_weight(second), Some(&"updated"));
    assert_eq!(g.edge_weight(first), Some(&"older"));
}
