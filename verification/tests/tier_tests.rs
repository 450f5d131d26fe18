use graph_lib::graph::Graph;
use graph_lib::structures::Tier;

fn tier_sizes(r: u32, s: u32, tiers: usize) -> Vec<usize> {
    let mut sizes = Vec::new();
    let mut tier = Tier::from_graph(Graph::new(1));
    sizes.push(tier.count_graphs().0);
    for _ in 1..tiers {
        tier = tier.generate_next_size(r, s);
        sizes.push(tier.count_graphs().0);
    }
    sizes
}

#[test]
fn seed_tier_holds_the_isolated_vertex() {
    let tier = Tier::from_graph(Graph::new(1));
    assert_eq!(tier.count_chunks(), 1);
    assert_eq!(tier.count_graphs(), (1, 0));
    assert_eq!(tier.count_unchecked().0, 0);
}

#[test]
fn second_tier_always_has_two_graphs() {
    // the empty pair and the single edge, under any forbidden sizes
    // of at least three
    assert_eq!(tier_sizes(3, 3, 2), vec![1, 2]);
    assert_eq!(tier_sizes(4, 4, 2), vec![1, 2]);
    assert_eq!(tier_sizes(5, 6, 2), vec![1, 2]);
}

#[test]
fn triangle_free_tier_sizes_reach_the_ramsey_bound() {
    // avoiding monochromatic triangles in both colours: the tier sizes
    // count the colourings up to isomorphism.  The pentagon is the one
    // colouring of five vertices without a monochromatic triangle, and
    // the Ramsey number R(3,3) = 6 makes the sixth tier empty.
    assert_eq!(tier_sizes(3, 3, 6), vec![1, 2, 2, 3, 1, 0]);
}

#[test]
fn four_clique_tiers_keep_growing() {
    let sizes = tier_sizes(4, 4, 6);
    assert_eq!(&sizes[0..2], &[1, 2]);
    for w in sizes.windows(2) {
        assert!(w[1] > w[0]);
    }
}

#[test]
fn inserting_a_checked_graph_routes_by_key() {
    let mut tier = Tier::from_graph(Graph::new(2));
    // a second two-vertex graph with an edge lands in its own chunk
    let g = Graph {
        num_verts: 2,
        edges: {
            let mut e = graph_lib::bitvec::BitVec::new();
            e.push(true);
            e
        },
    };
    tier.insert_checked(g);
    assert_eq!(tier.count_chunks(), 2);
    assert_eq!(tier.count_graphs(), (2, 0));
}
