use graph_lib::graph_vec::Graph;
use graph_lib::graph_like::GraphLike;

fn graph_from_bits(n: usize, bits: &[bool]) -> Graph {
    Graph {
        num_verts: n,
        edges: bits.to_vec(),
    }
}

#[test]
fn graph_vec_get_next_size() {
    let root = Graph::new(2);
    let next_size = root.get_next_size();
    assert_eq!(next_size.len(), 4);
}

#[test]
fn neighbor_counts() {
    let k4 = graph_from_bits(4, &[true; 6]);
    assert_eq!(k4.label_neighbors(), vec![3, 3, 3, 3]);
    let path = graph_from_bits(3, &[true, false, true]);
    assert_eq!(path.label_neighbors(), vec![1, 2, 1]);
}

#[test]
fn triangle_counts() {
    let k4 = graph_from_bits(4, &[true; 6]);
    assert_eq!(k4.label_k3s(), vec![3, 3, 3, 3]);
}

#[test]
fn packed_label_formula() {
    // the path on three vertices: degree d, weighted degree w and
    // triangle count t pack as 2^31 + (d << 20) + (w << 8) + t
    let path = graph_from_bits(3, &[true, false, true]);
    let l = path.label();
    let end = (1u32 << 31) + (1 << 20) + (2 << 8);
    let mid = (1u32 << 31) + (2 << 20) + (2 << 8);
    assert_eq!(l, vec![end, mid, end]);
}

#[test]
fn vec_edge_lookup_is_symmetric() {
    let g = graph_from_bits(4, &[true, false, true, true, false, true]);
    for i in 0..4 {
        for j in 0..4 {
            if i != j {
                assert_eq!(g.get_edge(i, j), g.get_edge(j, i));
            }
        }
    }
}
