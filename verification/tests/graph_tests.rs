use graph_lib::bitvec::BitVec;
use graph_lib::graph::Graph;
use graph_lib::graph_like::{has_k3, has_k3r, has_k4, has_k4r, has_kns, GraphLike};

fn graph_from_bits(n: usize, bits: &[bool]) -> Graph {
    let mut e = BitVec::new();
    for b in bits {
        e.push(*b);
    }
    Graph {
        num_verts: n,
        edges: e,
    }
}

fn complete(n: usize) -> Graph {
    let bits = vec![true; n * (n - 1) / 2];
    graph_from_bits(n, &bits)
}

#[test]
fn graph_bv_get_next_size() {
    let root = Graph::new(2);
    let next_size = root.get_next_size();
    assert_eq!(next_size.len(), 4);
}

#[test]
fn extensions_preserve_the_parent() {
    let parent = graph_from_bits(3, &[true, false, true]);
    let kids = parent.get_next_size();
    assert_eq!(kids.len(), 8);
    for (k, child) in kids.iter().enumerate() {
        assert_eq!(child.num_verts, 4);
        assert_eq!(child.get_edge(0, 1), true);
        assert_eq!(child.get_edge(0, 2), false);
        assert_eq!(child.get_edge(1, 2), true);
        for j in 0..3 {
            assert_eq!(child.get_edge(j, 3), (k >> j) & 1 == 1);
        }
    }
}

#[test]
fn edge_lookup_is_symmetric() {
    let g = graph_from_bits(4, &[true, false, true, true, false, true]);
    for i in 0..4 {
        for j in 0..4 {
            if i != j {
                assert_eq!(g.get_edge(i, j), g.get_edge(j, i));
            }
        }
    }
}

#[test]
fn triangle_queries() {
    let tri = complete(3);
    assert!(has_k3(&tri, true));
    assert!(!has_k3(&tri, false));
    assert!(has_k3r(&tri, true));

    let empty = Graph::new(3);
    assert!(!has_k3(&empty, true));
    assert!(has_k3(&empty, false));

    let path = graph_from_bits(3, &[true, false, true]);
    assert!(!has_k3(&path, true));
    assert!(!has_k3(&path, false));
}

#[test]
fn four_clique_queries() {
    let k4 = complete(4);
    assert!(has_k4(&k4, true));
    assert!(has_k4r(&k4, true));
    assert!(!has_k4(&k4, false));
    assert!(has_kns(&k4, 4, 4));
    assert!(!has_kns(&complete(3), 4, 4));
    assert!(has_kns(&complete(3), 3, 3));
}

#[test]
fn clique_counts_per_vertex() {
    let k4 = complete(4);
    // every vertex sits on all three triangles through it
    assert_eq!(k4.label_k3s(true), vec![3, 3, 3, 3]);
    assert_eq!(k4.label_k4s(true), vec![1, 1, 1, 1]);
    assert_eq!(k4.label_k5s(true), vec![0, 0, 0, 0]);
    let path = graph_from_bits(3, &[true, false, true]);
    assert_eq!(path.label_k3s(true), vec![0, 0, 0]);
}

#[test]
fn labels_of_one_vertex_graph() {
    let g = Graph::new(1);
    let mut buf = vec![Vec::new(); 1];
    assert_eq!(g.label(&mut buf), vec![0]);
}

#[test]
fn labels_separate_degrees() {
    // the path on three vertices: the middle vertex must be labeled
    // differently from the two ends, and the ends alike
    let path = graph_from_bits(3, &[true, false, true]);
    let mut buf = vec![Vec::new(); 3];
    let l = path.label(&mut buf);
    assert_eq!(l.len(), 3);
    assert_eq!(l[0], l[2]);
    assert_ne!(l[0], l[1]);
}
