use graph_lib::bitvec::BitVec;
use graph_lib::graph::Graph;
use graph_lib::sorting::sort_u32;
use graph_lib::structures::{
    compute_complexity, is_color_iso, normalize, GraphLabeling, LabeledGraph,
};

fn complete(n: usize) -> Graph {
    let mut e = BitVec::new();
    for _ in 0..n * (n - 1) / 2 {
        e.push(true);
    }
    Graph {
        num_verts: n,
        edges: e,
    }
}

#[test]
fn normalize_takes_first_matching_rank() {
    let unsorted = vec![5u32, 3, 5];
    let sorted = vec![3u32, 5, 5];
    assert_eq!(normalize(&unsorted, &sorted), vec![1, 0, 1]);
}

#[test]
fn complexity_multiplies_run_factorials() {
    assert_eq!(compute_complexity(&vec![1u32, 1, 2, 2, 2]), 12);
    assert_eq!(compute_complexity(&vec![9u32]), 1);
    assert_eq!(compute_complexity(&vec![4u32, 4, 4, 4]), 24);
}

#[test]
fn complete_graph_signatures_agree() {
    // every vertex of the complete graph on four vertices has degree
    // three and the same polygon profile, so all four raw signatures
    // are equal, the chunk key repeats one value, and the branching
    // bound is twenty-four
    let g = complete(4);
    let mut buf = vec![Vec::new(); 4];
    let labels = g.label(&mut buf);
    assert_eq!(labels.len(), 4);
    assert!(labels.iter().all(|l| *l == labels[0]));

    let mut sorted = labels.clone();
    sort_u32(&mut sorted);
    assert_eq!(compute_complexity(&sorted), 24);

    let norm = normalize(&labels, &sorted);
    let lg1 = LabeledGraph {
        inner: complete(4),
        labels: GraphLabeling(norm.clone()),
    };
    let lg2 = LabeledGraph {
        inner: complete(4),
        labels: GraphLabeling(norm),
    };
    assert!(is_color_iso(&lg1, &lg2));
}

#[test]
fn iso_check_separates_different_graphs() {
    // the path 0-1-2-3 and the star centered at 1 share the degree
    // multiset only partially; label both with the engine and compare
    let mut e = BitVec::new();
    // path edges: (0,1), (1,2), (2,3)
    for b in [true, false, true, false, false, true] {
        e.push(b);
    }
    let path = Graph {
        num_verts: 4,
        edges: e,
    };
    let mut e2 = BitVec::new();
    // triangle plus isolated vertex: (0,1), (0,2), (1,2)
    for b in [true, true, true, false, false, false] {
        e2.push(b);
    }
    let tri_plus = Graph {
        num_verts: 4,
        edges: e2,
    };
    let mut buf = vec![Vec::new(); 4];
    let lp = path.label(&mut buf);
    let lt = tri_plus.label(&mut buf);

    let mut sp = lp.clone();
    sort_u32(&mut sp);
    let mut st = lt.clone();
    sort_u32(&mut st);
    let np = normalize(&lp, &sp);
    let nt = normalize(&lt, &st);
    let lg_path = LabeledGraph {
        inner: path,
        labels: GraphLabeling(np),
    };
    let lg_tri = LabeledGraph {
        inner: tri_plus,
        labels: GraphLabeling(nt),
    };
    assert!(!is_color_iso(&lg_path, &lg_tri));
    assert!(is_color_iso(&lg_path, &lg_path));
}
