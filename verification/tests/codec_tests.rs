use graph_lib::bitvec::BitVec;
use graph_lib::codec::GraphParseError;
use graph_lib::graph::Graph;

#[test]
fn graph_bv_serialize() {
    let edges = vec![0b1101_0011; 6];
    let edges = BitVec { len: 45, vec: edges };
    let graph = Graph {
        num_verts: 10,
        edges,
    };
    assert_eq!(graph.to_string(), "09PT09PT");
}

#[test]
fn graph_bv_round_trip() {
    let edges = vec![0b1101_0011; 6];
    let edges = BitVec { len: 45, vec: edges };
    let graph = Graph {
        num_verts: 10,
        edges,
    };
    let ser = graph.to_string();
    let des = Graph::from_str(&ser, 10).unwrap();
    assert_eq!(graph.edges.vec, des.edges.vec);
}

#[test]
fn to_string_append_accumulates() {
    let g = Graph::new(3);
    let mut buf = String::from("x;");
    g.to_string_append(&mut buf);
    assert_eq!(buf, format!("x;{}", g.to_string()));
}

#[test]
fn from_str_rejects_garbage() {
    assert_eq!(Graph::from_str("!!!!", 10).unwrap_err(), GraphParseError::BadBase64);
}

#[test]
fn from_str_rejects_padding() {
    assert_eq!(Graph::from_str("QQ==", 2).unwrap_err(), GraphParseError::BadBase64);
}

#[test]
fn from_str_rejects_wrong_count() {
    // six decoded bytes cannot be a five-vertex graph (two bytes)
    assert_eq!(
        Graph::from_str("09PT09PT", 5).unwrap_err(),
        GraphParseError::BadBase64
    );
}

#[test]
fn round_trip_of_new_graph() {
    let g = Graph::new(7);
    let des = Graph::from_str(&g.to_string(), 7).unwrap();
    assert_eq!(des.num_verts, 7);
    assert_eq!(des.edges.vec, g.edges.vec);
    assert_eq!(des.edges.len, g.edges.len);
}

#[test]
fn round_trip_at_the_store_bound() {
    // the largest vertex count the edge store supports
    let g = Graph::new(64);
    assert_eq!(g.edges.len, 2016);
    let ser = g.to_string();
    let des = Graph::from_str(&ser, 64).unwrap();
    assert_eq!(des.edges.vec, g.edges.vec);
}
