//! The abstract graph capability: a vertex count and a symmetric edge
//! lookup.  Clique detection is derived from that capability by the free
//! functions below, so a bit-packed and a byte-per-edge representation
//! share all higher logic.
//!
//! A "colour" is the implicit two-colouring of vertex pairs: `true` means
//! the edge is present, `false` that it is absent.  Clique predicates only
//! consult `edge` on ordered pairs `i < j`.

use vstd::prelude::*;

verus! {

pub trait GraphLike: Sized {
    /// The number of vertices, mathematically.
    spec fn verts(&self) -> nat;

    /// Whether vertices `i` and `j` are joined; contracts consult it only
    /// with `i < j`.
    spec fn edge(&self, i: int, j: int) -> bool;

    /// Whether the value is a well-formed graph.
    spec fn wf(&self) -> bool;

    /// The number of vertices this graph has.
    fn num_verts(&self) -> (r: usize)
        requires
            self.wf(),
        ensures
            r == self.verts(),
    ;

    /// Whether there is an edge between vertices `n` and `m`.
    fn get_edge(&self, n: usize, m: usize) -> (r: bool)
        requires
            self.wf(),
            n < self.verts(),
            m < self.verts(),
            n != m,
        ensures
            r == (if n < m {
                self.edge(n as int, m as int)
            } else {
                self.edge(m as int, n as int)
            }),
    ;
}

/// Vertices `i < j < k` form a monochromatic triangle of colour `col`.
pub open spec fn is_k3<G: GraphLike>(g: &G, col: bool, i: int, j: int, k: int) -> bool {
    &&& 0 <= i < j < k < g.verts()
    &&& g.edge(i, j) == col
    &&& g.edge(i, k) == col
    &&& g.edge(j, k) == col
}

pub open spec fn has_k3_spec<G: GraphLike>(g: &G, col: bool) -> bool {
    exists|i: int, j: int, k: int| is_k3(g, col, i, j, k)
}

/// A monochromatic triangle through the highest-indexed vertex.
pub open spec fn has_k3r_spec<G: GraphLike>(g: &G, col: bool) -> bool {
    exists|i: int, j: int| #[trigger] is_k3(g, col, i, j, g.verts() - 1)
}

/// Whether the graph holds a monochromatic triangle.
pub fn has_k3<G: GraphLike>(g: &G, col: bool) -> (r: bool)
    requires
        g.wf(),
    ensures
        r == has_k3_spec(g, col),
{
    let nv = g.num_verts();
    if nv < 3 {
        proof {
            assert forall|a: int, b: int, c: int| !#[trigger] is_k3(g, col, a, b, c) by {}
        }
        return false;
    }
    let mut i: usize = 0;
    while i < nv - 2
        invariant
            g.wf(),
            nv == g.verts(),
            3 <= nv,
            i <= nv - 2,
            forall|a: int, b: int, c: int| a < i ==> !#[trigger] is_k3(g, col, a, b, c),
        decreases nv - i,
    {
        let mut j: usize = i + 1;
        while j < nv - 1
            invariant
                g.wf(),
                nv == g.verts(),
                3 <= nv,
                i < j <= nv - 1,
                i <= nv - 2,
                forall|a: int, b: int, c: int| a < i ==> !#[trigger] is_k3(g, col, a, b, c),
                forall|b: int, c: int| b < j ==> !#[trigger] is_k3(g, col, i as int, b, c),
            decreases nv - j,
        {
            if g.get_edge(i, j) == col {
                let mut k: usize = j + 1;
                while k < nv
                    invariant
                        g.wf(),
                        nv == g.verts(),
                        i < j < k <= nv,
                        g.edge(i as int, j as int) == col,
                        forall|c: int| c < k ==> !#[trigger] is_k3(g, col, i as int, j as int, c),
                    decreases nv - k,
                {
                    if g.get_edge(i, k) == col && g.get_edge(j, k) == col {
                        proof {
                            assert(is_k3(g, col, i as int, j as int, k as int));
                        }
                        return true;
                    }
                    k = k + 1;
                }
            }
            proof {
                assert forall|b: int, c: int| b < j + 1 implies !#[trigger] is_k3(
                    g,
                    col,
                    i as int,
                    b,
                    c,
                ) by {}
            }
            j = j + 1;
        }
        proof {
            assert forall|a: int, b: int, c: int| a < i + 1 implies !#[trigger] is_k3(
                g,
                col,
                a,
                b,
                c,
            ) by {
                if a == i && is_k3(g, col, a, b, c) {
                    assert(b < nv - 1);
                }
            }
        }
        i = i + 1;
    }
    proof {
        assert forall|a: int, b: int, c: int| !#[trigger] is_k3(g, col, a, b, c) by {
            if is_k3(g, col, a, b, c) {
                assert(a < nv - 2);
            }
        }
    }
    return false;
}

/// Whether the graph holds a monochromatic triangle through its
/// highest-indexed vertex.
pub fn has_k3r<G: GraphLike>(g: &G, col: bool) -> (r: bool)
    requires
        g.wf(),
    ensures
        r == has_k3r_spec(g, col),
{
    let nv = g.num_verts();
    if nv < 3 {
        proof {
            assert forall|a: int, b: int| !#[trigger] is_k3(g, col, a, b, g.verts() - 1) by {}
        }
        return false;
    }
    let mut i: usize = 0;
    while i <= nv - 3
        invariant
            g.wf(),
            nv == g.verts(),
            3 <= nv,
            i <= nv - 2,
            forall|a: int, b: int| a < i ==> !#[trigger] is_k3(g, col, a, b, nv - 1),
        decreases nv - i,
    {
        let mut j: usize = i + 1;
        while j <= nv - 2
            invariant
                g.wf(),
                nv == g.verts(),
                3 <= nv,
                i < j <= nv - 1,
                i <= nv - 3,
                forall|a: int, b: int| a < i ==> !#[trigger] is_k3(g, col, a, b, nv - 1),
                forall|b: int| b < j ==> !#[trigger] is_k3(g, col, i as int, b, nv - 1),
            decreases nv - j,
        {
            if g.get_edge(i, j) == col && g.get_edge(i, nv - 1) == col && g.get_edge(j, nv - 1)
                == col {
                proof {
                    assert(is_k3(g, col, i as int, j as int, nv - 1));
                }
                return true;
            }
            proof {
                assert forall|b: int| b < j + 1 implies !#[trigger] is_k3(
                    g,
                    col,
                    i as int,
                    b,
                    nv - 1,
                ) by {}
            }
            j = j + 1;
        }
        proof {
            assert forall|a: int, b: int| a < i + 1 implies !#[trigger] is_k3(
                g,
                col,
                a,
                b,
                nv - 1,
            ) by {
                if a == i && is_k3(g, col, a, b, nv - 1) {
                    assert(b <= nv - 2);
                }
            }
        }
        i = i + 1;
    }
    proof {
        assert forall|a: int, b: int| !#[trigger] is_k3(g, col, a, b, nv - 1) by {
            if is_k3(g, col, a, b, nv - 1) {
                assert(a <= nv - 3);
            }
        }
    }
    return false;
}

/// Vertices `a < b < c < d` form a monochromatic complete graph on four vertices.
pub open spec fn is_k4<G: GraphLike>(g: &G, col: bool, a: int, b: int, c: int, d: int) -> bool {
    &&& 0 <= a < b < c < d < g.verts()
    &&& g.edge(a, b) == col
    &&& g.edge(a, c) == col
    &&& g.edge(a, d) == col
    &&& g.edge(b, c) == col
    &&& g.edge(b, d) == col
    &&& g.edge(c, d) == col
}

pub open spec fn has_k4_spec<G: GraphLike>(g: &G, col: bool) -> bool {
    exists|a: int, b: int, c: int, d: int| is_k4(g, col, a, b, c, d)
}

/// A monochromatic complete graph on four vertices through the highest-indexed vertex.
pub open spec fn has_k4r_spec<G: GraphLike>(g: &G, col: bool) -> bool {
    exists|a: int, b: int, c: int| #[trigger] is_k4(g, col, a, b, c, g.verts() - 1)
}

/// Whether the graph holds a monochromatic complete subgraph on
/// four vertices.
pub fn has_k4<G: GraphLike>(g: &G, col: bool) -> (r: bool)
    requires
        g.wf(),
    ensures
        r == has_k4_spec(g, col),
{
    let nv = g.num_verts();
    if nv < 4 {
        proof {
            assert forall|a: int, b: int, c: int, d: int| !#[trigger] is_k4(g, col, a, b, c, d) by {}
        }
        return false;
    }
    let mut i: usize = 0;
    while i < nv - 3
        invariant
            g.wf(),
            nv == g.verts(),
            4 <= nv,
            i <= nv - 3,
            forall|a: int, b: int, c: int, d: int| a < i ==> !#[trigger] is_k4(g, col, a, b, c, d),
        decreases nv - i,
    {
        let mut j: usize = i + 1;
        while j < nv - 2
            invariant
                g.wf(),
                nv == g.verts(),
                4 <= nv,
                i < j <= nv - 2,
                i < nv - 3,
                forall|a: int, b: int, c: int, d: int| a < i ==> !#[trigger] is_k4(g, col, a, b, c, d),
                forall|a: int, b: int, c: int| a < j ==> !#[trigger] is_k4(g, col, i as int, a, b, c),
            decreases nv - j,
        {
            if g.get_edge(i, j) == col {
                let mut k: usize = j + 1;
                while k < nv - 1
                    invariant
                        g.wf(),
                        nv == g.verts(),
                        4 <= nv,
                        i < j < k <= nv - 1,
                        i < nv - 3,
                        j < nv - 2,
                        g.edge(i as int, j as int) == col,
                        forall|a: int, b: int, c: int, d: int| a < i ==> !#[trigger] is_k4(g, col, a, b, c, d),
                        forall|a: int, b: int, c: int| a < j ==> !#[trigger] is_k4(g, col, i as int, a, b, c),
                        forall|a: int, b: int| a < k ==> !#[trigger] is_k4(g, col, i as int, j as int, a, b),
                    decreases nv - k,
                {
                    if g.get_edge(i, k) == col && g.get_edge(j, k) == col {
                        let mut l: usize = k + 1;
                        while l < nv
                            invariant
                                g.wf(),
                                nv == g.verts(),
                                4 <= nv,
                                i < j < k < l <= nv,
                                i < nv - 3,
                                j < nv - 2,
                                k < nv - 1,
                                g.edge(i as int, j as int) == col,
                                g.edge(i as int, k as int) == col,
                                g.edge(j as int, k as int) == col,
                                forall|a: int, b: int, c: int, d: int| a < i ==> !#[trigger] is_k4(g, col, a, b, c, d),
                                forall|a: int, b: int, c: int| a < j ==> !#[trigger] is_k4(g, col, i as int, a, b, c),
                                forall|a: int, b: int| a < k ==> !#[trigger] is_k4(g, col, i as int, j as int, a, b),
                                forall|a: int| a < l ==> !#[trigger] is_k4(g, col, i as int, j as int, k as int, a),
                            decreases nv - l,
                        {
                            if g.get_edge(i, l) == col && g.get_edge(j, l) == col && g.get_edge(k, l) == col {
                                proof {
                                    assert(is_k4(g, col, i as int, j as int, k as int, l as int));
                                }
                                return true;
                            }
                            proof {
                                assert forall|a: int| a < l + 1 implies !#[trigger] is_k4(g, col, i as int, j as int, k as int, a) by {
                                }
                            }
                            l = l + 1;
                        }
                    }
                    proof {
                        assert forall|a: int, b: int| a < k + 1 implies !#[trigger] is_k4(g, col, i as int, j as int, a, b) by {
                            if a == k && is_k4(g, col, i as int, j as int, a, b) {
                                assert(b < nv);
                            }
                        }
                    }
                    k = k + 1;
                }
            }
            proof {
                assert forall|a: int, b: int, c: int| a < j + 1 implies !#[trigger] is_k4(g, col, i as int, a, b, c) by {
                    if a == j && is_k4(g, col, i as int, a, b, c) {
                        assert(b < nv - 1);
                    }
                }
            }
            j = j + 1;
        }
        proof {
            assert forall|a: int, b: int, c: int, d: int| a < i + 1 implies !#[trigger] is_k4(g, col, a, b, c, d) by {
                if a == i && is_k4(g, col, a, b, c, d) {
                    assert(b < nv - 2);
                }
            }
        }
        i = i + 1;
    }
    proof {
        assert forall|a: int, b: int, c: int, d: int| !#[trigger] is_k4(g, col, a, b, c, d) by {
            if is_k4(g, col, a, b, c, d) {
                assert(a < nv - 3);
            }
        }
    }
    return false;
}

/// Whether the graph holds a monochromatic complete subgraph on
/// four vertices through its highest-indexed vertex.
pub fn has_k4r<G: GraphLike>(g: &G, col: bool) -> (r: bool)
    requires
        g.wf(),
    ensures
        r == has_k4r_spec(g, col),
{
    let nv = g.num_verts();
    if nv < 4 {
        proof {
            assert forall|a: int, b: int, c: int| !#[trigger] is_k4(g, col, a, b, c, g.verts() - 1) by {}
        }
        return false;
    }
    let mut i: usize = 0;
    while i <= nv - 4
        invariant
            g.wf(),
            nv == g.verts(),
            4 <= nv,
            i <= nv - 4 + 1,
            forall|a: int, b: int, c: int| a < i ==> !#[trigger] is_k4(g, col, a, b, c, nv - 1),
        decreases nv - i,
    {
        let mut j: usize = i + 1;
        while j <= nv - 3
            invariant
                g.wf(),
                nv == g.verts(),
                4 <= nv,
                i < j <= nv - 3 + 1,
                i <= nv - 4,
                forall|a: int, b: int, c: int| a < i ==> !#[trigger] is_k4(g, col, a, b, c, nv - 1),
                forall|a: int, b: int| a < j ==> !#[trigger] is_k4(g, col, i as int, a, b, nv - 1),
            decreases nv - j,
        {
            if g.get_edge(i, j) == col {
                let mut k: usize = j + 1;
                while k <= nv - 2
                    invariant
                        g.wf(),
                        nv == g.verts(),
                        4 <= nv,
                        i < j < k <= nv - 2 + 1,
                        i <= nv - 4,
                        j <= nv - 3,
                        g.edge(i as int, j as int) == col,
                        forall|a: int, b: int, c: int| a < i ==> !#[trigger] is_k4(g, col, a, b, c, nv - 1),
                        forall|a: int, b: int| a < j ==> !#[trigger] is_k4(g, col, i as int, a, b, nv - 1),
                        forall|a: int| a < k ==> !#[trigger] is_k4(g, col, i as int, j as int, a, nv - 1),
                    decreases nv - k,
                {
                    if g.get_edge(i, k) == col && g.get_edge(j, k) == col && g.get_edge(i, nv - 1) == col && g.get_edge(j, nv - 1) == col && g.get_edge(k, nv - 1) == col {
                        proof {
                            assert(is_k4(g, col, i as int, j as int, k as int, nv - 1));
                        }
                        return true;
                    }
                    proof {
                        assert forall|a: int| a < k + 1 implies !#[trigger] is_k4(g, col, i as int, j as int, a, nv - 1) by {
                        }
                    }
                    k = k + 1;
                }
            }
            proof {
                assert forall|a: int, b: int| a < j + 1 implies !#[trigger] is_k4(g, col, i as int, a, b, nv - 1) by {
                    if a == j && is_k4(g, col, i as int, a, b, nv - 1) {
                        assert(b <= nv - 2);
                    }
                }
            }
            j = j + 1;
        }
        proof {
            assert forall|a: int, b: int, c: int| a < i + 1 implies !#[trigger] is_k4(g, col, a, b, c, nv - 1) by {
                if a == i && is_k4(g, col, a, b, c, nv - 1) {
                    assert(b <= nv - 3);
                }
            }
        }
        i = i + 1;
    }
    proof {
        assert forall|a: int, b: int, c: int| !#[trigger] is_k4(g, col, a, b, c, nv - 1) by {
            if is_k4(g, col, a, b, c, nv - 1) {
                assert(a <= nv - 4);
            }
        }
    }
    return false;
}

/// Vertices `a < b < c < d < e` form a monochromatic complete graph on five vertices.
pub open spec fn is_k5<G: GraphLike>(g: &G, col: bool, a: int, b: int, c: int, d: int, e: int) -> bool {
    &&& 0 <= a < b < c < d < e < g.verts()
    &&& g.edge(a, b) == col
    &&& g.edge(a, c) == col
    &&& g.edge(a, d) == col
    &&& g.edge(a, e) == col
    &&& g.edge(b, c) == col
    &&& g.edge(b, d) == col
    &&& g.edge(b, e) == col
    &&& g.edge(c, d) == col
    &&& g.edge(c, e) == col
    &&& g.edge(d, e) == col
}

pub open spec fn has_k5_spec<G: GraphLike>(g: &G, col: bool) -> bool {
    exists|a: int, b: int, c: int, d: int, e: int| is_k5(g, col, a, b, c, d, e)
}

/// A monochromatic complete graph on five vertices through the highest-indexed vertex.
pub open spec fn has_k5r_spec<G: GraphLike>(g: &G, col: bool) -> bool {
    exists|a: int, b: int, c: int, d: int| #[trigger] is_k5(g, col, a, b, c, d, g.verts() - 1)
}

/// Whether the graph holds a monochromatic complete subgraph on
/// five vertices.
pub fn has_k5<G: GraphLike>(g: &G, col: bool) -> (r: bool)
    requires
        g.wf(),
    ensures
        r == has_k5_spec(g, col),
{
    let nv = g.num_verts();
    if nv < 5 {
        proof {
            assert forall|a: int, b: int, c: int, d: int, e: int| !#[trigger] is_k5(g, col, a, b, c, d, e) by {}
        }
        return false;
    }
    let mut i: usize = 0;
    while i < nv - 4
        invariant
            g.wf(),
            nv == g.verts(),
            5 <= nv,
            i <= nv - 4,
            forall|a: int, b: int, c: int, d: int, e: int| a < i ==> !#[trigger] is_k5(g, col, a, b, c, d, e),
        decreases nv - i,
    {
        let mut j: usize = i + 1;
        while j < nv - 3
            invariant
                g.wf(),
                nv == g.verts(),
                5 <= nv,
                i < j <= nv - 3,
                i < nv - 4,
                forall|a: int, b: int, c: int, d: int, e: int| a < i ==> !#[trigger] is_k5(g, col, a, b, c, d, e),
                forall|a: int, b: int, c: int, d: int| a < j ==> !#[trigger] is_k5(g, col, i as int, a, b, c, d),
            decreases nv - j,
        {
            if g.get_edge(i, j) == col {
                let mut k: usize = j + 1;
                while k < nv - 2
                    invariant
                        g.wf(),
                        nv == g.verts(),
                        5 <= nv,
                        i < j < k <= nv - 2,
                        i < nv - 4,
                        j < nv - 3,
                        g.edge(i as int, j as int) == col,
                        forall|a: int, b: int, c: int, d: int, e: int| a < i ==> !#[trigger] is_k5(g, col, a, b, c, d, e),
                        forall|a: int, b: int, c: int, d: int| a < j ==> !#[trigger] is_k5(g, col, i as int, a, b, c, d),
                        forall|a: int, b: int, c: int| a < k ==> !#[trigger] is_k5(g, col, i as int, j as int, a, b, c),
                    decreases nv - k,
                {
                    if g.get_edge(i, k) == col && g.get_edge(j, k) == col {
                        let mut l: usize = k + 1;
                        while l < nv - 1
                            invariant
                                g.wf(),
                                nv == g.verts(),
                                5 <= nv,
                                i < j < k < l <= nv - 1,
                                i < nv - 4,
                                j < nv - 3,
                                k < nv - 2,
                                g.edge(i as int, j as int) == col,
                                g.edge(i as int, k as int) == col,
                                g.edge(j as int, k as int) == col,
                                forall|a: int, b: int, c: int, d: int, e: int| a < i ==> !#[trigger] is_k5(g, col, a, b, c, d, e),
                                forall|a: int, b: int, c: int, d: int| a < j ==> !#[trigger] is_k5(g, col, i as int, a, b, c, d),
                                forall|a: int, b: int, c: int| a < k ==> !#[trigger] is_k5(g, col, i as int, j as int, a, b, c),
                                forall|a: int, b: int| a < l ==> !#[trigger] is_k5(g, col, i as int, j as int, k as int, a, b),
                            decreases nv - l,
                        {
                            if g.get_edge(i, l) == col && g.get_edge(j, l) == col && g.get_edge(k, l) == col {
                                let mut m: usize = l + 1;
                                while m < nv
                                    invariant
                                        g.wf(),
                                        nv == g.verts(),
                                        5 <= nv,
                                        i < j < k < l < m <= nv,
                                        i < nv - 4,
                                        j < nv - 3,
                                        k < nv - 2,
                                        l < nv - 1,
                                        g.edge(i as int, j as int) == col,
                                        g.edge(i as int, k as int) == col,
                                        g.edge(i as int, l as int) == col,
                                        g.edge(j as int, k as int) == col,
                                        g.edge(j as int, l as int) == col,
                                        g.edge(k as int, l as int) == col,
                                        forall|a: int, b: int, c: int, d: int, e: int| a < i ==> !#[trigger] is_k5(g, col, a, b, c, d, e),
                                        forall|a: int, b: int, c: int, d: int| a < j ==> !#[trigger] is_k5(g, col, i as int, a, b, c, d),
                                        forall|a: int, b: int, c: int| a < k ==> !#[trigger] is_k5(g, col, i as int, j as int, a, b, c),
                                        forall|a: int, b: int| a < l ==> !#[trigger] is_k5(g, col, i as int, j as int, k as int, a, b),
                                        forall|a: int| a < m ==> !#[trigger] is_k5(g, col, i as int, j as int, k as int, l as int, a),
                                    decreases nv - m,
                                {
                                    if g.get_edge(i, m) == col && g.get_edge(j, m) == col && g.get_edge(k, m) == col && g.get_edge(l, m) == col {
                                        proof {
                                            assert(is_k5(g, col, i as int, j as int, k as int, l as int, m as int));
                                        }
                                        return true;
                                    }
                                    proof {
                                        assert forall|a: int| a < m + 1 implies !#[trigger] is_k5(g, col, i as int, j as int, k as int, l as int, a) by {
                                        }
                                    }
                                    m = m + 1;
                                }
                            }
                            proof {
                                assert forall|a: int, b: int| a < l + 1 implies !#[trigger] is_k5(g, col, i as int, j as int, k as int, a, b) by {
                                    if a == l && is_k5(g, col, i as int, j as int, k as int, a, b) {
                                        assert(b < nv);
                                    }
                                }
                            }
                            l = l + 1;
                        }
                    }
                    proof {
                        assert forall|a: int, b: int, c: int| a < k + 1 implies !#[trigger] is_k5(g, col, i as int, j as int, a, b, c) by {
                            if a == k && is_k5(g, col, i as int, j as int, a, b, c) {
                                assert(b < nv - 1);
                            }
                        }
                    }
                    k = k + 1;
                }
            }
            proof {
                assert forall|a: int, b: int, c: int, d: int| a < j + 1 implies !#[trigger] is_k5(g, col, i as int, a, b, c, d) by {
                    if a == j && is_k5(g, col, i as int, a, b, c, d) {
                        assert(b < nv - 2);
                    }
                }
            }
            j = j + 1;
        }
        proof {
            assert forall|a: int, b: int, c: int, d: int, e: int| a < i + 1 implies !#[trigger] is_k5(g, col, a, b, c, d, e) by {
                if a == i && is_k5(g, col, a, b, c, d, e) {
                    assert(b < nv - 3);
                }
            }
        }
        i = i + 1;
    }
    proof {
        assert forall|a: int, b: int, c: int, d: int, e: int| !#[trigger] is_k5(g, col, a, b, c, d, e) by {
            if is_k5(g, col, a, b, c, d, e) {
                assert(a < nv - 4);
            }
        }
    }
    return false;
}

/// Whether the graph holds a monochromatic complete subgraph on
/// five vertices through its highest-indexed vertex.
pub fn has_k5r<G: GraphLike>(g: &G, col: bool) -> (r: bool)
    requires
        g.wf(),
    ensures
        r == has_k5r_spec(g, col),
{
    let nv = g.num_verts();
    if nv < 5 {
        proof {
            assert forall|a: int, b: int, c: int, d: int| !#[trigger] is_k5(g, col, a, b, c, d, g.verts() - 1) by {}
        }
        return false;
    }
    let mut i: usize = 0;
    while i <= nv - 5
        invariant
            g.wf(),
            nv == g.verts(),
            5 <= nv,
            i <= nv - 5 + 1,
            forall|a: int, b: int, c: int, d: int| a < i ==> !#[trigger] is_k5(g, col, a, b, c, d, nv - 1),
        decreases nv - i,
    {
        let mut j: usize = i + 1;
        while j <= nv - 4
            invariant
                g.wf(),
                nv == g.verts(),
                5 <= nv,
                i < j <= nv - 4 + 1,
                i <= nv - 5,
                forall|a: int, b: int, c: int, d: int| a < i ==> !#[trigger] is_k5(g, col, a, b, c, d, nv - 1),
                forall|a: int, b: int, c: int| a < j ==> !#[trigger] is_k5(g, col, i as int, a, b, c, nv - 1),
            decreases nv - j,
        {
            if g.get_edge(i, j) == col {
                let mut k: usize = j + 1;
                while k <= nv - 3
                    invariant
                        g.wf(),
                        nv == g.verts(),
                        5 <= nv,
                        i < j < k <= nv - 3 + 1,
                        i <= nv - 5,
                        j <= nv - 4,
                        g.edge(i as int, j as int) == col,
                        forall|a: int, b: int, c: int, d: int| a < i ==> !#[trigger] is_k5(g, col, a, b, c, d, nv - 1),
                        forall|a: int, b: int, c: int| a < j ==> !#[trigger] is_k5(g, col, i as int, a, b, c, nv - 1),
                        forall|a: int, b: int| a < k ==> !#[trigger] is_k5(g, col, i as int, j as int, a, b, nv - 1),
                    decreases nv - k,
                {
                    if g.get_edge(i, k) == col && g.get_edge(j, k) == col {
                        let mut l: usize = k + 1;
                        while l <= nv - 2
                            invariant
                                g.wf(),
                                nv == g.verts(),
                                5 <= nv,
                                i < j < k < l <= nv - 2 + 1,
                                i <= nv - 5,
                                j <= nv - 4,
                                k <= nv - 3,
                                g.edge(i as int, j as int) == col,
                                g.edge(i as int, k as int) == col,
                                g.edge(j as int, k as int) == col,
                                forall|a: int, b: int, c: int, d: int| a < i ==> !#[trigger] is_k5(g, col, a, b, c, d, nv - 1),
                                forall|a: int, b: int, c: int| a < j ==> !#[trigger] is_k5(g, col, i as int, a, b, c, nv - 1),
                                forall|a: int, b: int| a < k ==> !#[trigger] is_k5(g, col, i as int, j as int, a, b, nv - 1),
                                forall|a: int| a < l ==> !#[trigger] is_k5(g, col, i as int, j as int, k as int, a, nv - 1),
                            decreases nv - l,
                        {
                            if g.get_edge(i, l) == col && g.get_edge(j, l) == col && g.get_edge(k, l) == col && g.get_edge(i, nv - 1) == col && g.get_edge(j, nv - 1) == col && g.get_edge(k, nv - 1) == col && g.get_edge(l, nv - 1) == col {
                                proof {
                                    assert(is_k5(g, col, i as int, j as int, k as int, l as int, nv - 1));
                                }
                                return true;
                            }
                            proof {
                                assert forall|a: int| a < l + 1 implies !#[trigger] is_k5(g, col, i as int, j as int, k as int, a, nv - 1) by {
                                }
                            }
                            l = l + 1;
                        }
                    }
                    proof {
                        assert forall|a: int, b: int| a < k + 1 implies !#[trigger] is_k5(g, col, i as int, j as int, a, b, nv - 1) by {
                            if a == k && is_k5(g, col, i as int, j as int, a, b, nv - 1) {
                                assert(b <= nv - 2);
                            }
                        }
                    }
                    k = k + 1;
                }
            }
            proof {
                assert forall|a: int, b: int, c: int| a < j + 1 implies !#[trigger] is_k5(g, col, i as int, a, b, c, nv - 1) by {
                    if a == j && is_k5(g, col, i as int, a, b, c, nv - 1) {
                        assert(b <= nv - 3);
                    }
                }
            }
            j = j + 1;
        }
        proof {
            assert forall|a: int, b: int, c: int, d: int| a < i + 1 implies !#[trigger] is_k5(g, col, a, b, c, d, nv - 1) by {
                if a == i && is_k5(g, col, a, b, c, d, nv - 1) {
                    assert(b <= nv - 4);
                }
            }
        }
        i = i + 1;
    }
    proof {
        assert forall|a: int, b: int, c: int, d: int| !#[trigger] is_k5(g, col, a, b, c, d, nv - 1) by {
            if is_k5(g, col, a, b, c, d, nv - 1) {
                assert(a <= nv - 5);
            }
        }
    }
    return false;
}

/// Vertices `a < b < c < d < e < f` form a monochromatic complete graph on six vertices.
pub open spec fn is_k6<G: GraphLike>(g: &G, col: bool, a: int, b: int, c: int, d: int, e: int, f: int) -> bool {
    &&& 0 <= a < b < c < d < e < f < g.verts()
    &&& g.edge(a, b) == col
    &&& g.edge(a, c) == col
    &&& g.edge(a, d) == col
    &&& g.edge(a, e) == col
    &&& g.edge(a, f) == col
    &&& g.edge(b, c) == col
    &&& g.edge(b, d) == col
    &&& g.edge(b, e) == col
    &&& g.edge(b, f) == col
    &&& g.edge(c, d) == col
    &&& g.edge(c, e) == col
    &&& g.edge(c, f) == col
    &&& g.edge(d, e) == col
    &&& g.edge(d, f) == col
    &&& g.edge(e, f) == col
}

pub open spec fn has_k6_spec<G: GraphLike>(g: &G, col: bool) -> bool {
    exists|a: int, b: int, c: int, d: int, e: int, f: int| is_k6(g, col, a, b, c, d, e, f)
}

/// A monochromatic complete graph on six vertices through the highest-indexed vertex.
pub open spec fn has_k6r_spec<G: GraphLike>(g: &G, col: bool) -> bool {
    exists|a: int, b: int, c: int, d: int, e: int| #[trigger] is_k6(g, col, a, b, c, d, e, g.verts() - 1)
}

/// Whether the graph holds a monochromatic complete subgraph on
/// six vertices.
pub fn has_k6<G: GraphLike>(g: &G, col: bool) -> (r: bool)
    requires
        g.wf(),
    ensures
        r == has_k6_spec(g, col),
{
    let nv = g.num_verts();
    if nv < 6 {
        proof {
            assert forall|a: int, b: int, c: int, d: int, e: int, f: int| !#[trigger] is_k6(g, col, a, b, c, d, e, f) by {}
        }
        return false;
    }
    let mut i: usize = 0;
    while i < nv - 5
        invariant
            g.wf(),
            nv == g.verts(),
            6 <= nv,
            i <= nv - 5,
            forall|a: int, b: int, c: int, d: int, e: int, f: int| a < i ==> !#[trigger] is_k6(g, col, a, b, c, d, e, f),
        decreases nv - i,
    {
        let mut j: usize = i + 1;
        while j < nv - 4
            invariant
                g.wf(),
                nv == g.verts(),
                6 <= nv,
                i < j <= nv - 4,
                i < nv - 5,
                forall|a: int, b: int, c: int, d: int, e: int, f: int| a < i ==> !#[trigger] is_k6(g, col, a, b, c, d, e, f),
                forall|a: int, b: int, c: int, d: int, e: int| a < j ==> !#[trigger] is_k6(g, col, i as int, a, b, c, d, e),
            decreases nv - j,
        {
            if g.get_edge(i, j) == col {
                let mut k: usize = j + 1;
                while k < nv - 3
                    invariant
                        g.wf(),
                        nv == g.verts(),
                        6 <= nv,
                        i < j < k <= nv - 3,
                        i < nv - 5,
                        j < nv - 4,
                        g.edge(i as int, j as int) == col,
                        forall|a: int, b: int, c: int, d: int, e: int, f: int| a < i ==> !#[trigger] is_k6(g, col, a, b, c, d, e, f),
                        forall|a: int, b: int, c: int, d: int, e: int| a < j ==> !#[trigger] is_k6(g, col, i as int, a, b, c, d, e),
                        forall|a: int, b: int, c: int, d: int| a < k ==> !#[trigger] is_k6(g, col, i as int, j as int, a, b, c, d),
                    decreases nv - k,
                {
                    if g.get_edge(i, k) == col && g.get_edge(j, k) == col {
                        let mut l: usize = k + 1;
                        while l < nv - 2
                            invariant
                                g.wf(),
                                nv == g.verts(),
                                6 <= nv,
                                i < j < k < l <= nv - 2,
                                i < nv - 5,
                                j < nv - 4,
                                k < nv - 3,
                                g.edge(i as int, j as int) == col,
                                g.edge(i as int, k as int) == col,
                                g.edge(j as int, k as int) == col,
                                forall|a: int, b: int, c: int, d: int, e: int, f: int| a < i ==> !#[trigger] is_k6(g, col, a, b, c, d, e, f),
                                forall|a: int, b: int, c: int, d: int, e: int| a < j ==> !#[trigger] is_k6(g, col, i as int, a, b, c, d, e),
                                forall|a: int, b: int, c: int, d: int| a < k ==> !#[trigger] is_k6(g, col, i as int, j as int, a, b, c, d),
                                forall|a: int, b: int, c: int| a < l ==> !#[trigger] is_k6(g, col, i as int, j as int, k as int, a, b, c),
                            decreases nv - l,
                        {
                            if g.get_edge(i, l) == col && g.get_edge(j, l) == col && g.get_edge(k, l) == col {
                                let mut m: usize = l + 1;
                                while m < nv - 1
                                    invariant
                                        g.wf(),
                                        nv == g.verts(),
                                        6 <= nv,
                                        i < j < k < l < m <= nv - 1,
                                        i < nv - 5,
                                        j < nv - 4,
                                        k < nv - 3,
                                        l < nv - 2,
                                        g.edge(i as int, j as int) == col,
                                        g.edge(i as int, k as int) == col,
                                        g.edge(i as int, l as int) == col,
                                        g.edge(j as int, k as int) == col,
                                        g.edge(j as int, l as int) == col,
                                        g.edge(k as int, l as int) == col,
                                        forall|a: int, b: int, c: int, d: int, e: int, f: int| a < i ==> !#[trigger] is_k6(g, col, a, b, c, d, e, f),
                                        forall|a: int, b: int, c: int, d: int, e: int| a < j ==> !#[trigger] is_k6(g, col, i as int, a, b, c, d, e),
                                        forall|a: int, b: int, c: int, d: int| a < k ==> !#[trigger] is_k6(g, col, i as int, j as int, a, b, c, d),
                                        forall|a: int, b: int, c: int| a < l ==> !#[trigger] is_k6(g, col, i as int, j as int, k as int, a, b, c),
                                        forall|a: int, b: int| a < m ==> !#[trigger] is_k6(g, col, i as int, j as int, k as int, l as int, a, b),
                                    decreases nv - m,
                                {
                                    if g.get_edge(i, m) == col && g.get_edge(j, m) == col && g.get_edge(k, m) == col && g.get_edge(l, m) == col {
                                        let mut n: usize = m + 1;
                                        while n < nv
                                            invariant
                                                g.wf(),
                                                nv == g.verts(),
                                                6 <= nv,
                                                i < j < k < l < m < n <= nv,
                                                i < nv - 5,
                                                j < nv - 4,
                                                k < nv - 3,
                                                l < nv - 2,
                                                m < nv - 1,
                                                g.edge(i as int, j as int) == col,
                                                g.edge(i as int, k as int) == col,
                                                g.edge(i as int, l as int) == col,
                                                g.edge(i as int, m as int) == col,
                                                g.edge(j as int, k as int) == col,
                                                g.edge(j as int, l as int) == col,
                                                g.edge(j as int, m as int) == col,
                                                g.edge(k as int, l as int) == col,
                                                g.edge(k as int, m as int) == col,
                                                g.edge(l as int, m as int) == col,
                                                forall|a: int, b: int, c: int, d: int, e: int, f: int| a < i ==> !#[trigger] is_k6(g, col, a, b, c, d, e, f),
                                                forall|a: int, b: int, c: int, d: int, e: int| a < j ==> !#[trigger] is_k6(g, col, i as int, a, b, c, d, e),
                                                forall|a: int, b: int, c: int, d: int| a < k ==> !#[trigger] is_k6(g, col, i as int, j as int, a, b, c, d),
                                                forall|a: int, b: int, c: int| a < l ==> !#[trigger] is_k6(g, col, i as int, j as int, k as int, a, b, c),
                                                forall|a: int, b: int| a < m ==> !#[trigger] is_k6(g, col, i as int, j as int, k as int, l as int, a, b),
                                                forall|a: int| a < n ==> !#[trigger] is_k6(g, col, i as int, j as int, k as int, l as int, m as int, a),
                                            decreases nv - n,
                                        {
                                            if g.get_edge(i, n) == col && g.get_edge(j, n) == col && g.get_edge(k, n) == col && g.get_edge(l, n) == col && g.get_edge(m, n) == col {
                                                proof {
                                                    assert(is_k6(g, col, i as int, j as int, k as int, l as int, m as int, n as int));
                                                }
                                                return true;
                                            }
                                            proof {
                                                assert forall|a: int| a < n + 1 implies !#[trigger] is_k6(g, col, i as int, j as int, k as int, l as int, m as int, a) by {
                                                }
                                            }
                                            n = n + 1;
                                        }
                                    }
                                    proof {
                                        assert forall|a: int, b: int| a < m + 1 implies !#[trigger] is_k6(g, col, i as int, j as int, k as int, l as int, a, b) by {
                                            if a == m && is_k6(g, col, i as int, j as int, k as int, l as int, a, b) {
                                                assert(b < nv);
                                            }
                                        }
                                    }
                                    m = m + 1;
                                }
                            }
                            proof {
                                assert forall|a: int, b: int, c: int| a < l + 1 implies !#[trigger] is_k6(g, col, i as int, j as int, k as int, a, b, c) by {
                                    if a == l && is_k6(g, col, i as int, j as int, k as int, a, b, c) {
                                        assert(b < nv - 1);
                                    }
                                }
                            }
                            l = l + 1;
                        }
                    }
                    proof {
                        assert forall|a: int, b: int, c: int, d: int| a < k + 1 implies !#[trigger] is_k6(g, col, i as int, j as int, a, b, c, d) by {
                            if a == k && is_k6(g, col, i as int, j as int, a, b, c, d) {
                                assert(b < nv - 2);
                            }
                        }
                    }
                    k = k + 1;
                }
            }
            proof {
                assert forall|a: int, b: int, c: int, d: int, e: int| a < j + 1 implies !#[trigger] is_k6(g, col, i as int, a, b, c, d, e) by {
                    if a == j && is_k6(g, col, i as int, a, b, c, d, e) {
                        assert(b < nv - 3);
                    }
                }
            }
            j = j + 1;
        }
        proof {
            assert forall|a: int, b: int, c: int, d: int, e: int, f: int| a < i + 1 implies !#[trigger] is_k6(g, col, a, b, c, d, e, f) by {
                if a == i && is_k6(g, col, a, b, c, d, e, f) {
                    assert(b < nv - 4);
                }
            }
        }
        i = i + 1;
    }
    proof {
        assert forall|a: int, b: int, c: int, d: int, e: int, f: int| !#[trigger] is_k6(g, col, a, b, c, d, e, f) by {
            if is_k6(g, col, a, b, c, d, e, f) {
                assert(a < nv - 5);
            }
        }
    }
    return false;
}

/// Whether the graph holds a monochromatic complete subgraph on
/// six vertices through its highest-indexed vertex.
pub fn has_k6r<G: GraphLike>(g: &G, col: bool) -> (r: bool)
    requires
        g.wf(),
    ensures
        r == has_k6r_spec(g, col),
{
    let nv = g.num_verts();
    if nv < 6 {
        proof {
            assert forall|a: int, b: int, c: int, d: int, e: int| !#[trigger] is_k6(g, col, a, b, c, d, e, g.verts() - 1) by {}
        }
        return false;
    }
    let mut i: usize = 0;
    while i <= nv - 6
        invariant
            g.wf(),
            nv == g.verts(),
            6 <= nv,
            i <= nv - 6 + 1,
            forall|a: int, b: int, c: int, d: int, e: int| a < i ==> !#[trigger] is_k6(g, col, a, b, c, d, e, nv - 1),
        decreases nv - i,
    {
        let mut j: usize = i + 1;
        while j <= nv - 5
            invariant
                g.wf(),
                nv == g.verts(),
                6 <= nv,
                i < j <= nv - 5 + 1,
                i <= nv - 6,
                forall|a: int, b: int, c: int, d: int, e: int| a < i ==> !#[trigger] is_k6(g, col, a, b, c, d, e, nv - 1),
                forall|a: int, b: int, c: int, d: int| a < j ==> !#[trigger] is_k6(g, col, i as int, a, b, c, d, nv - 1),
            decreases nv - j,
        {
            if g.get_edge(i, j) == col {
                let mut k: usize = j + 1;
                while k <= nv - 4
                    invariant
                        g.wf(),
                        nv == g.verts(),
                        6 <= nv,
                        i < j < k <= nv - 4 + 1,
                        i <= nv - 6,
                        j <= nv - 5,
                        g.edge(i as int, j as int) == col,
                        forall|a: int, b: int, c: int, d: int, e: int| a < i ==> !#[trigger] is_k6(g, col, a, b, c, d, e, nv - 1),
                        forall|a: int, b: int, c: int, d: int| a < j ==> !#[trigger] is_k6(g, col, i as int, a, b, c, d, nv - 1),
                        forall|a: int, b: int, c: int| a < k ==> !#[trigger] is_k6(g, col, i as int, j as int, a, b, c, nv - 1),
                    decreases nv - k,
                {
                    if g.get_edge(i, k) == col && g.get_edge(j, k) == col {
                        let mut l: usize = k + 1;
                        while l <= nv - 3
                            invariant
                                g.wf(),
                                nv == g.verts(),
                                6 <= nv,
                                i < j < k < l <= nv - 3 + 1,
                                i <= nv - 6,
                                j <= nv - 5,
                                k <= nv - 4,
                                g.edge(i as int, j as int) == col,
                                g.edge(i as int, k as int) == col,
                                g.edge(j as int, k as int) == col,
                                forall|a: int, b: int, c: int, d: int, e: int| a < i ==> !#[trigger] is_k6(g, col, a, b, c, d, e, nv - 1),
                                forall|a: int, b: int, c: int, d: int| a < j ==> !#[trigger] is_k6(g, col, i as int, a, b, c, d, nv - 1),
                                forall|a: int, b: int, c: int| a < k ==> !#[trigger] is_k6(g, col, i as int, j as int, a, b, c, nv - 1),
                                forall|a: int, b: int| a < l ==> !#[trigger] is_k6(g, col, i as int, j as int, k as int, a, b, nv - 1),
                            decreases nv - l,
                        {
                            if g.get_edge(i, l) == col && g.get_edge(j, l) == col && g.get_edge(k, l) == col {
                                let mut m: usize = l + 1;
                                while m <= nv - 2
                                    invariant
                                        g.wf(),
                                        nv == g.verts(),
                                        6 <= nv,
                                        i < j < k < l < m <= nv - 2 + 1,
                                        i <= nv - 6,
                                        j <= nv - 5,
                                        k <= nv - 4,
                                        l <= nv - 3,
                                        g.edge(i as int, j as int) == col,
                                        g.edge(i as int, k as int) == col,
                                        g.edge(i as int, l as int) == col,
                                        g.edge(j as int, k as int) == col,
                                        g.edge(j as int, l as int) == col,
                                        g.edge(k as int, l as int) == col,
                                        forall|a: int, b: int, c: int, d: int, e: int| a < i ==> !#[trigger] is_k6(g, col, a, b, c, d, e, nv - 1),
                                        forall|a: int, b: int, c: int, d: int| a < j ==> !#[trigger] is_k6(g, col, i as int, a, b, c, d, nv - 1),
                                        forall|a: int, b: int, c: int| a < k ==> !#[trigger] is_k6(g, col, i as int, j as int, a, b, c, nv - 1),
                                        forall|a: int, b: int| a < l ==> !#[trigger] is_k6(g, col, i as int, j as int, k as int, a, b, nv - 1),
                                        forall|a: int| a < m ==> !#[trigger] is_k6(g, col, i as int, j as int, k as int, l as int, a, nv - 1),
                                    decreases nv - m,
                                {
                                    if g.get_edge(i, m) == col && g.get_edge(j, m) == col && g.get_edge(k, m) == col && g.get_edge(l, m) == col && g.get_edge(i, nv - 1) == col && g.get_edge(j, nv - 1) == col && g.get_edge(k, nv - 1) == col && g.get_edge(l, nv - 1) == col && g.get_edge(m, nv - 1) == col {
                                        proof {
                                            assert(is_k6(g, col, i as int, j as int, k as int, l as int, m as int, nv - 1));
                                        }
                                        return true;
                                    }
                                    proof {
                                        assert forall|a: int| a < m + 1 implies !#[trigger] is_k6(g, col, i as int, j as int, k as int, l as int, a, nv - 1) by {
                                        }
                                    }
                                    m = m + 1;
                                }
                            }
                            proof {
                                assert forall|a: int, b: int| a < l + 1 implies !#[trigger] is_k6(g, col, i as int, j as int, k as int, a, b, nv - 1) by {
                                    if a == l && is_k6(g, col, i as int, j as int, k as int, a, b, nv - 1) {
                                        assert(b <= nv - 2);
                                    }
                                }
                            }
                            l = l + 1;
                        }
                    }
                    proof {
                        assert forall|a: int, b: int, c: int| a < k + 1 implies !#[trigger] is_k6(g, col, i as int, j as int, a, b, c, nv - 1) by {
                            if a == k && is_k6(g, col, i as int, j as int, a, b, c, nv - 1) {
                                assert(b <= nv - 3);
                            }
                        }
                    }
                    k = k + 1;
                }
            }
            proof {
                assert forall|a: int, b: int, c: int, d: int| a < j + 1 implies !#[trigger] is_k6(g, col, i as int, a, b, c, d, nv - 1) by {
                    if a == j && is_k6(g, col, i as int, a, b, c, d, nv - 1) {
                        assert(b <= nv - 4);
                    }
                }
            }
            j = j + 1;
        }
        proof {
            assert forall|a: int, b: int, c: int, d: int, e: int| a < i + 1 implies !#[trigger] is_k6(g, col, a, b, c, d, e, nv - 1) by {
                if a == i && is_k6(g, col, a, b, c, d, e, nv - 1) {
                    assert(b <= nv - 5);
                }
            }
        }
        i = i + 1;
    }
    proof {
        assert forall|a: int, b: int, c: int, d: int, e: int| !#[trigger] is_k6(g, col, a, b, c, d, e, nv - 1) by {
            if is_k6(g, col, a, b, c, d, e, nv - 1) {
                assert(a <= nv - 6);
            }
        }
    }
    return false;
}

/// Vertices `a < b < c < d < e < f < q` form a monochromatic complete graph on seven vertices.
pub open spec fn is_k7<G: GraphLike>(g: &G, col: bool, a: int, b: int, c: int, d: int, e: int, f: int, q: int) -> bool {
    &&& 0 <= a < b < c < d < e < f < q < g.verts()
    &&& g.edge(a, b) == col
    &&& g.edge(a, c) == col
    &&& g.edge(a, d) == col
    &&& g.edge(a, e) == col
    &&& g.edge(a, f) == col
    &&& g.edge(a, q) == col
    &&& g.edge(b, c) == col
    &&& g.edge(b, d) == col
    &&& g.edge(b, e) == col
    &&& g.edge(b, f) == col
    &&& g.edge(b, q) == col
    &&& g.edge(c, d) == col
    &&& g.edge(c, e) == col
    &&& g.edge(c, f) == col
    &&& g.edge(c, q) == col
    &&& g.edge(d, e) == col
    &&& g.edge(d, f) == col
    &&& g.edge(d, q) == col
    &&& g.edge(e, f) == col
    &&& g.edge(e, q) == col
    &&& g.edge(f, q) == col
}

pub open spec fn has_k7_spec<G: GraphLike>(g: &G, col: bool) -> bool {
    exists|a: int, b: int, c: int, d: int, e: int, f: int, q: int| is_k7(g, col, a, b, c, d, e, f, q)
}

/// A monochromatic complete graph on seven vertices through the highest-indexed vertex.
pub open spec fn has_k7r_spec<G: GraphLike>(g: &G, col: bool) -> bool {
    exists|a: int, b: int, c: int, d: int, e: int, f: int| #[trigger] is_k7(g, col, a, b, c, d, e, f, g.verts() - 1)
}

/// Whether the graph holds a monochromatic complete subgraph on
/// seven vertices.
pub fn has_k7<G: GraphLike>(g: &G, col: bool) -> (r: bool)
    requires
        g.wf(),
    ensures
        r == has_k7_spec(g, col),
{
    let nv = g.num_verts();
    if nv < 7 {
        proof {
            assert forall|a: int, b: int, c: int, d: int, e: int, f: int, q: int| !#[trigger] is_k7(g, col, a, b, c, d, e, f, q) by {}
        }
        return false;
    }
    let mut i: usize = 0;
    while i < nv - 6
        invariant
            g.wf(),
            nv == g.verts(),
            7 <= nv,
            i <= nv - 6,
            forall|a: int, b: int, c: int, d: int, e: int, f: int, q: int| a < i ==> !#[trigger] is_k7(g, col, a, b, c, d, e, f, q),
        decreases nv - i,
    {
        let mut j: usize = i + 1;
        while j < nv - 5
            invariant
                g.wf(),
                nv == g.verts(),
                7 <= nv,
                i < j <= nv - 5,
                i < nv - 6,
                forall|a: int, b: int, c: int, d: int, e: int, f: int, q: int| a < i ==> !#[trigger] is_k7(g, col, a, b, c, d, e, f, q),
                forall|a: int, b: int, c: int, d: int, e: int, f: int| a < j ==> !#[trigger] is_k7(g, col, i as int, a, b, c, d, e, f),
            decreases nv - j,
        {
            if g.get_edge(i, j) == col {
                let mut k: usize = j + 1;
                while k < nv - 4
                    invariant
                        g.wf(),
                        nv == g.verts(),
                        7 <= nv,
                        i < j < k <= nv - 4,
                        i < nv - 6,
                        j < nv - 5,
                        g.edge(i as int, j as int) == col,
                        forall|a: int, b: int, c: int, d: int, e: int, f: int, q: int| a < i ==> !#[trigger] is_k7(g, col, a, b, c, d, e, f, q),
                        forall|a: int, b: int, c: int, d: int, e: int, f: int| a < j ==> !#[trigger] is_k7(g, col, i as int, a, b, c, d, e, f),
                        forall|a: int, b: int, c: int, d: int, e: int| a < k ==> !#[trigger] is_k7(g, col, i as int, j as int, a, b, c, d, e),
                    decreases nv - k,
                {
                    if g.get_edge(i, k) == col && g.get_edge(j, k) == col {
                        let mut l: usize = k + 1;
                        while l < nv - 3
                            invariant
                                g.wf(),
                                nv == g.verts(),
                                7 <= nv,
                                i < j < k < l <= nv - 3,
                                i < nv - 6,
                                j < nv - 5,
                                k < nv - 4,
                                g.edge(i as int, j as int) == col,
                                g.edge(i as int, k as int) == col,
                                g.edge(j as int, k as int) == col,
                                forall|a: int, b: int, c: int, d: int, e: int, f: int, q: int| a < i ==> !#[trigger] is_k7(g, col, a, b, c, d, e, f, q),
                                forall|a: int, b: int, c: int, d: int, e: int, f: int| a < j ==> !#[trigger] is_k7(g, col, i as int, a, b, c, d, e, f),
                                forall|a: int, b: int, c: int, d: int, e: int| a < k ==> !#[trigger] is_k7(g, col, i as int, j as int, a, b, c, d, e),
                                forall|a: int, b: int, c: int, d: int| a < l ==> !#[trigger] is_k7(g, col, i as int, j as int, k as int, a, b, c, d),
                            decreases nv - l,
                        {
                            if g.get_edge(i, l) == col && g.get_edge(j, l) == col && g.get_edge(k, l) == col {
                                let mut m: usize = l + 1;
                                while m < nv - 2
                                    invariant
                                        g.wf(),
                                        nv == g.verts(),
                                        7 <= nv,
                                        i < j < k < l < m <= nv - 2,
                                        i < nv - 6,
                                        j < nv - 5,
                                        k < nv - 4,
                                        l < nv - 3,
                                        g.edge(i as int, j as int) == col,
                                        g.edge(i as int, k as int) == col,
                                        g.edge(i as int, l as int) == col,
                                        g.edge(j as int, k as int) == col,
                                        g.edge(j as int, l as int) == col,
                                        g.edge(k as int, l as int) == col,
                                        forall|a: int, b: int, c: int, d: int, e: int, f: int, q: int| a < i ==> !#[trigger] is_k7(g, col, a, b, c, d, e, f, q),
                                        forall|a: int, b: int, c: int, d: int, e: int, f: int| a < j ==> !#[trigger] is_k7(g, col, i as int, a, b, c, d, e, f),
                                        forall|a: int, b: int, c: int, d: int, e: int| a < k ==> !#[trigger] is_k7(g, col, i as int, j as int, a, b, c, d, e),
                                        forall|a: int, b: int, c: int, d: int| a < l ==> !#[trigger] is_k7(g, col, i as int, j as int, k as int, a, b, c, d),
                                        forall|a: int, b: int, c: int| a < m ==> !#[trigger] is_k7(g, col, i as int, j as int, k as int, l as int, a, b, c),
                                    decreases nv - m,
                                {
                                    if g.get_edge(i, m) == col && g.get_edge(j, m) == col && g.get_edge(k, m) == col && g.get_edge(l, m) == col {
                                        let mut n: usize = m + 1;
                                        while n < nv - 1
                                            invariant
                                                g.wf(),
                                                nv == g.verts(),
                                                7 <= nv,
                                                i < j < k < l < m < n <= nv - 1,
                                                i < nv - 6,
                                                j < nv - 5,
                                                k < nv - 4,
                                                l < nv - 3,
                                                m < nv - 2,
                                                g.edge(i as int, j as int) == col,
                                                g.edge(i as int, k as int) == col,
                                                g.edge(i as int, l as int) == col,
                                                g.edge(i as int, m as int) == col,
                                                g.edge(j as int, k as int) == col,
                                                g.edge(j as int, l as int) == col,
                                                g.edge(j as int, m as int) == col,
                                                g.edge(k as int, l as int) == col,
                                                g.edge(k as int, m as int) == col,
                                                g.edge(l as int, m as int) == col,
                                                forall|a: int, b: int, c: int, d: int, e: int, f: int, q: int| a < i ==> !#[trigger] is_k7(g, col, a, b, c, d, e, f, q),
                                                forall|a: int, b: int, c: int, d: int, e: int, f: int| a < j ==> !#[trigger] is_k7(g, col, i as int, a, b, c, d, e, f),
                                                forall|a: int, b: int, c: int, d: int, e: int| a < k ==> !#[trigger] is_k7(g, col, i as int, j as int, a, b, c, d, e),
                                                forall|a: int, b: int, c: int, d: int| a < l ==> !#[trigger] is_k7(g, col, i as int, j as int, k as int, a, b, c, d),
                                                forall|a: int, b: int, c: int| a < m ==> !#[trigger] is_k7(g, col, i as int, j as int, k as int, l as int, a, b, c),
                                                forall|a: int, b: int| a < n ==> !#[trigger] is_k7(g, col, i as int, j as int, k as int, l as int, m as int, a, b),
                                            decreases nv - n,
                                        {
                                            if g.get_edge(i, n) == col && g.get_edge(j, n) == col && g.get_edge(k, n) == col && g.get_edge(l, n) == col && g.get_edge(m, n) == col {
                                                let mut o: usize = n + 1;
                                                while o < nv
                                                    invariant
                                                        g.wf(),
                                                        nv == g.verts(),
                                                        7 <= nv,
                                                        i < j < k < l < m < n < o <= nv,
                                                        i < nv - 6,
                                                        j < nv - 5,
                                                        k < nv - 4,
                                                        l < nv - 3,
                                                        m < nv - 2,
                                                        n < nv - 1,
                                                        g.edge(i as int, j as int) == col,
                                                        g.edge(i as int, k as int) == col,
                                                        g.edge(i as int, l as int) == col,
                                                        g.edge(i as int, m as int) == col,
                                                        g.edge(i as int, n as int) == col,
                                                        g.edge(j as int, k as int) == col,
                                                        g.edge(j as int, l as int) == col,
                                                        g.edge(j as int, m as int) == col,
                                                        g.edge(j as int, n as int) == col,
                                                        g.edge(k as int, l as int) == col,
                                                        g.edge(k as int, m as int) == col,
                                                        g.edge(k as int, n as int) == col,
                                                        g.edge(l as int, m as int) == col,
                                                        g.edge(l as int, n as int) == col,
                                                        g.edge(m as int, n as int) == col,
                                                        forall|a: int, b: int, c: int, d: int, e: int, f: int, q: int| a < i ==> !#[trigger] is_k7(g, col, a, b, c, d, e, f, q),
                                                        forall|a: int, b: int, c: int, d: int, e: int, f: int| a < j ==> !#[trigger] is_k7(g, col, i as int, a, b, c, d, e, f),
                                                        forall|a: int, b: int, c: int, d: int, e: int| a < k ==> !#[trigger] is_k7(g, col, i as int, j as int, a, b, c, d, e),
                                                        forall|a: int, b: int, c: int, d: int| a < l ==> !#[trigger] is_k7(g, col, i as int, j as int, k as int, a, b, c, d),
                                                        forall|a: int, b: int, c: int| a < m ==> !#[trigger] is_k7(g, col, i as int, j as int, k as int, l as int, a, b, c),
                                                        forall|a: int, b: int| a < n ==> !#[trigger] is_k7(g, col, i as int, j as int, k as int, l as int, m as int, a, b),
                                                        forall|a: int| a < o ==> !#[trigger] is_k7(g, col, i as int, j as int, k as int, l as int, m as int, n as int, a),
                                                    decreases nv - o,
                                                {
                                                    if g.get_edge(i, o) == col && g.get_edge(j, o) == col && g.get_edge(k, o) == col && g.get_edge(l, o) == col && g.get_edge(m, o) == col && g.get_edge(n, o) == col {
                                                        proof {
                                                            assert(is_k7(g, col, i as int, j as int, k as int, l as int, m as int, n as int, o as int));
                                                        }
                                                        return true;
                                                    }
                                                    proof {
                                                        assert forall|a: int| a < o + 1 implies !#[trigger] is_k7(g, col, i as int, j as int, k as int, l as int, m as int, n as int, a) by {
                                                        }
                                                    }
                                                    o = o + 1;
                                                }
                                            }
                                            proof {
                                                assert forall|a: int, b: int| a < n + 1 implies !#[trigger] is_k7(g, col, i as int, j as int, k as int, l as int, m as int, a, b) by {
                                                    if a == n && is_k7(g, col, i as int, j as int, k as int, l as int, m as int, a, b) {
                                                        assert(b < nv);
                                                    }
                                                }
                                            }
                                            n = n + 1;
                                        }
                                    }
                                    proof {
                                        assert forall|a: int, b: int, c: int| a < m + 1 implies !#[trigger] is_k7(g, col, i as int, j as int, k as int, l as int, a, b, c) by {
                                            if a == m && is_k7(g, col, i as int, j as int, k as int, l as int, a, b, c) {
                                                assert(b < nv - 1);
                                            }
                                        }
                                    }
                                    m = m + 1;
                                }
                            }
                            proof {
                                assert forall|a: int, b: int, c: int, d: int| a < l + 1 implies !#[trigger] is_k7(g, col, i as int, j as int, k as int, a, b, c, d) by {
                                    if a == l && is_k7(g, col, i as int, j as int, k as int, a, b, c, d) {
                                        assert(b < nv - 2);
                                    }
                                }
                            }
                            l = l + 1;
                        }
                    }
                    proof {
                        assert forall|a: int, b: int, c: int, d: int, e: int| a < k + 1 implies !#[trigger] is_k7(g, col, i as int, j as int, a, b, c, d, e) by {
                            if a == k && is_k7(g, col, i as int, j as int, a, b, c, d, e) {
                                assert(b < nv - 3);
                            }
                        }
                    }
                    k = k + 1;
                }
            }
            proof {
                assert forall|a: int, b: int, c: int, d: int, e: int, f: int| a < j + 1 implies !#[trigger] is_k7(g, col, i as int, a, b, c, d, e, f) by {
                    if a == j && is_k7(g, col, i as int, a, b, c, d, e, f) {
                        assert(b < nv - 4);
                    }
                }
            }
            j = j + 1;
        }
        proof {
            assert forall|a: int, b: int, c: int, d: int, e: int, f: int, q: int| a < i + 1 implies !#[trigger] is_k7(g, col, a, b, c, d, e, f, q) by {
                if a == i && is_k7(g, col, a, b, c, d, e, f, q) {
                    assert(b < nv - 5);
                }
            }
        }
        i = i + 1;
    }
    proof {
        assert forall|a: int, b: int, c: int, d: int, e: int, f: int, q: int| !#[trigger] is_k7(g, col, a, b, c, d, e, f, q) by {
            if is_k7(g, col, a, b, c, d, e, f, q) {
                assert(a < nv - 6);
            }
        }
    }
    return false;
}

/// Whether the graph holds a monochromatic complete subgraph on
/// seven vertices through its highest-indexed vertex.
pub fn has_k7r<G: GraphLike>(g: &G, col: bool) -> (r: bool)
    requires
        g.wf(),
    ensures
        r == has_k7r_spec(g, col),
{
    let nv = g.num_verts();
    if nv < 7 {
        proof {
            assert forall|a: int, b: int, c: int, d: int, e: int, f: int| !#[trigger] is_k7(g, col, a, b, c, d, e, f, g.verts() - 1) by {}
        }
        return false;
    }
    let mut i: usize = 0;
    while i <= nv - 7
        invariant
            g.wf(),
            nv == g.verts(),
            7 <= nv,
            i <= nv - 7 + 1,
            forall|a: int, b: int, c: int, d: int, e: int, f: int| a < i ==> !#[trigger] is_k7(g, col, a, b, c, d, e, f, nv - 1),
        decreases nv - i,
    {
        let mut j: usize = i + 1;
        while j <= nv - 6
            invariant
                g.wf(),
                nv == g.verts(),
                7 <= nv,
                i < j <= nv - 6 + 1,
                i <= nv - 7,
                forall|a: int, b: int, c: int, d: int, e: int, f: int| a < i ==> !#[trigger] is_k7(g, col, a, b, c, d, e, f, nv - 1),
                forall|a: int, b: int, c: int, d: int, e: int| a < j ==> !#[trigger] is_k7(g, col, i as int, a, b, c, d, e, nv - 1),
            decreases nv - j,
        {
            if g.get_edge(i, j) == col {
                let mut k: usize = j + 1;
                while k <= nv - 5
                    invariant
                        g.wf(),
                        nv == g.verts(),
                        7 <= nv,
                        i < j < k <= nv - 5 + 1,
                        i <= nv - 7,
                        j <= nv - 6,
                        g.edge(i as int, j as int) == col,
                        forall|a: int, b: int, c: int, d: int, e: int, f: int| a < i ==> !#[trigger] is_k7(g, col, a, b, c, d, e, f, nv - 1),
                        forall|a: int, b: int, c: int, d: int, e: int| a < j ==> !#[trigger] is_k7(g, col, i as int, a, b, c, d, e, nv - 1),
                        forall|a: int, b: int, c: int, d: int| a < k ==> !#[trigger] is_k7(g, col, i as int, j as int, a, b, c, d, nv - 1),
                    decreases nv - k,
                {
                    if g.get_edge(i, k) == col && g.get_edge(j, k) == col {
                        let mut l: usize = k + 1;
                        while l <= nv - 4
                            invariant
                                g.wf(),
                                nv == g.verts(),
                                7 <= nv,
                                i < j < k < l <= nv - 4 + 1,
                                i <= nv - 7,
                                j <= nv - 6,
                                k <= nv - 5,
                                g.edge(i as int, j as int) == col,
                                g.edge(i as int, k as int) == col,
                                g.edge(j as int, k as int) == col,
                                forall|a: int, b: int, c: int, d: int, e: int, f: int| a < i ==> !#[trigger] is_k7(g, col, a, b, c, d, e, f, nv - 1),
                                forall|a: int, b: int, c: int, d: int, e: int| a < j ==> !#[trigger] is_k7(g, col, i as int, a, b, c, d, e, nv - 1),
                                forall|a: int, b: int, c: int, d: int| a < k ==> !#[trigger] is_k7(g, col, i as int, j as int, a, b, c, d, nv - 1),
                                forall|a: int, b: int, c: int| a < l ==> !#[trigger] is_k7(g, col, i as int, j as int, k as int, a, b, c, nv - 1),
                            decreases nv - l,
                        {
                            if g.get_edge(i, l) == col && g.get_edge(j, l) == col && g.get_edge(k, l) == col {
                                let mut m: usize = l + 1;
                                while m <= nv - 3
                                    invariant
                                        g.wf(),
                                        nv == g.verts(),
                                        7 <= nv,
                                        i < j < k < l < m <= nv - 3 + 1,
                                        i <= nv - 7,
                                        j <= nv - 6,
                                        k <= nv - 5,
                                        l <= nv - 4,
                                        g.edge(i as int, j as int) == col,
                                        g.edge(i as int, k as int) == col,
                                        g.edge(i as int, l as int) == col,
                                        g.edge(j as int, k as int) == col,
                                        g.edge(j as int, l as int) == col,
                                        g.edge(k as int, l as int) == col,
                                        forall|a: int, b: int, c: int, d: int, e: int, f: int| a < i ==> !#[trigger] is_k7(g, col, a, b, c, d, e, f, nv - 1),
                                        forall|a: int, b: int, c: int, d: int, e: int| a < j ==> !#[trigger] is_k7(g, col, i as int, a, b, c, d, e, nv - 1),
                                        forall|a: int, b: int, c: int, d: int| a < k ==> !#[trigger] is_k7(g, col, i as int, j as int, a, b, c, d, nv - 1),
                                        forall|a: int, b: int, c: int| a < l ==> !#[trigger] is_k7(g, col, i as int, j as int, k as int, a, b, c, nv - 1),
                                        forall|a: int, b: int| a < m ==> !#[trigger] is_k7(g, col, i as int, j as int, k as int, l as int, a, b, nv - 1),
                                    decreases nv - m,
                                {
                                    if g.get_edge(i, m) == col && g.get_edge(j, m) == col && g.get_edge(k, m) == col && g.get_edge(l, m) == col {
                                        let mut n: usize = m + 1;
                                        while n <= nv - 2
                                            invariant
                                                g.wf(),
                                                nv == g.verts(),
                                                7 <= nv,
                                                i < j < k < l < m < n <= nv - 2 + 1,
                                                i <= nv - 7,
                                                j <= nv - 6,
                                                k <= nv - 5,
                                                l <= nv - 4,
                                                m <= nv - 3,
                                                g.edge(i as int, j as int) == col,
                                                g.edge(i as int, k as int) == col,
                                                g.edge(i as int, l as int) == col,
                                                g.edge(i as int, m as int) == col,
                                                g.edge(j as int, k as int) == col,
                                                g.edge(j as int, l as int) == col,
                                                g.edge(j as int, m as int) == col,
                                                g.edge(k as int, l as int) == col,
                                                g.edge(k as int, m as int) == col,
                                                g.edge(l as int, m as int) == col,
                                                forall|a: int, b: int, c: int, d: int, e: int, f: int| a < i ==> !#[trigger] is_k7(g, col, a, b, c, d, e, f, nv - 1),
                                                forall|a: int, b: int, c: int, d: int, e: int| a < j ==> !#[trigger] is_k7(g, col, i as int, a, b, c, d, e, nv - 1),
                                                forall|a: int, b: int, c: int, d: int| a < k ==> !#[trigger] is_k7(g, col, i as int, j as int, a, b, c, d, nv - 1),
                                                forall|a: int, b: int, c: int| a < l ==> !#[trigger] is_k7(g, col, i as int, j as int, k as int, a, b, c, nv - 1),
                                                forall|a: int, b: int| a < m ==> !#[trigger] is_k7(g, col, i as int, j as int, k as int, l as int, a, b, nv - 1),
                                                forall|a: int| a < n ==> !#[trigger] is_k7(g, col, i as int, j as int, k as int, l as int, m as int, a, nv - 1),
                                            decreases nv - n,
                                        {
                                            if g.get_edge(i, n) == col && g.get_edge(j, n) == col && g.get_edge(k, n) == col && g.get_edge(l, n) == col && g.get_edge(m, n) == col && g.get_edge(i, nv - 1) == col && g.get_edge(j, nv - 1) == col && g.get_edge(k, nv - 1) == col && g.get_edge(l, nv - 1) == col && g.get_edge(m, nv - 1) == col && g.get_edge(n, nv - 1) == col {
                                                proof {
                                                    assert(is_k7(g, col, i as int, j as int, k as int, l as int, m as int, n as int, nv - 1));
                                                }
                                                return true;
                                            }
                                            proof {
                                                assert forall|a: int| a < n + 1 implies !#[trigger] is_k7(g, col, i as int, j as int, k as int, l as int, m as int, a, nv - 1) by {
                                                }
                                            }
                                            n = n + 1;
                                        }
                                    }
                                    proof {
                                        assert forall|a: int, b: int| a < m + 1 implies !#[trigger] is_k7(g, col, i as int, j as int, k as int, l as int, a, b, nv - 1) by {
                                            if a == m && is_k7(g, col, i as int, j as int, k as int, l as int, a, b, nv - 1) {
                                                assert(b <= nv - 2);
                                            }
                                        }
                                    }
                                    m = m + 1;
                                }
                            }
                            proof {
                                assert forall|a: int, b: int, c: int| a < l + 1 implies !#[trigger] is_k7(g, col, i as int, j as int, k as int, a, b, c, nv - 1) by {
                                    if a == l && is_k7(g, col, i as int, j as int, k as int, a, b, c, nv - 1) {
                                        assert(b <= nv - 3);
                                    }
                                }
                            }
                            l = l + 1;
                        }
                    }
                    proof {
                        assert forall|a: int, b: int, c: int, d: int| a < k + 1 implies !#[trigger] is_k7(g, col, i as int, j as int, a, b, c, d, nv - 1) by {
                            if a == k && is_k7(g, col, i as int, j as int, a, b, c, d, nv - 1) {
                                assert(b <= nv - 4);
                            }
                        }
                    }
                    k = k + 1;
                }
            }
            proof {
                assert forall|a: int, b: int, c: int, d: int, e: int| a < j + 1 implies !#[trigger] is_k7(g, col, i as int, a, b, c, d, e, nv - 1) by {
                    if a == j && is_k7(g, col, i as int, a, b, c, d, e, nv - 1) {
                        assert(b <= nv - 5);
                    }
                }
            }
            j = j + 1;
        }
        proof {
            assert forall|a: int, b: int, c: int, d: int, e: int, f: int| a < i + 1 implies !#[trigger] is_k7(g, col, a, b, c, d, e, f, nv - 1) by {
                if a == i && is_k7(g, col, a, b, c, d, e, f, nv - 1) {
                    assert(b <= nv - 6);
                }
            }
        }
        i = i + 1;
    }
    proof {
        assert forall|a: int, b: int, c: int, d: int, e: int, f: int| !#[trigger] is_k7(g, col, a, b, c, d, e, f, nv - 1) by {
            if is_k7(g, col, a, b, c, d, e, f, nv - 1) {
                assert(a <= nv - 7);
            }
        }
    }
    return false;
}

/// The clique query that the tier filter uses for size `k` and colour
/// `col`: the through-the-last-vertex form for sizes three to seven, and
/// the general triangle query as the fallback for other sizes.
pub open spec fn kr_spec<G: GraphLike>(g: &G, k: u32, col: bool) -> bool {
    if k == 3 {
        has_k3r_spec(g, col)
    } else if k == 4 {
        has_k4r_spec(g, col)
    } else if k == 5 {
        has_k5r_spec(g, col)
    } else if k == 6 {
        has_k6r_spec(g, col)
    } else if k == 7 {
        has_k7r_spec(g, col)
    } else {
        has_k3_spec(g, col)
    }
}

/// The forbidden-pair predicate: a present-colour clique of size `n`
/// through the last vertex, or an absent-colour clique of size `m`
/// through the last vertex.
pub open spec fn forbids_spec<G: GraphLike>(g: &G, n: u32, m: u32) -> bool {
    kr_spec(g, n, true) || kr_spec(g, m, false)
}

/// Whether the graph is disqualified by the forbidden-pair configuration
/// `(n, m)`.
pub fn has_kns<G: GraphLike>(g: &G, n: u32, m: u32) -> (r: bool)
    requires
        g.wf(),
    ensures
        r == forbids_spec(g, n, m),
{
    let kn = match n {
        3 => has_k3r(g, true),
        4 => has_k4r(g, true),
        5 => has_k5r(g, true),
        6 => has_k6r(g, true),
        7 => has_k7r(g, true),
        _ => has_k3(g, true),
    };
    if !kn {
        let km = match m {
            3 => has_k3r(g, false),
            4 => has_k4r(g, false),
            5 => has_k5r(g, false),
            6 => has_k6r(g, false),
            7 => has_k7r(g, false),
            _ => has_k3(g, false),
        };
        km
    } else {
        true
    }
}

/// The number of neighbours of `v` among the vertices below `e`.
pub open spec fn deg_upto<G: GraphLike>(g: &G, v: int, e: int) -> nat
    decreases e,
{
    if e <= 0 {
        0
    } else {
        deg_upto(g, v, e - 1) + (if e - 1 != v && g.edge(v, e - 1) {
            1nat
        } else {
            0nat
        })
    }
}

/// The degree of `v`.
pub open spec fn deg<G: GraphLike>(g: &G, v: int) -> nat {
    deg_upto(g, v, g.verts() as int)
}

pub proof fn lemma_deg_upto_bound<G: GraphLike>(g: &G, v: int, e: int)
    ensures
        deg_upto(g, v, e) <= (if e <= 0 {
            0int
        } else {
            e
        }),
    decreases e,
{
    if e > 0 {
        lemma_deg_upto_bound(g, v, e - 1);
    }
}

} // verus!
