//! Topology generation.
//!
//! Nodes are grouped into consecutive triples `(x, n1, n2)` of a fixed
//! ordering; each complete triple contributes the spring edges `(x, n1)`
//! and `(x, n2)`, and a trailing partial group contributes none. The
//! result is a sparse forest-like topology, not a general random graph.

use crate::config::Ratio;
use vstd::prelude::*;

verus! {

/// A spring constraint: a pair of distinct node indices together with the
/// rest length the spring maintains and its compliance (inverse
/// stiffness). Edges are created once at startup and never change.
#[derive(Clone, Copy, Debug, PartialEq, Eq, Structural)]
pub struct Edge {
    pub a: usize,
    pub b: usize,
    pub rest: Ratio,
    pub compliance: Ratio,
}

/// The edge at flat index `k`: group `g = k / 2` yields `(3g, 3g + 1)` at
/// its even index and `(3g, 3g + 2)` at its odd one.
pub open spec fn edge_at(n: int, rest: Ratio, compliance: Ratio, es: Seq<Edge>, k: int) -> bool {
    let e = es[k];
    &&& e.a == 3 * (k / 2)
    &&& e.b == 3 * (k / 2) + 1 + (k % 2)
    &&& e.rest == rest
    &&& e.compliance == compliance
    &&& e.a < n
    &&& e.b < n
    &&& e.a != e.b
}

/// Exactly the edges of the triple-grouping rule: `2 * (n / 3)` edges,
/// where group `g` yields `(3g, 3g + 1)` and `(3g, 3g + 2)`.
pub open spec fn edges_generated(n: int, rest: Ratio, compliance: Ratio, es: Seq<Edge>) -> bool {
    &&& es.len() == 2 * (n / 3)
    &&& forall|k: int| 0 <= k < es.len() ==> #[trigger] edge_at(n, rest, compliance, es, k)
}

/// Generate the spring edges for `n` nodes.
///
/// For `n < 3` there are no complete triples, so the edge set is empty and
/// the nodes stay disconnected; that is not an error.
pub fn generate_edges(n: usize, rest: Ratio, compliance: Ratio) -> (es: Vec<Edge>)
    ensures
        edges_generated(n as int, rest, compliance, es@),
{
    let groups = n / 3;
    let mut es: Vec<Edge> = Vec::new();
    let mut g: usize = 0;
    while g < groups
        invariant
            groups == n / 3,
            g <= groups,
            es@.len() == 2 * g,
            forall|k: int| 0 <= k < es@.len() ==> #[trigger] edge_at(n as int, rest, compliance, es@, k),
        decreases groups - g,
    {
        let ghost es0 = es@;
        let x = 3 * g;
        es.push(Edge { a: x, b: x + 1, rest, compliance });
        es.push(Edge { a: x, b: x + 2, rest, compliance });
        proof {
            let gi = g as int;
            vstd::arithmetic::div_mod::lemma_fundamental_div_mod(n as int, 3);
            vstd::arithmetic::div_mod::lemma_mod_bound(n as int, 3);
            assert((2 * gi) / 2 == gi && (2 * gi) % 2 == 0 && (2 * gi + 1) / 2 == gi && (2 * gi + 1)
                % 2 == 1) by (nonlinear_arith);
            assert(edge_at(n as int, rest, compliance, es@, 2 * gi));
            assert(edge_at(n as int, rest, compliance, es@, 2 * gi + 1));
            assert forall|k: int| 0 <= k < es@.len() implies #[trigger] edge_at(
                n as int,
                rest,
                compliance,
                es@,
                k,
            ) by {
                if k < es0.len() {
                    assert(edge_at(n as int, rest, compliance, es0, k));
                    assert(es@[k] == es0[k]);
                }
            }
        }
        g = g + 1;
    }
    es
}

} // verus!
