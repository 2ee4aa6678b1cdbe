use vstd::prelude::*;

use crate::commit::{kept_asc, kept_desc};
use crate::graph::{CommitGraph, GraphError};

verus! {

pub open spec fn reach_keep(g: &CommitGraph, start: int) -> spec_fn(int) -> bool {
    |j: int| g.reachable(start, j)
}

pub open spec fn reach_excluding_keep(g: &CommitGraph, start: int, exclude: int) -> spec_fn(int) -> bool {
    |j: int| g.reachable(start, j) && !g.reachable(exclude, j)
}

pub open spec fn as_ints(v: Seq<usize>) -> Seq<int> {
    v.map_values(|x: usize| x as int)
}

/// `start` and each of its ancestors, once each, children before parents.
pub fn walk(graph: &CommitGraph, start: usize) -> (r: Result<Vec<usize>, GraphError>)
    requires
        graph.wf(),
    ensures
        start >= graph.len() <==> r == Err::<Vec<usize>, GraphError>(
            GraphError::UnknownNode { index: start },
        ),
        r.is_ok() <==> start < graph.len(),
        r matches Ok(v) ==> as_ints(v@) == kept_desc(reach_keep(graph, start as int), 0, graph.len() as int),
{
    if start >= graph.node_count() {
        return Err(GraphError::UnknownNode { index: start });
    }
    let mask = graph.ancestor_mask(start);
    let ghost keep = reach_keep(graph, start as int);
    let n = graph.node_count();
    let mut nodes: Vec<usize> = Vec::new();
    let mut i: usize = n;
    while i > 0
        invariant
            n == graph.len(),
            i <= n,
            mask@.len() == n,
            forall|j: int| 0 <= j < n ==> (mask@[j] <==> graph.reachable(start as int, j)),
            keep == reach_keep(graph, start as int),
            as_ints(nodes@) == kept_desc(keep, i as int, n as int),
        decreases i,
    {
        let j = i - 1;
        let ghost before = nodes@;
        if mask[j] {
            nodes.push(j);
            assert(as_ints(nodes@) =~= as_ints(before).push(j as int));
            assert(kept_desc(keep, j as int, n as int) =~= kept_desc(keep, i as int, n as int).push(j as int));
        } else {
            assert(kept_desc(keep, j as int, n as int) =~= kept_desc(keep, i as int, n as int));
        }
        i = j;
    }
    Ok(nodes)
}

/// The nodes reachable from `start` and not from `exclude`, once each,
/// parents before children.
pub fn walk_excluding(graph: &CommitGraph, start: usize, exclude: usize) -> (r: Result<
    Vec<usize>,
    GraphError,
>)
    requires
        graph.wf(),
    ensures
        start >= graph.len() ==> r == Err::<Vec<usize>, GraphError>(
            GraphError::UnknownNode { index: start },
        ),
        start < graph.len() && exclude >= graph.len() ==> r == Err::<Vec<usize>, GraphError>(
            GraphError::UnknownNode { index: exclude },
        ),
        r.is_ok() <==> start < graph.len() && exclude < graph.len(),
        r matches Ok(v) ==> as_ints(v@) == kept_asc(
            reach_excluding_keep(graph, start as int, exclude as int),
            0,
            graph.len() as int,
        ),
{
    if start >= graph.node_count() {
        return Err(GraphError::UnknownNode { index: start });
    }
    if exclude >= graph.node_count() {
        return Err(GraphError::UnknownNode { index: exclude });
    }
    let mask = graph.ancestor_mask(start);
    let hidden = graph.ancestor_mask(exclude);
    let ghost keep = reach_excluding_keep(graph, start as int, exclude as int);
    let n = graph.node_count();
    let mut nodes: Vec<usize> = Vec::new();
    let mut j: usize = 0;
    while j < n
        invariant
            n == graph.len(),
            j <= n,
            mask@.len() == n,
            hidden@.len() == n,
            forall|q: int| 0 <= q < n ==> (mask@[q] <==> graph.reachable(start as int, q)),
            forall|q: int| 0 <= q < n ==> (hidden@[q] <==> graph.reachable(exclude as int, q)),
            keep == reach_excluding_keep(graph, start as int, exclude as int),
            as_ints(nodes@) == kept_asc(keep, 0, j as int),
        decreases n - j,
    {
        let ghost before = nodes@;
        if mask[j] && !hidden[j] {
            nodes.push(j);
            assert(as_ints(nodes@) =~= as_ints(before).push(j as int));
            assert(kept_asc(keep, 0, j + 1) =~= kept_asc(keep, 0, j as int).push(j as int));
        } else {
            assert(kept_asc(keep, 0, j + 1) =~= kept_asc(keep, 0, j as int));
        }
        j = j + 1;
    }
    Ok(nodes)
}

} // verus!
