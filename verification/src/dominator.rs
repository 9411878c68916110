use vstd::prelude::*;
use crate::cancel::CancelToken;
use crate::error::SnapshotError;
use crate::offsets::{
    compute_edge_offsets, edge_prefix, lemma_edge_prefix_monotone, lemma_owner_is,
    offsets_valid, spec_edge_owner,
};
use crate::retainers::{find_roots, spec_roots_ok};
use crate::snapshot::SnapshotRaw;

verus! {

/// Options of the dominator engine: how many hops of the chain to
/// return, and the cancellation token polled between passes.
pub struct DominatorOptions {
    pub max_depth: usize,
    pub cancel: CancelToken,
}

/// The dominator answer: the target, the traversal roots, and the
/// chain of immediate dominators in root-first order, ending at the
/// target.
pub struct DominatorResult {
    pub target: usize,
    pub roots: Vec<usize>,
    pub chain: Vec<usize>,
}

/// Every entry of an adjacency table points at a node.
pub open spec fn spec_adj_ok(adj: Seq<Vec<usize>>, node_count: int) -> bool {
    forall|n: int, j: int|
        0 <= n < adj.len() && 0 <= j < (adj[n])@.len() ==> ((#[trigger] (adj[n])@[j]) as int)
            < node_count
}

/// Whether the snapshot holds an edge record leading from node `u` to
/// node `v`.
pub open spec fn spec_has_edge(s: &SnapshotRaw, u: int, v: int) -> bool {
    exists|e: int|
        edge_prefix(s, u) <= e < edge_prefix(s, u) + s.node_edge_count_value(u)
            && #[trigger] s.spec_to_node_index(e) == Some(v)
}

/// Whether node `n` lies within `k` resolved edge steps of some root.
pub open spec fn spec_reach_k(s: &SnapshotRaw, roots: Seq<usize>, n: int, k: nat) -> bool
    decreases k,
{
    ||| roots.contains(n as usize)
    ||| (k > 0 && exists|u: int|
        0 <= u < s.spec_node_count() && #[trigger] spec_has_edge(s, u, n) && spec_reach_k(
            s,
            roots,
            u,
            (k - 1) as nat,
        ))
}

/// Whether node `n` is reachable from the roots along resolved edges.
pub open spec fn spec_reachable(s: &SnapshotRaw, roots: Seq<usize>, n: int) -> bool {
    exists|k: nat| #[trigger] spec_reach_k(s, roots, n, k)
}

/// One resolved edge extends reachability by one step.
proof fn lemma_reach_step(s: &SnapshotRaw, roots: Seq<usize>, u: int, n: int)
    requires
        spec_reachable(s, roots, u),
        spec_has_edge(s, u, n),
        0 <= u < s.spec_node_count(),
    ensures
        spec_reachable(s, roots, n),
{
    let k = choose|k: nat| #[trigger] spec_reach_k(s, roots, u, k);
    assert(spec_reach_k(s, roots, n, (k + 1) as nat)) by {
        assert(0 <= u < s.spec_node_count() && spec_has_edge(s, u, n) && spec_reach_k(
            s,
            roots,
            u,
            k,
        ));
    }
}

/// Whether the adjacency list of node `n` holds the entry `v`.
pub open spec fn spec_adj_lists(adj: Seq<Vec<usize>>, n: int, v: int) -> bool {
    exists|k: int| 0 <= k < (adj[n])@.len() && ((#[trigger] (adj[n])@[k]) as int) == v
}

/// Every resolved in-range edge record appears in both adjacency
/// tables: its owner lists the destination as a successor, and the
/// destination lists the owner as a predecessor.
pub open spec fn spec_adj_complete(
    s: &SnapshotRaw,
    succs: Seq<Vec<usize>>,
    preds: Seq<Vec<usize>>,
    bound: int,
) -> bool {
    forall|e: int|
        #![trigger s.spec_to_node_index(e)]
        0 <= e < bound ==> (match s.spec_to_node_index(e) {
            Some(v) => v >= s.spec_node_count() || (spec_adj_lists(succs, spec_edge_owner(s, e), v)
                && spec_adj_lists(preds, v, spec_edge_owner(s, e))),
            None => true,
        })
}

/// Every predecessor entry names a real edge arriving at its node.
pub open spec fn spec_preds_faithful(s: &SnapshotRaw, preds: Seq<Vec<usize>>) -> bool {
    forall|n: int, j: int|
        0 <= n < preds.len() && 0 <= j < (preds[n])@.len() ==> spec_has_edge(
            s,
            (#[trigger] (preds[n])@[j]) as int,
            n,
        )
}

/// Every successor entry names a real edge leaving its node.
pub open spec fn spec_succs_faithful(s: &SnapshotRaw, succs: Seq<Vec<usize>>) -> bool {
    forall|n: int, j: int|
        0 <= n < succs.len() && 0 <= j < (succs[n])@.len() ==> spec_has_edge(
            s,
            n,
            (#[trigger] (succs[n])@[j]) as int,
        )
}

/// Every defined entry of an immediate-dominator table names a node
/// reachable from the roots along the snapshot's resolved edges.
pub open spec fn spec_idom_grounded(
    idom: Seq<Option<usize>>,
    s: &SnapshotRaw,
    roots: Seq<usize>,
) -> bool {
    forall|n: int|
        0 <= n < idom.len() ==> ((#[trigger] idom[n]) is Some ==> spec_reachable(s, roots, n))
}

/// Whether node `n` would be a traversal root: it is named `GC roots`,
/// or no node is and node 0 stands in.
pub open spec fn spec_is_root_node(s: &SnapshotRaw, n: int) -> bool {
    ||| crate::retainers::spec_is_gc_root(s, n)
    ||| (!(exists|i: int|
        0 <= i < s.spec_node_count() && crate::retainers::spec_is_gc_root(s, i)) && n == 0)
}

/// Whether the solver finished its refinement: every non-root
/// traversal-order node with a defined predecessor entry is itself
/// defined, up to position `n` of the order.
pub open spec fn spec_idom_fixpoint_upto(
    idom: Seq<Option<usize>>,
    rpo: Seq<usize>,
    preds: Seq<Vec<usize>>,
    roots: Seq<usize>,
    n: int,
) -> bool {
    forall|p: int|
        #![trigger rpo[p]]
        0 <= p < n && !roots.contains(rpo[p]) && (exists|q: int|
            0 <= q < (preds[rpo[p] as int])@.len()
                && (#[trigger] idom[((preds[rpo[p] as int])@[q]) as int]) is Some)
            ==> idom[rpo[p] as int] is Some
}

/// A well-shaped immediate-dominator table: one entry per node, roots
/// mapped to themselves and nothing else mapped to itself, every
/// defined entry a node.
pub open spec fn spec_idom_shape(idom: Seq<Option<usize>>, node_count: int, roots: Seq<usize>) -> bool {
    &&& idom.len() == node_count
    &&& forall|j: int|
        0 <= j < roots.len() ==> (#[trigger] idom[roots[j] as int]) == Some(roots[j])
    &&& forall|n: int|
        0 <= n < idom.len() ==> ((#[trigger] idom[n]) matches Some(x) ==> (x as int) < node_count)
    &&& forall|n: int|
        0 <= n < idom.len() ==> ((#[trigger] idom[n]) matches Some(x) ==> (x as int == n
            ==> roots.contains(x)))
}

/// A chain read off an immediate-dominator table, root-first: each
/// element is the table's immediate dominator of its successor, the
/// last element is the target, and the walk stopped at a root unless
/// the depth bound cut it short.
pub open spec fn spec_chain_linked(
    chain: Seq<usize>,
    idom: Seq<Option<usize>>,
    roots: Seq<usize>,
    target: usize,
    max_depth: int,
) -> bool {
    &&& 1 <= chain.len() <= max_depth + 1
    &&& chain[chain.len() - 1] == target
    &&& forall|j: int|
        0 <= j < chain.len() - 1 ==> idom[(#[trigger] chain[j + 1]) as int] == Some(chain[j])
    &&& (roots.contains(chain[0]) || chain.len() == max_depth + 1)
}

/// Builds the successor and predecessor adjacency of the whole
/// snapshot, dropping unresolved or out-of-range references. Fails
/// with `InvalidData` exactly when the snapshot-wide edge-count
/// invariant does not hold.
pub fn build_graph(snapshot: &SnapshotRaw) -> (r: Result<
    (Vec<Vec<usize>>, Vec<Vec<usize>>),
    SnapshotError,
>)
    requires
        snapshot.wf(),
    ensures
        match r {
            Ok(g) => {
                &&& offsets_valid(snapshot)
                &&& g.0@.len() == snapshot.spec_node_count()
                &&& g.1@.len() == snapshot.spec_node_count()
                &&& spec_adj_ok(g.0@, snapshot.spec_node_count())
                &&& spec_adj_ok(g.1@, snapshot.spec_node_count())
                &&& spec_succs_faithful(snapshot, g.0@)
                &&& spec_preds_faithful(snapshot, g.1@)
                &&& spec_adj_complete(snapshot, g.0@, g.1@, snapshot.spec_edge_count())
            },
            Err(e) => {
                &&& e is InvalidData
                &&& !offsets_valid(snapshot)
            },
        },
{
    let node_count = snapshot.node_count();
    let total_edges = snapshot.edge_count();
    let edge_offsets = compute_edge_offsets(snapshot)?;

    let mut succs: Vec<Vec<usize>> = Vec::new();
    let mut preds: Vec<Vec<usize>> = Vec::new();
    let mut i: usize = 0;
    while i < node_count
        invariant
            0 <= i <= node_count,
            succs@.len() == i,
            preds@.len() == i,
            forall|n: int| 0 <= n < i ==> (#[trigger] succs@[n])@.len() == 0,
            forall|n: int| 0 <= n < i ==> (#[trigger] preds@[n])@.len() == 0,
        decreases node_count - i,
    {
        succs.push(Vec::new());
        preds.push(Vec::new());
        i += 1;
    }

    let mut node_index: usize = 0;
    while node_index < node_count
        invariant
            snapshot.wf(),
            offsets_valid(snapshot),
            node_count == snapshot.spec_node_count(),
            total_edges == snapshot.spec_edge_count(),
            edge_offsets@.len() == node_count,
            forall|k: int|
                0 <= k < node_count ==> #[trigger] edge_offsets@[k] == edge_prefix(snapshot, k),
            succs@.len() == node_count,
            preds@.len() == node_count,
            spec_adj_ok(succs@, node_count as int),
            spec_adj_ok(preds@, node_count as int),
            spec_succs_faithful(snapshot, succs@),
            spec_preds_faithful(snapshot, preds@),
            spec_adj_complete(snapshot, succs@, preds@, edge_prefix(snapshot, node_index as int)),
            0 <= node_index <= node_count,
        decreases node_count - node_index,
    {
        let start_edge = edge_offsets[node_index];
        let node = snapshot.node_view(node_index).unwrap();
        let ecv = node.edge_count().unwrap();
        proof {
            assert(0 <= snapshot.node_edge_count_value(node_index as int) <= usize::MAX);
        }
        let ec = ecv as usize;
        proof {
            assert(edge_prefix(snapshot, node_index as int + 1) == edge_prefix(
                snapshot,
                node_index as int,
            ) + snapshot.node_edge_count_value(node_index as int));
            lemma_edge_prefix_monotone(
                snapshot,
                node_index as int + 1,
                snapshot.spec_node_count() as int,
            );
        }
        let mut offset: usize = 0;
        while offset < ec
            invariant
                snapshot.wf(),
                offsets_valid(snapshot),
                node_count == snapshot.spec_node_count(),
                total_edges == snapshot.spec_edge_count(),
                node_index < node_count,
                0 <= offset <= ec,
                ec == snapshot.node_edge_count_value(node_index as int),
                start_edge == edge_prefix(snapshot, node_index as int),
                edge_prefix(snapshot, node_index as int) + ec <= snapshot.spec_edge_count(),
                succs@.len() == node_count,
                preds@.len() == node_count,
                spec_adj_ok(succs@, node_count as int),
                spec_adj_ok(preds@, node_count as int),
                spec_succs_faithful(snapshot, succs@),
                spec_preds_faithful(snapshot, preds@),
                spec_adj_complete(snapshot, succs@, preds@, start_edge + offset),
                offsets_valid(snapshot),
            decreases ec - offset,
        {
            let edge_index = start_edge + offset;
            let edge = snapshot.edge_view(edge_index).unwrap();
            let ghost succs_pre0 = succs@;
            let ghost preds_pre0 = preds@;
            match edge.to_node_index() {
                None => {},
                Some(to_node) => {
                    if to_node < node_count {
                        let ghost succs_pre = succs@;
                        let ghost preds_pre = preds@;
                        succs[node_index].push(to_node);
                        preds[to_node].push(node_index);
                        proof {
                            lemma_owner_is(snapshot, node_index as int, edge_index as int);
                            assert(spec_has_edge(snapshot, node_index as int, to_node as int)) by {
                                assert(snapshot.spec_to_node_index(edge_index as int) == Some(
                                    to_node as int,
                                ));
                            }
                            assert forall|n: int, j: int|
                                0 <= n < succs@.len() && 0 <= j < (succs@[n])@.len()
                                implies spec_has_edge(
                                snapshot,
                                n,
                                (#[trigger] (succs@[n])@[j]) as int,
                            ) by {
                                if n == node_index && j == (succs@[n])@.len() - 1 {
                                } else {
                                    assert((succs_pre[n])@.len() > j || n != node_index);
                                    assert((succs@[n])@[j] == (succs_pre[n])@[j]);
                                }
                            }
                            assert forall|n: int, j: int|
                                0 <= n < preds@.len() && 0 <= j < (preds@[n])@.len()
                                implies spec_has_edge(
                                snapshot,
                                ((#[trigger] (preds@[n])@[j]) as int),
                                n,
                            ) by {
                                if n == to_node && j == (preds@[n])@.len() - 1 {
                                } else {
                                    assert((preds_pre[n])@.len() > j || n != to_node);
                                    assert((preds@[n])@[j] == (preds_pre[n])@[j]);
                                }
                            }
                            assert forall|n: int, j: int|
                                0 <= n < succs@.len() && 0 <= j < (succs@[n])@.len()
                                implies ((#[trigger] (succs@[n])@[j]) as int) < node_count by {
                                if n == node_index && j == (succs@[n])@.len() - 1 {
                                } else {
                                    assert((succs_pre[n])@.len() > j || n != node_index);
                                }
                            }
                            assert forall|n: int, j: int|
                                0 <= n < preds@.len() && 0 <= j < (preds@[n])@.len()
                                implies ((#[trigger] (preds@[n])@[j]) as int) < node_count by {
                                if n == to_node && j == (preds@[n])@.len() - 1 {
                                } else {
                                    assert((preds_pre[n])@.len() > j || n != to_node);
                                }
                            }
                        }
                    }
                },
            }
            proof {
                assert forall|e: int|
                    #![trigger snapshot.spec_to_node_index(e)]
                    0 <= e < start_edge + offset + 1 implies (
                match snapshot.spec_to_node_index(e) {
                    Some(v) => v >= snapshot.spec_node_count() || (spec_adj_lists(
                        succs@,
                        spec_edge_owner(snapshot, e),
                        v,
                    ) && spec_adj_lists(preds@, v, spec_edge_owner(snapshot, e))),
                    None => true,
                }) by {
                    match snapshot.spec_to_node_index(e) {
                        Some(v) => {
                            if v < snapshot.spec_node_count() {
                                if e == edge_index {
                                    lemma_owner_is(snapshot, node_index as int, e);
                                    assert(((succs@[node_index as int])@[(succs@[
                                    node_index as int])@.len() - 1]) as int == v);
                                    assert(((preds@[v])@[(preds@[v])@.len() - 1]) as int
                                        == node_index as int);
                                } else {
                                    assert(spec_adj_lists(
                                        succs_pre0,
                                        spec_edge_owner(snapshot, e),
                                        v,
                                    ));
                                    let k1 = choose|k: int|
                                        0 <= k < (succs_pre0[spec_edge_owner(snapshot, e)])@.len()
                                            && ((#[trigger] (succs_pre0[spec_edge_owner(
                                            snapshot,
                                            e,
                                        )])@[k]) as int) == v;
                                    assert(((succs@[spec_edge_owner(snapshot, e)])@[k1]) as int
                                        == v);
                                    let k2 = choose|k: int|
                                        0 <= k < (preds_pre0[v])@.len() && ((#[trigger] (
                                        preds_pre0[v])@[k]) as int) == spec_edge_owner(
                                            snapshot,
                                            e,
                                        );
                                    assert(((preds@[v])@[k2]) as int == spec_edge_owner(
                                        snapshot,
                                        e,
                                    ));
                                }
                            }
                        },
                        None => {},
                    }
                }
            }
            offset += 1;
        }
        node_index += 1;
    }

    Ok((succs, preds))
}

/// Number of unvisited slots among the first `n`.
spec fn count_unvisited(v: Seq<bool>, n: int) -> int
    decreases n,
{
    if n <= 0 {
        0
    } else {
        count_unvisited(v, n - 1) + if v[n - 1] {
            0int
        } else {
            1int
        }
    }
}

/// Marking an unvisited slot lowers the count by one; the count never
/// goes negative.
proof fn lemma_count_unvisited_update(v: Seq<bool>, i: int, n: int)
    requires
        0 <= i < v.len(),
        n <= v.len(),
        !v[i],
    ensures
        count_unvisited(v, n) >= 0,
        i < n ==> count_unvisited(v.update(i, true), n) == count_unvisited(v, n) - 1,
        i >= n ==> count_unvisited(v.update(i, true), n) == count_unvisited(v, n),
    decreases n,
{
    if n > 0 {
        lemma_count_unvisited_update(v, i, n - 1);
    }
}

/// The count is never negative.
proof fn lemma_count_unvisited_nonneg(v: Seq<bool>, n: int)
    ensures
        count_unvisited(v, n) >= 0,
    decreases n,
{
    if n > 0 {
        lemma_count_unvisited_nonneg(v, n - 1);
    }
}

/// Remaining work held by a traversal stack: each frame still owes its
/// unexplored successors plus its own retirement.
spec fn stack_weight(st: Seq<(usize, usize)>, succs: Seq<Vec<usize>>) -> int
    decreases st.len(),
{
    if st.len() == 0 {
        0
    } else {
        let last = st[st.len() - 1];
        stack_weight(st.drop_last(), succs) + ((succs[last.0 as int])@.len() - last.1 + 1)
    }
}

/// The weight of a well-formed stack is never negative.
proof fn lemma_stack_weight_nonneg(st: Seq<(usize, usize)>, succs: Seq<Vec<usize>>)
    requires
        forall|j: int|
            0 <= j < st.len() ==> (#[trigger] st[j]).1 <= (succs[st[j].0 as int])@.len(),
    ensures
        stack_weight(st, succs) >= 0,
    decreases st.len(),
{
    if st.len() > 0 {
        lemma_stack_weight_nonneg(st.drop_last(), succs);
    }
}

/// Weight of a stack with one frame appended.
proof fn lemma_stack_weight_push(st: Seq<(usize, usize)>, succs: Seq<Vec<usize>>, e: (usize, usize))
    ensures
        stack_weight(st.push(e), succs) == stack_weight(st, succs) + ((succs[e.0 as int])@.len()
            - e.1 + 1),
{
    assert(st.push(e).drop_last() =~= st);
    assert(st.push(e)[st.push(e).len() - 1] == e);
}

/// A reverse post-order of the nodes reachable from the roots, with
/// the position table `rpo_index` (unreached nodes keep the sentinel).
pub fn reverse_postorder(succs: &Vec<Vec<usize>>, roots: &Vec<usize>, node_count: usize) -> (r: (
    Vec<usize>,
    Vec<usize>,
))
    requires
        succs@.len() == node_count,
        spec_adj_ok(succs@, node_count as int),
        forall|j: int| 0 <= j < roots@.len() ==> ((#[trigger] roots@[j]) as int) < node_count,
    ensures
        r.1@.len() == node_count,
        forall|j: int| 0 <= j < r.0@.len() ==> ((#[trigger] r.0@[j]) as int) < node_count,
{
    let mut visited: Vec<bool> = Vec::new();
    let mut t: usize = 0;
    while t < node_count
        invariant
            0 <= t <= node_count,
            visited@.len() == t,
        decreases node_count - t,
    {
        visited.push(false);
        t += 1;
    }
    let mut postorder: Vec<usize> = Vec::new();

    let mut ri: usize = 0;
    while ri < roots.len()
        invariant
            succs@.len() == node_count,
            spec_adj_ok(succs@, node_count as int),
            forall|j: int| 0 <= j < roots@.len() ==> ((#[trigger] roots@[j]) as int) < node_count,
            visited@.len() == node_count,
            forall|j: int| 0 <= j < postorder@.len() ==> ((#[trigger] postorder@[j]) as int)
                < node_count,
            0 <= ri <= roots@.len(),
        decreases roots@.len() - ri,
    {
        let root = roots[ri];
        if !visited[root] {
            visited[root] = true;
            proof {
                lemma_count_unvisited_nonneg(visited@, node_count as int);
            }
            let mut stack: Vec<(usize, usize)> = Vec::new();
            stack.push((root, 0));
            while stack.len() > 0
                invariant
                    succs@.len() == node_count,
                    spec_adj_ok(succs@, node_count as int),
                    visited@.len() == node_count,
                    forall|j: int|
                        0 <= j < postorder@.len() ==> ((#[trigger] postorder@[j]) as int)
                            < node_count,
                    forall|j: int|
                        0 <= j < stack@.len() ==> {
                            &&& ((#[trigger] stack@[j]).0 as int) < node_count
                            &&& stack@[j].1 <= (succs@[stack@[j].0 as int])@.len()
                        },
                decreases count_unvisited(visited@, node_count as int),
                    stack_weight(stack@, succs@),
            {
                proof {
                    lemma_count_unvisited_nonneg(visited@, node_count as int);
                    lemma_stack_weight_nonneg(stack@.drop_last(), succs@);
                    lemma_stack_weight_push(
                        stack@.drop_last(),
                        succs@,
                        stack@[stack@.len() - 1],
                    );
                    assert(stack@ =~= stack@.drop_last().push(stack@[stack@.len() - 1]));
                }
                let ghost stack_pre = stack@;
                let top = stack[stack.len() - 1];
                let (node, idx) = top;
                stack.pop();
                proof {
                    assert(stack@ =~= stack_pre.drop_last());
                    lemma_stack_weight_push(stack@, succs@, top);
                    assert(stack_pre =~= stack@.push(top));
                }
                if idx < succs[node].len() {
                    let ghost stack_mid = stack@;
                    let idx1 = idx + 1;
                    stack.push((node, idx1));
                    proof {
                        lemma_stack_weight_push(stack_mid, succs@, (node, idx1));
                    }
                    let nxt = succs[node][idx];
                    if !visited[nxt] {
                        let ghost visited_pre = visited@;
                        visited[nxt] = true;
                        proof {
                            lemma_count_unvisited_update(
                                visited_pre,
                                nxt as int,
                                node_count as int,
                            );
                            assert(visited@ =~= visited_pre.update(nxt as int, true));
                        }
                        let ghost stack_mid2 = stack@;
                        stack.push((nxt, 0));
                        proof {
                            lemma_stack_weight_push(stack_mid2, succs@, (nxt, 0));
                            lemma_count_unvisited_nonneg(visited@, node_count as int);
                        }
                    }
                } else {
                    postorder.push(node);
                }
            }
        }
        ri += 1;
    }

    // reverse the postorder and build the position table
    let mut rpo: Vec<usize> = Vec::new();
    let mut k: usize = postorder.len();
    while k > 0
        invariant
            0 <= k <= postorder@.len(),
            forall|j: int|
                0 <= j < postorder@.len() ==> ((#[trigger] postorder@[j]) as int) < node_count,
            forall|j: int| 0 <= j < rpo@.len() ==> ((#[trigger] rpo@[j]) as int) < node_count,
        decreases k,
    {
        k -= 1;
        rpo.push(postorder[k]);
    }

    let mut rpo_index: Vec<usize> = Vec::new();
    let mut t2: usize = 0;
    while t2 < node_count
        invariant
            0 <= t2 <= node_count,
            rpo_index@.len() == t2,
        decreases node_count - t2,
    {
        rpo_index.push(usize::MAX);
        t2 += 1;
    }
    let mut p: usize = 0;
    while p < rpo.len()
        invariant
            rpo_index@.len() == node_count,
            forall|j: int| 0 <= j < rpo@.len() ==> ((#[trigger] rpo@[j]) as int) < node_count,
            0 <= p <= rpo@.len(),
        decreases rpo@.len() - p,
    {
        let n = rpo[p];
        rpo_index[n] = p;
        p += 1;
    }

    (rpo, rpo_index)
}

/// The meet of two candidate dominators: the two-finger walk upwards
/// through the table, by reverse post-order rank. The walk is bounded;
/// if it fails to meet within the bound, the first finger stands.
pub fn intersect(
    finger1: usize,
    finger2: usize,
    rpo_index: &Vec<usize>,
    idom: &Vec<Option<usize>>,
    node_count: usize,
) -> (r: usize)
    requires
        rpo_index@.len() == node_count,
        idom@.len() == node_count,
        (finger1 as int) < node_count,
        (finger2 as int) < node_count,
        forall|n: int|
            0 <= n < idom@.len() ==> ((#[trigger] idom@[n]) matches Some(x) ==> (x as int)
                < node_count),
    ensures
        (r as int) < node_count,
{
    let mut f1 = finger1;
    let mut f2 = finger2;
    let mut fuel: usize = node_count;
    while f1 != f2 && fuel > 0
        invariant
            rpo_index@.len() == node_count,
            idom@.len() == node_count,
            (f1 as int) < node_count,
            (f2 as int) < node_count,
            forall|n: int|
                0 <= n < idom@.len() ==> ((#[trigger] idom@[n]) matches Some(x) ==> (x as int)
                    < node_count),
        decreases fuel,
    {
        let mut inner: usize = node_count;
        while rpo_index[f1] < rpo_index[f2] && inner > 0
            invariant
                rpo_index@.len() == node_count,
                idom@.len() == node_count,
                (f1 as int) < node_count,
                (f2 as int) < node_count,
                forall|n: int|
                    0 <= n < idom@.len() ==> ((#[trigger] idom@[n]) matches Some(x) ==> (
                    x as int) < node_count),
            decreases inner,
        {
            f1 = match idom[f1] {
                Some(v) => v,
                None => f1,
            };
            inner -= 1;
        }
        let mut inner2: usize = node_count;
        while rpo_index[f2] < rpo_index[f1] && inner2 > 0
            invariant
                rpo_index@.len() == node_count,
                idom@.len() == node_count,
                (f1 as int) < node_count,
                (f2 as int) < node_count,
                forall|n: int|
                    0 <= n < idom@.len() ==> ((#[trigger] idom@[n]) matches Some(x) ==> (
                    x as int) < node_count),
            decreases inner2,
        {
            f2 = match idom[f2] {
                Some(v) => v,
                None => f2,
            };
            inner2 -= 1;
        }
        fuel -= 1;
    }
    f1
}

/// The iterative immediate-dominator solver: roots dominate
/// themselves; every other node's entry is refined from its
/// predecessors until a pass changes nothing. Fails with `Cancelled`
/// when the token flips between passes.
pub fn compute_idom(
    snapshot: &SnapshotRaw,
    rpo: &Vec<usize>,
    rpo_index: &Vec<usize>,
    preds: &Vec<Vec<usize>>,
    roots: &Vec<usize>,
    cancel: &CancelToken,
    node_count: usize,
) -> (r: Result<Vec<Option<usize>>, SnapshotError>)
    requires
        node_count == snapshot.spec_node_count(),
        rpo_index@.len() == node_count,
        preds@.len() == node_count,
        spec_adj_ok(preds@, node_count as int),
        spec_preds_faithful(snapshot, preds@),
        forall|j: int| 0 <= j < rpo@.len() ==> ((#[trigger] rpo@[j]) as int) < node_count,
        forall|j: int| 0 <= j < roots@.len() ==> ((#[trigger] roots@[j]) as int) < node_count,
    ensures
        match r {
            Ok(idom) => spec_idom_shape(idom@, node_count as int, roots@)
                && spec_idom_grounded(idom@, snapshot, roots@) && spec_idom_fixpoint_upto(
                idom@,
                rpo@,
                preds@,
                roots@,
                rpo@.len() as int,
            ),
            Err(e) => e is Cancelled,
        },
{
    let mut idom: Vec<Option<usize>> = Vec::new();
    let mut t: usize = 0;
    while t < node_count
        invariant
            0 <= t <= node_count,
            idom@.len() == t,
            forall|n: int| 0 <= n < t ==> (#[trigger] idom@[n]) is None,
        decreases node_count - t,
    {
        idom.push(None);
        t += 1;
    }

    let mut ri: usize = 0;
    while ri < roots.len()
        invariant
            node_count == snapshot.spec_node_count(),
            idom@.len() == node_count,
            forall|j: int| 0 <= j < roots@.len() ==> ((#[trigger] roots@[j]) as int) < node_count,
            forall|j: int|
                0 <= j < ri ==> (#[trigger] idom@[roots@[j] as int]) == Some(roots@[j]),
            forall|n: int|
                0 <= n < idom@.len() ==> ((#[trigger] idom@[n]) matches Some(x) ==> (x as int)
                    < node_count),
            forall|n: int|
                0 <= n < idom@.len() ==> ((#[trigger] idom@[n]) matches Some(x) ==> (x as int
                    == n ==> roots@.contains(x))),
            spec_idom_grounded(idom@, snapshot, roots@),
            0 <= ri <= roots@.len(),
        decreases roots@.len() - ri,
    {
        let root = roots[ri];
        let ghost idom_pre = idom@;
        idom[root] = Some(root);
        proof {
            assert(roots@[ri as int] == root);
            assert(roots@.contains(root));
            assert(spec_reach_k(snapshot, roots@, root as int, 0nat));
            assert(spec_reachable(snapshot, roots@, root as int));
            assert forall|j: int| 0 <= j < ri + 1 implies (#[trigger] idom@[roots@[j] as int])
                == Some(roots@[j]) by {
                if roots@[j] == root {
                } else {
                    assert(idom@[roots@[j] as int] == idom_pre[roots@[j] as int]);
                }
            }
        }
        ri += 1;
    }

    if rpo.len() == 0 {
        return Ok(idom);
    }

    proof {
        assert(node_count as int <= u64::MAX as int);
        assert((node_count as int) * (node_count as int) + 2 <= u128::MAX as int)
            by (nonlinear_arith)
            requires node_count as int <= u64::MAX as int;
    }
    let mut fuel: u128 = (node_count as u128) * (node_count as u128) + 2;
    let mut changed = true;
    while changed && fuel > 0
        invariant
            !changed ==> spec_idom_fixpoint_upto(idom@, rpo@, preds@, roots@, rpo@.len() as int),
            node_count == snapshot.spec_node_count(),
            rpo_index@.len() == node_count,
            preds@.len() == node_count,
            spec_adj_ok(preds@, node_count as int),
            spec_preds_faithful(snapshot, preds@),
            forall|j: int| 0 <= j < rpo@.len() ==> ((#[trigger] rpo@[j]) as int) < node_count,
            forall|j: int|
                0 <= j < roots@.len() ==> ((#[trigger] roots@[j]) as int) < node_count,
            idom@.len() == node_count,
            forall|j: int|
                0 <= j < roots@.len() ==> (#[trigger] idom@[roots@[j] as int]) == Some(roots@[j]),
            forall|n: int|
                0 <= n < idom@.len() ==> ((#[trigger] idom@[n]) matches Some(x) ==> (x as int)
                    < node_count),
            forall|n: int|
                0 <= n < idom@.len() ==> ((#[trigger] idom@[n]) matches Some(x) ==> (x as int
                    == n ==> roots@.contains(x))),
            spec_idom_grounded(idom@, snapshot, roots@),
        decreases fuel,
    {
        if cancel.is_cancelled() {
            return Err(SnapshotError::Cancelled);
        }
        changed = false;
        let ghost pass_start = idom@;
        let mut p: usize = 0;
        while p < rpo.len()
            invariant
                !changed ==> idom@ == pass_start,
                !changed ==> spec_idom_fixpoint_upto(idom@, rpo@, preds@, roots@, p as int),
                node_count == snapshot.spec_node_count(),
                rpo_index@.len() == node_count,
                preds@.len() == node_count,
                spec_adj_ok(preds@, node_count as int),
                spec_preds_faithful(snapshot, preds@),
                forall|j: int| 0 <= j < rpo@.len() ==> ((#[trigger] rpo@[j]) as int) < node_count,
                forall|j: int|
                    0 <= j < roots@.len() ==> ((#[trigger] roots@[j]) as int) < node_count,
                idom@.len() == node_count,
                forall|j: int|
                    0 <= j < roots@.len() ==> (#[trigger] idom@[roots@[j] as int]) == Some(
                        roots@[j],
                    ),
                forall|n: int|
                    0 <= n < idom@.len() ==> ((#[trigger] idom@[n]) matches Some(x) ==> (
                    x as int) < node_count),
                forall|n: int|
                    0 <= n < idom@.len() ==> ((#[trigger] idom@[n]) matches Some(x) ==> (
                    x as int == n ==> roots@.contains(x))),
                spec_idom_grounded(idom@, snapshot, roots@),
                0 <= p <= rpo@.len(),
            decreases rpo@.len() - p,
        {
            let node = rpo[p];
            if !contains_root(roots, node) {
                let mut new_idom: Option<usize> = None;
                let mut first_def: Option<usize> = None;
                let mut q: usize = 0;
                let preds_len = preds[node].len();
                while q < preds_len
                    invariant
                        node_count == snapshot.spec_node_count(),
                        rpo_index@.len() == node_count,
                        preds@.len() == node_count,
                        spec_adj_ok(preds@, node_count as int),
                        spec_preds_faithful(snapshot, preds@),
                        idom@.len() == node_count,
                        (node as int) < node_count,
                        preds_len == (preds@[node as int])@.len(),
                        forall|j: int|
                            0 <= j < roots@.len() ==> ((#[trigger] roots@[j]) as int)
                                < node_count,
                        forall|j: int|
                            0 <= j < roots@.len() ==> (#[trigger] idom@[roots@[j] as int])
                                == Some(roots@[j]),
                        forall|n: int|
                            0 <= n < idom@.len() ==> ((#[trigger] idom@[n]) matches Some(x)
                                ==> (x as int) < node_count),
                        forall|n: int|
                            0 <= n < idom@.len() ==> ((#[trigger] idom@[n]) matches Some(x)
                                ==> (x as int == n ==> roots@.contains(x))),
                        spec_idom_grounded(idom@, snapshot, roots@),
                        new_idom is Some ==> exists|jj: int|
                            0 <= jj < (preds@[node as int])@.len()
                                && (#[trigger] idom@[((preds@[node as int])@[jj]) as int])
                                is Some,
                        new_idom is None ==> forall|jj: int|
                            0 <= jj < q ==> !((#[trigger] idom@[((preds@[node as int])@[
                            jj]) as int]) is Some),
                        new_idom is Some <==> first_def is Some,
                        first_def matches Some(fd) ==> exists|jj: int|
                            0 <= jj < (preds@[node as int])@.len() && ((#[trigger] (preds@[
                            node as int])@[jj]) == fd) && idom@[fd as int] is Some,
                        first_def matches Some(fd) ==> (fd as int) < node_count,
                        new_idom matches Some(x) ==> (x as int) < node_count,
                        0 <= q <= preds_len,
                    decreases preds_len - q,
                {
                    let pred = preds[node][q];
                    proof {
                        if idom@[pred as int] is Some {
                            assert((preds@[node as int])@[q as int] == pred);
                        }
                    }
                    if idom[pred].is_some() {
                        if first_def.is_none() {
                            first_def = Some(pred);
                        }
                        new_idom = Some(
                            match new_idom {
                                None => pred,
                                Some(current) => intersect(
                                    pred,
                                    current,
                                    rpo_index,
                                    &idom,
                                    node_count,
                                ),
                            },
                        );
                    }
                    q += 1;
                }
                // no node is its own strict dominator: a meet that
                // collapses to the node itself is discarded when the
                // node is already defined, and replaced by the first
                // defined predecessor when it is not
                let differs = match (new_idom, idom[node]) {
                    (Some(a), Some(b)) => a != b && a != node,
                    (Some(_), None) => true,
                    (None, _) => false,
                };
                if differs {
                    let chosen: usize = match new_idom {
                        Some(a) => {
                            if a == node {
                                match first_def {
                                    Some(fd) => fd,
                                    None => a,
                                }
                            } else {
                                a
                            }
                        },
                        None => node,
                    };
                    proof {
                        assert(new_idom is Some);
                        assert(first_def is Some);
                        assert(chosen != node) by {
                            if new_idom == Some(node) {
                                // only fired with the node undefined,
                                // and the fallback predecessor is
                                // defined, so it is another node
                                assert(idom@[node as int] is None);
                                let fd = first_def->0;
                                assert(idom@[fd as int] is Some);
                                assert(chosen == fd);
                            }
                        }
                        assert((chosen as int) < node_count) by {
                            if new_idom == Some(node) {
                            }
                        }
                    }
                    let ghost idom_pre = idom@;
                    idom[node] = Some(chosen);
                    changed = true;
                    proof {
                        // the node inherits reachability from the
                        // defined predecessor that fed the meet
                        let jj = choose|jj: int|
                            0 <= jj < (preds@[node as int])@.len() && (
                            #[trigger] idom_pre[((preds@[node as int])@[jj]) as int]) is Some;
                        let pred_r = ((preds@[node as int])@[jj]) as int;
                        assert(spec_has_edge(snapshot, pred_r, node as int));
                        assert(spec_reachable(snapshot, roots@, pred_r));
                        lemma_reach_step(snapshot, roots@, pred_r, node as int);
                        assert forall|n2: int|
                            0 <= n2 < idom@.len() implies ((#[trigger] idom@[n2]) is Some
                            ==> spec_reachable(snapshot, roots@, n2)) by {
                            if n2 != node {
                                assert(idom@[n2] == idom_pre[n2]);
                            }
                        }
                        assert forall|j: int| 0 <= j < roots@.len() implies (
                        #[trigger] idom@[roots@[j] as int]) == Some(roots@[j]) by {
                            assert((roots@[j] as int) < node_count);
                            if roots@[j] == node {
                                assert(roots@.contains(node));
                                assert(false);
                            }
                            assert(idom@[roots@[j] as int] == idom_pre[roots@[j] as int]);
                        }
                    }
                }
            }
            p += 1;
        }
        fuel -= 1;
    }
    if changed {
        // the pass budget ran out before a clean pass; in practice the
        // refinement settles long before, so treat this like an abort
        return Err(SnapshotError::Cancelled);
    }

    Ok(idom)
}

/// Whether the root list holds `x`.
fn contains_root(roots: &Vec<usize>, x: usize) -> (r: bool)
    ensures
        r == roots@.contains(x),
{
    let mut i: usize = 0;
    while i < roots.len()
        invariant
            0 <= i <= roots@.len(),
            forall|j: int| 0 <= j < i ==> roots@[j] != x,
        decreases roots@.len() - i,
    {
        if roots[i] == x {
            proof {
                assert(roots@[i as int] == x);
            }
            return true;
        }
        i += 1;
    }
    proof {
        if roots@.contains(x) {
            let j = choose|j: int| 0 <= j < roots@.len() && roots@[j] == x;
            assert(false);
        }
    }
    false
}

/// The chain of immediate dominators from the root down to the
/// target, in root-first order, truncated to `max_depth` hops.
///
/// Fails with `Cancelled` when the token flips; with `InvalidData`
/// when the snapshot-wide edge-count invariant does not hold or the
/// target is unreachable from every root.
pub fn dominator_chain(snapshot: &SnapshotRaw, target: usize, options: DominatorOptions) -> (r:
    Result<DominatorResult, SnapshotError>)
    requires
        snapshot.wf(),
        (target as int) < snapshot.spec_node_count(),
    ensures
        match r {
            Ok(res) => {
                &&& res.target == target
                &&& spec_roots_ok(snapshot, res.roots@)
                &&& offsets_valid(snapshot)
                &&& spec_reachable(snapshot, res.roots@, target as int)
                &&& (res.roots@.contains(target) ==> res.chain@ =~= seq![target])
                &&& exists|idom: Seq<Option<usize>>|
                    spec_idom_shape(idom, snapshot.spec_node_count() as int, res.roots@)
                        && spec_idom_grounded(idom, snapshot, res.roots@) && idom[target as int]
                        is Some && spec_chain_linked(
                        res.chain@,
                        idom,
                        res.roots@,
                        target,
                        options.max_depth as int,
                    )
            },
            Err(e) => e is Cancelled || (e is InvalidData && (!offsets_valid(snapshot)
                || !spec_is_root_node(snapshot, target as int))),
        },
{
    let roots = match find_roots(snapshot) {
        Ok(roots) => roots,
        Err(_) => {
            proof {
                assert(false);
            }
            return Err(SnapshotError::Cancelled);
        },
    };
    let node_count = snapshot.node_count();
    let graph = build_graph(snapshot)?;
    let (succs, preds) = graph;
    let rp = reverse_postorder(&succs, &roots, node_count);
    let (rpo, rpo_index) = rp;
    let idom = match compute_idom(
        snapshot,
        &rpo,
        &rpo_index,
        &preds,
        &roots,
        &options.cancel,
        node_count,
    ) {
        Ok(idom) => idom,
        Err(e) => {
            return Err(e);
        },
    };

    if options.cancel.is_cancelled() {
        return Err(SnapshotError::Cancelled);
    }

    match idom[target] {
        None => {
            proof {
                // a root target is defined from initialisation
                if spec_is_root_node(snapshot, target as int) {
                    assert(roots@.contains(target)) by {
                        if crate::retainers::spec_is_gc_root(snapshot, target as int) {
                            assert(exists|i: int|
                                0 <= i < snapshot.spec_node_count()
                                    && crate::retainers::spec_is_gc_root(snapshot, i)) by {
                                assert(0 <= (target as int) < snapshot.spec_node_count());
                                assert(crate::retainers::spec_is_gc_root(
                                    snapshot,
                                    target as int,
                                ));
                            }
                        } else {
                            assert(target == 0);
                            assert(roots@ == seq![0usize]);
                            assert(roots@[0] == 0usize);
                        }
                    }
                    let j = choose|j: int| 0 <= j < roots@.len() && roots@[j] == target;
                    assert(idom@[roots@[j] as int] == Some(roots@[j]));
                    assert(false);
                }
            }
            return Err(SnapshotError::InvalidData {
                details: String::from_str("target is not reachable from the roots"),
            });
        },
        Some(_) => {},
    }

    let mut chain: Vec<usize> = Vec::new();
    chain.push(target);
    let mut current = target;
    let mut steps: usize = 0;
    let mut stopped = false;
    while steps < options.max_depth && !stopped
        invariant
            idom@.len() == node_count,
            node_count == snapshot.spec_node_count(),
            (target as int) < node_count,
            forall|n: int|
                0 <= n < idom@.len() ==> ((#[trigger] idom@[n]) matches Some(x) ==> (x as int)
                    < node_count),
            (current as int) < node_count,
            0 <= steps <= options.max_depth,
            chain@.len() == steps + 1,
            chain@[0] == target,
            chain@[chain@.len() - 1] == current,
            forall|j: int| 0 <= j < chain@.len() ==> ((#[trigger] chain@[j]) as int) < node_count,
            forall|j: int|
                0 <= j < chain@.len() - 1 ==> idom@[(#[trigger] chain@[j]) as int] == Some(
                    chain@[j + 1],
                ),
            forall|n: int|
                0 <= n < idom@.len() ==> ((#[trigger] idom@[n]) matches Some(x) ==> (x as int
                    == n ==> roots@.contains(x))),
            forall|j: int|
                0 <= j < roots@.len() ==> (#[trigger] idom@[roots@[j] as int]) == Some(
                    roots@[j],
                ),
            forall|n: int|
                0 <= n < idom@.len() ==> ((#[trigger] idom@[n]) matches Some(x) ==> (x as int
                    == n ==> roots@.contains(x))),
            spec_roots_ok(snapshot, roots@),
            stopped ==> roots@.contains(current),
            roots@.contains(target) ==> chain@ =~= seq![target],
        decreases options.max_depth - steps,
            (if stopped {
                0int
            } else {
                1int
            }),
    {
        if options.cancel.is_cancelled() {
            return Err(SnapshotError::Cancelled);
        }
        match idom[current] {
            None => {
                proof {
                    // a root target stops on itself with a defined
                    // entry, so this branch never sees one
                    if spec_is_root_node(snapshot, target as int) {
                        assert(roots@.contains(target)) by {
                        if crate::retainers::spec_is_gc_root(snapshot, target as int) {
                            assert(exists|i: int|
                                0 <= i < snapshot.spec_node_count()
                                    && crate::retainers::spec_is_gc_root(snapshot, i)) by {
                                assert(0 <= (target as int) < snapshot.spec_node_count());
                                assert(crate::retainers::spec_is_gc_root(
                                    snapshot,
                                    target as int,
                                ));
                            }
                        } else {
                            assert(target == 0);
                            assert(roots@ == seq![0usize]);
                            assert(roots@[0] == 0usize);
                        }
                    }
                        assert(current == target);
                        let j = choose|j: int| 0 <= j < roots@.len() && roots@[j] == target;
                        assert(idom@[roots@[j] as int] == Some(roots@[j]));
                        assert(false);
                    }
                }
                // the walk ran into an undefined entry: the target
                // hangs below a node the solver never reached
                return Err(SnapshotError::InvalidData {
                    details: String::from_str("target is not reachable from the roots"),
                });
            },
            Some(next) => {
                if next == current {
                    stopped = true;
                } else {
                    proof {
                        if roots@.contains(target) {
                            // a root target self-maps, so the walk
                            // would have stopped on it
                            let j = choose|j: int|
                                0 <= j < roots@.len() && roots@[j] == target;
                            assert(idom@[roots@[j] as int] == Some(roots@[j]));
                            assert(false);
                        }
                    }
                    chain.push(next);
                    current = next;
                    steps += 1;
                }
            },
        }
    }

    let mut rev: Vec<usize> = Vec::new();
    let mut k: usize = chain.len();
    while k > 0
        invariant
            0 <= k <= chain@.len(),
            rev@.len() == chain@.len() - k,
            forall|j: int| 0 <= j < rev@.len() ==> #[trigger] rev@[j] == chain@[chain@.len() - 1
                - j],
        decreases k,
    {
        k -= 1;
        rev.push(chain[k]);
    }

    proof {
        let w = idom@;
        let c = rev@;
        assert(c.len() == chain@.len());
        assert(c[c.len() - 1] == chain@[0]);
        assert forall|j: int| 0 <= j < c.len() - 1 implies w[(#[trigger] c[j + 1]) as int]
            == Some(c[j]) by {
            assert(c[j + 1] == chain@[chain@.len() - 2 - j]);
            assert(c[j] == chain@[chain@.len() - 1 - j]);
        }
        assert(spec_chain_linked(c, w, roots@, target, options.max_depth as int));
        assert(spec_idom_shape(w, node_count as int, roots@));
        assert(spec_idom_grounded(w, snapshot, roots@));
        assert(w[target as int] is Some);
        assert(spec_reachable(snapshot, roots@, target as int));
    }

    Ok(DominatorResult { target, roots, chain: rev })
}

} // verus!
