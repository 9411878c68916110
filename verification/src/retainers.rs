use vstd::prelude::*;
use crate::cancel::CancelToken;
use crate::error::SnapshotError;
use crate::offsets::{
    compute_edge_offsets, edge_counts_in_range, edge_prefix, lemma_edge_prefix_monotone,
    lemma_owner_unique, offsets_valid,
};
use crate::snapshot::SnapshotRaw;
use crate::text::{contains_substring, has_substring, str_eq};

verus! {

/// Options of the retainers engine: how many paths to emit, how deep
/// to search, and the cancellation token polled along the way.
pub struct RetainersOptions {
    pub max_paths: usize,
    pub max_depth: usize,
    pub cancel: CancelToken,
}

/// One step of a retaining path: the edge record `edge_index` leads
/// from `from_node` to `to_node`.
#[derive(Clone, Copy, Debug)]
pub struct RetainerLink {
    pub from_node: usize,
    pub edge_index: usize,
    pub to_node: usize,
}

/// The retainers answer: the target, the traversal roots, and the
/// retaining paths found, each in root-to-target order.
pub struct RetainersResult {
    pub target: usize,
    pub roots: Vec<usize>,
    pub paths: Vec<Vec<RetainerLink>>,
}

/// How to choose among several constructor groups matching a name
/// filter: by summed self size, or by node count.
#[derive(Clone, Copy, Debug)]
pub enum PickStrategy {
    Largest,
    Count,
}

/// Whether node `i` is a traversal origin: its resolved name reads
/// exactly `GC roots`.
pub open spec fn spec_is_gc_root(s: &SnapshotRaw, i: int) -> bool {
    let t = s.node_name_value(i) as int;
    &&& 0 <= t < s.strings@.len()
    &&& s.strings@[t]@ == "GC roots"@
}

/// The link names an actual edge record owned by `from_node` whose
/// reference resolves to `to_node`, itself a node of the snapshot.
pub open spec fn spec_link_wf(s: &SnapshotRaw, l: RetainerLink) -> bool {
    &&& (l.from_node as int) < s.spec_node_count()
    &&& edge_prefix(s, l.from_node as int) <= l.edge_index < edge_prefix(s, l.from_node as int)
        + s.node_edge_count_value(l.from_node as int)
    &&& s.spec_to_node_index(l.edge_index as int) == Some(l.to_node as int)
    &&& (l.to_node as int) < s.spec_node_count()
}

/// The nodes a path visits: the source of every step, then the final
/// target.
pub open spec fn spec_path_nodes(path: Seq<RetainerLink>, target: int) -> Seq<int> {
    Seq::new(
        (path.len() + 1) as nat,
        |j: int|
            if j < path.len() {
                path[j].from_node as int
            } else {
                target
            },
    )
}

/// A sound retaining path: every step is an actual edge, consecutive
/// steps chain, the path starts at a root, ends at the target, stays
/// within the depth bound, and visits no node twice.
pub open spec fn spec_path_wf(
    s: &SnapshotRaw,
    roots: Seq<usize>,
    target: int,
    path: Seq<RetainerLink>,
    max_depth: int,
) -> bool {
    &&& 1 <= path.len() <= max_depth
    &&& forall|j: int| 0 <= j < path.len() ==> spec_link_wf(s, #[trigger] path[j])
    &&& path[path.len() - 1].to_node == target
    &&& forall|j: int| 0 <= j < path.len() - 1 ==> (#[trigger] path[j].to_node) as int == path[
        j + 1].from_node as int
    &&& roots.contains(path[0].from_node)
    &&& spec_path_nodes(path, target).no_duplicates()
}

/// What `find_roots` promises of its answer: every root is a node; if
/// any node is named `GC roots` the roots are exactly those nodes, and
/// otherwise node 0 stands in.
pub open spec fn spec_roots_ok(s: &SnapshotRaw, roots: Seq<usize>) -> bool {
    &&& roots.len() > 0
    &&& forall|j: int| 0 <= j < roots.len() ==> ((#[trigger] roots[j]) as int)
        < s.spec_node_count()
    &&& forall|p: int, q: int|
        0 <= p < q < roots.len() ==> #[trigger] roots[p] < #[trigger] roots[q]
    &&& if exists|i: int| 0 <= i < s.spec_node_count() && spec_is_gc_root(s, i) {
        &&& forall|j: int| 0 <= j < roots.len() ==> spec_is_gc_root(s, (#[trigger] roots[j]) as int)
        &&& forall|i: int|
            0 <= i < s.spec_node_count() && spec_is_gc_root(s, i) ==> roots.contains(i as usize)
    } else {
        roots == seq![0usize]
    }
}

/// Whether the node view points at a GC root.
pub fn is_gc_root(node: &crate::snapshot::NodeView<'_>) -> (r: bool)
    requires
        node.wf(),
    ensures
        r == spec_is_gc_root(node.snapshot, node.node_index as int),
{
    match node.name() {
        Some(name) => str_eq(name, "GC roots"),
        None => false,
    }
}

/// Collects every node named `GC roots`; with none present, node 0
/// stands in. Fails with `InvalidData` exactly when the snapshot has
/// no nodes at all.
pub fn find_roots(snapshot: &SnapshotRaw) -> (r: Result<Vec<usize>, SnapshotError>)
    requires
        snapshot.wf(),
    ensures
        match r {
            Ok(roots) => {
                &&& snapshot.spec_node_count() > 0
                &&& spec_roots_ok(snapshot, roots@)
            },
            Err(e) => {
                &&& e is InvalidData
                &&& snapshot.spec_node_count() == 0
            },
        },
{
    let node_count = snapshot.node_count();
    let mut roots: Vec<usize> = Vec::new();
    let mut i: usize = 0;
    while i < node_count
        invariant
            snapshot.wf(),
            node_count == snapshot.spec_node_count(),
            0 <= i <= node_count,
            forall|j: int| 0 <= j < roots@.len() ==> ((#[trigger] roots@[j]) as int) < node_count,
            forall|j: int| 0 <= j < roots@.len() ==> ((#[trigger] roots@[j]) as int) < i,
            forall|p: int, q: int|
                0 <= p < q < roots@.len() ==> #[trigger] roots@[p] < #[trigger] roots@[q],
            forall|j: int|
                0 <= j < roots@.len() ==> spec_is_gc_root(snapshot, (#[trigger] roots@[j]) as int),
            forall|k: int|
                0 <= k < i && spec_is_gc_root(snapshot, k) ==> roots@.contains(k as usize),
        decreases node_count - i,
    {
        let node = snapshot.node_view(i).unwrap();
        let ghost roots_pre = roots@;
        if is_gc_root(&node) {
            roots.push(i);
            proof {
                assert forall|k: int| 0 <= k < i + 1 && spec_is_gc_root(snapshot, k)
                    implies roots@.contains(k as usize) by {
                    if k == i {
                        assert(roots@[roots@.len() - 1] == k as usize);
                    } else {
                        let idx = choose|idx: int|
                            0 <= idx < roots_pre.len() && roots_pre[idx] == k as usize;
                        assert(roots@[idx] == k as usize);
                    }
                }
            }
        } else {
            proof {
                assert(!spec_is_gc_root(snapshot, i as int));
            }
        }
        i += 1;
    }

    if roots.len() == 0 {
        if node_count > 0 {
            roots.push(0);
            proof {
                assert(roots@ =~= seq![0usize]);
                if exists|k: int|
                    0 <= k < snapshot.spec_node_count() && spec_is_gc_root(snapshot, k) {
                    let k = choose|k: int|
                        0 <= k < snapshot.spec_node_count() && spec_is_gc_root(snapshot, k);
                    assert(false);
                }
            }
            return Ok(roots);
        }
        return Err(SnapshotError::InvalidData {
            details: String::from_str("snapshot has no nodes, so no traversal roots exist"),
        });
    }
    proof {
        assert(spec_is_gc_root(snapshot, roots@[0] as int));
        assert((roots@[0] as int) < snapshot.spec_node_count());
    }
    Ok(roots)
}

/// Finds the node carrying the given snapshot id; the first such node
/// wins. Fails with `InvalidData` exactly when no node carries it.
pub fn find_target_by_id(snapshot: &SnapshotRaw, node_id: u64) -> (r: Result<
    usize,
    SnapshotError,
>)
    requires
        snapshot.wf(),
    ensures
        match r {
            Ok(i) => {
                &&& (i as int) < snapshot.spec_node_count()
                &&& snapshot.node_id_value(i as int) == node_id as i64
                &&& forall|j: int|
                    0 <= j < i ==> #[trigger] snapshot.node_id_value(j) != node_id as i64
            },
            Err(e) => {
                &&& e is InvalidData
                &&& forall|j: int|
                    0 <= j < snapshot.spec_node_count() ==> #[trigger] snapshot.node_id_value(j)
                        != node_id as i64
            },
        },
{
    let node_count = snapshot.node_count();
    let mut i: usize = 0;
    while i < node_count
        invariant
            snapshot.wf(),
            node_count == snapshot.spec_node_count(),
            0 <= i <= node_count,
            forall|j: int| 0 <= j < i ==> #[trigger] snapshot.node_id_value(j) != node_id as i64,
        decreases node_count - i,
    {
        let node = snapshot.node_view(i).unwrap();
        let id = node.id().unwrap();
        if id == node_id as i64 {
            return Ok(i);
        }
        i += 1;
    }
    Err(SnapshotError::InvalidData {
        details: String::from_str("node id not found"),
    })
}

/// The constructor name node `i` resolves to, with a placeholder for
/// an unresolvable name index.
pub open spec fn spec_resolved_name(s: &SnapshotRaw, i: int) -> Seq<char> {
    let t = s.node_name_value(i) as int;
    if 0 <= t < s.strings@.len() {
        s.strings@[t]@
    } else {
        "<unknown>"@
    }
}

/// Whether some collected group carries the resolved name `nm`.
spec fn spec_cand_has_name(cands: Seq<NameCandidate>, nm: Seq<char>) -> bool {
    exists|c: int| 0 <= c < cands.len() && (#[trigger] cands[c]).name@ == nm
}

/// One constructor group matching the name filter, while a target is
/// being chosen by name.
struct NameCandidate {
    name: String,
    count: u64,
    self_size_sum: i128,
    largest_self_size: i64,
    largest_node_index: usize,
}

impl NameCandidate {
    /// A fresh, empty group for one resolved name.
    fn new(name: String) -> (r: NameCandidate)
        ensures
            r.name@ == name@,
            r.count == 0,
    {
        NameCandidate {
            name,
            count: 0,
            self_size_sum: 0,
            largest_self_size: 0,
            largest_node_index: 0,
        }
    }
}

/// Chooses a target node by constructor-name substring: the groups of
/// nodes whose resolved name contains the filter compete under the
/// pick strategy, and the winning group's individually largest node is
/// returned. Fails with `InvalidData` exactly when no node's resolved
/// name contains the filter.
pub fn find_target_by_name(snapshot: &SnapshotRaw, name_filter: &str, pick: PickStrategy) -> (r:
    Result<usize, SnapshotError>)
    requires
        snapshot.wf(),
    ensures
        match r {
            Ok(i) => {
                &&& (i as int) < snapshot.spec_node_count()
                &&& has_substring(spec_resolved_name(snapshot, i as int), name_filter@)
                &&& forall|j: int|
                    #![trigger spec_resolved_name(snapshot, j)]
                    0 <= j < snapshot.spec_node_count() && spec_resolved_name(snapshot, j)
                        == spec_resolved_name(snapshot, i as int)
                        ==> snapshot.node_self_size_value(j)
                        <= snapshot.node_self_size_value(i as int)
            },
            Err(e) => {
                &&& e is InvalidData
                &&& forall|j: int|
                    0 <= j < snapshot.spec_node_count() ==> !has_substring(
                        #[trigger] spec_resolved_name(snapshot, j),
                        name_filter@,
                    )
            },
        },
{
    let node_count = snapshot.node_count();
    let mut candidates: Vec<NameCandidate> = Vec::new();
    let mut i: usize = 0;
    while i < node_count
        invariant
            snapshot.wf(),
            node_count == snapshot.spec_node_count(),
            0 <= i <= node_count,
            forall|c: int|
                0 <= c < candidates@.len() ==> {
                    &&& (#[trigger] candidates@[c].largest_node_index as int) < node_count
                    &&& has_substring(
                        spec_resolved_name(snapshot, candidates@[c].largest_node_index as int),
                        name_filter@,
                    )
                    &&& candidates@[c].name@ == spec_resolved_name(
                        snapshot,
                        candidates@[c].largest_node_index as int,
                    )
                    &&& candidates@[c].largest_self_size == snapshot.node_self_size_value(
                        candidates@[c].largest_node_index as int,
                    )
                    &&& candidates@[c].count >= 1
                },
            forall|p: int, q: int|
                0 <= p < q < candidates@.len() ==> (#[trigger] candidates@[p]).name@ != (
                #[trigger] candidates@[q]).name@,
            forall|c: int, j: int|
                #![trigger candidates@[c], spec_resolved_name(snapshot, j)]
                0 <= c < candidates@.len() && 0 <= j < i && spec_resolved_name(snapshot, j)
                    == candidates@[c].name@ ==> snapshot.node_self_size_value(j)
                    <= candidates@[c].largest_self_size,
            forall|j: int|
                #![trigger spec_resolved_name(snapshot, j)]
                0 <= j < i && has_substring(spec_resolved_name(snapshot, j), name_filter@)
                    ==> spec_cand_has_name(candidates@, spec_resolved_name(snapshot, j)),
            candidates@.len() > 0 ==> exists|j: int|
                0 <= j < i && has_substring(#[trigger] spec_resolved_name(snapshot, j), name_filter@),
            forall|j: int|
                0 <= j < i && has_substring(#[trigger] spec_resolved_name(snapshot, j), name_filter@)
                    ==> candidates@.len() > 0,
        decreases node_count - i,
    {
        let node = snapshot.node_view(i).unwrap();
        let name: String = match node.name() {
            Some(n) => String::from_str(n),
            None => String::from_str("<unknown>"),
        };
        proof {
            assert(name@ == spec_resolved_name(snapshot, i as int));
        }
        if contains_substring(name.as_str(), name_filter) {
            // find or create this name's group
            let mut at: usize = 0;
            let mut found = false;
            let mut c: usize = 0;
            while c < candidates.len()
                invariant
                    0 <= c <= candidates@.len(),
                    found ==> at < candidates@.len() && candidates@[at as int].name@ == name@,
                    !found ==> at == 0,
                    !found ==> forall|k: int|
                        0 <= k < c ==> (#[trigger] candidates@[k]).name@ != name@,
                decreases candidates@.len() - c,
            {
                if str_eq(candidates[c].name.as_str(), name.as_str()) {
                    found = true;
                    at = c;
                    c = candidates.len();
                } else {
                    c += 1;
                }
            }
            let self_size = node.self_size().unwrap();
            let ghost cands_at_pre = candidates@;
            if found {
                let entry = candidates.remove(at);
                let ghost cands_mid = candidates@;
                let take_new = entry.count == 0 || self_size > entry.largest_self_size;
                let updated = NameCandidate {
                    name: entry.name,
                    count: if entry.count < u64::MAX {
                        entry.count + 1
                    } else {
                        entry.count
                    },
                    self_size_sum: sat_add_i128(entry.self_size_sum, self_size as i128),
                    largest_self_size: if take_new {
                        self_size
                    } else {
                        entry.largest_self_size
                    },
                    largest_node_index: if take_new {
                        i
                    } else {
                        entry.largest_node_index
                    },
                };
                candidates.insert(at, updated);
                proof {
                    // the update keeps every other group and only
                    // raises this group's maximum
                    assert forall|cc: int| 0 <= cc < candidates@.len() implies (
                    #[trigger] candidates@[cc]) == (if cc == at {
                        updated
                    } else {
                        cands_at_pre[cc]
                    }) by {
                        if cc < at {
                            assert(candidates@[cc] == cands_mid[cc]);
                        } else if cc > at {
                            assert(candidates@[cc] == cands_mid[cc - 1]);
                        }
                    }
                    assert forall|cc: int, j: int|
                        #![trigger candidates@[cc], spec_resolved_name(snapshot, j)]
                        0 <= cc < candidates@.len() && 0 <= j < i + 1 && spec_resolved_name(
                            snapshot,
                            j,
                        ) == candidates@[cc].name@ implies snapshot.node_self_size_value(j)
                        <= candidates@[cc].largest_self_size by {
                        if cc == at {
                            assert(((cands_at_pre[at as int]).largest_node_index as int)
                                < node_count);
                            assert((cands_at_pre[at as int]).count >= 1);
                            if j < i {
                                assert(snapshot.node_self_size_value(j)
                                    <= cands_at_pre[at as int].largest_self_size);
                            }
                        } else {
                            if j == i {
                                assert(candidates@[cc].name@ != name@);
                            }
                        }
                    }
                    assert forall|j: int|
                        #![trigger spec_resolved_name(snapshot, j)]
                        0 <= j < i + 1 && has_substring(
                            spec_resolved_name(snapshot, j),
                            name_filter@,
                        ) implies spec_cand_has_name(
                        candidates@,
                        spec_resolved_name(snapshot, j),
                    ) by {
                        if j < i {
                            let cc = choose|cc: int|
                                0 <= cc < cands_at_pre.len() && (
                                #[trigger] cands_at_pre[cc]).name@ == spec_resolved_name(
                                    snapshot,
                                    j,
                                );
                            assert((candidates@[cc]).name@ == spec_resolved_name(snapshot, j));
                        } else {
                            assert((candidates@[at as int]).name@ == spec_resolved_name(
                                snapshot,
                                j,
                            ));
                        }
                    }
                }
            } else {
                candidates.push(NameCandidate {
                    name,
                    count: 1,
                    self_size_sum: self_size as i128,
                    largest_self_size: self_size,
                    largest_node_index: i,
                });
                proof {
                    assert forall|cc: int, j: int|
                        #![trigger candidates@[cc], spec_resolved_name(snapshot, j)]
                        0 <= cc < candidates@.len() && 0 <= j < i + 1 && spec_resolved_name(
                            snapshot,
                            j,
                        ) == candidates@[cc].name@ implies snapshot.node_self_size_value(j)
                        <= candidates@[cc].largest_self_size by {
                        if cc < cands_at_pre.len() {
                            assert(candidates@[cc] == cands_at_pre[cc]);
                            if j == i {
                                // a previous group with this name would
                                // have been found
                                assert(spec_cand_has_name(cands_at_pre, name@));
                                assert(false);
                            }
                        } else {
                            assert(candidates@[cc] == candidates@[candidates@.len() - 1]);
                            if j < i {
                                // an earlier node with this name would
                                // have created the group before
                                assert(has_substring(
                                    spec_resolved_name(snapshot, j),
                                    name_filter@,
                                ));
                                assert(spec_cand_has_name(
                                    cands_at_pre,
                                    spec_resolved_name(snapshot, j),
                                ));
                                let k = choose|k: int|
                                    0 <= k < cands_at_pre.len() && (
                                    #[trigger] cands_at_pre[k]).name@ == spec_resolved_name(
                                        snapshot,
                                        j,
                                    );
                                assert(false);
                            }
                        }
                    }
                    assert forall|j: int|
                        #![trigger spec_resolved_name(snapshot, j)]
                        0 <= j < i + 1 && has_substring(
                            spec_resolved_name(snapshot, j),
                            name_filter@,
                        ) implies spec_cand_has_name(
                        candidates@,
                        spec_resolved_name(snapshot, j),
                    ) by {
                        if j < i {
                            let cc = choose|cc: int|
                                0 <= cc < cands_at_pre.len() && (
                                #[trigger] cands_at_pre[cc]).name@ == spec_resolved_name(
                                    snapshot,
                                    j,
                                );
                            assert((candidates@[cc]).name@ == spec_resolved_name(snapshot, j));
                        } else {
                            assert((candidates@[candidates@.len() - 1]).name@
                                == spec_resolved_name(snapshot, j));
                        }
                    }
                    assert forall|p: int, q: int|
                        0 <= p < q < candidates@.len() implies (#[trigger] candidates@[p]).name@
                        != (#[trigger] candidates@[q]).name@ by {
                        if q == candidates@.len() - 1 {
                            assert(candidates@[p] == cands_at_pre[p]);
                            if (candidates@[p]).name@ == name@ {
                                assert(spec_cand_has_name(cands_at_pre, name@));
                                assert(false);
                            }
                        }
                    }
                }
            }
        } else {
            proof {
                // a node outside the filter never belongs to a group:
                // every group name passes the filter
                assert forall|c: int, j: int|
                    #![trigger candidates@[c], spec_resolved_name(snapshot, j)]
                    0 <= c < candidates@.len() && 0 <= j < i + 1 && spec_resolved_name(
                        snapshot,
                        j,
                    ) == candidates@[c].name@ implies snapshot.node_self_size_value(j)
                    <= candidates@[c].largest_self_size by {
                    if j == i {
                        assert(((candidates@[c]).largest_node_index as int) < node_count);
                        assert(candidates@[c].name@ == spec_resolved_name(
                            snapshot,
                            candidates@[c].largest_node_index as int,
                        ));
                        assert(has_substring(candidates@[c].name@, name_filter@));
                        assert(!has_substring(spec_resolved_name(snapshot, i as int), name_filter@));
                    }
                }
            }
        }
        i += 1;
    }

    if candidates.len() == 0 {
        return Err(SnapshotError::InvalidData {
            details: String::from_str("no nodes match the name filter"),
        });
    }

    // choose the winning group under the pick strategy; earlier groups
    // win ties
    let mut best: usize = 0;
    let mut c: usize = 1;
    while c < candidates.len()
        invariant
            candidates@.len() > 0,
            0 <= best < candidates@.len(),
            1 <= c,
        decreases candidates@.len() - c,
    {
        let better = match pick {
            PickStrategy::Largest => {
                if candidates[c].self_size_sum != candidates[best].self_size_sum {
                    candidates[c].self_size_sum > candidates[best].self_size_sum
                } else if candidates[c].count != candidates[best].count {
                    candidates[c].count > candidates[best].count
                } else {
                    crate::text::str_lex_lt(
                        candidates[c].name.as_str(),
                        candidates[best].name.as_str(),
                    )
                }
            },
            PickStrategy::Count => {
                if candidates[c].count != candidates[best].count {
                    candidates[c].count > candidates[best].count
                } else if candidates[c].self_size_sum != candidates[best].self_size_sum {
                    candidates[c].self_size_sum > candidates[best].self_size_sum
                } else {
                    crate::text::str_lex_lt(
                        candidates[c].name.as_str(),
                        candidates[best].name.as_str(),
                    )
                }
            },
        };
        if better {
            best = c;
        }
        c += 1;
    }

    Ok(candidates[best].largest_node_index)
}


/// Copies a vector of links.
fn clone_links(v: &Vec<RetainerLink>) -> (r: Vec<RetainerLink>)
    ensures
        r@ == v@,
{
    let mut r: Vec<RetainerLink> = Vec::new();
    let mut i: usize = 0;
    while i < v.len()
        invariant
            0 <= i <= v@.len(),
            r@ == v@.take(i as int),
        decreases v@.len() - i,
    {
        r.push(v[i]);
        proof {
            assert(r@ =~= v@.take(i as int + 1));
        }
        i += 1;
    }
    proof {
        assert(v@.take(v@.len() as int) =~= v@);
    }
    r
}

/// Copies a vector of node indices.
fn clone_indices(v: &Vec<usize>) -> (r: Vec<usize>)
    ensures
        r@ == v@,
{
    let mut r: Vec<usize> = Vec::new();
    let mut i: usize = 0;
    while i < v.len()
        invariant
            0 <= i <= v@.len(),
            r@ == v@.take(i as int),
        decreases v@.len() - i,
    {
        r.push(v[i]);
        proof {
            assert(r@ =~= v@.take(i as int + 1));
        }
        i += 1;
    }
    proof {
        assert(v@.take(v@.len() as int) =~= v@);
    }
    r
}

/// Reverses a vector of links.
fn reverse_links(v: &Vec<RetainerLink>) -> (r: Vec<RetainerLink>)
    ensures
        r@ == v@.reverse(),
{
    let n = v.len();
    let mut r: Vec<RetainerLink> = Vec::new();
    let mut i: usize = 0;
    while i < n
        invariant
            n == v@.len(),
            0 <= i <= n,
            r@.len() == i,
            forall|j: int| 0 <= j < i ==> #[trigger] r@[j] == v@[n - 1 - j],
        decreases n - i,
    {
        r.push(v[n - 1 - i]);
        i += 1;
    }
    proof {
        assert(r@ =~= v@.reverse());
    }
    r
}

/// Whether some recorded link names the edge record `e`.
pub open spec fn spec_links_hold_edge(links: Seq<RetainerLink>, e: int) -> bool {
    exists|j: int| 0 <= j < links.len() && (#[trigger] links[j]).edge_index == e
}

/// Every edge record resolving to node `n` is among `links`.
pub open spec fn spec_links_complete(s: &SnapshotRaw, n: int, links: Seq<RetainerLink>) -> bool {
    forall|e: int|
        0 <= e < s.spec_edge_count() && (#[trigger] s.spec_to_node_index(e)) == Some(n)
            ==> spec_links_hold_edge(links, e)
}

/// Some root owns an edge record resolving to `target`: the target has
/// a direct retainer among the roots.
pub open spec fn spec_root_retains(s: &SnapshotRaw, roots: Seq<usize>, target: int) -> bool {
    exists|u: int, e: int|
        #![trigger s.spec_to_node_index(e), s.node_edge_count_value(u)]
        {
            &&& 0 <= u < s.spec_node_count()
            &&& roots.contains(u as usize)
            &&& edge_prefix(s, u) <= e < edge_prefix(s, u) + s.node_edge_count_value(u)
            &&& s.spec_to_node_index(e) == Some(target)
        }
}

/// Every link of `links` is a real edge arriving at node `n`.
pub open spec fn spec_links_ok(s: &SnapshotRaw, n: int, links: Seq<RetainerLink>) -> bool {
    forall|j: int|
        0 <= j < links.len() ==> spec_link_wf(s, #[trigger] links[j]) && links[j].to_node == n
}

/// The lazy incoming-edge table: for each materialised destination
/// node, the list of edges arriving at it. Destinations are built on
/// demand, one whole-snapshot scan per batch of new targets.
struct IncomingIndex {
    edge_offsets: Vec<usize>,
    built: Vec<bool>,
    incoming: Vec<Vec<RetainerLink>>,
}

impl IncomingIndex {
    /// The table is sized to the snapshot and holds only real edges.
    spec fn wf(&self, s: &SnapshotRaw) -> bool {
        &&& self.edge_offsets@.len() == s.spec_node_count()
        &&& forall|i: int|
            0 <= i < self.edge_offsets@.len() ==> #[trigger] self.edge_offsets@[i] == edge_prefix(
                s,
                i,
            )
        &&& self.built@.len() == s.spec_node_count()
        &&& self.incoming@.len() == s.spec_node_count()
        &&& forall|n: int|
            0 <= n < self.incoming@.len() ==> spec_links_ok(s, n, (#[trigger] self.incoming@[n])@)
    }

    /// An empty table over a snapshot whose edge-offset index was
    /// already computed.
    fn new(snapshot: &SnapshotRaw, edge_offsets: Vec<usize>) -> (r: IncomingIndex)
        requires
            snapshot.wf(),
            edge_offsets@.len() == snapshot.spec_node_count(),
            forall|i: int|
                0 <= i < edge_offsets@.len() ==> #[trigger] edge_offsets@[i] == edge_prefix(
                    snapshot,
                    i,
                ),
        ensures
            r.wf(snapshot),
            forall|n: int| 0 <= n < r.built@.len() ==> !(#[trigger] r.built@[n]),
    {
        let node_count = snapshot.node_count();
        let mut built: Vec<bool> = Vec::new();
        let mut incoming: Vec<Vec<RetainerLink>> = Vec::new();
        let mut i: usize = 0;
        while i < node_count
            invariant
                0 <= i <= node_count,
                built@.len() == i,
                incoming@.len() == i,
                forall|n: int| 0 <= n < i ==> !(#[trigger] built@[n]),
                forall|n: int| 0 <= n < i ==> (#[trigger] incoming@[n])@.len() == 0,
            decreases node_count - i,
        {
            built.push(false);
            incoming.push(Vec::new());
            i += 1;
        }
        IncomingIndex { edge_offsets, built, incoming }
    }

    /// Scans the whole edge column once and records, for every not yet
    /// materialised node of `targets`, the edges arriving at it.
    fn build_for_targets(&mut self, snapshot: &SnapshotRaw, targets: &Vec<usize>)
        requires
            old(self).wf(snapshot),
            snapshot.wf(),
            offsets_valid(snapshot),
            forall|t: int|
                0 <= t < targets@.len() ==> ((#[trigger] targets@[t]) as int)
                    < snapshot.spec_node_count(),
        ensures
            final(self).wf(snapshot),
            forall|ti: int|
                #![trigger targets@[ti]]
                0 <= ti < targets@.len() && !old(self).built@[targets@[ti] as int]
                    ==> spec_links_complete(
                    snapshot,
                    targets@[ti] as int,
                    (final(self).incoming@[targets@[ti] as int])@,
                ),
    {
        let node_count = snapshot.node_count();
        let total_edges = snapshot.edge_count();
        let mut needed: Vec<bool> = Vec::new();
        let mut i: usize = 0;
        while i < node_count
            invariant
                0 <= i <= node_count,
                needed@.len() == i,
                forall|n: int| 0 <= n < i ==> !(#[trigger] needed@[n]),
            decreases node_count - i,
        {
            needed.push(false);
            i += 1;
        }
        let mut t: usize = 0;
        let mut any_needed = false;
        while t < targets.len()
            invariant
                self.wf(snapshot),
                self.built@ == old(self).built@,
                self.incoming@ == old(self).incoming@,
                needed@.len() == node_count,
                node_count == snapshot.spec_node_count(),
                0 <= t <= targets@.len(),
                forall|j: int|
                    0 <= j < targets@.len() ==> ((#[trigger] targets@[j]) as int) < node_count,
                forall|j: int|
                    #![trigger targets@[j]]
                    0 <= j < t && !self.built@[targets@[j] as int] ==> needed@[targets@[j] as int],
                !any_needed ==> forall|n: int| 0 <= n < needed@.len() ==> !(#[trigger] needed@[n]),
            decreases targets@.len() - t,
        {
            let n = targets[t];
            let ghost needed_pre = needed@;
            if !self.built[n] {
                needed[n] = true;
                any_needed = true;
            } else {
                proof {
                    assert(needed@ == needed_pre);
                }
            }
            proof {
                assert forall|j: int| #![trigger targets@[j]] 0 <= j < t + 1 && !self.built@[
                targets@[j] as int] implies needed@[targets@[j] as int] by {
                    if j < t {
                        if targets@[j] as int != n as int {
                            assert(needed@[targets@[j] as int] == needed_pre[targets@[j] as int]);
                        }
                    }
                }
            }
            t += 1;
        }
        if !any_needed {
            proof {
                assert forall|ti: int| #![trigger targets@[ti]] 0 <= ti < targets@.len()
                    && !old(self).built@[targets@[ti] as int] implies spec_links_complete(
                    snapshot,
                    targets@[ti] as int,
                    (self.incoming@[targets@[ti] as int])@,
                ) by {
                    assert(needed@[targets@[ti] as int]);
                    assert(false);
                }
            }
            return;
        }

        let mut node_index: usize = 0;
        while node_index < node_count
            invariant
                self.wf(snapshot),
                self.built@ == old(self).built@,
                snapshot.wf(),
                offsets_valid(snapshot),
                needed@.len() == node_count,
                node_count == snapshot.spec_node_count(),
                total_edges == snapshot.spec_edge_count(),
                0 <= node_index <= node_count,
                forall|e: int|
                    #![trigger snapshot.spec_to_node_index(e)]
                    0 <= e < edge_prefix(snapshot, node_index as int) ==> (
                    match snapshot.spec_to_node_index(e) {
                        Some(v) => !(0 <= v < node_count && needed@[v])
                            || spec_links_hold_edge((self.incoming@[v])@, e),
                        None => true,
                    }),
            decreases node_count - node_index,
        {
            let start_edge = self.edge_offsets[node_index];
            let node = snapshot.node_view(node_index).unwrap();
            let ecv = node.edge_count().unwrap();
            proof {
                assert(0 <= snapshot.node_edge_count_value(node_index as int) <= usize::MAX);
            }
            let ec = ecv as usize;
            proof {
                assert(edge_prefix(snapshot, node_index as int + 1) == edge_prefix(
                    snapshot,
                    node_index as int,
                ) + snapshot.node_edge_count_value(node_index as int));
                lemma_edge_prefix_monotone(
                    snapshot,
                    node_index as int + 1,
                    snapshot.spec_node_count() as int,
                );
            }
            let mut offset: usize = 0;
            while offset < ec
                invariant
                    self.wf(snapshot),
                    self.built@ == old(self).built@,
                    snapshot.wf(),
                    offsets_valid(snapshot),
                    needed@.len() == node_count,
                    node_count == snapshot.spec_node_count(),
                    node_index < node_count,
                    0 <= offset <= ec,
                    ec == snapshot.node_edge_count_value(node_index as int),
                    start_edge == edge_prefix(snapshot, node_index as int),
                    edge_prefix(snapshot, node_index as int) + ec <= snapshot.spec_edge_count(),
                    total_edges == snapshot.spec_edge_count(),
                    forall|e: int|
                        #![trigger snapshot.spec_to_node_index(e)]
                        0 <= e < start_edge + offset ==> (match snapshot.spec_to_node_index(e) {
                            Some(v) => !(0 <= v < node_count && needed@[v])
                                || spec_links_hold_edge((self.incoming@[v])@, e),
                            None => true,
                        }),
                decreases ec - offset,
            {
                let edge_index = start_edge + offset;
                let edge = snapshot.edge_view(edge_index).unwrap();
                match edge.to_node_index() {
                    None => {},
                    Some(to_node) => {
                        if to_node < node_count && needed[to_node] {
                            let link = RetainerLink {
                                from_node: node_index,
                                edge_index,
                                to_node,
                            };
                            proof {
                                assert(spec_link_wf(snapshot, link));
                            }
                            let ghost incoming_pre = self.incoming@;
                            self.incoming[to_node].push(link);
                            proof {
                                assert forall|n: int|
                                    0 <= n < self.incoming@.len() implies spec_links_ok(
                                    snapshot,
                                    n,
                                    (#[trigger] self.incoming@[n])@,
                                ) by {
                                    if n == to_node {
                                        assert((self.incoming@[n])@ =~= (incoming_pre[n])@.push(
                                            link,
                                        ));
                                    } else {
                                        assert(self.incoming@[n] == incoming_pre[n]);
                                    }
                                }
                                assert forall|e: int|
                                    #![trigger snapshot.spec_to_node_index(e)]
                                    0 <= e < start_edge + offset + 1 implies (
                                match snapshot.spec_to_node_index(e) {
                                    Some(v) => !(0 <= v < node_count && needed@[v])
                                        || spec_links_hold_edge((self.incoming@[v])@, e),
                                    None => true,
                                }) by {
                                    if e == edge_index {
                                        assert((self.incoming@[to_node as int])@[(
                                        self.incoming@[to_node as int])@.len() - 1].edge_index
                                            == edge_index);
                                    } else {
                                        match snapshot.spec_to_node_index(e) {
                                            Some(v) => {
                                                if 0 <= v < node_count && needed@[v] {
                                                    let j = choose|j: int|
                                                        0 <= j < (incoming_pre[v])@.len() && (
                                                        #[trigger] (incoming_pre[v])@[j]).edge_index
                                                            == e;
                                                    if v == to_node {
                                                        assert((self.incoming@[v])@[j]
                                                            == (incoming_pre[v])@[j]);
                                                    } else {
                                                        assert(self.incoming@[v]
                                                            == incoming_pre[v]);
                                                    }
                                                }
                                            },
                                            None => {},
                                        }
                                    }
                                }
                            }
                        }
                    },
                }
                offset += 1;
            }
            node_index += 1;
        }

        proof {
            assert(edge_prefix(snapshot, node_count as int) == snapshot.spec_edge_count());
            assert forall|ti: int| #![trigger targets@[ti]] 0 <= ti < targets@.len()
                && !old(self).built@[targets@[ti] as int] implies spec_links_complete(
                snapshot,
                targets@[ti] as int,
                (self.incoming@[targets@[ti] as int])@,
            ) by {
                let n = targets@[ti] as int;
                assert(needed@[n]);
                assert forall|e: int|
                    0 <= e < snapshot.spec_edge_count() && (
                    #[trigger] snapshot.spec_to_node_index(e)) == Some(n)
                    implies spec_links_hold_edge((self.incoming@[n])@, e) by {}
            }
        }
        let ghost incoming_done = self.incoming@;
        let mut t2: usize = 0;
        while t2 < targets.len()
            invariant
                self.wf(snapshot),
                self.incoming@ == incoming_done,
                node_count == snapshot.spec_node_count(),
                0 <= t2 <= targets@.len(),
                forall|j: int|
                    0 <= j < targets@.len() ==> ((#[trigger] targets@[j]) as int) < node_count,
                forall|ti: int|
                    #![trigger targets@[ti]]
                    0 <= ti < targets@.len() && !old(self).built@[targets@[ti] as int]
                        ==> spec_links_complete(
                        snapshot,
                        targets@[ti] as int,
                        (self.incoming@[targets@[ti] as int])@,
                    ),
            decreases targets@.len() - t2,
        {
            let n = targets[t2];
            built_set(&mut self.built, n);
            t2 += 1;
        }
    }

    /// The recorded incoming edges of one node.
    fn get<'a>(&'a self, n: usize) -> (r: &'a Vec<RetainerLink>)
        requires
            (n as int) < self.incoming@.len(),
        ensures
            r == self.incoming@[n as int],
    {
        &self.incoming[n]
    }
}

/// Marks one slot of the built table.
fn built_set(v: &mut Vec<bool>, n: usize)
    requires
        (n as int) < old(v)@.len(),
    ensures
        final(v)@.len() == old(v)@.len(),
{
    v[n] = true;
}

/// One partial reverse path of the layered search: the node reached,
/// the steps taken so far in reverse direction, and every node
/// visited.
struct PathState {
    node: usize,
    steps: Vec<RetainerLink>,
    visited: Vec<usize>,
}

/// A sound partial path anchored at `target`: steps are real edges
/// chained backwards from the target, the visited list records the
/// target then each step's source, and no node repeats.
spec fn spec_state_wf(s: &SnapshotRaw, target: usize, st: PathState) -> bool {
    &&& st.visited@ == seq![target] + st.steps@.map_values(|l: RetainerLink| l.from_node)
    &&& st.node == if st.steps@.len() == 0 {
        target
    } else {
        st.steps@[st.steps@.len() - 1].from_node
    }
    &&& forall|j: int| 0 <= j < st.steps@.len() ==> spec_link_wf(s, #[trigger] st.steps@[j])
    &&& st.steps@.len() > 0 ==> st.steps@[0].to_node == target
    &&& forall|j: int|
        0 <= j < st.steps@.len() - 1 ==> (#[trigger] st.steps@[j]).from_node == st.steps@[j
            + 1].to_node
    &&& st.visited@.no_duplicates()
}

impl PathState {
    /// A fresh search state sitting on the target itself.
    fn new(node: usize) -> (r: PathState)
        ensures
            r.node == node,
            r.steps@.len() == 0,
            r.visited@ =~= seq![node],
    {
        let mut visited: Vec<usize> = Vec::new();
        visited.push(node);
        PathState { node, steps: Vec::new(), visited }
    }

    /// The state one step further back along `edge`.
    fn extend(&self, edge: RetainerLink) -> (r: PathState)
        ensures
            r.node == edge.from_node,
            r.steps@ == self.steps@.push(edge),
            r.visited@ == self.visited@.push(edge.from_node),
    {
        let mut steps = clone_links(&self.steps);
        steps.push(edge);
        let mut visited = clone_indices(&self.visited);
        visited.push(edge.from_node);
        PathState { node: edge.from_node, steps, visited }
    }
}

/// An extended state stays sound when the new edge arrives at the
/// state's node and leaves from an unvisited one.
proof fn lemma_extend_wf(
    s: &SnapshotRaw,
    target: usize,
    st: PathState,
    edge: RetainerLink,
    ext: PathState,
)
    requires
        spec_state_wf(s, target, st),
        spec_link_wf(s, edge),
        edge.to_node == st.node,
        !st.visited@.contains(edge.from_node),
        ext.node == edge.from_node,
        ext.steps@ == st.steps@.push(edge),
        ext.visited@ == st.visited@.push(edge.from_node),
    ensures
        spec_state_wf(s, target, ext),
{
    assert(ext.visited@ =~= seq![target] + ext.steps@.map_values(
        |l: RetainerLink| l.from_node,
    ));
    assert forall|i: int, j: int| 0 <= i < j < ext.visited@.len() implies ext.visited@[i]
        != ext.visited@[j] by {
        if j < st.visited@.len() {
        } else {
            assert(ext.visited@[j] == edge.from_node);
            assert(st.visited@.contains(st.visited@[i]) || true);
            if ext.visited@[i] == edge.from_node {
                assert(st.visited@[i] == edge.from_node);
                assert(st.visited@.contains(edge.from_node));
            }
        }
    }
}

/// A completed state whose final source is a root reverses into a
/// sound retaining path.
proof fn lemma_emit_path_wf(
    s: &SnapshotRaw,
    roots: Seq<usize>,
    target: usize,
    st: PathState,
    max_depth: int,
)
    requires
        spec_state_wf(s, target, st),
        1 <= st.steps@.len() <= max_depth,
        roots.contains(st.steps@[st.steps@.len() - 1].from_node),
    ensures
        spec_path_wf(s, roots, target as int, st.steps@.reverse(), max_depth),
{
    let path = st.steps@.reverse();
    let n = path.len();
    assert(path[n - 1] == st.steps@[0]);
    assert(path[0] == st.steps@[n - 1]);
    assert forall|j: int| 0 <= j < n - 1 implies (#[trigger] path[j].to_node) as int == path[j
        + 1].from_node as int by {
        assert(path[j] == st.steps@[n - 1 - j]);
        assert(path[j + 1] == st.steps@[n - 2 - j]);
    }
    let nodes = spec_path_nodes(path, target as int);
    assert forall|a: int, b: int| 0 <= a < b < nodes.len() implies nodes[a] != nodes[b] by {
        // every path node appears in the visited list, reversed
        assert(st.visited@.len() == n + 1);
        assert forall|j: int| 0 <= j <= n implies nodes[j] == st.visited@[n - j] as int by {
            if j < n {
                assert(path[j] == st.steps@[n - 1 - j]);
                assert(st.visited@[n - j] == st.steps@.map_values(
                    |l: RetainerLink| l.from_node,
                )[n - 1 - j]);
            }
        }
        assert(st.visited@[n - a] != st.visited@[n - b]);
    }
    assert(nodes.no_duplicates());
}

/// Layered reverse search from the target back to the roots: up to
/// `max_paths` simple paths of at most `max_depth` steps, each leading
/// from a root to the target, visiting no node twice.
///
/// A target that is itself a root yields one empty path. Fails with
/// `Cancelled` when the token flips, and with `InvalidData` exactly
/// when the snapshot-wide edge-count invariant does not hold.
pub fn find_retaining_paths(snapshot: &SnapshotRaw, target: usize, options: RetainersOptions) -> (r:
    Result<RetainersResult, SnapshotError>)
    requires
        snapshot.wf(),
        (target as int) < snapshot.spec_node_count(),
    ensures
        match r {
            Ok(res) => {
                &&& res.target == target
                &&& spec_roots_ok(snapshot, res.roots@)
                &&& offsets_valid(snapshot)
                &&& res.roots@.contains(target) ==> res.paths@.len() == 1 && res.paths@[0]@.len()
                    == 0
                &&& !res.roots@.contains(target) ==> {
                    &&& res.paths@.len() <= options.max_paths
                    &&& forall|p: int|
                        0 <= p < res.paths@.len() ==> spec_path_wf(
                            snapshot,
                            res.roots@,
                            target as int,
                            (#[trigger] res.paths@[p])@,
                            options.max_depth as int,
                        )
                    &&& ((spec_root_retains(snapshot, res.roots@, target as int)
                        && options.max_paths >= 1 && options.max_depth >= 1)
                        ==> res.paths@.len() >= 1)
                }
            },
            Err(e) => e is Cancelled || (e is InvalidData && !offsets_valid(snapshot)),
        },
{
    let roots = match find_roots(snapshot) {
        Ok(roots) => roots,
        Err(_) => {
            proof {
                assert(false);
            }
            return Err(SnapshotError::Cancelled);
        },
    };
    let node_count = snapshot.node_count();

    // membership table for the roots
    let mut root_flag: Vec<bool> = Vec::new();
    let mut i: usize = 0;
    while i < node_count
        invariant
            0 <= i <= node_count,
            root_flag@.len() == i,
            forall|n: int| 0 <= n < i ==> #[trigger] root_flag@[n] == roots@.contains(n as usize),
        decreases node_count - i,
    {
        let mut hit = false;
        let mut j: usize = 0;
        while j < roots.len()
            invariant
                0 <= j <= roots@.len(),
                hit ==> roots@.contains(i),
                !hit ==> forall|k: int| 0 <= k < j ==> roots@[k] != i,
            decreases roots@.len() - j,
        {
            if roots[j] == i {
                proof {
                    assert(roots@[j as int] == i);
                }
                hit = true;
                j = roots.len();
            } else {
                j += 1;
            }
        }
        proof {
            if !hit && roots@.contains(i) {
                let k = choose|k: int| 0 <= k < roots@.len() && roots@[k] == i;
                assert(false);
            }
        }
        root_flag.push(hit);
        i += 1;
    }

    let edge_offsets = match compute_edge_offsets(snapshot) {
        Ok(offsets) => offsets,
        Err(e) => {
            return Err(e);
        },
    };
    let mut incoming = IncomingIndex::new(snapshot, edge_offsets);

    if root_flag[target] {
        let mut paths: Vec<Vec<RetainerLink>> = Vec::new();
        paths.push(Vec::new());
        return Ok(RetainersResult { target, roots, paths });
    }

    let ghost hyp = spec_root_retains(snapshot, roots@, target as int) && options.max_paths >= 1
        && options.max_depth >= 1;
    let mut paths: Vec<Vec<RetainerLink>> = Vec::new();
    let mut layer: Vec<PathState> = Vec::new();
    layer.push(PathState::new(target));
    proof {
        assert(layer@[0].visited@ =~= seq![target] + layer@[0].steps@.map_values(
            |l: RetainerLink| l.from_node,
        ));
        assert(layer@[0].visited@.no_duplicates());
    }
    let mut depth: usize = 0;

    while depth < options.max_depth && layer.len() > 0 && paths.len() < options.max_paths
        invariant
            snapshot.wf(),
            offsets_valid(snapshot),
            incoming.wf(snapshot),
            node_count == snapshot.spec_node_count(),
            (target as int) < node_count,
            spec_roots_ok(snapshot, roots@),
            !roots@.contains(target),
            root_flag@.len() == node_count,
            forall|n: int|
                0 <= n < node_count ==> #[trigger] root_flag@[n] == roots@.contains(n as usize),
            0 <= depth <= options.max_depth,
            paths@.len() <= options.max_paths,
            forall|p: int|
                0 <= p < paths@.len() ==> spec_path_wf(
                    snapshot,
                    roots@,
                    target as int,
                    (#[trigger] paths@[p])@,
                    options.max_depth as int,
                ),
            forall|q: int|
                0 <= q < layer@.len() ==> spec_state_wf(snapshot, target, #[trigger] layer@[q])
                    && layer@[q].steps@.len() == depth,
            hyp == (spec_root_retains(snapshot, roots@, target as int) && options.max_paths >= 1
                && options.max_depth >= 1),
            depth == 0 ==> layer@.len() == 1 && layer@[0].node == target && (forall|n: int|
                0 <= n < incoming.built@.len() ==> !(#[trigger] incoming.built@[n])),
            hyp && depth >= 1 ==> paths@.len() >= 1,
        decreases options.max_depth - depth,
    {
        if options.cancel.is_cancelled() {
            return Err(SnapshotError::Cancelled);
        }
        let mut targets: Vec<usize> = Vec::new();
        let mut si: usize = 0;
        while si < layer.len()
            invariant
                0 <= si <= layer@.len(),
                node_count == snapshot.spec_node_count(),
                (target as int) < node_count,
                forall|q: int|
                    0 <= q < layer@.len() ==> spec_state_wf(snapshot, target, #[trigger] layer@[q]),
                targets@.len() == si,
                forall|t: int|
                    0 <= t < targets@.len() ==> ((#[trigger] targets@[t]) as int) < node_count
                        && targets@[t] == layer@[t].node,
            decreases layer@.len() - si,
        {
            proof {
                assert(spec_state_wf(snapshot, target, layer@[si as int]));
            }
            targets.push(layer[si].node);
            si += 1;
        }
        incoming.build_for_targets(snapshot, &targets);
        proof {
            if depth == 0 {
                assert(targets@[0] == target);
                assert(spec_links_complete(
                    snapshot,
                    target as int,
                    (incoming.incoming@[target as int])@,
                ));
            }
        }

        let mut next_layer: Vec<PathState> = Vec::new();
        let mut si2: usize = 0;
        while si2 < layer.len()
            invariant
                snapshot.wf(),
                offsets_valid(snapshot),
                incoming.wf(snapshot),
                node_count == snapshot.spec_node_count(),
                (target as int) < node_count,
                spec_roots_ok(snapshot, roots@),
                !roots@.contains(target),
                root_flag@.len() == node_count,
                forall|n: int|
                    0 <= n < node_count ==> #[trigger] root_flag@[n] == roots@.contains(n as usize),
                depth < options.max_depth,
                0 <= si2 <= layer@.len(),
                paths@.len() <= options.max_paths,
                forall|p: int|
                    0 <= p < paths@.len() ==> spec_path_wf(
                        snapshot,
                        roots@,
                        target as int,
                        (#[trigger] paths@[p])@,
                        options.max_depth as int,
                    ),
                forall|q: int|
                    0 <= q < layer@.len() ==> spec_state_wf(snapshot, target, #[trigger] layer@[q])
                        && layer@[q].steps@.len() == depth,
                forall|q: int|
                    0 <= q < next_layer@.len() ==> spec_state_wf(
                        snapshot,
                        target,
                        #[trigger] next_layer@[q],
                    ) && next_layer@[q].steps@.len() == depth + 1,
                hyp == (spec_root_retains(snapshot, roots@, target as int) && options.max_paths
                    >= 1 && options.max_depth >= 1),
                depth == 0 ==> layer@.len() == 1 && layer@[0].node == target,
                depth == 0 ==> spec_links_complete(
                    snapshot,
                    target as int,
                    (incoming.incoming@[target as int])@,
                ),
                hyp && depth == 0 ==> (si2 == 0 || paths@.len() >= 1),
                hyp && depth >= 1 ==> paths@.len() >= 1,
            decreases layer@.len() - si2,
        {
            let state = &layer[si2];
            let links_len = incoming.get(state.node).len();
            let mut li: usize = 0;
            while li < links_len
                invariant
                    snapshot.wf(),
                    offsets_valid(snapshot),
                    incoming.wf(snapshot),
                    node_count == snapshot.spec_node_count(),
                    (target as int) < node_count,
                    spec_roots_ok(snapshot, roots@),
                    !roots@.contains(target),
                    root_flag@.len() == node_count,
                    forall|n: int|
                        0 <= n < node_count ==> #[trigger] root_flag@[n] == roots@.contains(
                            n as usize,
                        ),
                    depth < options.max_depth,
                    si2 < layer@.len(),
                    state == layer@[si2 as int],
                    spec_state_wf(snapshot, target, *state),
                    state.steps@.len() == depth,
                    (state.node as int) < node_count,
                    links_len == (incoming.incoming@[state.node as int])@.len(),
                    0 <= li <= links_len,
                    paths@.len() <= options.max_paths,
                    forall|p: int|
                        0 <= p < paths@.len() ==> spec_path_wf(
                            snapshot,
                            roots@,
                            target as int,
                            (#[trigger] paths@[p])@,
                            options.max_depth as int,
                        ),
                    forall|q: int|
                        0 <= q < next_layer@.len() ==> spec_state_wf(
                            snapshot,
                            target,
                            #[trigger] next_layer@[q],
                        ) && next_layer@[q].steps@.len() == depth + 1,
                    hyp == (spec_root_retains(snapshot, roots@, target as int)
                        && options.max_paths >= 1 && options.max_depth >= 1),
                    depth == 0 && si2 == 0 ==> state.node == target,
                    depth == 0 ==> spec_links_complete(
                        snapshot,
                        target as int,
                        (incoming.incoming@[target as int])@,
                    ),
                    hyp && depth == 0 && si2 == 0 ==> (paths@.len() >= 1 || forall|jj: int|
                        0 <= jj < li ==> !roots@.contains(
                            (#[trigger] (incoming.incoming@[target as int])@[jj]).from_node,
                        )),
                    hyp && depth >= 1 ==> paths@.len() >= 1,
                decreases links_len - li,
            {
                if options.cancel.is_cancelled() {
                    return Err(SnapshotError::Cancelled);
                }
                if paths.len() >= options.max_paths {
                    proof {
                        if hyp {
                            assert(paths@.len() >= 1);
                        }
                    }
                    li = links_len;
                } else {
                    let edge = incoming.get(state.node)[li];
                    proof {
                        assert(spec_links_ok(
                            snapshot,
                            state.node as int,
                            (incoming.incoming@[state.node as int])@,
                        ));
                        assert(spec_link_wf(snapshot, edge));
                        assert(edge.to_node == state.node);
                    }
                    let ghost li_pre = li as int;
                    if !contains_usize(&state.visited, edge.from_node) {
                        let next_state = state.extend(edge);
                        proof {
                            lemma_extend_wf(snapshot, target, *state, edge, next_state);
                        }
                        if root_flag[edge.from_node] {
                            let path = reverse_links(&next_state.steps);
                            proof {
                                assert(next_state.steps@[next_state.steps@.len() - 1]
                                    == edge);
                                lemma_emit_path_wf(
                                    snapshot,
                                    roots@,
                                    target,
                                    next_state,
                                    options.max_depth as int,
                                );
                            }
                            paths.push(path);
                        } else {
                            next_layer.push(next_state);
                            proof {
                                assert(!roots@.contains(edge.from_node));
                            }
                        }
                    } else {
                        proof {
                            if depth == 0 && si2 == 0 {
                                // the only visited node is the target,
                                // which is not a root here
                                assert(state.visited@.contains(edge.from_node));
                                assert(state.steps@.len() == 0);
                                assert(state.visited@ =~= seq![target] + state.steps@.map_values(
                                    |l: RetainerLink| l.from_node,
                                ));
                                assert(state.visited@ =~= seq![target]);
                                assert(edge.from_node == target);
                            }
                        }
                    }
                    proof {
                        if hyp && depth == 0 && si2 == 0 && paths@.len() == 0 {
                            assert forall|jj: int| 0 <= jj < li_pre + 1 implies !roots@.contains(
                                (#[trigger] (incoming.incoming@[target as int])@[jj]).from_node,
                            ) by {}
                        }
                    }
                    li += 1;
                }
            }
            proof {
                if hyp && depth == 0 && si2 == 0 && paths@.len() == 0 {
                    // a direct root retainer must have shown up among
                    // the target's recorded incoming edges
                    let (u, e) = choose|u: int, e: int|
                        #![trigger snapshot.spec_to_node_index(e), snapshot.node_edge_count_value(u)]
                        {
                            &&& 0 <= u < snapshot.spec_node_count()
                            &&& roots@.contains(u as usize)
                            &&& edge_prefix(snapshot, u) <= e < edge_prefix(snapshot, u)
                                + snapshot.node_edge_count_value(u)
                            &&& snapshot.spec_to_node_index(e) == Some(target as int)
                        };
                    assert(edge_prefix(snapshot, u) + snapshot.node_edge_count_value(u)
                        == edge_prefix(snapshot, u + 1));
                    lemma_edge_prefix_monotone(snapshot, 0, u);
                    lemma_edge_prefix_monotone(
                        snapshot,
                        u + 1,
                        snapshot.spec_node_count() as int,
                    );
                    assert(0 <= e < snapshot.spec_edge_count());
                    assert(spec_links_hold_edge((incoming.incoming@[target as int])@, e));
                    let jj = choose|jj: int|
                        0 <= jj < (incoming.incoming@[target as int])@.len() && (#[trigger] (
                        incoming.incoming@[target as int])@[jj]).edge_index == e;
                    assert(spec_links_ok(
                        snapshot,
                        target as int,
                        (incoming.incoming@[target as int])@,
                    ));
                    let link = (incoming.incoming@[target as int])@[jj];
                    assert(spec_link_wf(snapshot, link));
                    lemma_owner_unique(snapshot, link.from_node as int, u, e);
                    assert(roots@.contains(link.from_node));
                    assert(false);
                }
            }
            si2 += 1;
        }
        proof {
            if hyp && depth == 0 {
                assert(layer@.len() == 1);
                assert(si2 >= 1);
                assert(paths@.len() >= 1);
            }
        }
        layer = next_layer;
        depth += 1;
    }
    proof {
        if hyp {
            if depth == 0 {
                // the loop must have run at least once
                assert(layer@.len() == 1);
                assert(paths@.len() >= options.max_paths >= 1);
            }
        }
    }

    Ok(RetainersResult { target, roots, paths })
}

/// Whether a vector of node indices holds `x`.
fn contains_usize(v: &Vec<usize>, x: usize) -> (r: bool)
    ensures
        r == v@.contains(x),
{
    let mut i: usize = 0;
    while i < v.len()
        invariant
            0 <= i <= v@.len(),
            forall|j: int| 0 <= j < i ==> v@[j] != x,
        decreases v@.len() - i,
    {
        if v[i] == x {
            return true;
        }
        i += 1;
    }
    proof {
        if v@.contains(x) {
            let j = choose|j: int| 0 <= j < v@.len() && v@[j] == x;
            assert(false);
        }
    }
    false
}

/// Addition on size aggregates that sticks to the ends of the range
/// instead of wrapping.
fn sat_add_i128(a: i128, b: i128) -> (r: i128)
    ensures
        a + b <= i128::MAX && a + b >= i128::MIN ==> r == a + b,
{
    if b > 0 && a > i128::MAX - b {
        i128::MAX
    } else if b < 0 && a < i128::MIN - b {
        i128::MIN
    } else {
        a + b
    }
}

} // verus!
