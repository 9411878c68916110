use vstd::prelude::*;
use crate::error::SnapshotError;
use crate::snapshot::SnapshotRaw;

verus! {

/// The stored edge counts of the first `n` nodes all fit the index
/// range: non-negative and no larger than the machine can address.
pub open spec fn edge_counts_in_range(s: &SnapshotRaw, n: int) -> bool {
    forall|i: int| 0 <= i < n ==> 0 <= #[trigger] s.node_edge_count_value(i) <= usize::MAX
}

/// Sum of the stored edge counts of the first `n` nodes.
pub open spec fn edge_prefix(s: &SnapshotRaw, n: int) -> int
    decreases n,
{
    if n <= 0 {
        0
    } else {
        edge_prefix(s, n - 1) + s.node_edge_count_value(n - 1)
    }
}

/// The snapshot-wide edge-count invariant: every stored edge count is
/// an index, and their sum equals the number of edge records.
pub open spec fn offsets_valid(s: &SnapshotRaw) -> bool {
    &&& edge_counts_in_range(s, s.spec_node_count())
    &&& edge_prefix(s, s.spec_node_count()) == s.spec_edge_count()
}

/// With non-negative edge counts the prefix sums grow monotonically.
pub proof fn lemma_edge_prefix_monotone(s: &SnapshotRaw, i: int, j: int)
    requires
        0 <= i <= j,
        forall|k: int| 0 <= k < j ==> #[trigger] s.node_edge_count_value(k) >= 0,
    ensures
        edge_prefix(s, i) <= edge_prefix(s, j),
    decreases j - i,
{
    if i < j {
        lemma_edge_prefix_monotone(s, i, j - 1);
    }
}

/// The node whose edge range holds the edge record `e`.
pub open spec fn spec_edge_owner(s: &SnapshotRaw, e: int) -> int {
    choose|u: int|
        #![trigger s.node_edge_count_value(u)]
        0 <= u < s.spec_node_count() && edge_prefix(s, u) <= e < edge_prefix(s, u)
            + s.node_edge_count_value(u)
}

/// An edge record belongs to at most one node's range.
pub proof fn lemma_owner_unique(s: &SnapshotRaw, u1: int, u2: int, e: int)
    requires
        edge_counts_in_range(s, s.spec_node_count()),
        0 <= u1 < s.spec_node_count(),
        0 <= u2 < s.spec_node_count(),
        edge_prefix(s, u1) <= e < edge_prefix(s, u1) + s.node_edge_count_value(u1),
        edge_prefix(s, u2) <= e < edge_prefix(s, u2) + s.node_edge_count_value(u2),
    ensures
        u1 == u2,
{
    if u1 < u2 {
        lemma_edge_prefix_monotone(s, u1 + 1, u2);
        assert(edge_prefix(s, u1 + 1) == edge_prefix(s, u1) + s.node_edge_count_value(u1));
    }
    if u2 < u1 {
        lemma_edge_prefix_monotone(s, u2 + 1, u1);
        assert(edge_prefix(s, u2 + 1) == edge_prefix(s, u2) + s.node_edge_count_value(u2));
    }
}

/// A node whose range holds an edge record is its owner.
pub proof fn lemma_owner_is(s: &SnapshotRaw, u: int, e: int)
    requires
        edge_counts_in_range(s, s.spec_node_count()),
        0 <= u < s.spec_node_count(),
        edge_prefix(s, u) <= e < edge_prefix(s, u) + s.node_edge_count_value(u),
    ensures
        spec_edge_owner(s, e) == u,
{
    let w = spec_edge_owner(s, e);
    assert(0 <= w < s.spec_node_count() && edge_prefix(s, w) <= e < edge_prefix(s, w)
        + s.node_edge_count_value(w)) by {
        assert(0 <= u < s.spec_node_count() && edge_prefix(s, u) <= e < edge_prefix(s, u)
            + s.node_edge_count_value(u));
    }
    lemma_owner_unique(s, w, u, e);
}

/// The edge-offset index: `offsets[i]` is the sum of the edge counts of
/// nodes `0..i`, so each node's outgoing edge records start there.
///
/// Fails with `InvalidData` exactly when a stored edge count falls
/// outside the index range, when the running sum would no longer be an
/// index, or when the total disagrees with the number of edge records -
/// the snapshot-wide edge-count invariant.
pub fn compute_edge_offsets(snapshot: &SnapshotRaw) -> (r: Result<Vec<usize>, SnapshotError>)
    requires
        snapshot.wf(),
    ensures
        match r {
            Ok(offsets) => {
                &&& offsets_valid(snapshot)
                &&& offsets@.len() == snapshot.spec_node_count()
                &&& forall|i: int|
                    0 <= i < offsets@.len() ==> offsets@[i] == edge_prefix(snapshot, i)
            },
            Err(e) => {
                &&& e is InvalidData
                &&& !offsets_valid(snapshot)
            },
        },
{
    let node_count = snapshot.node_count();
    let total_edges = snapshot.edge_count();
    let mut offsets: Vec<usize> = Vec::new();
    let mut cursor: usize = 0;
    let mut i: usize = 0;

    while i < node_count
        invariant
            snapshot.wf(),
            node_count == snapshot.spec_node_count(),
            total_edges == snapshot.spec_edge_count(),
            0 <= i <= node_count,
            offsets@.len() == i,
            edge_counts_in_range(snapshot, i as int),
            forall|j: int| 0 <= j < i ==> offsets@[j] == edge_prefix(snapshot, j),
            cursor == edge_prefix(snapshot, i as int),
        decreases node_count - i,
    {
        offsets.push(cursor);
        let node = snapshot.node_view(i).unwrap();
        let edge_count = node.edge_count().unwrap();
        if edge_count < 0 || edge_count as u64 > usize::MAX as u64 {
            proof {
                assert(!edge_counts_in_range(snapshot, snapshot.spec_node_count()));
            }
            return Err(SnapshotError::InvalidData {
                details: String::from_str("edge_count out of range at a node record"),
            });
        }
        let ec = edge_count as usize;
        if ec > usize::MAX - cursor {
            proof {
                let nc = snapshot.spec_node_count() as int;
                assert(edge_prefix(snapshot, i as int + 1) == edge_prefix(snapshot, i as int)
                    + snapshot.node_edge_count_value(i as int));
                if edge_counts_in_range(snapshot, nc) {
                    lemma_edge_prefix_monotone(snapshot, i as int + 1, nc);
                    assert(edge_prefix(snapshot, nc) > usize::MAX >= total_edges);
                }
            }
            return Err(SnapshotError::InvalidData {
                details: String::from_str("edge_count sum exceeds the index range"),
            });
        }
        cursor = cursor + ec;
        i += 1;
    }

    if cursor != total_edges {
        return Err(SnapshotError::InvalidData {
            details: String::from_str("edge_count sum does not match edges length"),
        });
    }

    Ok(offsets)
}

} // verus!
