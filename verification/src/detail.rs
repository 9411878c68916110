use vstd::prelude::*;
use vstd::relations::sorted_by;
use vstd::seq_lib::{to_multiset_contains, to_multiset_len};
use crate::error::SnapshotError;
use crate::offsets::{
    compute_edge_offsets, edge_prefix, lemma_edge_prefix_monotone, lemma_owner_is,
    offsets_valid, spec_edge_owner,
};
use crate::snapshot::{EdgeView, SnapshotRaw};
use crate::sorting::{models_of, sort_by_model, OrderedByModel};
use crate::text::{spec_digits, spec_i64_str, str_eq, i64_to_string, u64_to_string};

verus! {

/// Options of the detail engine: exactly one of `id` and `name`
/// selects the subject; `skip`/`limit` page through the matching node
/// references; the two `top` bounds cut the retainer and outgoing
/// lists.
pub struct DetailOptions {
    pub id: Option<u64>,
    pub name: Option<String>,
    pub skip: usize,
    pub limit: usize,
    pub top_retainers: usize,
    pub top_edges: usize,
}

/// The detail answer, in the mode the options selected.
pub enum DetailResult {
    ByName(DetailByName),
    ById(DetailById),
}

/// Aggregates over every node carrying one constructor name.
pub struct DetailByName {
    pub name: String,
    pub total_count: u64,
    pub self_size_sum: i128,
    pub max_self_size: i64,
    pub min_self_size: i64,
    pub ids: Vec<NodeRef>,
    pub skip: usize,
    pub limit: usize,
    pub total_ids: u64,
}

/// Per-object detail: the target node, its constructor aggregates, its
/// top retainers and outgoing edges, and the group's size histogram.
pub struct DetailById {
    pub id: u64,
    pub node_index: usize,
    pub name: String,
    pub node_type: Option<String>,
    pub self_size: i64,
    pub total_count: u64,
    pub self_size_sum: i128,
    pub max_self_size: i64,
    pub min_self_size: i64,
    pub ids: Vec<NodeRef>,
    pub skip: usize,
    pub limit: usize,
    pub total_ids: u64,
    pub retainers: Vec<RetainerSummary>,
    pub outgoing_edges: Vec<OutgoingEdgeSummary>,
    pub shallow_size_distribution: Vec<ShallowSizeBucket>,
}

/// One matching node reference.
pub struct NodeRef {
    pub index: usize,
    pub id: Option<i64>,
    pub node_type: Option<String>,
    pub self_size: i64,
}

/// One edge arriving at the target, with its source node decoded.
pub struct RetainerSummary {
    pub from_index: usize,
    pub from_id: Option<i64>,
    pub from_name: Option<String>,
    pub from_node_type: Option<String>,
    pub from_self_size: i64,
    pub edge_index: usize,
    pub edge_type: Option<String>,
    pub edge_name: Option<String>,
}

/// One edge leaving the target, with its destination node decoded.
pub struct OutgoingEdgeSummary {
    pub edge_index: usize,
    pub edge_type: Option<String>,
    pub edge_name: Option<String>,
    pub to_index: usize,
    pub to_id: Option<i64>,
    pub to_name: Option<String>,
    pub to_node_type: Option<String>,
    pub to_self_size: i64,
}

/// One fixed histogram bucket over shallow sizes.
pub struct ShallowSizeBucket {
    pub label: String,
    pub min: i64,
    pub max: Option<i64>,
    pub count: u64,
}

/// The constructor name node `i` resolves to; an unresolvable name
/// index reads as the empty string, as the aggregation scans do.
pub open spec fn spec_detail_name(s: &SnapshotRaw, i: int) -> Seq<char> {
    let t = s.node_name_value(i) as int;
    if 0 <= t < s.strings@.len() {
        s.strings@[t]@
    } else {
        ""@
    }
}

/// Number of nodes among the first `n` whose resolved name is `name`.
pub open spec fn dn_count(s: &SnapshotRaw, name: Seq<char>, n: int) -> int
    decreases n,
{
    if n <= 0 {
        0
    } else {
        dn_count(s, name, n - 1) + if spec_detail_name(s, n - 1) == name {
            1int
        } else {
            0int
        }
    }
}

/// Sum of the shallow sizes of those nodes.
pub open spec fn dn_sum(s: &SnapshotRaw, name: Seq<char>, n: int) -> int
    decreases n,
{
    if n <= 0 {
        0
    } else {
        dn_sum(s, name, n - 1) + if spec_detail_name(s, n - 1) == name {
            s.node_self_size_value(n - 1) as int
        } else {
            0int
        }
    }
}

/// Largest shallow size of those nodes (the bottom of the range with
/// none).
pub open spec fn dn_max(s: &SnapshotRaw, name: Seq<char>, n: int) -> int
    decreases n,
{
    if n <= 0 {
        i64::MIN as int
    } else {
        let rest = dn_max(s, name, n - 1);
        if spec_detail_name(s, n - 1) == name && s.node_self_size_value(n - 1) as int > rest {
            s.node_self_size_value(n - 1) as int
        } else {
            rest
        }
    }
}

/// Smallest shallow size of those nodes (the top of the range with
/// none).
pub open spec fn dn_min(s: &SnapshotRaw, name: Seq<char>, n: int) -> int
    decreases n,
{
    if n <= 0 {
        i64::MAX as int
    } else {
        let rest = dn_min(s, name, n - 1);
        if spec_detail_name(s, n - 1) == name && (s.node_self_size_value(n - 1) as int) < rest {
            s.node_self_size_value(n - 1) as int
        } else {
            rest
        }
    }
}

/// The sums of a name group stay within the scanned count times the
/// field range.
proof fn lemma_dn_bounds(s: &SnapshotRaw, name: Seq<char>, n: int)
    requires
        n >= 0,
    ensures
        0 <= dn_count(s, name, n) <= n,
        -(n * 0x8000_0000_0000_0000) <= dn_sum(s, name, n) <= n * 0x8000_0000_0000_0000,
    decreases n,
{
    if n > 0 {
        lemma_dn_bounds(s, name, n - 1);
        assert((n - 1) * 0x8000_0000_0000_0000 + 0x8000_0000_0000_0000 == n
            * 0x8000_0000_0000_0000) by (nonlinear_arith);
    }
}

/// The node type name of node `i`, when its stored type indexes the
/// type-name table.
pub open spec fn spec_node_type_name(s: &SnapshotRaw, i: int) -> Option<Seq<char>> {
    let t = s.node_type_value(i) as int;
    if 0 <= t < s.index.node_type_names@.len() {
        Some(s.index.node_type_names@[t]@)
    } else {
        None
    }
}

/// The edge type name of edge `j`, when its stored type indexes the
/// type-name table.
pub open spec fn spec_edge_type_name(s: &SnapshotRaw, j: int) -> Option<Seq<char>> {
    let t = s.edge_type_value(j) as int;
    if 0 <= t < s.index.edge_type_names@.len() {
        Some(s.index.edge_type_names@[t]@)
    } else {
        None
    }
}

/// The display name of edge `j`: the numeric index bracketed for
/// `element` edges; otherwise the referenced string, or a sentinel
/// form when the payload misses the strings table.
pub open spec fn spec_edge_name(s: &SnapshotRaw, j: int) -> Seq<char> {
    let tn = match spec_edge_type_name(s, j) {
        Some(t) => t,
        None => "unknown"@,
    };
    let noi = s.edge_name_or_index_value(j) as int;
    if tn == "element"@ {
        seq!['['] + spec_i64_str(noi) + seq![']']
    } else if 0 <= noi < s.strings@.len() {
        s.strings@[noi]@
    } else if noi >= 0 {
        "<string:"@ + spec_digits(noi as nat) + ">"@
    } else {
        "<name:"@ + spec_i64_str(noi) + ">"@
    }
}

/// Renders the display name of an edge.
pub fn edge_name(snapshot: &SnapshotRaw, edge: EdgeView<'_>) -> (r: Option<String>)
    requires
        edge.wf(),
        edge.snapshot == snapshot,
    ensures
        r matches Some(n) && n@ == spec_edge_name(snapshot, edge.edge_index as int),
{
    let noi = edge.name_or_index().unwrap();
    let is_element = match edge.edge_type() {
        Some(t) => str_eq(t, "element"),
        None => {
            proof {
                reveal_strlit("unknown");
                reveal_strlit("element");
                assert("unknown"@ != "element"@) by {
                    assert("unknown"@[0] == 'u');
                    assert("element"@[0] == 'e');
                    assert('u' as u32 != 'e' as u32);
                }
            }
            false
        },
    };
    if is_element {
        let body = i64_to_string(noi);
        let r = String::from_str("[").concat(body.as_str()).concat("]");
        proof {
            reveal_strlit("[");
            reveal_strlit("]");
            assert(r@ =~= spec_edge_name(snapshot, edge.edge_index as int));
        }
        return Some(r);
    }
    if noi >= 0 && (noi as u64) < (snapshot.strings.len() as u64) {
        let r = snapshot.strings[noi as usize].clone();
        return Some(r);
    }
    if noi >= 0 {
        let body = u64_to_string(noi as u64);
        let r = String::from_str("<string:").concat(body.as_str()).concat(">");
        proof {
            reveal_strlit("<string:");
            reveal_strlit(">");
            assert(r@ =~= spec_edge_name(snapshot, edge.edge_index as int));
        }
        return Some(r);
    }
    let body = i64_to_string(noi);
    let r = String::from_str("<name:").concat(body.as_str()).concat(">");
    proof {
        reveal_strlit("<name:");
        reveal_strlit(">");
        assert(r@ =~= spec_edge_name(snapshot, edge.edge_index as int));
    }
    Some(r)
}

/// A node reference that faithfully decodes node `r.index`.
pub open spec fn spec_node_ref_ok(s: &SnapshotRaw, r: NodeRef) -> bool {
    &&& (r.index as int) < s.spec_node_count()
    &&& r.id == Some(s.node_id_value(r.index as int))
    &&& r.self_size == s.node_self_size_value(r.index as int)
    &&& match r.node_type {
        Some(t) => spec_node_type_name(s, r.index as int) matches Some(tn) && t@ == tn,
        None => spec_node_type_name(s, r.index as int) is None,
    }
}

/// An optional string faithfully resolving an optional name.
pub open spec fn spec_opt_name_ok(got: Option<String>, want: Option<Seq<char>>) -> bool {
    match got {
        Some(g) => want matches Some(w) && g@ == w,
        None => want is None,
    }
}

/// The resolved constructor name of node `i`, through the strings
/// table.
pub open spec fn spec_node_name_opt(s: &SnapshotRaw, i: int) -> Option<Seq<char>> {
    let t = s.node_name_value(i) as int;
    if 0 <= t < s.strings@.len() {
        Some(s.strings@[t]@)
    } else {
        None
    }
}

/// A retainer row that faithfully decodes one edge arriving at
/// `target`.
pub open spec fn spec_retainer_ok(s: &SnapshotRaw, target: int, it: RetainerSummary) -> bool {
    &&& (it.from_index as int) < s.spec_node_count()
    &&& edge_prefix(s, it.from_index as int) <= it.edge_index < edge_prefix(
        s,
        it.from_index as int,
    ) + s.node_edge_count_value(it.from_index as int)
    &&& s.spec_to_node_index(it.edge_index as int) == Some(target)
    &&& it.from_id == Some(s.node_id_value(it.from_index as int))
    &&& it.from_self_size == s.node_self_size_value(it.from_index as int)
    &&& spec_opt_name_ok(it.from_name, spec_node_name_opt(s, it.from_index as int))
    &&& spec_opt_name_ok(it.from_node_type, spec_node_type_name(s, it.from_index as int))
    &&& spec_opt_name_ok(it.edge_type, spec_edge_type_name(s, it.edge_index as int))
    &&& it.edge_name matches Some(en) && en@ == spec_edge_name(s, it.edge_index as int)
}

/// An outgoing row that faithfully decodes one edge leaving `node`.
pub open spec fn spec_outgoing_ok(s: &SnapshotRaw, node: int, it: OutgoingEdgeSummary) -> bool {
    &&& edge_prefix(s, node) <= it.edge_index < edge_prefix(s, node) + s.node_edge_count_value(
        node,
    )
    &&& s.spec_to_node_index(it.edge_index as int) == Some(it.to_index as int)
    &&& spec_opt_name_ok(it.edge_type, spec_edge_type_name(s, it.edge_index as int))
    &&& it.edge_name matches Some(en) && en@ == spec_edge_name(s, it.edge_index as int)
    &&& if (it.to_index as int) < s.spec_node_count() {
        &&& it.to_id == Some(s.node_id_value(it.to_index as int))
        &&& it.to_self_size == s.node_self_size_value(it.to_index as int)
        &&& spec_opt_name_ok(it.to_name, spec_node_name_opt(s, it.to_index as int))
        &&& spec_opt_name_ok(it.to_node_type, spec_node_type_name(s, it.to_index as int))
    } else {
        &&& it.to_id is None
        &&& it.to_self_size == 0
        &&& it.to_name is None
        &&& it.to_node_type is None
    }
}

/// A sort key of two integers: primary descending, secondary
/// ascending.
pub ghost struct KeyPairModel {
    pub primary: int,
    pub secondary: int,
}

/// The key order: primary descending, then secondary ascending.
pub open spec fn key_pair_le(a: KeyPairModel, b: KeyPairModel) -> bool {
    if a.primary != b.primary {
        a.primary > b.primary
    } else {
        a.secondary <= b.secondary
    }
}

impl OrderedByModel for RetainerSummary {
    type Model = KeyPairModel;

    open spec fn model(&self) -> KeyPairModel {
        KeyPairModel { primary: self.from_self_size as int, secondary: self.from_index as int }
    }

    open spec fn model_le(a: KeyPairModel, b: KeyPairModel) -> bool {
        key_pair_le(a, b)
    }

    proof fn lemma_model_le_total() {
        let leq = |a: KeyPairModel, b: KeyPairModel| RetainerSummary::model_le(a, b);
        assert forall|a: KeyPairModel, b: KeyPairModel|
            #[trigger] leq(a, b) && #[trigger] leq(b, a) implies a == b by {}
        assert forall|a: KeyPairModel, b: KeyPairModel, c: KeyPairModel|
            #[trigger] leq(a, b) && #[trigger] leq(b, c) implies leq(a, c) by {}
        assert forall|a: KeyPairModel, b: KeyPairModel| #[trigger] leq(a, b) || #[trigger] leq(
            b,
            a,
        ) by {}
    }

    fn le(&self, other: &Self) -> (r: bool) {
        if self.from_self_size != other.from_self_size {
            self.from_self_size > other.from_self_size
        } else {
            self.from_index <= other.from_index
        }
    }
}

impl OrderedByModel for OutgoingEdgeSummary {
    type Model = KeyPairModel;

    open spec fn model(&self) -> KeyPairModel {
        KeyPairModel { primary: self.to_self_size as int, secondary: self.edge_index as int }
    }

    open spec fn model_le(a: KeyPairModel, b: KeyPairModel) -> bool {
        key_pair_le(a, b)
    }

    proof fn lemma_model_le_total() {
        let leq = |a: KeyPairModel, b: KeyPairModel| OutgoingEdgeSummary::model_le(a, b);
        assert forall|a: KeyPairModel, b: KeyPairModel|
            #[trigger] leq(a, b) && #[trigger] leq(b, a) implies a == b by {}
        assert forall|a: KeyPairModel, b: KeyPairModel, c: KeyPairModel|
            #[trigger] leq(a, b) && #[trigger] leq(b, c) implies leq(a, c) by {}
        assert forall|a: KeyPairModel, b: KeyPairModel| #[trigger] leq(a, b) || #[trigger] leq(
            b,
            a,
        ) by {}
    }

    fn le(&self, other: &Self) -> (r: bool) {
        if self.to_self_size != other.to_self_size {
            self.to_self_size > other.to_self_size
        } else {
            self.edge_index <= other.edge_index
        }
    }
}


/// Locates the first node carrying the given snapshot id and decodes
/// its headline fields. Fails with `InvalidData` exactly when no node
/// carries the id.
fn find_node_by_id(snapshot: &SnapshotRaw, node_id: u64) -> (r: Result<
    (usize, String, Option<String>, i64),
    SnapshotError,
>)
    requires
        snapshot.wf(),
    ensures
        match r {
            Ok(t) => {
                &&& (t.0 as int) < snapshot.spec_node_count()
                &&& snapshot.node_id_value(t.0 as int) == node_id as i64
                &&& forall|j: int|
                    0 <= j < t.0 ==> #[trigger] snapshot.node_id_value(j) != node_id as i64
                &&& t.1@ == (match spec_node_name_opt(snapshot, t.0 as int) {
                    Some(n) => n,
                    None => "<unknown>"@,
                })
                &&& spec_opt_name_ok(t.2, spec_node_type_name(snapshot, t.0 as int))
                &&& t.3 == snapshot.node_self_size_value(t.0 as int)
            },
            Err(e) => {
                &&& e is InvalidData
                &&& forall|j: int|
                    0 <= j < snapshot.spec_node_count() ==> #[trigger] snapshot.node_id_value(j)
                        != node_id as i64
            },
        },
{
    let node_count = snapshot.node_count();
    let mut i: usize = 0;
    while i < node_count
        invariant
            snapshot.wf(),
            node_count == snapshot.spec_node_count(),
            0 <= i <= node_count,
            forall|j: int| 0 <= j < i ==> #[trigger] snapshot.node_id_value(j) != node_id as i64,
        decreases node_count - i,
    {
        let node = snapshot.node_view(i).unwrap();
        if node.id().unwrap() == node_id as i64 {
            let name = match node.name() {
                Some(n) => String::from_str(n),
                None => String::from_str("<unknown>"),
            };
            let node_type = match node.node_type() {
                Some(t) => Some(String::from_str(t)),
                None => None,
            };
            let self_size = node.self_size().unwrap();
            return Ok((i, name, node_type, self_size));
        }
        i += 1;
    }
    Err(SnapshotError::InvalidData {
        details: String::from_str("node id not found"),
    })
}

/// Aggregates over one constructor group while paging its members.
struct NameStats {
    total_count: u64,
    self_size_sum: i128,
    max_self_size: i64,
    min_self_size: i64,
    ids: Vec<NodeRef>,
    skip: usize,
    limit: usize,
    total_ids: u64,
}

/// One pass over every node: count, size sum, extreme sizes, and up to
/// `limit` member references after skipping the first `skip` matches.
/// With no match at all the aggregates read zero.
fn collect_name_stats(snapshot: &SnapshotRaw, target_name: &str, skip: usize, limit: usize) -> (r:
    NameStats)
    requires
        snapshot.wf(),
    ensures
        ({
            let nc = snapshot.spec_node_count() as int;
            let cnt = dn_count(snapshot, target_name@, nc);
            &&& r.total_count == cnt
            &&& r.total_ids == cnt
            &&& r.skip == skip
            &&& r.limit == limit
            &&& (cnt == 0 ==> r.self_size_sum == 0 && r.max_self_size == 0 && r.min_self_size
                == 0 && r.ids@.len() == 0)
            &&& (cnt > 0 ==> r.self_size_sum == dn_sum(snapshot, target_name@, nc)
                && r.max_self_size == dn_max(snapshot, target_name@, nc) && r.min_self_size
                == dn_min(snapshot, target_name@, nc))
            &&& r.ids@.len() == (if cnt - skip < 0 {
                0int
            } else if limit <= cnt - skip {
                limit as int
            } else {
                cnt - skip
            })
            &&& forall|j: int|
                0 <= j < r.ids@.len() ==> spec_node_ref_ok(snapshot, #[trigger] r.ids@[j])
                    && spec_detail_name(snapshot, r.ids@[j].index as int) == target_name@
                    && dn_count(snapshot, target_name@, r.ids@[j].index as int) == skip + j
        }),
{
    let node_count = snapshot.node_count();
    let mut total_count: u64 = 0;
    let mut self_size_sum: i128 = 0;
    let mut max_self_size: i64 = i64::MIN;
    let mut min_self_size: i64 = i64::MAX;
    let mut ids: Vec<NodeRef> = Vec::new();

    let mut i: usize = 0;
    while i < node_count
        invariant
            snapshot.wf(),
            node_count == snapshot.spec_node_count(),
            0 <= i <= node_count,
            total_count == dn_count(snapshot, target_name@, i as int),
            self_size_sum == dn_sum(snapshot, target_name@, i as int),
            max_self_size == dn_max(snapshot, target_name@, i as int),
            min_self_size == dn_min(snapshot, target_name@, i as int),
            ids@.len() <= limit,
            total_count == 0 ==> ids@.len() == 0,
            ids@.len() as int == (if total_count - skip < 0 {
                0int
            } else if limit <= total_count - skip {
                limit as int
            } else {
                total_count - skip
            }),
            forall|j: int|
                0 <= j < ids@.len() ==> spec_node_ref_ok(snapshot, #[trigger] ids@[j])
                    && spec_detail_name(snapshot, ids@[j].index as int) == target_name@
                    && dn_count(snapshot, target_name@, ids@[j].index as int) == skip + j,
        decreases node_count - i,
    {
        let node = snapshot.node_view(i).unwrap();
        let name_matches = match node.name() {
            Some(n) => str_eq(n, target_name),
            None => {
                let r = target_name.unicode_len() == 0;
                proof {
                    reveal_strlit("");
                    assert(""@ =~= Seq::<char>::empty());
                    if target_name@.len() == 0 {
                        assert(""@ =~= target_name@);
                    }
                }
                r
            },
        };
        proof {
            lemma_dn_bounds(snapshot, target_name@, i as int);
        }
        if name_matches {
            proof {
                assert(spec_detail_name(snapshot, i as int) == target_name@);
                assert((i as int) * 0x8000_0000_0000_0000 + 0x8000_0000_0000_0000 == (
                i as int + 1) * 0x8000_0000_0000_0000) by (nonlinear_arith);
                assert((i as int + 1) * 0x8000_0000_0000_0000 <= (u64::MAX as int)
                    * 0x8000_0000_0000_0000) by (nonlinear_arith)
                    requires i as int + 1 <= u64::MAX as int;
            }
            total_count = total_count + 1;
            let self_size = node.self_size().unwrap();
            self_size_sum = self_size_sum + self_size as i128;
            if self_size > max_self_size {
                max_self_size = self_size;
            }
            if self_size < min_self_size {
                min_self_size = self_size;
            }
            if total_count > skip as u64 && ids.len() < limit {
                let node_type = match node.node_type() {
                    Some(t) => Some(String::from_str(t)),
                    None => None,
                };
                proof {
                    // this node is match number `total_count` in scan
                    // order, so `skip + ids.len()` matches precede it
                    assert(dn_count(snapshot, target_name@, i as int) == total_count - 1);
                }
                ids.push(NodeRef { index: i, id: node.id(), node_type, self_size });
            }
        } else {
            proof {
                assert(spec_detail_name(snapshot, i as int) != target_name@);
            }
        }
        i += 1;
    }

    if total_count == 0 {
        return NameStats {
            total_count: 0,
            self_size_sum: 0,
            max_self_size: 0,
            min_self_size: 0,
            ids,
            skip,
            limit,
            total_ids: 0,
        };
    }
    NameStats {
        total_count,
        self_size_sum,
        max_self_size,
        min_self_size,
        ids,
        skip,
        limit,
        total_ids: total_count,
    }
}

/// Whether some kept retainer row names the edge record `e`.
pub open spec fn spec_ret_rows_hold(items: Seq<RetainerSummary>, e: int) -> bool {
    exists|j: int| 0 <= j < items.len() && (#[trigger] items[j]).edge_index == e
}

/// The sort key the retainer row of edge `e` carries: its owning
/// node's shallow size, then the owning node's index.
pub open spec fn spec_ret_key_of(s: &SnapshotRaw, e: int) -> KeyPairModel {
    KeyPairModel {
        primary: s.node_self_size_value(spec_edge_owner(s, e)) as int,
        secondary: spec_edge_owner(s, e),
    }
}

/// Number of edges among the first `e` whose reference resolves to
/// `target`.
pub open spec fn spec_retaining_count(s: &SnapshotRaw, target: int, e: int) -> int
    decreases e,
{
    if e <= 0 {
        0
    } else {
        spec_retaining_count(s, target, e - 1) + if s.spec_to_node_index(e - 1) == Some(target) {
            1int
        } else {
            0int
        }
    }
}

/// Scans every edge for references to `target` and keeps the heaviest
/// sources: sorted by source self size descending then source index
/// ascending, cut to `limit`. Fails with `InvalidData` exactly when
/// the snapshot-wide edge-count invariant does not hold.
fn top_retainers(snapshot: &SnapshotRaw, target: usize, limit: usize) -> (r: Result<
    Vec<RetainerSummary>,
    SnapshotError,
>)
    requires
        snapshot.wf(),
    ensures
        match r {
            Ok(items) => {
                &&& offsets_valid(snapshot)
                &&& items@.len() <= limit
                &&& forall|j: int|
                    0 <= j < items@.len() ==> spec_retainer_ok(
                        snapshot,
                        target as int,
                        #[trigger] items@[j],
                    )
                &&& sorted_by(
                    models_of::<RetainerSummary>(items@),
                    |a: KeyPairModel, b: KeyPairModel| RetainerSummary::model_le(a, b),
                )
                &&& ({
                    let total = spec_retaining_count(
                        snapshot,
                        target as int,
                        snapshot.spec_edge_count(),
                    );
                    items@.len() == if limit <= total {
                        limit as int
                    } else {
                        total
                    }
                })
                &&& forall|p: int, q: int|
                    0 <= p < q < items@.len() ==> (#[trigger] items@[p]).edge_index != (
                    #[trigger] items@[q]).edge_index
                &&& forall|e: int|
                    #![trigger snapshot.spec_to_node_index(e)]
                    0 <= e < snapshot.spec_edge_count() && snapshot.spec_to_node_index(e)
                        == Some(target as int) && !spec_ret_rows_hold(items@, e)
                        ==> forall|j: int|
                        0 <= j < items@.len() ==> key_pair_le(
                            (#[trigger] items@[j]).model(),
                            spec_ret_key_of(snapshot, e),
                        )
            },
            Err(e) => {
                &&& e is InvalidData
                &&& !offsets_valid(snapshot)
            },
        },
{
    let node_count = snapshot.node_count();
    let total_edges = snapshot.edge_count();
    let edge_offsets = compute_edge_offsets(snapshot)?;
    let mut items: Vec<RetainerSummary> = Vec::new();

    let mut node_index: usize = 0;
    while node_index < node_count
        invariant
            snapshot.wf(),
            offsets_valid(snapshot),
            node_count == snapshot.spec_node_count(),
            total_edges == snapshot.spec_edge_count(),
            edge_offsets@.len() == node_count,
            forall|k: int|
                0 <= k < node_count ==> #[trigger] edge_offsets@[k] == edge_prefix(snapshot, k),
            0 <= node_index <= node_count,
            items@.len() == spec_retaining_count(
                snapshot,
                target as int,
                edge_prefix(snapshot, node_index as int),
            ),
            forall|e: int|
                #![trigger snapshot.spec_to_node_index(e)]
                0 <= e < edge_prefix(snapshot, node_index as int)
                    && snapshot.spec_to_node_index(e) == Some(target as int)
                    ==> spec_ret_rows_hold(items@, e),
            forall|j: int|
                0 <= j < items@.len() ==> (#[trigger] items@[j]).model() == spec_ret_key_of(
                    snapshot,
                    items@[j].edge_index as int,
                ),
            forall|j: int|
                0 <= j < items@.len() ==> ((#[trigger] items@[j]).edge_index as int)
                    < edge_prefix(snapshot, node_index as int),
            forall|p: int, q: int|
                0 <= p < q < items@.len() ==> (#[trigger] items@[p]).edge_index != (
                #[trigger] items@[q]).edge_index,
            forall|j: int|
                0 <= j < items@.len() ==> spec_retainer_ok(
                    snapshot,
                    target as int,
                    #[trigger] items@[j],
                ),
        decreases node_count - node_index,
    {
        let start_edge = edge_offsets[node_index];
        let node = snapshot.node_view(node_index).unwrap();
        let ecv = node.edge_count().unwrap();
        proof {
            assert(0 <= snapshot.node_edge_count_value(node_index as int) <= usize::MAX);
        }
        let ec = ecv as usize;
        proof {
            assert(edge_prefix(snapshot, node_index as int + 1) == edge_prefix(
                snapshot,
                node_index as int,
            ) + snapshot.node_edge_count_value(node_index as int));
            lemma_edge_prefix_monotone(
                snapshot,
                node_index as int + 1,
                snapshot.spec_node_count() as int,
            );
        }
        let mut offset: usize = 0;
        while offset < ec
            invariant
                snapshot.wf(),
                offsets_valid(snapshot),
                node_count == snapshot.spec_node_count(),
                total_edges == snapshot.spec_edge_count(),
                node_index < node_count,
                0 <= offset <= ec,
                ec == snapshot.node_edge_count_value(node_index as int),
                start_edge == edge_prefix(snapshot, node_index as int),
                edge_prefix(snapshot, node_index as int) + ec <= snapshot.spec_edge_count(),
                node.snapshot == snapshot,
                node.node_index == node_index,
                items@.len() == spec_retaining_count(
                    snapshot,
                    target as int,
                    start_edge + offset,
                ),
                forall|e: int|
                    #![trigger snapshot.spec_to_node_index(e)]
                    0 <= e < start_edge + offset && snapshot.spec_to_node_index(e) == Some(
                        target as int,
                    ) ==> spec_ret_rows_hold(items@, e),
                forall|j: int|
                    0 <= j < items@.len() ==> (#[trigger] items@[j]).model() == spec_ret_key_of(
                        snapshot,
                        items@[j].edge_index as int,
                    ),
                forall|j: int|
                    0 <= j < items@.len() ==> ((#[trigger] items@[j]).edge_index as int)
                        < start_edge + offset,
                forall|p: int, q: int|
                    0 <= p < q < items@.len() ==> (#[trigger] items@[p]).edge_index != (
                    #[trigger] items@[q]).edge_index,
                forall|j: int|
                    0 <= j < items@.len() ==> spec_retainer_ok(
                        snapshot,
                        target as int,
                        #[trigger] items@[j],
                    ),
            decreases ec - offset,
        {
            let edge_index = start_edge + offset;
            let edge = snapshot.edge_view(edge_index).unwrap();
            let ghost items_pre2 = items@;
            let keep = match edge.to_node_index() {
                Some(to_node) => to_node == target,
                None => false,
            };
            if keep {
                let from_name = match node.name() {
                    Some(n) => Some(String::from_str(n)),
                    None => None,
                };
                let from_node_type = match node.node_type() {
                    Some(t) => Some(String::from_str(t)),
                    None => None,
                };
                let edge_type = match edge.edge_type() {
                    Some(t) => Some(String::from_str(t)),
                    None => None,
                };
                let en = edge_name(snapshot, edge);
                let ghost items_pre = items@;
                items.push(RetainerSummary {
                    from_index: node_index,
                    from_id: node.id(),
                    from_name,
                    from_node_type,
                    from_self_size: node.self_size().unwrap(),
                    edge_index,
                    edge_type,
                    edge_name: en,
                });
                proof {
                    assert forall|j: int| 0 <= j < items@.len() implies spec_retainer_ok(
                        snapshot,
                        target as int,
                        #[trigger] items@[j],
                    ) by {
                        if j < items_pre.len() {
                            assert(items@[j] == items_pre[j]);
                        }
                    }
                    lemma_owner_is(snapshot, node_index as int, edge_index as int);
                    assert((items@[items@.len() - 1]).model() == spec_ret_key_of(
                        snapshot,
                        edge_index as int,
                    ));
                }
            }
            proof {
                let ghost items_now = items@;
                assert forall|e: int|
                    #![trigger snapshot.spec_to_node_index(e)]
                    0 <= e < start_edge + offset + 1 && snapshot.spec_to_node_index(e) == Some(
                        target as int,
                    ) implies spec_ret_rows_hold(items_now, e) by {
                    if e < start_edge + offset {
                        let j = choose|j: int|
                            0 <= j < items_pre2.len() && (#[trigger] items_pre2[j]).edge_index
                                == e;
                        assert((items_now[j]).edge_index == e);
                    } else {
                        assert((items_now[items_now.len() - 1]).edge_index == e);
                    }
                }
            }
            offset += 1;
        }
        node_index += 1;
    }

    proof {
        lemma_edge_prefix_monotone(snapshot, node_count as int, node_count as int);
    }
    let ghost pre_sort = items@;
    let mut items = sort_by_model(items);
    proof {
        assert forall|j: int| 0 <= j < items@.len() implies spec_retainer_ok(
            snapshot,
            target as int,
            #[trigger] items@[j],
        ) by {
            lemma_multiset_member::<RetainerSummary>(pre_sort, items@, j);
        }
        assert forall|p: int, q: int| 0 <= p < q < items@.len() implies (
        #[trigger] items@[p]).edge_index != (#[trigger] items@[q]).edge_index by {
            crate::sorting::lemma_permutation_distinct::<RetainerSummary, usize>(
                pre_sort,
                items@,
                |it: RetainerSummary| it.edge_index,
                p,
                q,
            );
        }
    }
    let ghost sorted_full = items@;
    if items.len() > limit {
        items.truncate(limit);
        proof {
            assert(items@ =~= sorted_full.take(limit as int));
            assert(models_of::<RetainerSummary>(items@) =~= models_of::<RetainerSummary>(
                sorted_full,
            ).take(limit as int));
        }
    }
    proof {
        to_multiset_len::<RetainerSummary>(pre_sort);
        to_multiset_len::<RetainerSummary>(sorted_full);
        // an edge that was cut ranks no better than any kept row
        assert(edge_prefix(snapshot, snapshot.spec_node_count() as int)
            == snapshot.spec_edge_count());
        assert forall|e: int|
            #![trigger snapshot.spec_to_node_index(e)]
            0 <= e < snapshot.spec_edge_count() && snapshot.spec_to_node_index(e) == Some(
                target as int,
            ) && !spec_ret_rows_hold(items@, e) implies forall|j: int|
            0 <= j < items@.len() ==> key_pair_le(
                (#[trigger] items@[j]).model(),
                spec_ret_key_of(snapshot, e),
            ) by {
            assert(spec_ret_rows_hold(pre_sort, e));
            let jj = choose|jj: int|
                0 <= jj < pre_sort.len() && (#[trigger] pre_sort[jj]).edge_index == e;
            assert((pre_sort[jj]).model() == spec_ret_key_of(snapshot, e));
            crate::sorting::lemma_permutation_member::<RetainerSummary>(
                sorted_full,
                pre_sort,
                jj,
            );
            let idx = choose|idx: int|
                0 <= idx < sorted_full.len() && sorted_full[idx] == pre_sort[jj];
            assert(idx >= items@.len()) by {
                if idx < items@.len() {
                    assert(items@[idx] == sorted_full[idx]);
                    assert((items@[idx]).edge_index == e);
                }
            }
            assert forall|j: int| 0 <= j < items@.len() implies key_pair_le(
                (#[trigger] items@[j]).model(),
                spec_ret_key_of(snapshot, e),
            ) by {
                assert(items@[j] == sorted_full[j]);
                assert(models_of::<RetainerSummary>(sorted_full)[j] == (sorted_full[j]).model());
                assert(models_of::<RetainerSummary>(sorted_full)[idx]
                    == (sorted_full[idx]).model());
                let leqf = |a: KeyPairModel, b: KeyPairModel| RetainerSummary::model_le(a, b);
                assert(sorted_by(models_of::<RetainerSummary>(sorted_full), leqf));
                assert(leqf(
                    models_of::<RetainerSummary>(sorted_full)[j],
                    models_of::<RetainerSummary>(sorted_full)[idx],
                ));
            }
        }
    }
    Ok(items)
}

/// Whether some kept outgoing row names the edge record `e`.
pub open spec fn spec_out_rows_hold(items: Seq<OutgoingEdgeSummary>, e: int) -> bool {
    exists|j: int| 0 <= j < items.len() && (#[trigger] items[j]).edge_index == e
}

/// The sort key the outgoing row of edge `e` carries: the resolved
/// destination's shallow size (zero past the node range), then the
/// edge record index.
pub open spec fn spec_out_key_of(s: &SnapshotRaw, e: int) -> KeyPairModel {
    let size = match s.spec_to_node_index(e) {
        Some(v) => if v < s.spec_node_count() {
            s.node_self_size_value(v) as int
        } else {
            0int
        },
        None => 0int,
    };
    KeyPairModel { primary: size, secondary: e }
}

/// Number of resolved references among the first `o` outgoing edges
/// of the node whose records begin at `base`.
pub open spec fn spec_resolved_out_count(s: &SnapshotRaw, base: int, o: int) -> int
    decreases o,
{
    if o <= 0 {
        0
    } else {
        spec_resolved_out_count(s, base, o - 1) + if s.spec_to_node_index(base + o - 1) is Some {
            1int
        } else {
            0int
        }
    }
}

/// Walks the outgoing edges of one node and keeps the heaviest
/// destinations: sorted by destination self size descending then edge
/// index ascending, cut to `limit`. Unresolved references are skipped;
/// a resolved reference past the node range keeps the row with its
/// destination fields empty. Fails with `InvalidData` exactly when the
/// snapshot-wide edge-count invariant does not hold.
fn top_outgoing_edges(snapshot: &SnapshotRaw, node_index: usize, limit: usize) -> (r: Result<
    Vec<OutgoingEdgeSummary>,
    SnapshotError,
>)
    requires
        snapshot.wf(),
        (node_index as int) < snapshot.spec_node_count(),
    ensures
        match r {
            Ok(items) => {
                &&& offsets_valid(snapshot)
                &&& items@.len() <= limit
                &&& forall|j: int|
                    0 <= j < items@.len() ==> spec_outgoing_ok(
                        snapshot,
                        node_index as int,
                        #[trigger] items@[j],
                    )
                &&& sorted_by(
                    models_of::<OutgoingEdgeSummary>(items@),
                    |a: KeyPairModel, b: KeyPairModel| OutgoingEdgeSummary::model_le(a, b),
                )
                &&& ({
                    let total = spec_resolved_out_count(
                        snapshot,
                        edge_prefix(snapshot, node_index as int),
                        snapshot.node_edge_count_value(node_index as int) as int,
                    );
                    items@.len() == if limit <= total {
                        limit as int
                    } else {
                        total
                    }
                })
                &&& forall|p: int, q: int|
                    0 <= p < q < items@.len() ==> (#[trigger] items@[p]).edge_index != (
                    #[trigger] items@[q]).edge_index
                &&& forall|e: int|
                    #![trigger snapshot.spec_to_node_index(e)]
                    edge_prefix(snapshot, node_index as int) <= e < edge_prefix(
                        snapshot,
                        node_index as int,
                    ) + snapshot.node_edge_count_value(node_index as int)
                        && snapshot.spec_to_node_index(e) is Some && !spec_out_rows_hold(
                        items@,
                        e,
                    ) ==> forall|j: int|
                        0 <= j < items@.len() ==> key_pair_le(
                            (#[trigger] items@[j]).model(),
                            spec_out_key_of(snapshot, e),
                        )
            },
            Err(e) => {
                &&& e is InvalidData
                &&& !offsets_valid(snapshot)
            },
        },
{
    let node_count = snapshot.node_count();
    let total_edges = snapshot.edge_count();
    let edge_offsets = compute_edge_offsets(snapshot)?;
    let start_edge = edge_offsets[node_index];
    let node = snapshot.node_view(node_index).unwrap();
    let ecv = node.edge_count().unwrap();
    proof {
        assert(0 <= snapshot.node_edge_count_value(node_index as int) <= usize::MAX);
    }
    let ec = ecv as usize;
    proof {
        assert(edge_prefix(snapshot, node_index as int + 1) == edge_prefix(
            snapshot,
            node_index as int,
        ) + snapshot.node_edge_count_value(node_index as int));
        lemma_edge_prefix_monotone(
            snapshot,
            node_index as int + 1,
            snapshot.spec_node_count() as int,
        );
    }

    let mut items: Vec<OutgoingEdgeSummary> = Vec::new();
    let mut offset: usize = 0;
    while offset < ec
        invariant
            snapshot.wf(),
            offsets_valid(snapshot),
            node_count == snapshot.spec_node_count(),
            total_edges == snapshot.spec_edge_count(),
            node_index < node_count,
            0 <= offset <= ec,
            ec == snapshot.node_edge_count_value(node_index as int),
            start_edge == edge_prefix(snapshot, node_index as int),
            edge_prefix(snapshot, node_index as int) + ec <= snapshot.spec_edge_count(),
            items@.len() == spec_resolved_out_count(snapshot, start_edge as int, offset as int),
            forall|e: int|
                #![trigger snapshot.spec_to_node_index(e)]
                start_edge <= e < start_edge + offset && snapshot.spec_to_node_index(e) is Some
                    ==> spec_out_rows_hold(items@, e),
            forall|j: int|
                0 <= j < items@.len() ==> (#[trigger] items@[j]).model() == spec_out_key_of(
                    snapshot,
                    items@[j].edge_index as int,
                ),
            forall|j: int|
                start_edge <= (#[trigger] items@[j]).edge_index as int || !(0 <= j
                    < items@.len()),
            forall|j: int|
                0 <= j < items@.len() ==> ((#[trigger] items@[j]).edge_index as int) < start_edge
                    + offset,
            forall|p: int, q: int|
                0 <= p < q < items@.len() ==> (#[trigger] items@[p]).edge_index != (
                #[trigger] items@[q]).edge_index,
            forall|j: int|
                0 <= j < items@.len() ==> spec_outgoing_ok(
                    snapshot,
                    node_index as int,
                    #[trigger] items@[j],
                ),
        decreases ec - offset,
    {
        let edge_index = start_edge + offset;
        let edge = snapshot.edge_view(edge_index).unwrap();
        let ghost items_pre = items@;
        match edge.to_node_index() {
            None => {},
            Some(to_node) => {
                let edge_type = match edge.edge_type() {
                    Some(t) => Some(String::from_str(t)),
                    None => None,
                };
                let en = edge_name(snapshot, edge);
                if to_node < node_count {
                    let to_view = snapshot.node_view(to_node).unwrap();
                    let to_name = match to_view.name() {
                        Some(n) => Some(String::from_str(n)),
                        None => None,
                    };
                    let to_node_type = match to_view.node_type() {
                        Some(t) => Some(String::from_str(t)),
                        None => None,
                    };
                    items.push(OutgoingEdgeSummary {
                        edge_index,
                        edge_type,
                        edge_name: en,
                        to_index: to_node,
                        to_id: to_view.id(),
                        to_name,
                        to_node_type,
                        to_self_size: to_view.self_size().unwrap(),
                    });
                } else {
                    items.push(OutgoingEdgeSummary {
                        edge_index,
                        edge_type,
                        edge_name: en,
                        to_index: to_node,
                        to_id: None,
                        to_name: None,
                        to_node_type: None,
                        to_self_size: 0,
                    });
                }
                proof {
                    assert((items@[items@.len() - 1]).edge_index == edge_index);
                    assert((items@[items@.len() - 1]).model() == spec_out_key_of(
                        snapshot,
                        edge_index as int,
                    ));
                }
            },
        }
        proof {
            assert forall|e: int|
                #![trigger snapshot.spec_to_node_index(e)]
                start_edge <= e < start_edge + offset + 1 && snapshot.spec_to_node_index(e)
                    is Some implies spec_out_rows_hold(items@, e) by {
                if e < start_edge + offset {
                    assert(spec_out_rows_hold(items_pre, e));
                    let j = choose|j: int|
                        0 <= j < items_pre.len() && (#[trigger] items_pre[j]).edge_index == e;
                    assert((items@[j]).edge_index == e);
                } else {
                    assert((items@[items@.len() - 1]).edge_index == e);
                }
            }
        }
        offset += 1;
    }

    let ghost pre_sort = items@;
    let mut items = sort_by_model(items);
    proof {
        assert forall|j: int| 0 <= j < items@.len() implies spec_outgoing_ok(
            snapshot,
            node_index as int,
            #[trigger] items@[j],
        ) by {
            lemma_multiset_member::<OutgoingEdgeSummary>(pre_sort, items@, j);
        }
        assert forall|p: int, q: int| 0 <= p < q < items@.len() implies (
        #[trigger] items@[p]).edge_index != (#[trigger] items@[q]).edge_index by {
            crate::sorting::lemma_permutation_distinct::<OutgoingEdgeSummary, usize>(
                pre_sort,
                items@,
                |it: OutgoingEdgeSummary| it.edge_index,
                p,
                q,
            );
        }
    }
    let ghost sorted_full = items@;
    if items.len() > limit {
        items.truncate(limit);
        proof {
            assert(items@ =~= sorted_full.take(limit as int));
            assert(models_of::<OutgoingEdgeSummary>(items@) =~= models_of::<OutgoingEdgeSummary>(
                sorted_full,
            ).take(limit as int));
        }
    }
    proof {
        to_multiset_len::<OutgoingEdgeSummary>(pre_sort);
        to_multiset_len::<OutgoingEdgeSummary>(sorted_full);
        // an edge that was cut ranks no better than any kept row
        assert forall|e: int|
            #![trigger snapshot.spec_to_node_index(e)]
            edge_prefix(snapshot, node_index as int) <= e < edge_prefix(
                snapshot,
                node_index as int,
            ) + snapshot.node_edge_count_value(node_index as int) && snapshot.spec_to_node_index(
                e,
            ) is Some && !spec_out_rows_hold(items@, e) implies forall|j: int|
            0 <= j < items@.len() ==> key_pair_le(
                (#[trigger] items@[j]).model(),
                spec_out_key_of(snapshot, e),
            ) by {
            assert(spec_out_rows_hold(pre_sort, e));
            let jj = choose|jj: int|
                0 <= jj < pre_sort.len() && (#[trigger] pre_sort[jj]).edge_index == e;
            assert((pre_sort[jj]).model() == spec_out_key_of(snapshot, e));
            crate::sorting::lemma_permutation_member::<OutgoingEdgeSummary>(
                sorted_full,
                pre_sort,
                jj,
            );
            let idx = choose|idx: int|
                0 <= idx < sorted_full.len() && sorted_full[idx] == pre_sort[jj];
            assert(idx >= items@.len()) by {
                if idx < items@.len() {
                    assert(items@[idx] == sorted_full[idx]);
                    assert((items@[idx]).edge_index == e);
                }
            }
            assert forall|j: int| 0 <= j < items@.len() implies key_pair_le(
                (#[trigger] items@[j]).model(),
                spec_out_key_of(snapshot, e),
            ) by {
                assert(items@[j] == sorted_full[j]);
                assert(models_of::<OutgoingEdgeSummary>(sorted_full)[j]
                    == (sorted_full[j]).model());
                assert(models_of::<OutgoingEdgeSummary>(sorted_full)[idx]
                    == (sorted_full[idx]).model());
                let leqf = |a: KeyPairModel, b: KeyPairModel| OutgoingEdgeSummary::model_le(a, b);
                assert(sorted_by(models_of::<OutgoingEdgeSummary>(sorted_full), leqf));
                assert(leqf(
                    models_of::<OutgoingEdgeSummary>(sorted_full)[j],
                    models_of::<OutgoingEdgeSummary>(sorted_full)[idx],
                ));
            }
        }
    }
    Ok(items)
}

/// Number of nodes among the first `n` of the name group whose size
/// lies in the bucket range.
pub open spec fn spec_bucket_count(
    s: &SnapshotRaw,
    name: Seq<char>,
    lo: int,
    hi: Option<int>,
    n: int,
) -> int
    decreases n,
{
    if n <= 0 {
        0
    } else {
        spec_bucket_count(s, name, lo, hi, n - 1) + if spec_detail_name(s, n - 1) == name && lo
            <= s.node_self_size_value(n - 1) as int && (match hi {
            Some(h) => s.node_self_size_value(n - 1) as int <= h,
            None => true,
        }) {
            1int
        } else {
            0int
        }
    }
}

/// Renders a bucket range label.
pub fn bucket_label(min: i64, max: Option<i64>) -> (r: String)
    ensures
        r@ == (match max {
            Some(m) => spec_i64_str(min as int) + "-"@ + spec_i64_str(m as int),
            None => spec_i64_str(min as int) + "+"@,
        }),
{
    match max {
        Some(m) => {
            let r = i64_to_string(min).concat("-").concat(i64_to_string(m).as_str());
            proof {
                reveal_strlit("-");
            }
            r
        },
        None => {
            let r = i64_to_string(min).concat("+");
            proof {
                reveal_strlit("+");
            }
            r
        },
    }
}

/// The eight fixed shallow-size buckets of one constructor group; a
/// node lands in the bucket whose range holds its size.
fn shallow_size_distribution(snapshot: &SnapshotRaw, target_name: &str) -> (r: Vec<
    ShallowSizeBucket,
>)
    requires
        snapshot.wf(),
    ensures
        r@.len() == 8,
        forall|b: int|
            0 <= b < 8 ==> {
                let bucket = #[trigger] r@[b];
                bucket.count == spec_bucket_count(
                    snapshot,
                    target_name@,
                    bucket.min as int,
                    (match bucket.max {
                        Some(m) => Some(m as int),
                        None => None,
                    }),
                    snapshot.spec_node_count(),
                )
            },
        r@[0].min == 0 && r@[0].max == Some(0i64),
        r@[1].min == 1 && r@[1].max == Some(31i64),
        r@[2].min == 32 && r@[2].max == Some(127i64),
        r@[3].min == 128 && r@[3].max == Some(511i64),
        r@[4].min == 512 && r@[4].max == Some(2047i64),
        r@[5].min == 2048 && r@[5].max == Some(8191i64),
        r@[6].min == 8192 && r@[6].max == Some(32767i64),
        r@[7].min == 32768 && r@[7].max is None,
{
    let node_count = snapshot.node_count();
    let mins: [i64; 8] = [0, 1, 32, 128, 512, 2048, 8192, 32768];
    let maxs: [Option<i64>; 8] = [
        Some(0),
        Some(31),
        Some(127),
        Some(511),
        Some(2047),
        Some(8191),
        Some(32767),
        None,
    ];
    let mut buckets: Vec<ShallowSizeBucket> = Vec::new();
    let mut b: usize = 0;
    while b < 8
        invariant
            snapshot.wf(),
            node_count == snapshot.spec_node_count(),
            0 <= b <= 8,
            buckets@.len() == b,
            mins@ =~= seq![0i64, 1i64, 32i64, 128i64, 512i64, 2048i64, 8192i64, 32768i64],
            maxs@ =~= seq![
                Some(0i64),
                Some(31i64),
                Some(127i64),
                Some(511i64),
                Some(2047i64),
                Some(8191i64),
                Some(32767i64),
                None,
            ],
            forall|k: int|
                0 <= k < b ==> {
                    let bucket = #[trigger] buckets@[k];
                    &&& bucket.min == mins@[k]
                    &&& bucket.max == maxs@[k]
                    &&& bucket.count == spec_bucket_count(
                        snapshot,
                        target_name@,
                        bucket.min as int,
                        (match bucket.max {
                            Some(m) => Some(m as int),
                            None => None,
                        }),
                        snapshot.spec_node_count(),
                    )
                },
        decreases 8 - b,
    {
        let lo = mins[b];
        let hi = maxs[b];
        let mut count: u64 = 0;
        let mut i: usize = 0;
        while i < node_count
            invariant
                snapshot.wf(),
                node_count == snapshot.spec_node_count(),
                0 <= i <= node_count,
                count == spec_bucket_count(
                    snapshot,
                    target_name@,
                    lo as int,
                    (match hi {
                        Some(m) => Some(m as int),
                        None => None,
                    }),
                    i as int,
                ),
                count <= i,
            decreases node_count - i,
        {
            let node = snapshot.node_view(i).unwrap();
            let name_matches = match node.name() {
                Some(n) => str_eq(n, target_name),
                None => {
                    let r = target_name.unicode_len() == 0;
                    proof {
                        reveal_strlit("");
                        assert(""@ =~= Seq::<char>::empty());
                        if target_name@.len() == 0 {
                            assert(""@ =~= target_name@);
                        }
                    }
                    r
                },
            };
            if name_matches {
                let size = node.self_size().unwrap();
                let in_range = size >= lo && (match hi {
                    Some(m) => size <= m,
                    None => true,
                });
                if in_range {
                    count = count + 1;
                }
            }
            i += 1;
        }
        buckets.push(ShallowSizeBucket { label: bucket_label(lo, hi), min: lo, max: hi, count });
        b += 1;
    }
    buckets
}

/// The per-constructor or per-object report, by `name` or by `id`.
///
/// Fails with `InvalidData` when both or neither selector is given,
/// when the id or name matches nothing, and - in id mode - when the
/// snapshot-wide edge-count invariant does not hold.
pub fn detail(snapshot: &SnapshotRaw, options: DetailOptions) -> (r: Result<
    DetailResult,
    SnapshotError,
>)
    requires
        snapshot.wf(),
    ensures
        match r {
            Ok(res) => match res {
                DetailResult::ByName(d) => {
                    &&& options.id is None
                    &&& options.name matches Some(n) && d.name@ == n@
                    &&& d.total_count == dn_count(
                        snapshot,
                        d.name@,
                        snapshot.spec_node_count(),
                    )
                    &&& d.total_count > 0
                    &&& d.self_size_sum == dn_sum(snapshot, d.name@, snapshot.spec_node_count())
                    &&& d.max_self_size == dn_max(snapshot, d.name@, snapshot.spec_node_count())
                    &&& d.min_self_size == dn_min(snapshot, d.name@, snapshot.spec_node_count())
                    &&& d.skip == options.skip
                    &&& d.limit == options.limit
                    &&& ({
                        let cnt = dn_count(snapshot, d.name@, snapshot.spec_node_count());
                        d.ids@.len() == (if cnt - d.skip < 0 {
                            0int
                        } else if d.limit <= cnt - d.skip {
                            d.limit as int
                        } else {
                            cnt - d.skip
                        })
                    })
                    &&& forall|j: int|
                        0 <= j < d.ids@.len() ==> spec_node_ref_ok(snapshot, #[trigger] d.ids@[j])
                            && spec_detail_name(snapshot, d.ids@[j].index as int) == d.name@
                            && dn_count(snapshot, d.name@, d.ids@[j].index as int) == d.skip + j
                },
                DetailResult::ById(d) => {
                    &&& options.id == Some(d.id)
                    &&& options.name is None
                    &&& offsets_valid(snapshot)
                    &&& (d.node_index as int) < snapshot.spec_node_count()
                    &&& snapshot.node_id_value(d.node_index as int) == d.id as i64
                    &&& d.self_size == snapshot.node_self_size_value(d.node_index as int)
                    &&& d.total_count == dn_count(
                        snapshot,
                        d.name@,
                        snapshot.spec_node_count(),
                    )
                    &&& ({
                        let total = spec_retaining_count(
                            snapshot,
                            d.node_index as int,
                            snapshot.spec_edge_count(),
                        );
                        d.retainers@.len() == if options.top_retainers <= total {
                            options.top_retainers as int
                        } else {
                            total
                        }
                    })
                    &&& forall|p: int, q: int|
                        0 <= p < q < d.retainers@.len() ==> (#[trigger] d.retainers@[p]).edge_index
                            != (#[trigger] d.retainers@[q]).edge_index
                    &&& forall|e: int|
                        #![trigger snapshot.spec_to_node_index(e)]
                        0 <= e < snapshot.spec_edge_count() && snapshot.spec_to_node_index(e)
                            == Some(d.node_index as int) && !spec_ret_rows_hold(d.retainers@, e)
                            ==> forall|j: int|
                            0 <= j < d.retainers@.len() ==> key_pair_le(
                                (#[trigger] d.retainers@[j]).model(),
                                spec_ret_key_of(snapshot, e),
                            )
                    &&& forall|j: int|
                        0 <= j < d.retainers@.len() ==> spec_retainer_ok(
                            snapshot,
                            d.node_index as int,
                            #[trigger] d.retainers@[j],
                        )
                    &&& sorted_by(
                        models_of::<RetainerSummary>(d.retainers@),
                        |a: KeyPairModel, b: KeyPairModel| RetainerSummary::model_le(a, b),
                    )
                    &&& ({
                        let total = spec_resolved_out_count(
                            snapshot,
                            edge_prefix(snapshot, d.node_index as int),
                            snapshot.node_edge_count_value(d.node_index as int) as int,
                        );
                        d.outgoing_edges@.len() == if options.top_edges <= total {
                            options.top_edges as int
                        } else {
                            total
                        }
                    })
                    &&& forall|p: int, q: int|
                        0 <= p < q < d.outgoing_edges@.len() ==> (
                        #[trigger] d.outgoing_edges@[p]).edge_index != (
                        #[trigger] d.outgoing_edges@[q]).edge_index
                    &&& forall|e: int|
                        #![trigger snapshot.spec_to_node_index(e)]
                        edge_prefix(snapshot, d.node_index as int) <= e < edge_prefix(
                            snapshot,
                            d.node_index as int,
                        ) + snapshot.node_edge_count_value(d.node_index as int)
                            && snapshot.spec_to_node_index(e) is Some && !spec_out_rows_hold(
                            d.outgoing_edges@,
                            e,
                        ) ==> forall|j: int|
                            0 <= j < d.outgoing_edges@.len() ==> key_pair_le(
                                (#[trigger] d.outgoing_edges@[j]).model(),
                                spec_out_key_of(snapshot, e),
                            )
                    &&& forall|j: int|
                        0 <= j < d.outgoing_edges@.len() ==> spec_outgoing_ok(
                            snapshot,
                            d.node_index as int,
                            #[trigger] d.outgoing_edges@[j],
                        )
                    &&& sorted_by(
                        models_of::<OutgoingEdgeSummary>(d.outgoing_edges@),
                        |a: KeyPairModel, b: KeyPairModel| OutgoingEdgeSummary::model_le(a, b),
                    )
                    &&& d.shallow_size_distribution@.len() == 8
                },
            },
            Err(e) => {
                &&& e is InvalidData
                &&& {
                    ||| (options.id is Some && options.name is Some)
                    ||| (options.id is None && options.name is None)
                    ||| (options.id matches Some(nid) && (!offsets_valid(snapshot) || forall|
                        j: int,
                    |
                        0 <= j < snapshot.spec_node_count() ==> #[trigger] snapshot.node_id_value(
                            j,
                        ) != nid as i64)
                    )
                    ||| (options.id is None && (options.name matches Some(n) && dn_count(
                        snapshot,
                        n@,
                        snapshot.spec_node_count(),
                    ) == 0))
                }
            },
        },
{
    if options.id.is_some() && options.name.is_some() {
        return Err(SnapshotError::InvalidData {
            details: String::from_str("use either an id or a name selector, not both"),
        });
    }
    if options.id.is_none() && options.name.is_none() {
        return Err(SnapshotError::InvalidData {
            details: String::from_str("either an id or a name selector must be given"),
        });
    }

    match options.id {
        Some(node_id) => {
            let found = find_node_by_id(snapshot, node_id)?;
            let (node_index, name, node_type, self_size) = found;
            let stats = collect_name_stats(snapshot, name.as_str(), options.skip, options.limit);
            let retainers = top_retainers(snapshot, node_index, options.top_retainers)?;
            let outgoing_edges = top_outgoing_edges(snapshot, node_index, options.top_edges)?;
            let distribution = shallow_size_distribution(snapshot, name.as_str());
            Ok(DetailResult::ById(DetailById {
                id: node_id,
                node_index,
                name,
                node_type,
                self_size,
                total_count: stats.total_count,
                self_size_sum: stats.self_size_sum,
                max_self_size: stats.max_self_size,
                min_self_size: stats.min_self_size,
                ids: stats.ids,
                skip: stats.skip,
                limit: stats.limit,
                total_ids: stats.total_ids,
                retainers,
                outgoing_edges,
                shallow_size_distribution: distribution,
            }))
        },
        None => {
            let name = match options.name {
                Some(n) => n,
                None => String::new(),
            };
            let stats = collect_name_stats(snapshot, name.as_str(), options.skip, options.limit);
            if stats.total_count == 0 {
                return Err(SnapshotError::InvalidData {
                    details: String::from_str("no nodes match the requested name"),
                });
            }
            Ok(DetailResult::ByName(DetailByName {
                name,
                total_count: stats.total_count,
                self_size_sum: stats.self_size_sum,
                max_self_size: stats.max_self_size,
                min_self_size: stats.min_self_size,
                ids: stats.ids,
                skip: stats.skip,
                limit: stats.limit,
                total_ids: stats.total_ids,
            }))
        },
    }
}

/// Everything in a sorted vector was in the unsorted one.
proof fn lemma_multiset_member<T>(pre: Seq<T>, post: Seq<T>, j: int)
    requires
        pre.to_multiset() == post.to_multiset(),
        0 <= j < post.len(),
    ensures
        exists|k: int| 0 <= k < pre.len() && pre[k] == post[j],
{
    to_multiset_contains::<T>(post, post[j]);
    assert(post.contains(post[j]));
    assert(post.to_multiset().count(post[j]) > 0);
    to_multiset_contains::<T>(pre, post[j]);
    assert(pre.contains(post[j]));
    let k = choose|k: int| 0 <= k < pre.len() && pre[k] == post[j];
    assert(pre[k] == post[j]);
}

} // verus!
