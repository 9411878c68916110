use vstd::prelude::*;
use vstd::relations::{sorted_by, total_ordering};
use vstd::seq_lib::lemma_sorted_unique;
use crate::error::SnapshotError;
use crate::snapshot::SnapshotRaw;
use crate::sorting::{models_of, sort_by_model, OrderedByModel};
use crate::text::{
    contains_substring, has_substring, lemma_lex_from_asymmetric, lemma_lex_from_decides,
    lemma_lex_from_transitive, lex_lt, str_lex_lt,
};

verus! {

/// Options of the summary engine: keep at most `top` rows, and only
/// count nodes whose constructor name contains `contains`.
pub struct SummaryOptions {
    pub top: usize,
    pub contains: Option<String>,
}

/// One aggregate row: all counted nodes sharing one name-table entry.
pub struct SummaryRow {
    pub name: String,
    pub count: u64,
    pub self_size_sum: i128,
    pub name_index: usize,
}

/// The summary: total node count, the leading rows, and the secondary
/// per-type buckets of the nodes whose resolved name is empty.
pub struct SummaryResult {
    pub total_nodes: usize,
    pub rows: Vec<SummaryRow>,
    pub empty_name_types: Vec<EmptyTypeSummary>,
}

/// A secondary bucket: empty-named nodes grouped by node-type name.
pub struct EmptyTypeSummary {
    pub node_type: String,
    pub count: u64,
    pub self_size_sum: i128,
}

/// The ghost model of a summary row.
pub ghost struct RowModel {
    pub name: Seq<char>,
    pub count: int,
    pub self_size_sum: int,
    pub name_index: int,
}

/// The ghost model of an empty-name type bucket.
pub ghost struct TypeBucketModel {
    pub node_type: Seq<char>,
    pub count: int,
    pub self_size_sum: int,
}

/// The substring filter a `contains` option denotes.
pub open spec fn filter_of(contains: Option<String>) -> Option<Seq<char>> {
    match contains {
        None => None,
        Some(s) => Some(s@),
    }
}

/// Every node among the first `n` stores a name index inside the
/// strings table.
pub open spec fn names_ok(s: &SnapshotRaw, n: int) -> bool {
    forall|i: int| 0 <= i < n ==> 0 <= #[trigger] s.node_name_value(i) < s.strings@.len()
}

/// Whether node `i` passes the substring filter.
pub open spec fn node_matches(s: &SnapshotRaw, filter: Option<Seq<char>>, i: int) -> bool {
    match filter {
        None => true,
        Some(f) => has_substring(s.strings@[s.node_name_value(i) as int]@, f),
    }
}

/// Number of nodes among the first `n` whose name index is `k` and
/// that pass the filter.
pub open spec fn group_count(s: &SnapshotRaw, filter: Option<Seq<char>>, k: int, n: int) -> int
    decreases n,
{
    if n <= 0 {
        0
    } else {
        group_count(s, filter, k, n - 1) + if s.node_name_value(n - 1) == k && node_matches(
            s,
            filter,
            n - 1,
        ) {
            1int
        } else {
            0int
        }
    }
}

/// Sum of the shallow sizes of the nodes counted by `group_count`.
pub open spec fn group_sum(s: &SnapshotRaw, filter: Option<Seq<char>>, k: int, n: int) -> int
    decreases n,
{
    if n <= 0 {
        0
    } else {
        group_sum(s, filter, k, n - 1) + if s.node_name_value(n - 1) == k && node_matches(
            s,
            filter,
            n - 1,
        ) {
            s.node_self_size_value(n - 1) as int
        } else {
            0int
        }
    }
}

/// The aggregate row of name-table entry `k`, over the whole snapshot.
pub open spec fn model_at(s: &SnapshotRaw, filter: Option<Seq<char>>, k: int) -> RowModel {
    RowModel {
        name: s.strings@[k]@,
        count: group_count(s, filter, k, s.spec_node_count()),
        self_size_sum: group_sum(s, filter, k, s.spec_node_count()),
        name_index: k,
    }
}

/// The non-empty aggregate rows of the first `m` name-table entries,
/// in table order.
pub open spec fn group_models_upto(s: &SnapshotRaw, filter: Option<Seq<char>>, m: int) -> Seq<
    RowModel,
> {
    Seq::new(m as nat, |k: int| model_at(s, filter, k)).filter(|r: RowModel| r.count > 0)
}

/// The type-name bucket node `i` would feed: its resolved node type,
/// or `unknown` with none.
pub open spec fn spec_bucket_name_of(s: &SnapshotRaw, i: int) -> Seq<char> {
    match crate::detail::spec_node_type_name(s, i) {
        Some(t) => t,
        None => "unknown"@,
    }
}

/// Whether node `i` contributes to the empty-name buckets: its name
/// resolves to the empty string and it passes the filter.
pub open spec fn spec_empty_contrib(s: &SnapshotRaw, filter: Option<Seq<char>>, i: int) -> bool {
    &&& 0 <= s.node_name_value(i) < s.strings@.len()
    &&& s.strings@[s.node_name_value(i) as int]@.len() == 0
    &&& node_matches(s, filter, i)
}

/// Number of contributing nodes among the first `n` that feed the
/// type name `nm`.
pub open spec fn spec_etype_count(
    s: &SnapshotRaw,
    filter: Option<Seq<char>>,
    nm: Seq<char>,
    n: int,
) -> int
    decreases n,
{
    if n <= 0 {
        0
    } else {
        spec_etype_count(s, filter, nm, n - 1) + if spec_empty_contrib(s, filter, n - 1)
            && spec_bucket_name_of(s, n - 1) == nm {
            1int
        } else {
            0int
        }
    }
}

/// Sum of the shallow sizes of those nodes.
pub open spec fn spec_etype_sum(
    s: &SnapshotRaw,
    filter: Option<Seq<char>>,
    nm: Seq<char>,
    n: int,
) -> int
    decreases n,
{
    if n <= 0 {
        0
    } else {
        spec_etype_sum(s, filter, nm, n - 1) + if spec_empty_contrib(s, filter, n - 1)
            && spec_bucket_name_of(s, n - 1) == nm {
            s.node_self_size_value(n - 1) as int
        } else {
            0int
        }
    }
}

/// A type name no node has fed yet aggregates to zero.
proof fn lemma_etype_zero(s: &SnapshotRaw, filter: Option<Seq<char>>, nm: Seq<char>, n: int)
    requires
        forall|j: int|
            0 <= j < n ==> !(#[trigger] spec_empty_contrib(s, filter, j) && spec_bucket_name_of(
                s,
                j,
            ) == nm),
    ensures
        spec_etype_count(s, filter, nm, n) == 0,
        spec_etype_sum(s, filter, nm, n) == 0,
    decreases n,
{
    if n > 0 {
        lemma_etype_zero(s, filter, nm, n - 1);
    }
}

/// Whether some bucket carries the type name `nm`.
pub open spec fn spec_buckets_list(buckets: Seq<EmptyTypeSummary>, nm: Seq<char>) -> bool {
    exists|j: int| 0 <= j < buckets.len() && (#[trigger] buckets[j]).node_type@ == nm
}

/// Whether some contributing node feeds the type name `nm`.
pub open spec fn spec_bucket_source(s: &SnapshotRaw, filter: Option<Seq<char>>, nm: Seq<char>) -> bool {
    exists|i: int|
        0 <= i < s.spec_node_count() && #[trigger] spec_empty_contrib(s, filter, i)
            && spec_bucket_name_of(s, i) == nm
}

/// Every bucket's type name comes from some contributing node.
pub open spec fn spec_buckets_sourced(
    s: &SnapshotRaw,
    filter: Option<Seq<char>>,
    buckets: Seq<EmptyTypeSummary>,
) -> bool {
    forall|j: int|
        0 <= j < buckets.len() ==> spec_bucket_source(
            s,
            filter,
            (#[trigger] buckets[j]).node_type@,
        )
}

/// Every contributing node among the first `n` has its type name
/// listed in the buckets.
pub open spec fn spec_buckets_cover(
    s: &SnapshotRaw,
    filter: Option<Seq<char>>,
    buckets: Seq<EmptyTypeSummary>,
    n: int,
) -> bool {
    forall|i: int|
        0 <= i < n && #[trigger] spec_empty_contrib(s, filter, i) ==> spec_buckets_list(
            buckets,
            spec_bucket_name_of(s, i),
        )
}

/// The summary row order: self-size sum descending, then count
/// descending, then name ascending, then name-table position ascending.
pub open spec fn row_le(a: RowModel, b: RowModel) -> bool {
    if a.self_size_sum != b.self_size_sum {
        a.self_size_sum > b.self_size_sum
    } else if a.count != b.count {
        a.count > b.count
    } else if a.name != b.name {
        lex_lt(a.name, b.name)
    } else {
        a.name_index <= b.name_index
    }
}

/// Every row of the full summary of a snapshot, sorted: what `summarize`
/// truncates to its `top` option.
pub open spec fn spec_summary_full(s: &SnapshotRaw, filter: Option<Seq<char>>) -> Seq<RowModel> {
    group_models_upto(s, filter, s.strings@.len() as int).sort_by(
        |a: RowModel, b: RowModel| SummaryRow::model_le(a, b),
    )
}

/// Two names that neither precedes the other are the same name.
proof fn lemma_lex_antisym(a: Seq<char>, b: Seq<char>)
    requires
        !lex_lt(a, b),
        !lex_lt(b, a),
    ensures
        a == b,
{
    lemma_lex_from_decides(a, b, 0);
    assert(a =~= b);
}

/// The row order is a total ordering.
pub proof fn lemma_row_le_total()
    ensures
        total_ordering(|a: RowModel, b: RowModel| SummaryRow::model_le(a, b)),
{
    let leq = |a: RowModel, b: RowModel| SummaryRow::model_le(a, b);
    assert forall|a: RowModel| #[trigger] leq(a, a) by {}
    assert forall|a: RowModel, b: RowModel| #[trigger] leq(a, b) && #[trigger] leq(b, a)
        implies a == b by {
        if a.name != b.name {
            lemma_lex_from_asymmetric(a.name, b.name, 0);
        }
    }
    assert forall|a: RowModel, b: RowModel, c: RowModel|
        #[trigger] leq(a, b) && #[trigger] leq(b, c) implies leq(a, c) by {
        if a.self_size_sum == c.self_size_sum && a.count == c.count {
            if a.name != b.name && b.name != c.name {
                lemma_lex_from_transitive(a.name, b.name, c.name, 0);
                if a.name == c.name {
                    lemma_lex_from_asymmetric(a.name, b.name, 0);
                }
            }
        }
    }
    assert forall|a: RowModel, b: RowModel| #[trigger] leq(a, b) || #[trigger] leq(b, a) by {
        if a.self_size_sum == b.self_size_sum && a.count == b.count && a.name != b.name {
            if !lex_lt(a.name, b.name) && !lex_lt(b.name, a.name) {
                lemma_lex_antisym(a.name, b.name);
            }
        }
    }
}

impl OrderedByModel for SummaryRow {
    type Model = RowModel;

    open spec fn model(&self) -> RowModel {
        RowModel {
            name: self.name@,
            count: self.count as int,
            self_size_sum: self.self_size_sum as int,
            name_index: self.name_index as int,
        }
    }

    open spec fn model_le(a: RowModel, b: RowModel) -> bool {
        row_le(a, b)
    }

    proof fn lemma_model_le_total() {
        lemma_row_le_total();
    }

    fn le(&self, other: &Self) -> (r: bool) {
        if self.self_size_sum != other.self_size_sum {
            self.self_size_sum > other.self_size_sum
        } else if self.count != other.count {
            self.count > other.count
        } else if !(self.name == other.name) {
            str_lex_lt(self.name.as_str(), other.name.as_str())
        } else {
            self.name_index <= other.name_index
        }
    }
}

/// The bucket order: self-size sum descending, then count descending,
/// then node-type name ascending.
pub open spec fn bucket_le(a: TypeBucketModel, b: TypeBucketModel) -> bool {
    if a.self_size_sum != b.self_size_sum {
        a.self_size_sum > b.self_size_sum
    } else if a.count != b.count {
        a.count > b.count
    } else if a.node_type != b.node_type {
        lex_lt(a.node_type, b.node_type)
    } else {
        true
    }
}

impl OrderedByModel for EmptyTypeSummary {
    type Model = TypeBucketModel;

    open spec fn model(&self) -> TypeBucketModel {
        TypeBucketModel {
            node_type: self.node_type@,
            count: self.count as int,
            self_size_sum: self.self_size_sum as int,
        }
    }

    open spec fn model_le(a: TypeBucketModel, b: TypeBucketModel) -> bool {
        bucket_le(a, b)
    }

    proof fn lemma_model_le_total() {
        let leq = |a: TypeBucketModel, b: TypeBucketModel| EmptyTypeSummary::model_le(a, b);
        assert forall|a: TypeBucketModel, b: TypeBucketModel|
            #[trigger] leq(a, b) && #[trigger] leq(b, a) implies a == b by {
            if a.node_type != b.node_type {
                lemma_lex_from_asymmetric(a.node_type, b.node_type, 0);
            }
        }
        assert forall|a: TypeBucketModel, b: TypeBucketModel, c: TypeBucketModel|
            #[trigger] leq(a, b) && #[trigger] leq(b, c) implies leq(a, c) by {
            if a.self_size_sum == c.self_size_sum && a.count == c.count {
                if a.node_type != b.node_type && b.node_type != c.node_type {
                    lemma_lex_from_transitive(a.node_type, b.node_type, c.node_type, 0);
                    if a.node_type == c.node_type {
                        lemma_lex_from_asymmetric(a.node_type, b.node_type, 0);
                    }
                }
            }
        }
        assert forall|a: TypeBucketModel, b: TypeBucketModel|
            #[trigger] leq(a, b) || #[trigger] leq(b, a) by {
            if a.self_size_sum == b.self_size_sum && a.count == b.count && a.node_type
                != b.node_type {
                if !lex_lt(a.node_type, b.node_type) && !lex_lt(b.node_type, a.node_type) {
                    lemma_lex_antisym(a.node_type, b.node_type);
                }
            }
        }
    }

    fn le(&self, other: &Self) -> (r: bool) {
        if self.self_size_sum != other.self_size_sum {
            self.self_size_sum > other.self_size_sum
        } else if self.count != other.count {
            self.count > other.count
        } else if !(self.node_type == other.node_type) {
            str_lex_lt(self.node_type.as_str(), other.node_type.as_str())
        } else {
            true
        }
    }
}

/// A group never counts more nodes than were scanned, and its size sum
/// stays within the scanned count times the field range.
proof fn lemma_group_bounds(s: &SnapshotRaw, filter: Option<Seq<char>>, k: int, n: int)
    requires
        n >= 0,
    ensures
        0 <= group_count(s, filter, k, n) <= n,
        -(n * 0x8000_0000_0000_0000) <= group_sum(s, filter, k, n) <= n * 0x8000_0000_0000_0000,
    decreases n,
{
    if n > 0 {
        lemma_group_bounds(s, filter, k, n - 1);
        assert((n - 1) * 0x8000_0000_0000_0000 + 0x8000_0000_0000_0000 == n
            * 0x8000_0000_0000_0000) by (nonlinear_arith);
    }
}

/// Scanning one more name-table entry appends its row exactly when the
/// row is populated.
proof fn lemma_models_upto_step(s: &SnapshotRaw, filter: Option<Seq<char>>, k: int)
    requires
        0 <= k,
    ensures
        group_models_upto(s, filter, k + 1) == if model_at(s, filter, k).count > 0 {
            group_models_upto(s, filter, k).push(model_at(s, filter, k))
        } else {
            group_models_upto(s, filter, k)
        },
{
    reveal(Seq::filter);
    let f = |kk: int| model_at(s, filter, kk);
    let pred = |r: RowModel| r.count > 0;
    let a = Seq::new((k + 1) as nat, f);
    let b = Seq::new(k as nat, f);
    assert(a.drop_last() =~= b);
    assert(a.last() == f(k));
    assert(a.filter(pred) == if pred(a.last()) {
        b.filter(pred).push(a.last())
    } else {
        b.filter(pred)
    });
}

/// The full summary has at most one row per strings-table entry.
pub proof fn lemma_summary_full_len(s: &SnapshotRaw, filter: Option<Seq<char>>)
    ensures
        spec_summary_full(s, filter).len() <= s.strings@.len(),
{
    broadcast use vstd::seq_lib::group_filter_ensures;
    broadcast use vstd::seq_lib::group_to_multiset_ensures;

    let f = |kk: int| model_at(s, filter, kk);
    let pred = |r: RowModel| r.count > 0;
    let base = Seq::new(s.strings@.len() as nat, f);
    let all = group_models_upto(s, filter, s.strings@.len() as int);
    assert(all == base.filter(pred));
    assert(all.len() <= base.len());
    let leq = |a: RowModel, b: RowModel| SummaryRow::model_le(a, b);
    lemma_row_le_total();
    all.lemma_sort_by_ensures(leq);
    assert(all.sort_by(leq).to_multiset() == all.to_multiset());
    vstd::seq_lib::to_multiset_len(all);
    vstd::seq_lib::to_multiset_len(all.sort_by(leq));
    assert(all.sort_by(leq).len() == all.len());
}

/// Raising the row cap only appends rows: the summary kept under a
/// smaller cap `t1` is exactly the first `t1` rows of the summary kept
/// under any larger cap `t2`, never reordered.
pub proof fn lemma_summary_top_monotone(
    s: &SnapshotRaw,
    filter: Option<Seq<char>>,
    t1: int,
    t2: int,
)
    requires
        0 <= t1 <= t2,
    ensures
        ({
            let full = spec_summary_full(s, filter);
            let cut1 = if t1 <= full.len() {
                t1
            } else {
                full.len() as int
            };
            let cut2 = if t2 <= full.len() {
                t2
            } else {
                full.len() as int
            };
            full.take(cut1) == full.take(cut2).take(cut1)
        }),
{
    let full = spec_summary_full(s, filter);
    let cut1 = if t1 <= full.len() {
        t1
    } else {
        full.len() as int
    };
    let cut2 = if t2 <= full.len() {
        t2
    } else {
        full.len() as int
    };
    assert(full.take(cut1) =~= full.take(cut2).take(cut1));
}

/// Aggregates every node by its constructor-name table entry: for each
/// populated entry, how many nodes carry it and how many bytes of
/// shallow size they hold; rows sorted by `row_le` and cut to `top`.
/// Nodes whose resolved name is empty are also grouped into secondary
/// buckets keyed by node-type name.
///
/// Succeeds exactly when every node's stored name index points inside
/// the strings table; otherwise `InvalidData`.
pub fn summarize(snapshot: &SnapshotRaw, options: SummaryOptions) -> (r: Result<
    SummaryResult,
    SnapshotError,
>)
    requires
        snapshot.wf(),
    ensures
        match r {
            Ok(res) => {
                &&& names_ok(snapshot, snapshot.spec_node_count())
                &&& res.total_nodes == snapshot.spec_node_count()
                &&& ({
                    let full = spec_summary_full(snapshot, filter_of(options.contains));
                    let cut = if options.top <= full.len() {
                        options.top as int
                    } else {
                        full.len() as int
                    };
                    models_of::<SummaryRow>(res.rows@) == full.take(cut)
                })
                &&& sorted_by(
                    models_of::<EmptyTypeSummary>(res.empty_name_types@),
                    |a: TypeBucketModel, b: TypeBucketModel| EmptyTypeSummary::model_le(a, b),
                )
                &&& forall|j: int|
                    0 <= j < res.empty_name_types@.len() ==> (
                    #[trigger] res.empty_name_types@[j]).count >= 1
                &&& forall|p: int, q: int|
                    0 <= p < q < res.empty_name_types@.len() ==> (
                    #[trigger] res.empty_name_types@[p]).node_type@ != (
                    #[trigger] res.empty_name_types@[q]).node_type@
                &&& spec_buckets_sourced(
                    snapshot,
                    filter_of(options.contains),
                    res.empty_name_types@,
                )
                &&& spec_buckets_cover(
                    snapshot,
                    filter_of(options.contains),
                    res.empty_name_types@,
                    snapshot.spec_node_count(),
                )
                &&& forall|j: int|
                    #![trigger res.empty_name_types@[j]]
                    0 <= j < res.empty_name_types@.len() ==> (res.empty_name_types@[j]).count
                        == spec_etype_count(
                        snapshot,
                        filter_of(options.contains),
                        (res.empty_name_types@[j]).node_type@,
                        snapshot.spec_node_count(),
                    ) && (res.empty_name_types@[j]).self_size_sum == spec_etype_sum(
                        snapshot,
                        filter_of(options.contains),
                        (res.empty_name_types@[j]).node_type@,
                        snapshot.spec_node_count(),
                    )
            },
            Err(e) => {
                &&& e is InvalidData
                &&& !names_ok(snapshot, snapshot.spec_node_count())
            },
        },
{
    let ghost filter = filter_of(options.contains);
    let node_count = snapshot.node_count();
    let strings_len = snapshot.strings.len();

    let mut counts: Vec<u64> = Vec::new();
    let mut sums: Vec<i128> = Vec::new();
    let mut t: usize = 0;
    while t < strings_len
        invariant
            0 <= t <= strings_len,
            counts@.len() == t,
            sums@.len() == t,
            forall|j: int| 0 <= j < t ==> counts@[j] == 0,
            forall|j: int| 0 <= j < t ==> sums@[j] == 0,
        decreases strings_len - t,
    {
        counts.push(0);
        sums.push(0);
        t += 1;
    }

    let mut empties: Vec<EmptyTypeSummary> = Vec::new();
    let mut empties_seen: u64 = 0;

    let mut i: usize = 0;
    while i < node_count
        invariant
            snapshot.wf(),
            node_count == snapshot.spec_node_count(),
            strings_len == snapshot.strings@.len(),
            filter == filter_of(options.contains),
            0 <= i <= node_count,
            counts@.len() == strings_len,
            sums@.len() == strings_len,
            names_ok(snapshot, i as int),
            forall|k: int|
                0 <= k < strings_len ==> #[trigger] counts@[k] == group_count(
                    snapshot,
                    filter,
                    k,
                    i as int,
                ),
            forall|k: int|
                0 <= k < strings_len ==> #[trigger] sums@[k] == group_sum(
                    snapshot,
                    filter,
                    k,
                    i as int,
                ),
            empties_seen <= i,
            forall|j: int|
                0 <= j < empties@.len() ==> #[trigger] empties@[j].count <= empties_seen,
            forall|j: int| 0 <= j < empties@.len() ==> #[trigger] empties@[j].count >= 1,
            forall|p: int, q: int|
                0 <= p < q < empties@.len() ==> (#[trigger] empties@[p]).node_type@ != (
                #[trigger] empties@[q]).node_type@,
            spec_buckets_sourced(snapshot, filter, empties@),
            spec_buckets_cover(snapshot, filter, empties@, i as int),
            forall|j: int|
                #![trigger empties@[j]]
                0 <= j < empties@.len() ==> empties@[j].count == spec_etype_count(
                    snapshot,
                    filter,
                    empties@[j].node_type@,
                    i as int,
                ) && empties@[j].self_size_sum == spec_etype_sum(
                    snapshot,
                    filter,
                    empties@[j].node_type@,
                    i as int,
                ),
            forall|j: int|
                0 <= j < empties@.len() ==> -((empties_seen as int) * 0x8000_0000_0000_0000)
                    <= #[trigger] empties@[j].self_size_sum <= (empties_seen as int)
                    * 0x8000_0000_0000_0000,
        decreases node_count - i,
    {
        let node = snapshot.node_view(i).unwrap();
        let k = match node.name_index() {
            Some(value) => value,
            None => {
                return Err(SnapshotError::InvalidData {
                    details: String::from_str("node name index is negative or out of range"),
                });
            },
        };
        if k >= strings_len {
            return Err(SnapshotError::InvalidData {
                details: String::from_str("node name index is out of the strings table"),
            });
        }

        let passes = match &options.contains {
            None => true,
            Some(f) => contains_substring(snapshot.strings[k].as_str(), f.as_str()),
        };
        if passes {
            proof {
                lemma_group_bounds(snapshot, filter, k as int, i as int);
            }
            let c = counts[k];
            counts[k] = c + 1;
            let sz = node.self_size().unwrap();
            let s0 = sums[k];
            proof {
                assert((i as int) * 0x8000_0000_0000_0000 + 0x8000_0000_0000_0000 == (i as int
                    + 1) * 0x8000_0000_0000_0000) by (nonlinear_arith);
                assert((i as int + 1) * 0x8000_0000_0000_0000 <= (u64::MAX as int)
                    * 0x8000_0000_0000_0000) by (nonlinear_arith)
                    requires i as int + 1 <= u64::MAX as int;
            }
            sums[k] = s0 + sz as i128;

            // secondary buckets for empty names
            if snapshot.strings[k].as_str().unicode_len() == 0 {
                let tname: String = match node.node_type() {
                    Some(tn) => String::from_str(tn),
                    None => String::from_str("unknown"),
                };
                let mut found: bool = false;
                let mut at: usize = 0;
                let mut j: usize = 0;
                while j < empties.len()
                    invariant
                        0 <= j <= empties@.len(),
                        !found ==> at == 0,
                        found ==> at < empties@.len() && empties@[at as int].node_type@ == tname@,
                        !found ==> forall|k: int|
                            0 <= k < j ==> (#[trigger] empties@[k]).node_type@ != tname@,
                    decreases empties@.len() - j,
                {
                    if empties[j].node_type == tname {
                        found = true;
                        at = j;
                        j = empties.len();
                    } else {
                        j += 1;
                    }
                }
                let ghost empties_at_pre = empties@;
                if found {
                    let old_entry = empties.remove(at);
                    proof {
                        assert((empties_seen as int) * 0x8000_0000_0000_0000
                            + 0x8000_0000_0000_0000 == (empties_seen as int + 1)
                            * 0x8000_0000_0000_0000) by (nonlinear_arith);
                        assert((empties_seen as int + 1) * 0x8000_0000_0000_0000 <= (
                        u64::MAX as int) * 0x8000_0000_0000_0000) by (nonlinear_arith)
                            requires empties_seen as int + 1 <= u64::MAX as int;
                    }
                    let ghost empties_mid = empties@;
                    let updated = EmptyTypeSummary {
                        node_type: old_entry.node_type,
                        count: old_entry.count + 1,
                        self_size_sum: old_entry.self_size_sum + sz as i128,
                    };
                    empties.insert(at, updated);
                    proof {
                        assert forall|p: int, q: int| 0 <= p < q < empties@.len() implies (
                        #[trigger] empties@[p]).node_type@ != (
                        #[trigger] empties@[q]).node_type@ by {
                            let pre = empties_mid.insert(at as int, updated);
                            assert(empties@ == pre);
                        }
                        // every entry keeps its type name through the
                        // in-place update
                        assert forall|j: int| 0 <= j < empties@.len() implies (
                        #[trigger] empties@[j]).node_type@ == (empties_at_pre[j]).node_type@ by {
                            if j < at {
                                assert(empties@[j] == empties_at_pre[j]);
                            } else if j == at {
                                assert(empties@[j] == updated);
                            } else {
                                assert(empties@[j] == empties_mid[j - 1]);
                                assert(empties_mid[j - 1] == empties_at_pre[j]);
                            }
                        }
                        assert(spec_empty_contrib(snapshot, filter, i as int));
                        assert(spec_bucket_name_of(snapshot, i as int) == tname@);
                        assert forall|j: int| 0 <= j < empties@.len() implies spec_bucket_source(
                            snapshot,
                            filter,
                            (#[trigger] empties@[j]).node_type@,
                        ) by {
                            assert(spec_bucket_source(
                                snapshot,
                                filter,
                                (empties_at_pre[j]).node_type@,
                            ));
                        }
                        assert forall|i2: int|
                            0 <= i2 < i + 1 && #[trigger] spec_empty_contrib(
                                snapshot,
                                filter,
                                i2,
                            ) implies spec_buckets_list(
                            empties@,
                            spec_bucket_name_of(snapshot, i2),
                        ) by {
                            if i2 < i {
                                assert(spec_buckets_list(
                                    empties_at_pre,
                                    spec_bucket_name_of(snapshot, i2),
                                ));
                                let j = choose|j: int|
                                    0 <= j < empties_at_pre.len() && (
                                    #[trigger] empties_at_pre[j]).node_type@
                                        == spec_bucket_name_of(snapshot, i2);
                                assert((empties@[j]).node_type@ == spec_bucket_name_of(
                                    snapshot,
                                    i2,
                                ));
                            } else {
                                assert((empties@[at as int]).node_type@ == tname@);
                            }
                        }
                        // the aggregates track the per-type-name sums
                        assert forall|j: int| #![trigger empties@[j]] 0 <= j < empties@.len()
                            implies empties@[j].count == spec_etype_count(
                            snapshot,
                            filter,
                            empties@[j].node_type@,
                            i as int + 1,
                        ) && empties@[j].self_size_sum == spec_etype_sum(
                            snapshot,
                            filter,
                            empties@[j].node_type@,
                            i as int + 1,
                        ) by {
                            assert(empties_at_pre[j].count == spec_etype_count(
                                snapshot,
                                filter,
                                empties_at_pre[j].node_type@,
                                i as int,
                            ) && empties_at_pre[j].self_size_sum == spec_etype_sum(
                                snapshot,
                                filter,
                                empties_at_pre[j].node_type@,
                                i as int,
                            ));
                            if j == at {
                                assert(empties@[j] == updated);
                            } else {
                                assert(empties@[j] == empties_at_pre[j]);
                                assert((empties@[j]).node_type@ != tname@);
                            }
                        }
                    }
                } else {
                    let ghost empties_pre = empties@;
                    let ghost tname_view = tname@;
                    empties.push(EmptyTypeSummary {
                        node_type: tname,
                        count: 1,
                        self_size_sum: sz as i128,
                    });
                    proof {
                        assert forall|p: int, q: int| 0 <= p < q < empties@.len() implies (
                        #[trigger] empties@[p]).node_type@ != (
                        #[trigger] empties@[q]).node_type@ by {
                            if q == empties@.len() - 1 {
                                assert(empties@[p] == empties_pre[p]);
                            }
                        }
                        assert(spec_empty_contrib(snapshot, filter, i as int));
                        assert(spec_bucket_name_of(snapshot, i as int) == tname_view);
                        assert((empties@[empties@.len() - 1]).node_type@ == tname_view);
                        assert forall|j: int| 0 <= j < empties@.len() implies spec_bucket_source(
                            snapshot,
                            filter,
                            (#[trigger] empties@[j]).node_type@,
                        ) by {
                            if j < empties_pre.len() {
                                assert(empties@[j] == empties_pre[j]);
                            }
                        }
                        assert forall|i2: int|
                            0 <= i2 < i + 1 && #[trigger] spec_empty_contrib(
                                snapshot,
                                filter,
                                i2,
                            ) implies spec_buckets_list(
                            empties@,
                            spec_bucket_name_of(snapshot, i2),
                        ) by {
                            if i2 < i {
                                let j = choose|j: int|
                                    0 <= j < empties_pre.len() && (
                                    #[trigger] empties_pre[j]).node_type@
                                        == spec_bucket_name_of(snapshot, i2);
                                assert((empties@[j]).node_type@ == spec_bucket_name_of(
                                    snapshot,
                                    i2,
                                ));
                            }
                        }
                        // a fresh bucket starts from zero: no earlier
                        // node fed this type name
                        assert forall|j2: int| 0 <= j2 < i implies !(
                        #[trigger] spec_empty_contrib(snapshot, filter, j2)
                            && spec_bucket_name_of(snapshot, j2) == tname_view) by {
                            if spec_empty_contrib(snapshot, filter, j2)
                                && spec_bucket_name_of(snapshot, j2) == tname_view {
                                assert(spec_buckets_list(
                                    empties_pre,
                                    spec_bucket_name_of(snapshot, j2),
                                ));
                                let jj = choose|jj: int|
                                    0 <= jj < empties_pre.len() && (
                                    #[trigger] empties_pre[jj]).node_type@
                                        == spec_bucket_name_of(snapshot, j2);
                                assert(false);
                            }
                        }
                        lemma_etype_zero(snapshot, filter, tname_view, i as int);
                        assert forall|j: int| #![trigger empties@[j]] 0 <= j < empties@.len()
                            implies empties@[j].count == spec_etype_count(
                            snapshot,
                            filter,
                            empties@[j].node_type@,
                            i as int + 1,
                        ) && empties@[j].self_size_sum == spec_etype_sum(
                            snapshot,
                            filter,
                            empties@[j].node_type@,
                            i as int + 1,
                        ) by {
                            if j < empties_pre.len() {
                                assert(empties@[j] == empties_pre[j]);
                                assert(empties_pre[j].count == spec_etype_count(
                                    snapshot,
                                    filter,
                                    empties_pre[j].node_type@,
                                    i as int,
                                ) && empties_pre[j].self_size_sum == spec_etype_sum(
                                    snapshot,
                                    filter,
                                    empties_pre[j].node_type@,
                                    i as int,
                                ));
                                assert((empties@[j]).node_type@ != tname_view);
                            } else {
                                assert((empties@[j]).node_type@ == tname_view);
                            }
                        }
                    }
                }
                empties_seen = empties_seen + 1;
            }
            proof {
                assert forall|kk: int| 0 <= kk < strings_len implies #[trigger] counts@[kk]
                    == group_count(snapshot, filter, kk, i as int + 1) by {
                    if kk == k {
                        assert(node_matches(snapshot, filter, i as int));
                    } else {
                        assert(snapshot.node_name_value(i as int) != kk);
                    }
                }
                assert forall|kk: int| 0 <= kk < strings_len implies #[trigger] sums@[kk]
                    == group_sum(snapshot, filter, kk, i as int + 1) by {
                    if kk == k {
                        assert(node_matches(snapshot, filter, i as int));
                    } else {
                        assert(snapshot.node_name_value(i as int) != kk);
                    }
                }
            }
        } else {
            proof {
                assert(!node_matches(snapshot, filter, i as int));
                assert forall|kk: int| 0 <= kk < strings_len implies #[trigger] counts@[kk]
                    == group_count(snapshot, filter, kk, i as int + 1) by {}
                assert forall|kk: int| 0 <= kk < strings_len implies #[trigger] sums@[kk]
                    == group_sum(snapshot, filter, kk, i as int + 1) by {}
            }
        }
        i += 1;
    }

    // materialise the populated rows in table order
    let mut rows: Vec<SummaryRow> = Vec::new();
    let mut k: usize = 0;
    while k < strings_len
        invariant
            snapshot.wf(),
            node_count == snapshot.spec_node_count(),
            strings_len == snapshot.strings@.len(),
            filter == filter_of(options.contains),
            counts@.len() == strings_len,
            sums@.len() == strings_len,
            0 <= k <= strings_len,
            forall|kk: int|
                0 <= kk < strings_len ==> #[trigger] counts@[kk] == group_count(
                    snapshot,
                    filter,
                    kk,
                    node_count as int,
                ),
            forall|kk: int|
                0 <= kk < strings_len ==> #[trigger] sums@[kk] == group_sum(
                    snapshot,
                    filter,
                    kk,
                    node_count as int,
                ),
            models_of::<SummaryRow>(rows@) == group_models_upto(snapshot, filter, k as int),
        decreases strings_len - k,
    {
        proof {
            lemma_models_upto_step(snapshot, filter, k as int);
        }
        if counts[k] > 0 {
            let ghost rows_pre = rows@;
            rows.push(SummaryRow {
                name: snapshot.strings[k].clone(),
                count: counts[k],
                self_size_sum: sums[k],
                name_index: k,
            });
            proof {
                assert(models_of::<SummaryRow>(rows@) =~= models_of::<SummaryRow>(
                    rows_pre,
                ).push(model_at(snapshot, filter, k as int)));
            }
        }
        k += 1;
    }

    // sort, match the canonical order, truncate
    let ghost pre_sort_models = models_of::<SummaryRow>(rows@);
    let mut rows = sort_by_model(rows);
    proof {
        let leq = |a: RowModel, b: RowModel| SummaryRow::model_le(a, b);
        let all = group_models_upto(snapshot, filter, strings_len as int);
        lemma_row_le_total();
        all.lemma_sort_by_ensures(leq);
        lemma_sorted_unique(models_of::<SummaryRow>(rows@), all.sort_by(leq), leq);
        assert(models_of::<SummaryRow>(rows@) == spec_summary_full(snapshot, filter));
    }
    let ghost sorted_models = models_of::<SummaryRow>(rows@);
    if rows.len() > options.top {
        rows.truncate(options.top);
        proof {
            assert(models_of::<SummaryRow>(rows@) =~= sorted_models.take(options.top as int));
        }
    } else {
        proof {
            assert(models_of::<SummaryRow>(rows@) =~= sorted_models.take(
                sorted_models.len() as int,
            ));
        }
    }

    let ghost empties_pre_sort = empties@;
    let empty_name_types = sort_by_model(empties);
    proof {
        assert forall|j: int| 0 <= j < empty_name_types@.len() implies (
        #[trigger] empty_name_types@[j]).count >= 1 by {
            crate::sorting::lemma_permutation_member::<EmptyTypeSummary>(
                empties_pre_sort,
                empty_name_types@,
                j,
            );
        }
        assert forall|p: int, q: int| 0 <= p < q < empty_name_types@.len() implies (
        #[trigger] empty_name_types@[p]).node_type@ != (
        #[trigger] empty_name_types@[q]).node_type@ by {
            crate::sorting::lemma_permutation_distinct::<EmptyTypeSummary, Seq<char>>(
                empties_pre_sort,
                empty_name_types@,
                |e: EmptyTypeSummary| e.node_type@,
                p,
                q,
            );
        }
        assert forall|j: int| 0 <= j < empty_name_types@.len() implies spec_bucket_source(
            snapshot,
            filter,
            (#[trigger] empty_name_types@[j]).node_type@,
        ) by {
            crate::sorting::lemma_permutation_member::<EmptyTypeSummary>(
                empties_pre_sort,
                empty_name_types@,
                j,
            );
            let jj = choose|jj: int|
                0 <= jj < empties_pre_sort.len() && empties_pre_sort[jj]
                    == empty_name_types@[j];
            assert(spec_bucket_source(snapshot, filter, (empties_pre_sort[jj]).node_type@));
        }
        assert(spec_buckets_sourced(snapshot, filter, empty_name_types@));
        assert forall|i2: int|
            0 <= i2 < snapshot.spec_node_count() && #[trigger] spec_empty_contrib(
                snapshot,
                filter,
                i2,
            ) implies spec_buckets_list(
            empty_name_types@,
            spec_bucket_name_of(snapshot, i2),
        ) by {
            assert(spec_buckets_list(empties_pre_sort, spec_bucket_name_of(snapshot, i2)));
            let j = choose|j: int|
                0 <= j < empties_pre_sort.len() && (#[trigger] empties_pre_sort[j]).node_type@
                    == spec_bucket_name_of(snapshot, i2);
            crate::sorting::lemma_permutation_member::<EmptyTypeSummary>(
                empty_name_types@,
                empties_pre_sort,
                j,
            );
            let jj = choose|jj: int|
                0 <= jj < empty_name_types@.len() && empty_name_types@[jj]
                    == empties_pre_sort[j];
            assert((empty_name_types@[jj]).node_type@ == spec_bucket_name_of(snapshot, i2));
        }
        assert(spec_buckets_cover(
            snapshot,
            filter,
            empty_name_types@,
            snapshot.spec_node_count(),
        ));
        assert forall|j: int| #![trigger empty_name_types@[j]] 0 <= j < empty_name_types@.len()
            implies (empty_name_types@[j]).count == spec_etype_count(
            snapshot,
            filter,
            (empty_name_types@[j]).node_type@,
            snapshot.spec_node_count(),
        ) && (empty_name_types@[j]).self_size_sum == spec_etype_sum(
            snapshot,
            filter,
            (empty_name_types@[j]).node_type@,
            snapshot.spec_node_count(),
        ) by {
            crate::sorting::lemma_permutation_member::<EmptyTypeSummary>(
                empties_pre_sort,
                empty_name_types@,
                j,
            );
            let jj = choose|jj: int|
                0 <= jj < empties_pre_sort.len() && empties_pre_sort[jj] == empty_name_types@[j];
            assert(empties_pre_sort[jj].count == spec_etype_count(
                snapshot,
                filter,
                empties_pre_sort[jj].node_type@,
                snapshot.spec_node_count(),
            ));
        }
        assert(filter == filter_of(options.contains));
        assert(spec_buckets_sourced(snapshot, filter_of(options.contains), empty_name_types@));
        assert(spec_buckets_cover(
            snapshot,
            filter_of(options.contains),
            empty_name_types@,
            snapshot.spec_node_count(),
        ));
    }

    Ok(SummaryResult { total_nodes: node_count, rows, empty_name_types })
}

} // verus!
