use vstd::prelude::*;
use vstd::relations::sorted_by;
use vstd::seq_lib::to_multiset_contains;
use crate::error::SnapshotError;
use crate::snapshot::SnapshotRaw;
use crate::sorting::{models_of, sort_by_model, OrderedByModel};
use crate::summary::{
    filter_of, lemma_summary_full_len, names_ok, spec_summary_full, summarize, RowModel,
    SummaryOptions,
};
use crate::text::{
    contains_substring, has_substring, lemma_lex_from_asymmetric, lemma_lex_from_decides,
    lemma_lex_from_transitive, lex_lt, str_eq, str_lex_lt,
};

verus! {

/// Options of the diff engine: keep at most `top` rows, and only emit
/// names containing `contains`.
pub struct DiffOptions {
    pub top: usize,
    pub contains: Option<String>,
}

/// One name's delta between the two snapshots.
pub struct DiffRow {
    pub name: String,
    pub count_a: u64,
    pub count_b: u64,
    pub count_delta: i128,
    pub self_size_sum_a: i128,
    pub self_size_sum_b: i128,
    pub self_size_sum_delta: i128,
}

/// The diff: both totals and the leading delta rows.
pub struct DiffResult {
    pub total_nodes_a: usize,
    pub total_nodes_b: usize,
    pub rows: Vec<DiffRow>,
}

/// The ghost model of a diff row.
pub ghost struct DiffRowModel {
    pub name: Seq<char>,
    pub count_a: int,
    pub count_b: int,
    pub count_delta: int,
    pub sum_a: int,
    pub sum_b: int,
    pub sum_delta: int,
}

/// The count a summary assigns to a name; with several rows of one
/// name, the last row in summary order stands. Absent names count
/// zero.
pub open spec fn lookup_count(rows: Seq<RowModel>, name: Seq<char>) -> int
    decreases rows.len(),
{
    if rows.len() == 0 {
        0
    } else if rows.last().name == name {
        rows.last().count
    } else {
        lookup_count(rows.drop_last(), name)
    }
}

/// The self-size sum a summary assigns to a name, under the same
/// resolution.
pub open spec fn lookup_sum(rows: Seq<RowModel>, name: Seq<char>) -> int
    decreases rows.len(),
{
    if rows.len() == 0 {
        0
    } else if rows.last().name == name {
        rows.last().self_size_sum
    } else {
        lookup_sum(rows.drop_last(), name)
    }
}

/// Whether a summary mentions a name.
pub open spec fn seq_has_name(rows: Seq<RowModel>, name: Seq<char>) -> bool {
    exists|i: int| 0 <= i < rows.len() && (#[trigger] rows[i]).name == name
}

/// A value clamped to the symmetric range of the delta field.
pub open spec fn spec_clamp(v: int) -> int {
    if v > i128::MAX {
        i128::MAX as int
    } else if v < -(i128::MAX as int) {
        -(i128::MAX as int)
    } else {
        v
    }
}

/// A diff row that faithfully reports the two summaries' numbers for
/// its name.
pub open spec fn spec_diff_row_ok(
    a_full: Seq<RowModel>,
    b_full: Seq<RowModel>,
    m: DiffRowModel,
) -> bool {
    &&& m.count_a == lookup_count(a_full, m.name)
    &&& m.count_b == lookup_count(b_full, m.name)
    &&& m.count_delta == m.count_b - m.count_a
    &&& m.sum_a == lookup_sum(a_full, m.name)
    &&& m.sum_b == lookup_sum(b_full, m.name)
    &&& m.sum_delta == spec_clamp(m.sum_b - m.sum_a)
}

/// Every name of `full` that the cap pushed out of the rows ranks no
/// better than any kept row.
pub open spec fn spec_diff_dominates(
    full: Seq<RowModel>,
    a_full: Seq<RowModel>,
    b_full: Seq<RowModel>,
    contains: Option<String>,
    rows: Seq<DiffRow>,
) -> bool {
    forall|x: int|
        #![trigger full[x]]
        0 <= x < full.len() && (match contains {
            Some(f) => has_substring(full[x].name, f@),
            None => true,
        }) && !diff_rows_have_name(rows, full[x].name) ==> forall|j: int|
            0 <= j < rows.len() ==> diff_le(
                (#[trigger] rows[j]).model(),
                spec_delta_model(a_full, b_full, full[x].name),
            )
}

/// The delta row the two summaries assign to a name.
pub open spec fn spec_delta_model(
    a_full: Seq<RowModel>,
    b_full: Seq<RowModel>,
    nm: Seq<char>,
) -> DiffRowModel {
    DiffRowModel {
        name: nm,
        count_a: lookup_count(a_full, nm),
        count_b: lookup_count(b_full, nm),
        count_delta: lookup_count(b_full, nm) - lookup_count(a_full, nm),
        sum_a: lookup_sum(a_full, nm),
        sum_b: lookup_sum(b_full, nm),
        sum_delta: spec_clamp(lookup_sum(b_full, nm) - lookup_sum(a_full, nm)),
    }
}

/// Magnitude of a delta.
pub open spec fn iabs(v: int) -> int {
    if v < 0 {
        -v
    } else {
        v
    }
}

/// The diff row order: absolute size delta descending, absolute count
/// delta descending, name ascending, then the remaining fields as tie
/// breakers.
pub open spec fn diff_le(a: DiffRowModel, b: DiffRowModel) -> bool {
    if iabs(a.sum_delta) != iabs(b.sum_delta) {
        iabs(a.sum_delta) > iabs(b.sum_delta)
    } else if iabs(a.count_delta) != iabs(b.count_delta) {
        iabs(a.count_delta) > iabs(b.count_delta)
    } else if a.name != b.name {
        lex_lt(a.name, b.name)
    } else if a.count_a != b.count_a {
        a.count_a < b.count_a
    } else if a.count_b != b.count_b {
        a.count_b < b.count_b
    } else if a.sum_a != b.sum_a {
        a.sum_a < b.sum_a
    } else if a.sum_b != b.sum_b {
        a.sum_b < b.sum_b
    } else {
        a.count_delta == b.count_delta && a.sum_delta == b.sum_delta || a.count_delta
            != b.count_delta && a.count_delta < b.count_delta || a.count_delta == b.count_delta
            && a.sum_delta != b.sum_delta && a.sum_delta < b.sum_delta
    }
}

impl OrderedByModel for DiffRow {
    type Model = DiffRowModel;

    open spec fn model(&self) -> DiffRowModel {
        DiffRowModel {
            name: self.name@,
            count_a: self.count_a as int,
            count_b: self.count_b as int,
            count_delta: self.count_delta as int,
            sum_a: self.self_size_sum_a as int,
            sum_b: self.self_size_sum_b as int,
            sum_delta: self.self_size_sum_delta as int,
        }
    }

    open spec fn model_le(a: DiffRowModel, b: DiffRowModel) -> bool {
        diff_le(a, b)
    }

    proof fn lemma_model_le_total() {
        let leq = |a: DiffRowModel, b: DiffRowModel| DiffRow::model_le(a, b);
        assert forall|a: DiffRowModel, b: DiffRowModel|
            #[trigger] leq(a, b) && #[trigger] leq(b, a) implies a == b by {
            if a.name != b.name {
                lemma_lex_from_asymmetric(a.name, b.name, 0);
            }
        }
        assert forall|a: DiffRowModel, b: DiffRowModel, c: DiffRowModel|
            #[trigger] leq(a, b) && #[trigger] leq(b, c) implies leq(a, c) by {
            if iabs(a.sum_delta) == iabs(c.sum_delta) && iabs(a.count_delta) == iabs(
                c.count_delta,
            ) {
                if a.name != b.name && b.name != c.name {
                    lemma_lex_from_transitive(a.name, b.name, c.name, 0);
                    if a.name == c.name {
                        lemma_lex_from_asymmetric(a.name, b.name, 0);
                    }
                }
            }
        }
        assert forall|a: DiffRowModel, b: DiffRowModel| #[trigger] leq(a, b) || #[trigger] leq(
            b,
            a,
        ) by {
            if iabs(a.sum_delta) == iabs(b.sum_delta) && iabs(a.count_delta) == iabs(
                b.count_delta,
            ) && a.name != b.name {
                if !lex_lt(a.name, b.name) && !lex_lt(b.name, a.name) {
                    lemma_lex_from_decides(a.name, b.name, 0);
                    assert(a.name =~= b.name);
                }
            }
        }
    }

    fn le(&self, other: &Self) -> (r: bool) {
        let abs_sd_a = abs_i128(self.self_size_sum_delta);
        let abs_sd_b = abs_i128(other.self_size_sum_delta);
        let abs_cd_a = abs_i128(self.count_delta);
        let abs_cd_b = abs_i128(other.count_delta);
        if abs_sd_a != abs_sd_b {
            abs_sd_a > abs_sd_b
        } else if abs_cd_a != abs_cd_b {
            abs_cd_a > abs_cd_b
        } else if !(self.name == other.name) {
            str_lex_lt(self.name.as_str(), other.name.as_str())
        } else if self.count_a != other.count_a {
            self.count_a < other.count_a
        } else if self.count_b != other.count_b {
            self.count_b < other.count_b
        } else if self.self_size_sum_a != other.self_size_sum_a {
            self.self_size_sum_a < other.self_size_sum_a
        } else if self.self_size_sum_b != other.self_size_sum_b {
            self.self_size_sum_b < other.self_size_sum_b
        } else {
            (self.count_delta == other.count_delta && self.self_size_sum_delta
                == other.self_size_sum_delta) || (self.count_delta != other.count_delta
                && self.count_delta < other.count_delta) || (self.count_delta
                == other.count_delta && self.self_size_sum_delta != other.self_size_sum_delta
                && self.self_size_sum_delta < other.self_size_sum_delta)
        }
    }
}

/// Magnitude of a delta value, widened so the whole range has one.
fn abs_i128(v: i128) -> (r: u128)
    ensures
        r == iabs(v as int),
{
    if v < 0 {
        if v == i128::MIN {
            170141183460469231731687303715884105728u128
        } else {
            (-v) as u128
        }
    } else {
        v as u128
    }
}

/// Subtraction on size aggregates clamped to the symmetric range.
fn sat_sub_i128(a: i128, b: i128) -> (r: i128)
    ensures
        r == spec_clamp(a - b),
{
    if b < 0 && a > i128::MAX + b {
        i128::MAX
    } else if b >= 0 && a < -i128::MAX + b {
        -i128::MAX
    } else {
        a - b
    }
}

/// Looks a name up in summary rows, scanning from the end so that the
/// last row of a name stands.
fn lookup_row(rows: &Vec<crate::summary::SummaryRow>, name: &String) -> (r: (u64, i128))
    ensures
        r.0 == lookup_count(models_of::<crate::summary::SummaryRow>(rows@), name@),
        r.1 == lookup_sum(models_of::<crate::summary::SummaryRow>(rows@), name@),
{
    let ghost full = models_of::<crate::summary::SummaryRow>(rows@);
    proof {
        assert(full.take(rows@.len() as int) =~= full);
    }
    let mut j: usize = rows.len();
    while j > 0
        invariant
            full == models_of::<crate::summary::SummaryRow>(rows@),
            0 <= j <= rows@.len(),
            lookup_count(full, name@) == lookup_count(full.take(j as int), name@),
            lookup_sum(full, name@) == lookup_sum(full.take(j as int), name@),
        decreases j,
    {
        j -= 1;
        if str_eq(rows[j].name.as_str(), name.as_str()) {
            proof {
                assert(full.take(j as int + 1).last() == full[j as int]);
                assert(full[j as int].name == name@);
            }
            return (rows[j].count, rows[j].self_size_sum);
        }
        proof {
            assert(full.take(j as int + 1).last() == full[j as int]);
            assert(full.take(j as int + 1).drop_last() =~= full.take(j as int));
        }
    }
    proof {
        assert(full.take(0) =~= Seq::<RowModel>::empty());
    }
    (0, 0)
}

/// Whether some entry of a name list reads `nm`.
pub open spec fn list_has_name(list: Seq<String>, nm: Seq<char>) -> bool {
    exists|p: int| 0 <= p < list.len() && (#[trigger] list[p])@ == nm
}

/// Whether some summary row carries the name `nm`.
pub open spec fn rows_have_name(rows: Seq<crate::summary::SummaryRow>, nm: Seq<char>) -> bool {
    exists|x: int| 0 <= x < rows.len() && (#[trigger] rows[x]).name@ == nm
}

/// Unless the row cap cut the list, every populated summary name
/// passing the filter appears among the diff rows.
pub open spec fn spec_diff_complete(
    full: Seq<RowModel>,
    contains: Option<String>,
    top: usize,
    rows: Seq<DiffRow>,
) -> bool {
    rows.len() < top ==> spec_diff_covers(full, contains, rows)
}

/// Every populated summary name passing the filter appears among the
/// diff rows.
pub open spec fn spec_diff_covers(
    full: Seq<RowModel>,
    contains: Option<String>,
    rows: Seq<DiffRow>,
) -> bool {
    forall|x: int|
        #![trigger full[x]]
        0 <= x < full.len() && (match contains {
            Some(f) => has_substring(full[x].name, f@),
            None => true,
        }) ==> diff_rows_have_name(rows, full[x].name)
}

/// Whether some diff row carries the name `nm`.
pub open spec fn diff_rows_have_name(rows: Seq<DiffRow>, nm: Seq<char>) -> bool {
    exists|j: int| 0 <= j < rows.len() && (#[trigger] rows[j]).name@ == nm
}

/// Finds a name in the union list.
fn find_name(names: &Vec<String>, name: &String) -> (r: Option<usize>)
    ensures
        match r {
            Some(p) => p < names@.len() && (names@[p as int])@ == name@,
            None => forall|i: int| 0 <= i < names@.len() ==> (#[trigger] names@[i])@ != name@,
        },
{
    let mut i: usize = 0;
    while i < names.len()
        invariant
            0 <= i <= names@.len(),
            forall|j: int| 0 <= j < i ==> (#[trigger] names@[j])@ != name@,
        decreases names@.len() - i,
    {
        if str_eq(names[i].as_str(), name.as_str()) {
            return Some(i);
        }
        i += 1;
    }
    None
}

/// Extends the union list with every name of one summary's rows,
/// keeping first occurrences, pairwise distinctness and the existing
/// entries' names.
fn add_names(names: &Vec<String>, rows: &Vec<crate::summary::SummaryRow>) -> (r: Vec<String>)
    requires
        forall|p: int, q: int|
            0 <= p < q < names@.len() ==> (#[trigger] names@[p])@ != (#[trigger] names@[q])@,
    ensures
        r@.len() >= names@.len(),
        forall|p: int| 0 <= p < names@.len() ==> (#[trigger] r@[p])@ == (names@[p])@,
        forall|p: int, q: int|
            0 <= p < q < r@.len() ==> (#[trigger] r@[p])@ != (#[trigger] r@[q])@,
        forall|p: int|
            #![trigger r@[p]]
            names@.len() <= p < r@.len() ==> rows_have_name(rows@, (r@[p])@),
        forall|x: int|
            #![trigger rows@[x]]
            0 <= x < rows@.len() ==> list_has_name(r@, (rows@[x]).name@),
{
    let base = names.len();
    let mut acc: Vec<String> = Vec::new();
    let mut t: usize = 0;
    while t < base
        invariant
            base == names@.len(),
            0 <= t <= base,
            acc@.len() == t,
            forall|p: int| 0 <= p < t ==> (#[trigger] acc@[p])@ == (names@[p])@,
        decreases base - t,
    {
        acc.push(names[t].clone());
        t += 1;
    }

    // ghost witness tables: where each row's name sits in the union,
    // and which row produced each appended entry
    let ghost mut pos: Seq<int> = Seq::empty();
    let ghost mut src: Seq<int> = Seq::empty();
    let mut i: usize = 0;
    while i < rows.len()
        invariant
            base == names@.len(),
            base <= acc@.len(),
            0 <= i <= rows@.len(),
            forall|p: int| 0 <= p < base ==> (#[trigger] acc@[p])@ == (names@[p])@,
            forall|p: int, q: int|
                0 <= p < q < acc@.len() ==> (#[trigger] acc@[p])@ != (#[trigger] acc@[q])@,
            pos.len() == i,
            forall|x: int|
                0 <= x < i ==> 0 <= #[trigger] pos[x] < acc@.len() && (rows@[x]).name@ == (
                acc@[pos[x]])@,
            src.len() + base == acc@.len(),
            forall|k: int|
                0 <= k < src.len() ==> 0 <= #[trigger] src[k] < rows@.len() && (acc@[base
                    + k])@ == (rows@[src[k]]).name@,
        decreases rows@.len() - i,
    {
        let nm = &rows[i].name;
        match find_name(&acc, nm) {
            Some(p) => {
                proof {
                    pos = pos.push(p as int);
                }
            },
            None => {
                acc.push(nm.clone());
                proof {
                    pos = pos.push(acc@.len() - 1);
                    src = src.push(i as int);
                }
            },
        }
        i += 1;
    }

    proof {
        assert forall|p: int| #![trigger acc@[p]] names@.len() <= p < acc@.len()
            implies rows_have_name(rows@, (acc@[p])@) by {
            let k = p - base;
            assert(0 <= src[k] < rows@.len() && (acc@[base + k])@ == (rows@[src[k]]).name@);
        }
        assert forall|x: int| #![trigger rows@[x]] 0 <= x < rows@.len() implies list_has_name(
            acc@,
            (rows@[x]).name@,
        ) by {
            assert(0 <= pos[x] < acc@.len() && (rows@[x]).name@ == (acc@[pos[x]])@);
        }
    }
    acc
}

/// Summarises both snapshots in full, joins them by constructor name,
/// and emits the largest deltas: every returned row carries exactly
/// the counts and size sums the two full summaries assign to its name,
/// rows bear distinct names drawn from the union of the summaries,
/// only names containing the filter appear, and rows are sorted by
/// `diff_le` and cut to `top`.
///
/// Fails with `InvalidData` exactly when either snapshot stores a name
/// index outside its strings table.
pub fn diff_summaries(snapshot_a: &SnapshotRaw, snapshot_b: &SnapshotRaw, options: DiffOptions)
    -> (r: Result<DiffResult, SnapshotError>)
    requires
        snapshot_a.wf(),
        snapshot_b.wf(),
    ensures
        match r {
            Ok(res) => {
                &&& names_ok(snapshot_a, snapshot_a.spec_node_count())
                &&& names_ok(snapshot_b, snapshot_b.spec_node_count())
                &&& res.total_nodes_a == snapshot_a.spec_node_count()
                &&& res.total_nodes_b == snapshot_b.spec_node_count()
                &&& res.rows@.len() <= options.top
                &&& ({
                    let a_full = spec_summary_full(snapshot_a, None);
                    let b_full = spec_summary_full(snapshot_b, None);
                    &&& forall|j: int|
                        0 <= j < res.rows@.len() ==> spec_diff_row_ok(
                            a_full,
                            b_full,
                            (#[trigger] res.rows@[j]).model(),
                        )
                    &&& forall|j: int|
                        0 <= j < res.rows@.len() ==> (seq_has_name(
                            a_full,
                            (#[trigger] res.rows@[j]).name@,
                        ) || seq_has_name(b_full, res.rows@[j].name@))
                    &&& forall|j: int|
                        0 <= j < res.rows@.len() ==> (match options.contains {
                            Some(f) => has_substring((#[trigger] res.rows@[j]).name@, f@),
                            None => true,
                        })
                    &&& forall|i: int, j: int|
                        0 <= i < j < res.rows@.len() ==> (#[trigger] res.rows@[i]).name@ != (
                        #[trigger] res.rows@[j]).name@
                    &&& sorted_by(
                        models_of::<DiffRow>(res.rows@),
                        |a: DiffRowModel, b: DiffRowModel| DiffRow::model_le(a, b),
                    )
                    &&& spec_diff_complete(a_full, options.contains, options.top, res.rows@)
                    &&& spec_diff_complete(b_full, options.contains, options.top, res.rows@)
                    &&& spec_diff_dominates(a_full, a_full, b_full, options.contains, res.rows@)
                    &&& spec_diff_dominates(b_full, a_full, b_full, options.contains, res.rows@)
                })
            },
            Err(e) => {
                &&& e is InvalidData
                &&& (!names_ok(snapshot_a, snapshot_a.spec_node_count()) || !names_ok(
                    snapshot_b,
                    snapshot_b.spec_node_count(),
                ))
            },
        },
{
    let summary_a = summarize(
        snapshot_a,
        SummaryOptions { top: usize::MAX, contains: None },
    )?;
    let summary_b = summarize(
        snapshot_b,
        SummaryOptions { top: usize::MAX, contains: None },
    )?;
    let ghost a_full = spec_summary_full(snapshot_a, None);
    let ghost b_full = spec_summary_full(snapshot_b, None);
    let len_a = snapshot_a.strings.len();
    let len_b = snapshot_b.strings.len();
    proof {
        assert(filter_of(None::<String>) == None::<Seq<char>>);
        lemma_summary_full_len(snapshot_a, None);
        lemma_summary_full_len(snapshot_b, None);
        assert(a_full.len() <= len_a <= usize::MAX);
        assert(b_full.len() <= len_b <= usize::MAX);
        assert(a_full.take(a_full.len() as int) =~= a_full);
        assert(b_full.take(b_full.len() as int) =~= b_full);
        assert(models_of::<crate::summary::SummaryRow>(summary_a.rows@) == a_full);
        assert(models_of::<crate::summary::SummaryRow>(summary_b.rows@) == b_full);
    }

    // the union of the two summaries' names, first occurrences first
    let empty_names: Vec<String> = Vec::new();
    let names_a = add_names(&empty_names, &summary_a.rows);
    let names = add_names(&names_a, &summary_b.rows);
    proof {
        // distinctness and membership of the union
        assert forall|p: int| #![trigger names@[p]] 0 <= p < names@.len()
            implies seq_has_name(a_full, (names@[p])@) || seq_has_name(b_full, (names@[p])@) by {
            if p < names_a@.len() {
                assert((names@[p])@ == (names_a@[p])@);
                assert(rows_have_name(summary_a.rows@, (names_a@[p])@));
                let x = choose|x: int|
                    0 <= x < summary_a.rows@.len() && (#[trigger] summary_a.rows@[x]).name@ == (
                    names_a@[p])@;
                assert(a_full[x].name == (names@[p])@);
            } else {
                assert(rows_have_name(summary_b.rows@, (names@[p])@));
                let x = choose|x: int|
                    0 <= x < summary_b.rows@.len() && (#[trigger] summary_b.rows@[x]).name@ == (
                    names@[p])@;
                assert(b_full[x].name == (names@[p])@);
            }
        }
        // every summary name is in the union
        assert forall|x: int| #![trigger a_full[x]] 0 <= x < a_full.len()
            implies list_has_name(names@, a_full[x].name) by {
            assert(a_full[x].name == (summary_a.rows@[x]).name@);
            assert(list_has_name(names_a@, (summary_a.rows@[x]).name@));
            let p = choose|p: int|
                0 <= p < names_a@.len() && (#[trigger] names_a@[p])@ == (
                summary_a.rows@[x]).name@;
            assert((names@[p])@ == (names_a@[p])@);
        }
        assert forall|x: int| #![trigger b_full[x]] 0 <= x < b_full.len()
            implies list_has_name(names@, b_full[x].name) by {
            assert(b_full[x].name == (summary_b.rows@[x]).name@);
            assert(list_has_name(names@, (summary_b.rows@[x]).name@));
        }
    }

    // one delta row per union name passing the filter
    let mut rows: Vec<DiffRow> = Vec::new();
    let mut k: usize = 0;
    while k < names.len()
        invariant
            models_of::<crate::summary::SummaryRow>(summary_a.rows@) == a_full,
            models_of::<crate::summary::SummaryRow>(summary_b.rows@) == b_full,
            0 <= k <= names@.len(),
            forall|p: int, q: int|
                0 <= p < q < names@.len() ==> (#[trigger] names@[p])@ != (#[trigger] names@[q])@,
            forall|p: int|
                0 <= p < names@.len() ==> seq_has_name(a_full, (#[trigger] names@[p])@)
                    || seq_has_name(b_full, (#[trigger] names@[p])@),
            forall|j: int|
                0 <= j < rows@.len() ==> spec_diff_row_ok(
                    a_full,
                    b_full,
                    (#[trigger] rows@[j]).model(),
                ),
            forall|j: int|
                0 <= j < rows@.len() ==> (seq_has_name(a_full, (#[trigger] rows@[j]).name@)
                    || seq_has_name(b_full, rows@[j].name@)),
            forall|j: int|
                0 <= j < rows@.len() ==> (match options.contains {
                    Some(f) => has_substring((#[trigger] rows@[j]).name@, f@),
                    None => true,
                }),
            forall|p: int, q: int|
                0 <= p < q < rows@.len() ==> (#[trigger] rows@[p]).name@ != (
                #[trigger] rows@[q]).name@,
            forall|j: int|
                0 <= j < rows@.len() ==> exists|p: int|
                    0 <= p < k && (#[trigger] rows@[j]).name@ == (#[trigger] names@[p])@,
            forall|p: int|
                #![trigger names@[p]]
                0 <= p < k && (match options.contains {
                    Some(f) => has_substring((names@[p])@, f@),
                    None => true,
                }) ==> diff_rows_have_name(rows@, (names@[p])@),
        decreases names@.len() - k,
    {
        let nm = &names[k];
        let passes = match &options.contains {
            Some(f) => contains_substring(nm.as_str(), f.as_str()),
            None => true,
        };
        if passes {
            let la = lookup_row(&summary_a.rows, nm);
            let lb = lookup_row(&summary_b.rows, nm);
            let (count_a, sum_a) = la;
            let (count_b, sum_b) = lb;
            let count_delta: i128 = count_b as i128 - count_a as i128;
            let sum_delta = sat_sub_i128(sum_b, sum_a);
            let ghost rows_pre = rows@;
            rows.push(DiffRow {
                name: nm.clone(),
                count_a,
                count_b,
                count_delta,
                self_size_sum_a: sum_a,
                self_size_sum_b: sum_b,
                self_size_sum_delta: sum_delta,
            });
            proof {
                assert forall|j: int| 0 <= j < rows@.len() implies exists|p: int|
                    0 <= p < k + 1 && (#[trigger] rows@[j]).name@ == (#[trigger] names@[p])@ by {
                    if j < rows_pre.len() {
                        assert(rows@[j] == rows_pre[j]);
                        let p = choose|p: int|
                            0 <= p < k && (rows_pre[j]).name@ == (#[trigger] names@[p])@;
                        assert((rows@[j]).name@ == names@[p]@);
                    } else {
                        assert((rows@[j]).name@ == names@[k as int]@);
                    }
                }
                assert forall|p: int, q: int| 0 <= p < q < rows@.len() implies (
                #[trigger] rows@[p]).name@ != (#[trigger] rows@[q]).name@ by {
                    if q == rows@.len() - 1 {
                        let pp = choose|pp: int|
                            0 <= pp < k && (rows_pre[p]).name@ == (#[trigger] names@[pp])@;
                        assert(names@[pp]@ != names@[k as int]@);
                    }
                }
                assert forall|p: int| #![trigger names@[p]] 0 <= p < k + 1 && (
                match options.contains {
                    Some(f) => has_substring((names@[p])@, f@),
                    None => true,
                }) implies diff_rows_have_name(rows@, (names@[p])@) by {
                    if p < k {
                        assert(diff_rows_have_name(rows_pre, (names@[p])@));
                        let j = choose|j: int|
                            0 <= j < rows_pre.len() && (#[trigger] rows_pre[j]).name@ == (
                            names@[p])@;
                        assert((rows@[j]).name@ == (names@[p])@);
                    } else {
                        assert((rows@[rows@.len() - 1]).name@ == (names@[p])@);
                    }
                }
            }
        } else {
            proof {
                assert forall|p: int| #![trigger names@[p]] 0 <= p < k + 1 && (
                match options.contains {
                    Some(f) => has_substring((names@[p])@, f@),
                    None => true,
                }) implies diff_rows_have_name(rows@, (names@[p])@) by {
                    if p < k {
                    } else {
                        assert(!(match options.contains {
                            Some(f) => has_substring((names@[p])@, f@),
                            None => true,
                        }));
                    }
                }
            }
        }
        k += 1;
    }

    let ghost pre_sort = rows@;
    let mut rows = sort_by_model(rows);
    proof {
        assert forall|j: int| 0 <= j < rows@.len() implies {
            &&& spec_diff_row_ok(a_full, b_full, (#[trigger] rows@[j]).model())
            &&& (seq_has_name(a_full, rows@[j].name@) || seq_has_name(b_full, rows@[j].name@))
            &&& (match options.contains {
                Some(f) => has_substring(rows@[j].name@, f@),
                None => true,
            })
        } by {
            lemma_diff_member(pre_sort, rows@, j);
        }
        assert forall|p: int, q: int| 0 <= p < q < rows@.len() implies (
        #[trigger] rows@[p]).name@ != (#[trigger] rows@[q]).name@ by {
            lemma_diff_distinct(pre_sort, rows@, p, q);
        }
    }
    let ghost sorted_full = rows@;
    if rows.len() > options.top {
        rows.truncate(options.top);
        proof {
            assert(rows@ =~= sorted_full.take(options.top as int));
            assert(models_of::<DiffRow>(rows@) =~= models_of::<DiffRow>(sorted_full).take(
                options.top as int,
            ));
        }
    }
    proof {
        if rows@.len() < options.top {
            assert(rows@ == sorted_full);
            assert forall|x: int| #![trigger a_full[x]] 0 <= x < a_full.len() && (
            match options.contains {
                Some(f) => has_substring(a_full[x].name, f@),
                None => true,
            }) implies diff_rows_have_name(rows@, a_full[x].name) by {
                assert(list_has_name(names@, a_full[x].name));
                let p = choose|p: int|
                    0 <= p < names@.len() && (#[trigger] names@[p])@ == a_full[x].name;
                assert(diff_rows_have_name(pre_sort, (names@[p])@));
                let j = choose|j: int|
                    0 <= j < pre_sort.len() && (#[trigger] pre_sort[j]).name@ == (names@[p])@;
                crate::sorting::lemma_permutation_member::<DiffRow>(rows@, pre_sort, j);
                let jj = choose|jj: int| 0 <= jj < rows@.len() && rows@[jj] == pre_sort[j];
                assert((rows@[jj]).name@ == a_full[x].name);
            }
            assert(spec_diff_covers(a_full, options.contains, rows@));
            assert forall|x: int| #![trigger b_full[x]] 0 <= x < b_full.len() && (
            match options.contains {
                Some(f) => has_substring(b_full[x].name, f@),
                None => true,
            }) implies diff_rows_have_name(rows@, b_full[x].name) by {
                assert(list_has_name(names@, b_full[x].name));
                let p = choose|p: int|
                    0 <= p < names@.len() && (#[trigger] names@[p])@ == b_full[x].name;
                assert(diff_rows_have_name(pre_sort, (names@[p])@));
                let j = choose|j: int|
                    0 <= j < pre_sort.len() && (#[trigger] pre_sort[j]).name@ == (names@[p])@;
                crate::sorting::lemma_permutation_member::<DiffRow>(rows@, pre_sort, j);
                let jj = choose|jj: int| 0 <= jj < rows@.len() && rows@[jj] == pre_sort[j];
                assert((rows@[jj]).name@ == b_full[x].name);
            }
            assert(spec_diff_covers(b_full, options.contains, rows@));
        }
        assert(spec_diff_complete(a_full, options.contains, options.top, rows@));
        assert(spec_diff_complete(b_full, options.contains, options.top, rows@));
        // a name the cap pushed out ranks no better than any kept row
        assert forall|x: int|
            #![trigger a_full[x]]
            0 <= x < a_full.len() && (match options.contains {
                Some(f) => has_substring(a_full[x].name, f@),
                None => true,
            }) && !diff_rows_have_name(rows@, a_full[x].name) implies forall|j: int|
            0 <= j < rows@.len() ==> diff_le(
                (#[trigger] rows@[j]).model(),
                spec_delta_model(a_full, b_full, a_full[x].name),
            ) by {
            assert(list_has_name(names@, a_full[x].name));
            lemma_diff_dominance_case(
                a_full,
                b_full,
                options.contains,
                names@,
                pre_sort,
                sorted_full,
                rows@,
                a_full[x].name,
            );
        }
        assert(spec_diff_dominates(a_full, a_full, b_full, options.contains, rows@));
        assert forall|x: int|
            #![trigger b_full[x]]
            0 <= x < b_full.len() && (match options.contains {
                Some(f) => has_substring(b_full[x].name, f@),
                None => true,
            }) && !diff_rows_have_name(rows@, b_full[x].name) implies forall|j: int|
            0 <= j < rows@.len() ==> diff_le(
                (#[trigger] rows@[j]).model(),
                spec_delta_model(a_full, b_full, b_full[x].name),
            ) by {
            assert(list_has_name(names@, b_full[x].name));
            lemma_diff_dominance_case(
                a_full,
                b_full,
                options.contains,
                names@,
                pre_sort,
                sorted_full,
                rows@,
                b_full[x].name,
            );
        }
        assert(spec_diff_dominates(b_full, a_full, b_full, options.contains, rows@));
    }
    Ok(DiffResult {
        total_nodes_a: summary_a.total_nodes,
        total_nodes_b: summary_b.total_nodes,
        rows,
    })
}

/// The kept prefix of the sorted rows dominates any name left out:
/// that name sits past the cut, and sortedness orders every kept row
/// at or before it.
proof fn lemma_diff_dominance_case(
    a_full: Seq<RowModel>,
    b_full: Seq<RowModel>,
    contains: Option<String>,
    names: Seq<String>,
    pre_sort: Seq<DiffRow>,
    sorted_full: Seq<DiffRow>,
    rows: Seq<DiffRow>,
    nm: Seq<char>,
)
    requires
        list_has_name(names, nm),
        match contains {
            Some(f) => has_substring(nm, f@),
            None => true,
        },
        !diff_rows_have_name(rows, nm),
        forall|p: int|
            #![trigger names[p]]
            0 <= p < names.len() && (match contains {
                Some(f) => has_substring((names[p])@, f@),
                None => true,
            }) ==> diff_rows_have_name(pre_sort, (names[p])@),
        forall|j0: int|
            0 <= j0 < pre_sort.len() ==> spec_diff_row_ok(
                a_full,
                b_full,
                (#[trigger] pre_sort[j0]).model(),
            ),
        sorted_full.to_multiset() == pre_sort.to_multiset(),
        sorted_by(
            models_of::<DiffRow>(sorted_full),
            |a: DiffRowModel, b: DiffRowModel| DiffRow::model_le(a, b),
        ),
        rows.len() <= sorted_full.len(),
        forall|j: int| 0 <= j < rows.len() ==> #[trigger] rows[j] == sorted_full[j],
    ensures
        forall|j: int|
            0 <= j < rows.len() ==> diff_le(
                (#[trigger] rows[j]).model(),
                spec_delta_model(a_full, b_full, nm),
            ),
{
    let p = choose|p: int| 0 <= p < names.len() && (#[trigger] names[p])@ == nm;
    assert(diff_rows_have_name(pre_sort, (names[p])@));
    let j0 = choose|j0: int|
        0 <= j0 < pre_sort.len() && (#[trigger] pre_sort[j0]).name@ == (names[p])@;
    assert(spec_diff_row_ok(a_full, b_full, (pre_sort[j0]).model()));
    assert((pre_sort[j0]).model() == spec_delta_model(a_full, b_full, nm));
    crate::sorting::lemma_permutation_member::<DiffRow>(sorted_full, pre_sort, j0);
    let idx = choose|idx: int| 0 <= idx < sorted_full.len() && sorted_full[idx] == pre_sort[j0];
    assert(idx >= rows.len()) by {
        if idx < rows.len() {
            assert(rows[idx] == sorted_full[idx]);
            assert((rows[idx]).name@ == nm);
        }
    }
    assert forall|j: int| 0 <= j < rows.len() implies diff_le(
        (#[trigger] rows[j]).model(),
        spec_delta_model(a_full, b_full, nm),
    ) by {
        assert(rows[j] == sorted_full[j]);
        assert(models_of::<DiffRow>(sorted_full)[j] == (sorted_full[j]).model());
        assert(models_of::<DiffRow>(sorted_full)[idx] == (sorted_full[idx]).model());
        let leqf = |a: DiffRowModel, b: DiffRowModel| DiffRow::model_le(a, b);
        assert(sorted_by(models_of::<DiffRow>(sorted_full), leqf));
        assert(leqf(
            models_of::<DiffRow>(sorted_full)[j],
            models_of::<DiffRow>(sorted_full)[idx],
        ));
    }
}

/// Everything in the sorted rows was among the built rows.
proof fn lemma_diff_member(pre: Seq<DiffRow>, post: Seq<DiffRow>, j: int)
    requires
        pre.to_multiset() == post.to_multiset(),
        0 <= j < post.len(),
    ensures
        exists|x: int| 0 <= x < pre.len() && pre[x] == post[j],
{
    to_multiset_contains::<DiffRow>(post, post[j]);
    assert(post.contains(post[j]));
    assert(post.to_multiset().count(post[j]) > 0);
    to_multiset_contains::<DiffRow>(pre, post[j]);
    assert(pre.contains(post[j]));
}

/// Distinct names survive a permutation.
proof fn lemma_diff_distinct(pre: Seq<DiffRow>, post: Seq<DiffRow>, p: int, q: int)
    requires
        pre.to_multiset() == post.to_multiset(),
        forall|x: int, y: int|
            0 <= x < y < pre.len() ==> (#[trigger] pre[x]).name@ != (#[trigger] pre[y]).name@,
        0 <= p < q < post.len(),
    ensures
        post[p].name@ != post[q].name@,
{
    lemma_diff_member(pre, post, p);
    lemma_diff_member(pre, post, q);
    let xp = choose|x: int| 0 <= x < pre.len() && pre[x] == post[p];
    let xq = choose|x: int| 0 <= x < pre.len() && pre[x] == post[q];
    if xp == xq {
        // the same source value would be counted twice
        assert(post[p] == post[q]);
        let v = post[p];
        assert(post.remove(q).to_multiset() == post.to_multiset().remove(v)) by {
            vstd::seq_lib::to_multiset_remove::<DiffRow>(post, q);
        }
        assert(post.remove(q)[p] == v);
        to_multiset_contains::<DiffRow>(post.remove(q), v);
        assert(post.remove(q).contains(v));
        assert(post.to_multiset().count(v) >= 2);
        assert(pre.to_multiset().count(v) >= 2);
        // but the built rows hold distinct names, so each value once
        lemma_count_le_one(pre, v);
        assert(false);
    } else {
        assert(pre[xp].name@ != pre[xq].name@ || pre[xq].name@ != pre[xp].name@);
    }
}

/// Rows with pairwise distinct names hold any value at most once.
proof fn lemma_count_le_one(pre: Seq<DiffRow>, v: DiffRow)
    requires
        forall|x: int, y: int|
            0 <= x < y < pre.len() ==> (#[trigger] pre[x]).name@ != (#[trigger] pre[y]).name@,
    ensures
        pre.to_multiset().count(v) <= 1,
{
    assert(pre.no_duplicates()) by {
        assert forall|x: int, y: int| 0 <= x < pre.len() && 0 <= y < pre.len() && x != y
            implies pre[x] != pre[y] by {
            if x < y {
                assert(pre[x].name@ != pre[y].name@);
            } else {
                assert(pre[y].name@ != pre[x].name@);
            }
        }
    }
    pre.lemma_multiset_has_no_duplicates();
    if pre.to_multiset().count(v) > 1 {
        assert(pre.to_multiset().contains(v));
        to_multiset_contains::<DiffRow>(pre, v);
        assert(pre.contains(v));
    }
}

} // verus!
