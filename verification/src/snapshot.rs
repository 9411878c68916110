use vstd::prelude::*;
use vstd::arithmetic::div_mod::lemma_fundamental_div_mod;
use vstd::utf8::encode_utf8;
use vstd::string::StringSliceAdditionalSpecFns;
use vstd::arithmetic::mul::lemma_mul_inequality;
use crate::error::SnapshotError;

verus! {

/// The `snapshot` top-level object of the document; only its `meta`
/// member is meaningful.
pub struct SnapshotRoot {
    pub meta: Option<SnapshotMeta>,
}

/// The self-describing schema of a snapshot: field names for node and
/// edge records, and for each field either the name of its numeric
/// domain or the enumeration of its named variants.
pub struct SnapshotMeta {
    pub node_fields: Vec<String>,
    pub node_types: Vec<MetaType>,
    pub edge_fields: Vec<String>,
    pub edge_types: Vec<MetaType>,
}

/// A schema type entry: a single domain name, or an enumeration of
/// named variants.
pub enum MetaType {
    Name(String),
    Array(Vec<String>),
}

/// Field indices resolved once from the schema, used by every view.
pub struct MetaIndex {
    pub node_type_names: Vec<String>,
    pub edge_type_names: Vec<String>,
    pub node_field_index: NodeFieldIndex,
    pub edge_field_index: EdgeFieldIndex,
    pub node_field_count: usize,
    pub edge_field_count: usize,
}

/// Positions of the five required node fields inside a node record.
pub struct NodeFieldIndex {
    pub type_idx: usize,
    pub name_idx: usize,
    pub id_idx: usize,
    pub self_size_idx: usize,
    pub edge_count_idx: usize,
}

/// Positions of the three required edge fields inside an edge record.
pub struct EdgeFieldIndex {
    pub type_idx: usize,
    pub name_or_index_idx: usize,
    pub to_node_idx: usize,
}

impl MetaIndex {
    /// All resolved field positions lie inside their records and the
    /// field counts are positive.
    pub open spec fn wf(&self) -> bool {
        &&& 0 < self.node_field_count
        &&& 0 < self.edge_field_count
        &&& self.node_field_index.type_idx < self.node_field_count
        &&& self.node_field_index.name_idx < self.node_field_count
        &&& self.node_field_index.id_idx < self.node_field_count
        &&& self.node_field_index.self_size_idx < self.node_field_count
        &&& self.node_field_index.edge_count_idx < self.node_field_count
        &&& self.edge_field_index.type_idx < self.edge_field_count
        &&& self.edge_field_index.name_or_index_idx < self.edge_field_count
        &&& self.edge_field_index.to_node_idx < self.edge_field_count
    }
}

/// Looks up the position of a required field name; the position of its
/// first occurrence is returned.
pub fn find_field(fields: &Vec<String>, name: &String) -> (r: Result<usize, SnapshotError>)
    ensures
        match r {
            Ok(i) => {
                &&& i < fields@.len()
                &&& fields@[i as int]@ == name@
                &&& forall|j: int| 0 <= j < i ==> fields@[j]@ != name@
            },
            Err(e) => {
                &&& e is MetaMismatch
                &&& forall|j: int| 0 <= j < fields@.len() ==> fields@[j]@ != name@
            },
        },
{
    let n = fields.len();
    let mut i: usize = 0;
    while i < n
        invariant
            i <= n,
            n == fields@.len(),
            forall|j: int| 0 <= j < i ==> fields@[j]@ != name@,
        decreases n - i,
    {
        if fields[i] == *name {
            return Ok(i);
        }
        i += 1;
    }
    Err(SnapshotError::MetaMismatch {
        details: String::from_str("missing required field: ").concat(name.as_str()),
    })
}

impl SnapshotMeta {
    /// The requirements `validate` checks: type lists as long as the
    /// field lists, all required fields present, and the entry aligned
    /// with each `type` field an enumeration.
    pub open spec fn valid(&self) -> bool {
        &&& self.node_types@.len() == self.node_fields@.len()
        &&& self.edge_types@.len() == self.edge_fields@.len()
        &&& has_field(self.node_fields@, "type"@)
        &&& has_field(self.node_fields@, "name"@)
        &&& has_field(self.node_fields@, "id"@)
        &&& has_field(self.node_fields@, "self_size"@)
        &&& has_field(self.node_fields@, "edge_count"@)
        &&& has_field(self.edge_fields@, "type"@)
        &&& has_field(self.edge_fields@, "name_or_index"@)
        &&& has_field(self.edge_fields@, "to_node"@)
        &&& self.node_types@[field_pos(self.node_fields@, "type"@)] is Array
        &&& self.edge_types@[field_pos(self.edge_fields@, "type"@)] is Array
    }

    /// Resolves the required field indices and retains the node and edge
    /// type-name tables. Succeeds exactly on schemas satisfying `valid`.
    pub fn validate(&self) -> (r: Result<MetaIndex, SnapshotError>)
        ensures
            match r {
                Ok(ix) => {
                    &&& self.valid()
                    &&& ix.wf()
                    &&& ix.node_field_count == self.node_fields@.len()
                    &&& ix.edge_field_count == self.edge_fields@.len()
                    &&& ix.node_field_index.type_idx == field_pos(self.node_fields@, "type"@)
                    &&& ix.node_field_index.name_idx == field_pos(self.node_fields@, "name"@)
                    &&& ix.node_field_index.id_idx == field_pos(self.node_fields@, "id"@)
                    &&& ix.node_field_index.self_size_idx == field_pos(
                        self.node_fields@,
                        "self_size"@,
                    )
                    &&& ix.node_field_index.edge_count_idx == field_pos(
                        self.node_fields@,
                        "edge_count"@,
                    )
                    &&& ix.edge_field_index.type_idx == field_pos(self.edge_fields@, "type"@)
                    &&& ix.edge_field_index.name_or_index_idx == field_pos(
                        self.edge_fields@,
                        "name_or_index"@,
                    )
                    &&& ix.edge_field_index.to_node_idx == field_pos(self.edge_fields@, "to_node"@)
                    &&& (self.node_types@[ix.node_field_index.type_idx as int] matches MetaType::Array(v)
                        && ix.node_type_names.deep_view() == v.deep_view())
                    &&& (self.edge_types@[ix.edge_field_index.type_idx as int] matches MetaType::Array(v)
                        && ix.edge_type_names.deep_view() == v.deep_view())
                    &&& self.node_fields@[ix.node_field_index.name_idx as int]@ == "name"@
                    &&& self.node_fields@[ix.node_field_index.id_idx as int]@ == "id"@
                    &&& self.node_fields@[ix.node_field_index.self_size_idx as int]@ == "self_size"@
                    &&& self.node_fields@[ix.node_field_index.edge_count_idx as int]@ == "edge_count"@
                    &&& self.edge_fields@[ix.edge_field_index.name_or_index_idx as int]@ == "name_or_index"@
                    &&& self.edge_fields@[ix.edge_field_index.to_node_idx as int]@ == "to_node"@
                },
                Err(e) => {
                    &&& e is MetaMismatch
                    &&& !self.valid()
                },
            },
    {
        let node_field_count = self.node_fields.len();
        let edge_field_count = self.edge_fields.len();

        if self.node_types.len() != node_field_count {
            return Err(SnapshotError::MetaMismatch {
                details: String::from_str("node_types length does not match node_fields length"),
            });
        }
        if self.edge_types.len() != edge_field_count {
            return Err(SnapshotError::MetaMismatch {
                details: String::from_str("edge_types length does not match edge_fields length"),
            });
        }

        let node_field_index = NodeFieldIndex {
            type_idx: find_field(&self.node_fields, &String::from_str("type"))?,
            name_idx: find_field(&self.node_fields, &String::from_str("name"))?,
            id_idx: find_field(&self.node_fields, &String::from_str("id"))?,
            self_size_idx: find_field(&self.node_fields, &String::from_str("self_size"))?,
            edge_count_idx: find_field(&self.node_fields, &String::from_str("edge_count"))?,
        };

        let edge_field_index = EdgeFieldIndex {
            type_idx: find_field(&self.edge_fields, &String::from_str("type"))?,
            name_or_index_idx: find_field(&self.edge_fields, &String::from_str("name_or_index"))?,
            to_node_idx: find_field(&self.edge_fields, &String::from_str("to_node"))?,
        };

        let node_type_names = match &self.node_types[node_field_index.type_idx] {
            MetaType::Array(values) => values.clone(),
            MetaType::Name(_) => {
                return Err(SnapshotError::MetaMismatch {
                    details: String::from_str("node_types entry for the type field must be an array"),
                });
            },
        };

        let edge_type_names = match &self.edge_types[edge_field_index.type_idx] {
            MetaType::Array(values) => values.clone(),
            MetaType::Name(_) => {
                return Err(SnapshotError::MetaMismatch {
                    details: String::from_str("edge_types entry for the type field must be an array"),
                });
            },
        };

        Ok(MetaIndex {
            node_type_names,
            edge_type_names,
            node_field_index,
            edge_field_index,
            node_field_count,
            edge_field_count,
        })
    }
}

/// Whether some element of `fields` reads exactly `name`.
pub open spec fn has_field(fields: Seq<String>, name: Seq<char>) -> bool {
    exists|j: int| 0 <= j < fields.len() && fields[j]@ == name
}

/// The position of the first element of `fields` reading `name`.
pub open spec fn field_pos(fields: Seq<String>, name: Seq<char>) -> int {
    choose|j: int|
        0 <= j < fields.len() && fields[j]@ == name && (forall|k: int|
            0 <= k < j ==> fields[k]@ != name)
}

/// The decoded snapshot: three packed columns plus the validated schema
/// and its resolved field indices. Built once; read-only afterwards.
pub struct SnapshotRaw {
    pub nodes: Vec<i64>,
    pub edges: Vec<i64>,
    pub strings: Vec<String>,
    pub meta: SnapshotMeta,
    pub index: MetaIndex,
}

impl SnapshotRaw {
    /// Column well-formedness: resolved indices in range and both column
    /// lengths whole multiples of their record sizes.
    pub open spec fn wf(&self) -> bool {
        &&& self.index.wf()
        &&& self.nodes@.len() as int % (self.index.node_field_count as int) == 0
        &&& self.edges@.len() as int % (self.index.edge_field_count as int) == 0
    }

    /// Number of node records.
    pub open spec fn spec_node_count(&self) -> int {
        self.nodes@.len() as int / (self.index.node_field_count as int)
    }

    /// Number of edge records.
    pub open spec fn spec_edge_count(&self) -> int {
        self.edges@.len() as int / (self.index.edge_field_count as int)
    }

    /// Raw value of field `f` of node record `i`.
    pub open spec fn node_field(&self, i: int, f: int) -> i64 {
        self.nodes@[i * (self.index.node_field_count as int) + f]
    }

    /// Raw value of field `f` of edge record `j`.
    pub open spec fn edge_field(&self, j: int, f: int) -> i64 {
        self.edges@[j * (self.index.edge_field_count as int) + f]
    }

    pub open spec fn node_type_value(&self, i: int) -> i64 {
        self.node_field(i, self.index.node_field_index.type_idx as int)
    }

    pub open spec fn node_name_value(&self, i: int) -> i64 {
        self.node_field(i, self.index.node_field_index.name_idx as int)
    }

    pub open spec fn node_id_value(&self, i: int) -> i64 {
        self.node_field(i, self.index.node_field_index.id_idx as int)
    }

    pub open spec fn node_self_size_value(&self, i: int) -> i64 {
        self.node_field(i, self.index.node_field_index.self_size_idx as int)
    }

    pub open spec fn node_edge_count_value(&self, i: int) -> i64 {
        self.node_field(i, self.index.node_field_index.edge_count_idx as int)
    }

    pub open spec fn edge_type_value(&self, j: int) -> i64 {
        self.edge_field(j, self.index.edge_field_index.type_idx as int)
    }

    pub open spec fn edge_name_or_index_value(&self, j: int) -> i64 {
        self.edge_field(j, self.index.edge_field_index.name_or_index_idx as int)
    }

    pub open spec fn edge_to_node_value(&self, j: int) -> i64 {
        self.edge_field(j, self.index.edge_field_index.to_node_idx as int)
    }

    /// The node index an edge resolves to: its `to_node` value divided by
    /// the node record size, provided the value is non-negative and a
    /// whole multiple of that size. Unresolved references give `None`.
    pub open spec fn spec_to_node_index(&self, j: int) -> Option<int> {
        let t = self.edge_to_node_value(j) as int;
        if t >= 0 && t % (self.index.node_field_count as int) == 0 && t / (
        self.index.node_field_count as int) <= usize::MAX {
            Some(t / (self.index.node_field_count as int))
        } else {
            None
        }
    }

    /// Number of node records.
    pub fn node_count(&self) -> (r: usize)
        requires
            0 < self.index.node_field_count,
        ensures
            r == self.spec_node_count(),
    {
        self.nodes.len() / self.index.node_field_count
    }

    /// Number of edge records.
    pub fn edge_count(&self) -> (r: usize)
        requires
            0 < self.index.edge_field_count,
        ensures
            r == self.spec_edge_count(),
    {
        self.edges.len() / self.index.edge_field_count
    }

    /// A view over node record `node_index`, or `None` when the index is
    /// out of range.
    pub fn node_view<'a>(&'a self, node_index: usize) -> (r: Option<NodeView<'a>>)
        requires
            0 < self.index.node_field_count,
        ensures
            match r {
                Some(v) => {
                    &&& node_index < self.spec_node_count()
                    &&& v.snapshot == self
                    &&& v.node_index == node_index
                },
                None => node_index >= self.spec_node_count(),
            },
    {
        if node_index >= self.node_count() {
            return None;
        }
        Some(NodeView { snapshot: self, node_index })
    }

    /// A view over edge record `edge_index`, or `None` when the index is
    /// out of range.
    pub fn edge_view<'a>(&'a self, edge_index: usize) -> (r: Option<EdgeView<'a>>)
        requires
            0 < self.index.edge_field_count,
        ensures
            match r {
                Some(v) => {
                    &&& edge_index < self.spec_edge_count()
                    &&& v.snapshot == self
                    &&& v.edge_index == edge_index
                },
                None => edge_index >= self.spec_edge_count(),
            },
    {
        if edge_index >= self.edge_count() {
            return None;
        }
        Some(EdgeView { snapshot: self, edge_index })
    }

    /// Byte length of the first `n` strings of the table, each as the
    /// in-memory `str` length reports it.
    pub open spec fn spec_strings_bytes(&self, n: int) -> int
        decreases n,
    {
        if n <= 0 {
            0
        } else {
            self.spec_strings_bytes(n - 1) + encode_utf8(self.strings@[n - 1]@).len() as usize
        }
    }

    /// The size estimate: eight bytes per column integer plus the byte
    /// length of every string, held at the top of the range.
    pub open spec fn spec_memory_estimate(&self) -> int {
        let raw = 8 * self.nodes@.len() + 8 * self.edges@.len() + self.spec_strings_bytes(
            self.strings@.len() as int,
        );
        if raw > u64::MAX {
            u64::MAX as int
        } else {
            raw
        }
    }

    /// A coarse estimate of the resident size of the snapshot: eight
    /// bytes per column integer plus the byte length of every string,
    /// saturating at the top of the range.
    pub fn memory_estimate_bytes(&self) -> (r: u64)
        ensures
            r == self.spec_memory_estimate(),
    {
        let ghost base = 8 * self.nodes@.len() + 8 * self.edges@.len();
        let mut total: u64 = sat_add_u64(0, sat_mul8_u64(self.nodes.len() as u64));
        total = sat_add_u64(total, sat_mul8_u64(self.edges.len() as u64));
        let mut i: usize = 0;
        let n = self.strings.len();
        while i < n
            invariant
                i <= n,
                n == self.strings@.len(),
                base == 8 * self.nodes@.len() + 8 * self.edges@.len(),
                total == if base + self.spec_strings_bytes(i as int) > u64::MAX {
                    u64::MAX as int
                } else {
                    base + self.spec_strings_bytes(i as int)
                },
        decreases n - i,
        {
            proof {
                self.lemma_strings_bytes_nonneg(i as int);
                assert(self.spec_strings_bytes(i as int + 1) == self.spec_strings_bytes(
                    i as int,
                ) + encode_utf8(self.strings@[i as int]@).len() as usize);
            }
            let piece = self.strings[i].as_str();
            proof {
                assert(piece.spec_bytes() == encode_utf8(self.strings@[i as int]@));
            }
            total = sat_add_u64(total, piece.len() as u64);
            i += 1;
        }
        total
    }
}

impl SnapshotRaw {
    /// Byte lengths only ever accumulate.
    proof fn lemma_strings_bytes_nonneg(&self, n: int)
        ensures
            self.spec_strings_bytes(n) >= 0,
        decreases n,
    {
        if n > 0 {
            self.lemma_strings_bytes_nonneg(n - 1);
        }
    }
}

/// Addition on byte counts that sticks to the top of the range instead
/// of wrapping.
fn sat_add_u64(a: u64, b: u64) -> (r: u64)
    ensures
        r == if a + b <= u64::MAX { a + b } else { u64::MAX as int },
{
    if b > u64::MAX - a {
        u64::MAX
    } else {
        a + b
    }
}

/// Eight bytes per column integer, sticking to the top of the range.
fn sat_mul8_u64(a: u64) -> (r: u64)
    ensures
        r == if a * 8 <= u64::MAX { a * 8 } else { u64::MAX as int },
{
    if a > u64::MAX / 8 {
        u64::MAX
    } else {
        a * 8
    }
}

/// A record index `i < n / c` with a field offset `f < c` addresses a
/// cell inside the column.
proof fn lemma_record_in_bounds(i: int, f: int, c: int, n: int)
    requires
        0 < c,
        0 <= f < c,
        0 <= i < n / c,
    ensures
        0 <= i * c + f < n,
{
    lemma_fundamental_div_mod(n, c);
    lemma_mul_inequality(i, n / c - 1, c);
    assert((n / c - 1) * c == (n / c) * c - c) by (nonlinear_arith);
    assert(i * c >= 0) by (nonlinear_arith)
        requires 0 <= i && 0 < c;
}

/// Decoded columns factor exactly into whole records: the node and
/// edge counts, times their record sizes, give back the column lengths.
pub proof fn lemma_column_shape(s: &SnapshotRaw)
    requires
        s.wf(),
    ensures
        s.spec_node_count() * s.index.node_field_count == s.nodes@.len(),
        s.spec_edge_count() * s.index.edge_field_count == s.edges@.len(),
{
    let n = s.nodes@.len() as int;
    let c = s.index.node_field_count as int;
    let m = s.edges@.len() as int;
    let d = s.index.edge_field_count as int;
    lemma_fundamental_div_mod(n, c);
    lemma_fundamental_div_mod(m, d);
    assert(n == c * (n / c));
    assert((n / c) * c == c * (n / c)) by (nonlinear_arith);
    assert(m == d * (m / d));
    assert((m / d) * d == d * (m / d)) by (nonlinear_arith);
}

/// Zero-copy accessor decoding one node record from the columns.
pub struct NodeView<'a> {
    pub snapshot: &'a SnapshotRaw,
    pub node_index: usize,
}

impl<'a> NodeView<'a> {
    /// The accessor points at an existing record of a well-indexed
    /// snapshot.
    pub open spec fn wf(&self) -> bool {
        &&& self.snapshot.index.wf()
        &&& (self.node_index as int) < self.snapshot.spec_node_count()
    }

    pub fn node_index(&self) -> (r: usize)
        ensures
            r == self.node_index,
    {
        self.node_index
    }

    /// Raw value of the field at `field_index` within this record.
    fn field_value(&self, field_index: usize) -> (r: i64)
        requires
            self.wf(),
            field_index < self.snapshot.index.node_field_count,
        ensures
            r == self.snapshot.node_field(self.node_index as int, field_index as int),
    {
        let n = self.snapshot.nodes.len();
        proof {
            lemma_record_in_bounds(
                self.node_index as int,
                field_index as int,
                self.snapshot.index.node_field_count as int,
                n as int,
            );
        }
        let base = self.node_index * self.snapshot.index.node_field_count;
        self.snapshot.nodes[base + field_index]
    }

    /// The node's type name, resolved through the node type-name table;
    /// `None` when the stored index misses the table.
    pub fn node_type(&self) -> (r: Option<&'a str>)
        requires
            self.wf(),
        ensures
            ({
                let t = self.snapshot.node_type_value(self.node_index as int);
                match r {
                    Some(s) => 0 <= t < self.snapshot.index.node_type_names@.len()
                        && s@ == self.snapshot.index.node_type_names@[t as int]@,
                    None => !(0 <= t < self.snapshot.index.node_type_names@.len()),
                }
            }),
    {
        let idx = self.field_value(self.snapshot.index.node_field_index.type_idx);
        if idx < 0 {
            return None;
        }
        if idx as u64 >= self.snapshot.index.node_type_names.len() as u64 {
            return None;
        }
        Some(self.snapshot.index.node_type_names[idx as usize].as_str())
    }

    /// The node's constructor name, resolved through the strings table;
    /// `None` when the stored index misses the table.
    pub fn name(&self) -> (r: Option<&'a str>)
        requires
            self.wf(),
        ensures
            ({
                let t = self.snapshot.node_name_value(self.node_index as int);
                match r {
                    Some(s) => 0 <= t < self.snapshot.strings@.len()
                        && s@ == self.snapshot.strings@[t as int]@,
                    None => !(0 <= t < self.snapshot.strings@.len()),
                }
            }),
    {
        let idx = self.field_value(self.snapshot.index.node_field_index.name_idx);
        if idx < 0 {
            return None;
        }
        if idx as u64 >= self.snapshot.strings.len() as u64 {
            return None;
        }
        Some(self.snapshot.strings[idx as usize].as_str())
    }

    /// The raw name index, when it fits the index range.
    pub fn name_index(&self) -> (r: Option<usize>)
        requires
            self.wf(),
        ensures
            ({
                let t = self.snapshot.node_name_value(self.node_index as int);
                match r {
                    Some(v) => 0 <= t <= usize::MAX && v == t,
                    None => !(0 <= t <= usize::MAX),
                }
            }),
    {
        let idx = self.field_value(self.snapshot.index.node_field_index.name_idx);
        if idx < 0 {
            return None;
        }
        if idx as u64 > usize::MAX as u64 {
            return None;
        }
        Some(idx as usize)
    }

    /// The snapshot-assigned stable object id.
    pub fn id(&self) -> (r: Option<i64>)
        requires
            self.wf(),
        ensures
            r == Some(self.snapshot.node_id_value(self.node_index as int)),
    {
        Some(self.field_value(self.snapshot.index.node_field_index.id_idx))
    }

    /// The node's shallow size in bytes, as stored.
    pub fn self_size(&self) -> (r: Option<i64>)
        requires
            self.wf(),
        ensures
            r == Some(self.snapshot.node_self_size_value(self.node_index as int)),
    {
        Some(self.field_value(self.snapshot.index.node_field_index.self_size_idx))
    }

    /// The node's outgoing edge count, as stored.
    pub fn edge_count(&self) -> (r: Option<i64>)
        requires
            self.wf(),
        ensures
            r == Some(self.snapshot.node_edge_count_value(self.node_index as int)),
    {
        Some(self.field_value(self.snapshot.index.node_field_index.edge_count_idx))
    }
}

/// Zero-copy accessor decoding one edge record from the columns.
pub struct EdgeView<'a> {
    pub snapshot: &'a SnapshotRaw,
    pub edge_index: usize,
}

impl<'a> EdgeView<'a> {
    /// The accessor points at an existing record of a well-indexed
    /// snapshot.
    pub open spec fn wf(&self) -> bool {
        &&& self.snapshot.index.wf()
        &&& (self.edge_index as int) < self.snapshot.spec_edge_count()
    }

    pub fn edge_index(&self) -> (r: usize)
        ensures
            r == self.edge_index,
    {
        self.edge_index
    }

    /// Raw value of the field at `field_index` within this record.
    fn field_value(&self, field_index: usize) -> (r: i64)
        requires
            self.wf(),
            field_index < self.snapshot.index.edge_field_count,
        ensures
            r == self.snapshot.edge_field(self.edge_index as int, field_index as int),
    {
        let n = self.snapshot.edges.len();
        proof {
            lemma_record_in_bounds(
                self.edge_index as int,
                field_index as int,
                self.snapshot.index.edge_field_count as int,
                n as int,
            );
        }
        let base = self.edge_index * self.snapshot.index.edge_field_count;
        self.snapshot.edges[base + field_index]
    }

    /// The edge's type name, resolved through the edge type-name table;
    /// `None` when the stored index misses the table.
    pub fn edge_type(&self) -> (r: Option<&'a str>)
        requires
            self.wf(),
        ensures
            ({
                let t = self.snapshot.edge_type_value(self.edge_index as int);
                match r {
                    Some(s) => 0 <= t < self.snapshot.index.edge_type_names@.len()
                        && s@ == self.snapshot.index.edge_type_names@[t as int]@,
                    None => !(0 <= t < self.snapshot.index.edge_type_names@.len()),
                }
            }),
    {
        let idx = self.field_value(self.snapshot.index.edge_field_index.type_idx);
        if idx < 0 {
            return None;
        }
        if idx as u64 >= self.snapshot.index.edge_type_names.len() as u64 {
            return None;
        }
        Some(self.snapshot.index.edge_type_names[idx as usize].as_str())
    }

    /// The edge's name-or-index payload, interpreted by the caller
    /// according to the edge type.
    pub fn name_or_index(&self) -> (r: Option<i64>)
        requires
            self.wf(),
        ensures
            r == Some(self.snapshot.edge_name_or_index_value(self.edge_index as int)),
    {
        Some(self.field_value(self.snapshot.index.edge_field_index.name_or_index_idx))
    }

    /// The raw byte offset of the target node record.
    pub fn to_node(&self) -> (r: Option<i64>)
        requires
            self.wf(),
        ensures
            r == Some(self.snapshot.edge_to_node_value(self.edge_index as int)),
    {
        Some(self.field_value(self.snapshot.index.edge_field_index.to_node_idx))
    }

    /// The target node index: the raw offset divided by the node record
    /// size. Negative or misaligned offsets are unresolved references
    /// and give `None`; a resolved index may still be out of node range,
    /// which callers check.
    pub fn to_node_index(&self) -> (r: Option<usize>)
        requires
            self.wf(),
        ensures
            ({
                let t = self.snapshot.spec_to_node_index(self.edge_index as int);
                match r {
                    Some(v) => t == Some(v as int),
                    None => t is None,
                }
            }),
    {
        let to_node = self.field_value(self.snapshot.index.edge_field_index.to_node_idx);
        if to_node < 0 {
            return None;
        }
        let to_node_u = to_node as u64;
        let nfc = self.snapshot.index.node_field_count as u64;
        if to_node_u % nfc != 0 {
            return None;
        }
        let q = to_node_u / nfc;
        if q > usize::MAX as u64 {
            return None;
        }
        Some(q as usize)
    }
}

} // verus!
