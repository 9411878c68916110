use vstd::prelude::*;
use vstd::utf8::{encode_utf8, valid_utf8};
use crate::cancel::CancelToken;
use crate::error::SnapshotError;
use crate::lenient::{filter_bytes, spec_hex4_at, parse_hex4};
use crate::snapshot::{MetaType, SnapshotMeta, SnapshotRaw, SnapshotRoot};
use crate::text::str_eq;

verus! {

/// Options of the snapshot reader: whether callers report progress,
/// and the cancellation token the decoder polls while it streams.
pub struct ReadOptions {
    pub progress: bool,
    pub cancel: CancelToken,
}

impl ReadOptions {
    /// Bundles the two options.
    pub fn new(progress: bool, cancel: CancelToken) -> (r: ReadOptions)
        ensures
            r.progress == progress,
    {
        ReadOptions { progress, cancel }
    }
}

/// Relies on `String::from_utf8`: it succeeds exactly on valid UTF-8
/// and returns the string whose bytes are the input.
#[verifier::external_body]
fn utf8_to_string(bytes: Vec<u8>) -> (r: Option<String>)
    ensures
        r matches Some(s) ==> encode_utf8(s@) == bytes@ && valid_utf8(bytes@),
        r is None ==> !valid_utf8(bytes@),
{
    match String::from_utf8(bytes) {
        Ok(s) => Some(s),
        Err(_) => None,
    }
}

/// A syntactic decode failure.
fn json_err() -> (r: SnapshotError)
    ensures
        r is Json,
{
    SnapshotError::Json { details: String::from_str("malformed snapshot document") }
}

/// Skips JSON whitespace.
fn skip_ws(b: &Vec<u8>, i: usize) -> (r: usize)
    requires
        i <= b@.len(),
    ensures
        i <= r <= b@.len(),
{
    let n = b.len();
    let mut j = i;
    while j < n
        invariant
            i <= j <= n,
            n == b@.len(),
        decreases n - j,
    {
        let c = b[j];
        if c == 32 || c == 9 || c == 10 || c == 13 {
            j += 1;
        } else {
            return j;
        }
    }
    j
}

/// Decodes one quoted string starting at `i` into its UTF-8 content
/// bytes, resolving every escape; returns the content and the position
/// after the closing quote.
fn parse_string_bytes(b: &Vec<u8>, i: usize) -> (r: Result<(Vec<u8>, usize), SnapshotError>)
    requires
        i <= b@.len(),
    ensures
        match r {
            Ok(t) => i < t.1 <= b@.len(),
            Err(e) => e is Json,
        },
{
    let n = b.len();
    if i >= n || b[i] != 34 {
        return Err(json_err());
    }
    let mut out: Vec<u8> = Vec::new();
    let mut j = i + 1;
    while j < n
        invariant
            i < j <= n,
            n == b@.len(),
        decreases n - j,
    {
        let c = b[j];
        if c == 34 {
            return Ok((out, j + 1));
        }
        if c == 92 {
            if j + 1 >= n {
                return Err(json_err());
            }
            let e = b[j + 1];
            if e == 34 || e == 92 || e == 47 {
                out.push(e);
                j += 2;
            } else if e == 98 {
                out.push(8);
                j += 2;
            } else if e == 102 {
                out.push(12);
                j += 2;
            } else if e == 110 {
                out.push(10);
                j += 2;
            } else if e == 114 {
                out.push(13);
                j += 2;
            } else if e == 116 {
                out.push(9);
                j += 2;
            } else if e == 117 {
                // \uXXXX
                if n - j < 6 {
                    return Err(json_err());
                }
                if !hex4_ok(b, j + 2) {
                    return Err(json_err());
                }
                let unit = parse_hex4(b, j + 2);
                if unit >= 0xD800 && unit <= 0xDBFF {
                    // a high surrogate must pair with a following low one
                    if n - j < 12 {
                        return Err(json_err());
                    }
                    if b[j + 6] != 92 || b[j + 7] != 117 {
                        return Err(json_err());
                    }
                    if !hex4_ok(b, j + 8) {
                        return Err(json_err());
                    }
                    let low = parse_hex4(b, j + 8);
                    if !(low >= 0xDC00 && low <= 0xDFFF) {
                        return Err(json_err());
                    }
                    let cp: u32 = 0x10000 + (((unit - 0xD800) as u32) * 0x400) + ((low
                        - 0xDC00) as u32);
                    push_utf8(&mut out, cp);
                    j += 12;
                } else if unit >= 0xDC00 && unit <= 0xDFFF {
                    // a lone low surrogate is not a scalar value
                    return Err(json_err());
                } else {
                    push_utf8(&mut out, unit as u32);
                    j += 6;
                }
            } else {
                return Err(json_err());
            }
        } else if c < 32 {
            return Err(json_err());
        } else {
            out.push(c);
            j += 1;
        }
    }
    Err(json_err())
}

/// Whether four hex digits start at `i`.
fn hex4_ok(b: &Vec<u8>, i: usize) -> (r: bool)
    requires
        i + 4 <= b.len(),
    ensures
        r == spec_hex4_at(b@, i as int),
{
    let h0 = is_hex(b[i]);
    let h1 = is_hex(b[i + 1]);
    let h2 = is_hex(b[i + 2]);
    let h3 = is_hex(b[i + 3]);
    h0 && h1 && h2 && h3
}

/// Whether a byte is an ASCII hex digit.
fn is_hex(c: u8) -> (r: bool)
    ensures
        r == crate::lenient::spec_is_hex(c),
{
    (c >= 48 && c <= 57) || (c >= 97 && c <= 102) || (c >= 65 && c <= 70)
}

/// Appends the UTF-8 encoding of one code point below `0x110000`,
/// outside the surrogate range.
fn push_utf8(out: &mut Vec<u8>, cp: u32)
    requires
        cp < 0x110000,
{
    if cp < 0x80 {
        out.push(cp as u8);
    } else if cp < 0x800 {
        out.push((0xC0 | (cp / 64)) as u8);
        out.push((0x80 | (cp % 64)) as u8);
    } else if cp < 0x10000 {
        out.push((0xE0 | (cp / 4096)) as u8);
        out.push((0x80 | ((cp / 64) % 64)) as u8);
        out.push((0x80 | (cp % 64)) as u8);
    } else {
        out.push((0xF0 | (cp / 262144)) as u8);
        out.push((0x80 | ((cp / 4096) % 64)) as u8);
        out.push((0x80 | ((cp / 64) % 64)) as u8);
        out.push((0x80 | (cp % 64)) as u8);
    }
}

/// Decodes one quoted string into a `String`; bytes that do not form
/// valid UTF-8 are a syntactic failure.
fn parse_string(b: &Vec<u8>, i: usize) -> (r: Result<(String, usize), SnapshotError>)
    requires
        i <= b@.len(),
    ensures
        match r {
            Ok(t) => i < t.1 <= b@.len(),
            Err(e) => e is Json,
        },
{
    let parsed = parse_string_bytes(b, i)?;
    let (bytes, j) = parsed;
    match utf8_to_string(bytes) {
        Some(s) => Ok((s, j)),
        None => Err(json_err()),
    }
}

/// Parses one integer; fractions, exponents and values outside the
/// 64-bit signed range are syntactic failures.
fn parse_i64(b: &Vec<u8>, i: usize) -> (r: Result<(i64, usize), SnapshotError>)
    requires
        i <= b@.len(),
    ensures
        match r {
            Ok(t) => i < t.1 <= b@.len(),
            Err(e) => e is Json,
        },
{
    let n = b.len();
    let mut j = i;
    let mut negative = false;
    if j < n && b[j] == 45 {
        negative = true;
        j += 1;
    }
    if j >= n || b[j] < 48 || b[j] > 57 {
        return Err(json_err());
    }
    let ghost start = j;
    let mut mag: u64 = 0;
    while j < n && b[j] >= 48 && b[j] <= 57
        invariant
            i <= start <= j <= n,
            i < j || j == start,
            n == b@.len(),
            j == start ==> j < n && 48 <= b@[j as int] <= 57,
            negative ==> i < start,
        decreases n - j,
    {
        let d = (b[j] - 48) as u64;
        if mag > (u64::MAX - d) / 10 {
            return Err(json_err());
        }
        mag = mag * 10 + d;
        j += 1;
    }
    proof {
        assert(j > start || !(j < n && 48 <= b@[j as int] <= 57));
    }
    if j < n && (b[j] == 46 || b[j] == 101 || b[j] == 69) {
        // a fraction or exponent is not a column integer
        return Err(json_err());
    }
    if negative {
        if mag > 0x8000_0000_0000_0000u64 {
            return Err(json_err());
        }
        if mag == 0x8000_0000_0000_0000u64 {
            return Ok((i64::MIN, j));
        }
        return Ok((-(mag as i64), j));
    }
    if mag > i64::MAX as u64 {
        return Err(json_err());
    }
    Ok((mag as i64, j))
}

/// Skips one JSON value of any shape.
fn skip_value(b: &Vec<u8>, i: usize) -> (r: Result<usize, SnapshotError>)
    requires
        i <= b@.len(),
    ensures
        match r {
            Ok(t) => i < t <= b@.len(),
            Err(e) => e is Json,
        },
    decreases b@.len() - i,
{
    let n = b.len();
    let j = skip_ws(b, i);
    if j >= n {
        return Err(json_err());
    }
    let c = b[j];
    if c == 34 {
        let parsed = parse_string_bytes(b, j)?;
        return Ok(parsed.1);
    }
    if c == 116 {
        // true
        if n - j >= 4 && b[j + 1] == 114 && b[j + 2] == 117 && b[j + 3] == 101 {
            return Ok(j + 4);
        }
        return Err(json_err());
    }
    if c == 102 {
        // false
        if n - j >= 5 && b[j + 1] == 97 && b[j + 2] == 108 && b[j + 3] == 115 && b[j + 4] == 101 {
            return Ok(j + 5);
        }
        return Err(json_err());
    }
    if c == 110 {
        // null
        if n - j >= 4 && b[j + 1] == 117 && b[j + 2] == 108 && b[j + 3] == 108 {
            return Ok(j + 4);
        }
        return Err(json_err());
    }
    if c == 91 {
        // array
        let mut p = skip_ws(b, j + 1);
        if p < n && b[p] == 93 {
            return Ok(p + 1);
        }
        loop
            invariant
                i <= j < p <= n,
                n == b@.len(),
            decreases n - p,
        {
            let q = skip_value(b, p)?;
            let q2 = skip_ws(b, q);
            if q2 < n && b[q2] == 44 {
                let next = skip_ws(b, q2 + 1);
                if next <= p {
                    return Err(json_err());
                }
                p = next;
            } else if q2 < n && b[q2] == 93 {
                return Ok(q2 + 1);
            } else {
                return Err(json_err());
            }
        }
    }
    if c == 123 {
        // object
        let mut p = skip_ws(b, j + 1);
        if p < n && b[p] == 125 {
            return Ok(p + 1);
        }
        loop
            invariant
                i <= j < p <= n,
                n == b@.len(),
            decreases n - p,
        {
            let parsed_key = parse_string_bytes(b, p)?;
            let after_key = skip_ws(b, parsed_key.1);
            if after_key >= n || b[after_key] != 58 {
                return Err(json_err());
            }
            let q = skip_value(b, after_key + 1)?;
            let q2 = skip_ws(b, q);
            if q2 < n && b[q2] == 44 {
                let next = skip_ws(b, q2 + 1);
                if next <= p {
                    return Err(json_err());
                }
                p = next;
            } else if q2 < n && b[q2] == 125 {
                return Ok(q2 + 1);
            } else {
                return Err(json_err());
            }
        }
    }
    // a number
    let parsed = parse_i64(b, j);
    match parsed {
        Ok(t) => Ok(t.1),
        Err(e) => Err(e),
    }
}

/// Streams one array of integers into `out`, polling cancellation per
/// element.
fn parse_i64_array_into(b: &Vec<u8>, i: usize, out: &mut Vec<i64>, cancel: &CancelToken) -> (r:
    Result<usize, SnapshotError>)
    requires
        i <= b@.len(),
    ensures
        match r {
            Ok(t) => i < t <= b@.len(),
            Err(e) => e is Json || e is Cancelled,
        },
{
    let n = b.len();
    let j = skip_ws(b, i);
    if j >= n || b[j] != 91 {
        return Err(json_err());
    }
    let mut p = skip_ws(b, j + 1);
    if p < n && b[p] == 93 {
        return Ok(p + 1);
    }
    loop
        invariant
            i <= j < p <= n,
            n == b@.len(),
        decreases n - p,
    {
        if cancel.is_cancelled() {
            return Err(SnapshotError::Cancelled);
        }
        let parsed = parse_i64(b, p)?;
        out.push(parsed.0);
        let q2 = skip_ws(b, parsed.1);
        if q2 < n && b[q2] == 44 {
            let next = skip_ws(b, q2 + 1);
            if next <= p {
                return Err(json_err());
            }
            p = next;
        } else if q2 < n && b[q2] == 93 {
            return Ok(q2 + 1);
        } else {
            return Err(json_err());
        }
    }
}

/// Streams one array of strings into `out`, polling cancellation per
/// element.
fn parse_string_array_into(
    b: &Vec<u8>,
    i: usize,
    out: &mut Vec<String>,
    cancel: &CancelToken,
) -> (r: Result<usize, SnapshotError>)
    requires
        i <= b@.len(),
    ensures
        match r {
            Ok(t) => i < t <= b@.len(),
            Err(e) => e is Json || e is Cancelled,
        },
{
    let n = b.len();
    let j = skip_ws(b, i);
    if j >= n || b[j] != 91 {
        return Err(json_err());
    }
    let mut p = skip_ws(b, j + 1);
    if p < n && b[p] == 93 {
        return Ok(p + 1);
    }
    loop
        invariant
            i <= j < p <= n,
            n == b@.len(),
        decreases n - p,
    {
        if cancel.is_cancelled() {
            return Err(SnapshotError::Cancelled);
        }
        let parsed = parse_string(b, p)?;
        out.push(parsed.0);
        let q2 = skip_ws(b, parsed.1);
        if q2 < n && b[q2] == 44 {
            let next = skip_ws(b, q2 + 1);
            if next <= p {
                return Err(json_err());
            }
            p = next;
        } else if q2 < n && b[q2] == 93 {
            return Ok(q2 + 1);
        } else {
            return Err(json_err());
        }
    }
}

/// Parses one schema type entry: a bare string, or an array of
/// strings.
fn parse_meta_type(b: &Vec<u8>, i: usize) -> (r: Result<(MetaType, usize), SnapshotError>)
    requires
        i <= b@.len(),
    ensures
        match r {
            Ok(t) => i < t.1 <= b@.len(),
            Err(e) => e is Json,
        },
{
    let n = b.len();
    let j = skip_ws(b, i);
    if j < n && b[j] == 34 {
        let parsed = parse_string(b, j)?;
        return Ok((MetaType::Name(parsed.0), parsed.1));
    }
    if j >= n || b[j] != 91 {
        return Err(json_err());
    }
    let mut values: Vec<String> = Vec::new();
    let mut p = skip_ws(b, j + 1);
    if p < n && b[p] == 93 {
        return Ok((MetaType::Array(values), p + 1));
    }
    loop
        invariant
            i <= j < p <= n,
            n == b@.len(),
        decreases n - p,
    {
        let parsed = parse_string(b, p)?;
        values.push(parsed.0);
        let q2 = skip_ws(b, parsed.1);
        if q2 < n && b[q2] == 44 {
            let next = skip_ws(b, q2 + 1);
            if next <= p {
                return Err(json_err());
            }
            p = next;
        } else if q2 < n && b[q2] == 93 {
            return Ok((MetaType::Array(values), q2 + 1));
        } else {
            return Err(json_err());
        }
    }
}

/// Parses one array of schema type entries.
fn parse_meta_types(b: &Vec<u8>, i: usize) -> (r: Result<(Vec<MetaType>, usize), SnapshotError>)
    requires
        i <= b@.len(),
    ensures
        match r {
            Ok(t) => i < t.1 <= b@.len(),
            Err(e) => e is Json,
        },
{
    let n = b.len();
    let j = skip_ws(b, i);
    if j >= n || b[j] != 91 {
        return Err(json_err());
    }
    let mut values: Vec<MetaType> = Vec::new();
    let mut p = skip_ws(b, j + 1);
    if p < n && b[p] == 93 {
        return Ok((values, p + 1));
    }
    loop
        invariant
            i <= j < p <= n,
            n == b@.len(),
        decreases n - p,
    {
        let parsed = parse_meta_type(b, p)?;
        values.push(parsed.0);
        let q2 = skip_ws(b, parsed.1);
        if q2 < n && b[q2] == 44 {
            let next = skip_ws(b, q2 + 1);
            if next <= p {
                return Err(json_err());
            }
            p = next;
        } else if q2 < n && b[q2] == 93 {
            return Ok((values, q2 + 1));
        } else {
            return Err(json_err());
        }
    }
}

/// Parses the `meta` object of the schema: its four required members,
/// with unknown members skipped.
fn parse_meta(b: &Vec<u8>, i: usize) -> (r: Result<(SnapshotMeta, usize), SnapshotError>)
    requires
        i <= b@.len(),
    ensures
        match r {
            Ok(t) => i < t.1 <= b@.len(),
            Err(e) => e is Json,
        },
{
    let n = b.len();
    let j = skip_ws(b, i);
    if j >= n || b[j] != 123 {
        return Err(json_err());
    }
    let mut node_fields: Option<Vec<String>> = None;
    let mut node_types: Option<Vec<MetaType>> = None;
    let mut edge_fields: Option<Vec<String>> = None;
    let mut edge_types: Option<Vec<MetaType>> = None;

    let mut p = skip_ws(b, j + 1);
    if p < n && b[p] == 125 {
        return finish_meta(node_fields, node_types, edge_fields, edge_types, p + 1, n);
    }
    loop
        invariant
            i <= j < p <= n,
            n == b@.len(),
        decreases n - p,
    {
        let parsed_key = parse_string(b, p)?;
        let (key, after_key_pos) = parsed_key;
        let after_key = skip_ws(b, after_key_pos);
        if after_key >= n || b[after_key] != 58 {
            return Err(json_err());
        }
        let vstart = after_key + 1;
        let vend: usize;
        if str_eq(key.as_str(), "node_fields") {
            let mut items: Vec<String> = Vec::new();
            let cancel = CancelToken::new();
            let end = match parse_string_array_into(b, vstart, &mut items, &cancel) {
                Ok(e) => e,
                Err(_) => {
                    return Err(json_err());
                },
            };
            node_fields = Some(items);
            vend = end;
        } else if str_eq(key.as_str(), "node_types") {
            let parsed = parse_meta_types(b, vstart)?;
            node_types = Some(parsed.0);
            vend = parsed.1;
        } else if str_eq(key.as_str(), "edge_fields") {
            let mut items: Vec<String> = Vec::new();
            let cancel = CancelToken::new();
            let end = match parse_string_array_into(b, vstart, &mut items, &cancel) {
                Ok(e) => e,
                Err(_) => {
                    return Err(json_err());
                },
            };
            edge_fields = Some(items);
            vend = end;
        } else if str_eq(key.as_str(), "edge_types") {
            let parsed = parse_meta_types(b, vstart)?;
            edge_types = Some(parsed.0);
            vend = parsed.1;
        } else {
            vend = skip_value(b, vstart)?;
        }
        if vend <= p || vend > n {
            return Err(json_err());
        }
        let q2 = skip_ws(b, vend);
        if q2 < n && b[q2] == 44 {
            let next = skip_ws(b, q2 + 1);
            if next <= p {
                return Err(json_err());
            }
            p = next;
        } else if q2 < n && b[q2] == 125 {
            return finish_meta(node_fields, node_types, edge_fields, edge_types, q2 + 1, n);
        } else {
            return Err(json_err());
        }
    }
}

/// Assembles the schema once its object closes; a missing member is a
/// syntactic failure.
fn finish_meta(
    node_fields: Option<Vec<String>>,
    node_types: Option<Vec<MetaType>>,
    edge_fields: Option<Vec<String>>,
    edge_types: Option<Vec<MetaType>>,
    end: usize,
    n: usize,
) -> (r: Result<(SnapshotMeta, usize), SnapshotError>)
    requires
        0 < end <= n,
    ensures
        match r {
            Ok(t) => t.1 == end,
            Err(e) => e is Json,
        },
{
    match (node_fields, node_types, edge_fields, edge_types) {
        (Some(nf), Some(nt), Some(ef), Some(et)) => Ok(
            (
                SnapshotMeta {
                    node_fields: nf,
                    node_types: nt,
                    edge_fields: ef,
                    edge_types: et,
                },
                end,
            ),
        ),
        _ => Err(json_err()),
    }
}

/// Parses the `snapshot` member: an object whose `meta` member is the
/// schema; everything else is skipped.
fn parse_snapshot_root(b: &Vec<u8>, i: usize) -> (r: Result<(SnapshotRoot, usize), SnapshotError>)
    requires
        i <= b@.len(),
    ensures
        match r {
            Ok(t) => i < t.1 <= b@.len(),
            Err(e) => e is Json,
        },
{
    let n = b.len();
    let j = skip_ws(b, i);
    if j >= n || b[j] != 123 {
        return Err(json_err());
    }
    let mut meta: Option<SnapshotMeta> = None;
    let mut p = skip_ws(b, j + 1);
    if p < n && b[p] == 125 {
        return Ok((SnapshotRoot { meta }, p + 1));
    }
    loop
        invariant
            i <= j < p <= n,
            n == b@.len(),
        decreases n - p,
    {
        let parsed_key = parse_string(b, p)?;
        let (key, after_key_pos) = parsed_key;
        let after_key = skip_ws(b, after_key_pos);
        if after_key >= n || b[after_key] != 58 {
            return Err(json_err());
        }
        let vstart = after_key + 1;
        let vend: usize;
        if str_eq(key.as_str(), "meta") {
            let parsed = parse_meta(b, vstart)?;
            meta = Some(parsed.0);
            vend = parsed.1;
        } else {
            vend = skip_value(b, vstart)?;
        }
        if vend <= p || vend > n {
            return Err(json_err());
        }
        let q2 = skip_ws(b, vend);
        if q2 < n && b[q2] == 44 {
            let next = skip_ws(b, q2 + 1);
            if next <= p {
                return Err(json_err());
            }
            p = next;
        } else if q2 < n && b[q2] == 125 {
            return Ok((SnapshotRoot { meta }, q2 + 1));
        } else {
            return Err(json_err());
        }
    }
}

/// Decodes a whole snapshot document from bytes: runs the lenient
/// surrogate repair, then a single strict pass that populates the
/// three columns and the schema, then validates the schema and the
/// column shapes.
///
/// On success the snapshot satisfies the column well-formedness
/// invariant - both column lengths are whole multiples of their
/// record sizes - and its schema passed validation. The failure kind
/// reports what went wrong: `Cancelled` for an observed cancellation,
/// `Json` for a syntactic failure, `MetaMismatch` for a schema
/// violation, `InvalidData` for broken column shapes or a missing
/// schema.
pub fn read_snapshot(bytes: &Vec<u8>, options: &ReadOptions) -> (r: Result<
    SnapshotRaw,
    SnapshotError,
>)
    ensures
        match r {
            Ok(s) => s.wf() && s.meta.valid() && s.index.node_field_count
                == s.meta.node_fields@.len() && s.index.edge_field_count
                == s.meta.edge_fields@.len(),
            Err(e) => e is Cancelled || e is Json || e is MetaMismatch || e is InvalidData,
        },
{
    if options.cancel.is_cancelled() {
        return Err(SnapshotError::Cancelled);
    }
    let b = filter_bytes(bytes);
    let n = b.len();

    let mut meta: Option<SnapshotMeta> = None;
    let mut nodes: Vec<i64> = Vec::new();
    let mut edges: Vec<i64> = Vec::new();
    let mut strings: Vec<String> = Vec::new();

    let j = skip_ws(&b, 0);
    if j >= n || b[j] != 123 {
        return Err(json_err());
    }
    let mut p = skip_ws(&b, j + 1);
    let mut done = false;
    if p < n && b[p] == 125 {
        p = p + 1;
        done = true;
    }
    while !done
        invariant
            j < p <= n || done,
            p <= n,
            n == b@.len(),
        decreases n - p, (if done {
            0int
        } else {
            1int
        }),
    {
        let parsed_key = parse_string(&b, p)?;
        let (key, after_key_pos) = parsed_key;
        let after_key = skip_ws(&b, after_key_pos);
        if after_key >= n || b[after_key] != 58 {
            return Err(json_err());
        }
        let vstart = after_key + 1;
        let vend: usize;
        if str_eq(key.as_str(), "snapshot") {
            let parsed = parse_snapshot_root(&b, vstart)?;
            if parsed.0.meta.is_some() {
                meta = parsed.0.meta;
            }
            vend = parsed.1;
        } else if str_eq(key.as_str(), "nodes") {
            vend = parse_i64_array_into(&b, vstart, &mut nodes, &options.cancel)?;
        } else if str_eq(key.as_str(), "edges") {
            vend = parse_i64_array_into(&b, vstart, &mut edges, &options.cancel)?;
        } else if str_eq(key.as_str(), "strings") {
            vend = parse_string_array_into(&b, vstart, &mut strings, &options.cancel)?;
        } else {
            vend = skip_value(&b, vstart)?;
        }
        if vend <= p || vend > n {
            return Err(json_err());
        }
        let q2 = skip_ws(&b, vend);
        if q2 < n && b[q2] == 44 {
            let next = skip_ws(&b, q2 + 1);
            if next <= p {
                return Err(json_err());
            }
            p = next;
        } else if q2 < n && b[q2] == 125 {
            p = q2 + 1;
            done = true;
        } else {
            return Err(json_err());
        }
    }
    let tail = skip_ws(&b, p);
    if tail != n {
        return Err(json_err());
    }

    into_snapshot(meta, nodes, edges, strings)
}

/// Assembles the decoded document members into a snapshot: the schema
/// must be present and valid, and both columns must factor into whole
/// records.
///
/// The outcome is pinned exactly: a missing schema is `InvalidData`; a
/// present but invalid schema is `MetaMismatch`; a column length that
/// is no multiple of its field count is `InvalidData`; otherwise the
/// snapshot holds exactly the given columns and schema.
pub fn into_snapshot(
    meta: Option<SnapshotMeta>,
    nodes: Vec<i64>,
    edges: Vec<i64>,
    strings: Vec<String>,
) -> (r: Result<SnapshotRaw, SnapshotError>)
    ensures
        match r {
            Ok(s) => {
                &&& meta matches Some(m) && s.meta == m
                &&& s.nodes == nodes
                &&& s.edges == edges
                &&& s.strings == strings
                &&& s.wf()
                &&& s.meta.valid()
                &&& s.index.node_field_count == s.meta.node_fields@.len()
                &&& s.index.edge_field_count == s.meta.edge_fields@.len()
            },
            Err(e) => match meta {
                None => e is InvalidData,
                Some(m) => {
                    &&& (!m.valid() <==> e is MetaMismatch)
                    &&& (m.valid() ==> e is InvalidData && (nodes@.len() as int % (
                    m.node_fields@.len() as int) != 0 || edges@.len() as int % (
                    m.edge_fields@.len() as int) != 0))
                },
            },
        },
        r is Ok <==> (meta matches Some(m) && m.valid() && m.node_fields@.len() > 0
            && m.edge_fields@.len() > 0 && nodes@.len() as int % (m.node_fields@.len() as int)
            == 0 && edges@.len() as int % (m.edge_fields@.len() as int) == 0),
{
    let meta = match meta {
        None => {
            return Err(SnapshotError::InvalidData {
                details: String::from_str("missing snapshot.meta in the document"),
            });
        },
        Some(m) => m,
    };
    let index = meta.validate()?;

    if index.node_field_count == 0 || nodes.len() % index.node_field_count != 0 {
        return Err(SnapshotError::InvalidData {
            details: String::from_str("nodes length is not a multiple of the node field count"),
        });
    }
    if index.edge_field_count == 0 || edges.len() % index.edge_field_count != 0 {
        return Err(SnapshotError::InvalidData {
            details: String::from_str("edges length is not a multiple of the edge field count"),
        });
    }

    Ok(SnapshotRaw { nodes, edges, strings, meta, index })
}

} // verus!
