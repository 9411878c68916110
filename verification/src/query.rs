use vstd::prelude::*;
use vstd::string::StringSliceAdditionalSpecFns;
use crate::error::SnapshotError;
use crate::lenient::{spec_hex_val, spec_is_hex};
use crate::text::str_eq;

verus! {

/// Appends one character to a string. Relies on `String::push`, which
/// the standard library documents as appending exactly the given
/// character.
#[verifier::external_body]
fn push_char(s: &mut String, c: char)
    ensures
        final(s)@ == old(s)@.push(c),
{
    s.push(c);
}

/// The percent-decoding of a byte stream from position `i` on: `%XX`
/// with two hex digits becomes the byte value, `+` becomes a space,
/// and every other byte stands for itself.
pub open spec fn spec_url_decode_from(s: Seq<u8>, i: int) -> Seq<char>
    decreases s.len() - i,
{
    if i < 0 || i >= s.len() {
        Seq::empty()
    } else if s[i] == 37 && i + 2 < s.len() && spec_is_hex(s[i + 1]) && spec_is_hex(s[i + 2]) {
        seq![((spec_hex_val(s[i + 1]) * 16 + spec_hex_val(s[i + 2])) as u8) as char]
            + spec_url_decode_from(s, i + 3)
    } else if s[i] == 43 {
        seq![' '] + spec_url_decode_from(s, i + 1)
    } else {
        seq![s[i] as char] + spec_url_decode_from(s, i + 1)
    }
}

/// Percent-decodes one query component.
pub fn url_decode(value: &str) -> (r: String)
    ensures
        r@ == spec_url_decode_from(value.spec_bytes(), 0),
{
    let bytes = value.as_bytes();
    let n = bytes.len();
    let mut out = String::new();
    let mut i: usize = 0;
    while i < n
        invariant
            n == value.spec_bytes().len(),
            bytes@ == value.spec_bytes(),
            0 <= i <= n,
            spec_url_decode_from(bytes@, 0) == out@ + spec_url_decode_from(bytes@, i as int),
        decreases n - i,
    {
        let ghost out_pre = out@;
        let ghost i_pre = i as int;
        let c = bytes[i];
        if c == 37 && n - i > 2 && hex_at(bytes, i + 1) && hex_at(bytes, i + 2) {
            let v = hex_byte_val(bytes[i + 1]) * 16 + hex_byte_val(bytes[i + 2]);
            push_char(&mut out, v as char);
            i += 3;
        } else if c == 43 {
            push_char(&mut out, ' ');
            i += 1;
        } else {
            push_char(&mut out, c as char);
            i += 1;
        }
        proof {
            let e = out@.subrange(out_pre.len() as int, out@.len() as int);
            assert(out@ =~= out_pre + e);
            assert(spec_url_decode_from(bytes@, i_pre) == e + spec_url_decode_from(
                bytes@,
                i as int,
            ));
            assert(out@ + spec_url_decode_from(bytes@, i as int) =~= out_pre
                + spec_url_decode_from(bytes@, i_pre));
        }
    }
    proof {
        assert(spec_url_decode_from(bytes@, n as int) =~= Seq::<char>::empty());
        assert(out@ + Seq::<char>::empty() =~= out@);
    }
    out
}

/// Whether a slice byte is an ASCII hex digit.
fn hex_at(bytes: &[u8], i: usize) -> (r: bool)
    requires
        i < bytes@.len(),
    ensures
        r == spec_is_hex(bytes@[i as int]),
{
    let c = bytes[i];
    (c >= 48 && c <= 57) || (c >= 97 && c <= 102) || (c >= 65 && c <= 70)
}

/// The value of one hex digit byte.
fn hex_byte_val(c: u8) -> (r: u8)
    requires
        spec_is_hex(c),
    ensures
        r == spec_hex_val(c),
        r < 16,
{
    if c >= 48 && c <= 57 {
        c - 48
    } else if c >= 97 && c <= 102 {
        c - 97 + 10
    } else {
        c - 65 + 10
    }
}

/// Whether a byte passes through percent-encoding unchanged.
pub open spec fn spec_url_plain(b: u8) -> bool {
    ||| (48 <= b <= 57)
    ||| (97 <= b <= 122)
    ||| (65 <= b <= 90)
    ||| b == 45
    ||| b == 95
    ||| b == 46
    ||| b == 126
}

/// An uppercase hex digit character.
pub open spec fn spec_hex_char(v: u8) -> char {
    if v < 10 {
        ((v + 48) as u8) as char
    } else {
        ((v - 10 + 65) as u8) as char
    }
}

/// The percent-encoding of a byte stream from position `i` on.
pub open spec fn spec_url_encode_from(s: Seq<u8>, i: int) -> Seq<char>
    decreases s.len() - i,
{
    if i < 0 || i >= s.len() {
        Seq::empty()
    } else if spec_url_plain(s[i]) {
        seq![s[i] as char] + spec_url_encode_from(s, i + 1)
    } else {
        seq!['%', spec_hex_char(s[i] / 16), spec_hex_char(s[i] % 16)] + spec_url_encode_from(
            s,
            i + 1,
        )
    }
}

/// Percent-encodes one query component.
pub fn url_encode(value: &str) -> (r: String)
    ensures
        r@ == spec_url_encode_from(value.spec_bytes(), 0),
{
    let bytes = value.as_bytes();
    let n = bytes.len();
    let mut out = String::new();
    let mut i: usize = 0;
    while i < n
        invariant
            n == value.spec_bytes().len(),
            bytes@ == value.spec_bytes(),
            0 <= i <= n,
            spec_url_encode_from(bytes@, 0) == out@ + spec_url_encode_from(bytes@, i as int),
        decreases n - i,
    {
        let ghost out_pre = out@;
        let ghost i_pre = i as int;
        let c = bytes[i];
        let plain = (c >= 48 && c <= 57) || (c >= 97 && c <= 122) || (c >= 65 && c <= 90) || c
            == 45 || c == 95 || c == 46 || c == 126;
        if plain {
            push_char(&mut out, c as char);
        } else {
            push_char(&mut out, '%');
            push_char(&mut out, hex_char(c / 16));
            push_char(&mut out, hex_char(c % 16));
        }
        i += 1;
        proof {
            let e = out@.subrange(out_pre.len() as int, out@.len() as int);
            assert(out@ =~= out_pre + e);
            assert(spec_url_encode_from(bytes@, i_pre) == e + spec_url_encode_from(
                bytes@,
                i as int,
            ));
            assert(out@ + spec_url_encode_from(bytes@, i as int) =~= out_pre
                + spec_url_encode_from(bytes@, i_pre));
        }
    }
    proof {
        assert(spec_url_encode_from(bytes@, n as int) =~= Seq::<char>::empty());
        assert(out@ + Seq::<char>::empty() =~= out@);
    }
    out
}

/// The uppercase hex digit character of a value below sixteen.
fn hex_char(v: u8) -> (r: char)
    requires
        v < 16,
    ensures
        r == spec_hex_char(v),
{
    if v < 10 {
        (v + 48) as char
    } else {
        (v - 10 + 65) as char
    }
}

/// Decoded query parameters, in document order; for a repeated key the
/// last occurrence stands, as a map built by insertion would keep it.
pub struct QueryMap {
    pub pairs: Vec<(String, String)>,
}

impl QueryMap {
    /// The value of `key`: the last pair carrying it.
    pub fn get<'a>(&'a self, key: &str) -> (r: Option<&'a String>)
        ensures
            match r {
                Some(v) => exists|i: int|
                    0 <= i < self.pairs@.len() && (#[trigger] self.pairs@[i]).0@ == key@
                        && self.pairs@[i].1 == v,
                None => forall|i: int|
                    0 <= i < self.pairs@.len() ==> (#[trigger] self.pairs@[i]).0@ != key@,
            },
    {
        let mut j: usize = self.pairs.len();
        while j > 0
            invariant
                0 <= j <= self.pairs@.len(),
                forall|i: int| j <= i < self.pairs@.len() ==> (#[trigger] self.pairs@[i]).0@
                    != key@,
            decreases j,
        {
            j -= 1;
            if str_eq(self.pairs[j].0.as_str(), key) {
                proof {
                    assert((self.pairs@[j as int]).0@ == key@);
                }
                return Some(&self.pairs[j].1);
            }
        }
        None
    }
}

/// Splits a request target into its path and its raw query, at the
/// first question mark.
pub fn split_target(target: &str) -> (r: (String, String))
    ensures
        target@.contains('?') ==> {
            let cut = crate::query::first_question(target@);
            r.0@ == target@.subrange(0, cut) && r.1@ == target@.subrange(
                cut + 1,
                target@.len() as int,
            )
        },
        !target@.contains('?') ==> r.0@ == target@ && r.1@.len() == 0,
{
    let n = target.unicode_len();
    let mut i: usize = 0;
    while i < n
        invariant
            n == target@.len(),
            0 <= i <= n,
            forall|k: int| 0 <= k < i ==> target@[k] != '?',
        decreases n - i,
    {
        if target.get_char(i) == '?' {
            let path = String::from_str(target.substring_char(0, i));
            let query = String::from_str(target.substring_char(i + 1, n));
            proof {
                assert(target@.contains('?')) by {
                    assert(target@[i as int] == '?');
                }
                lemma_first_question(target@, i as int);
            }
            return (path, query);
        }
        i += 1;
    }
    proof {
        if target@.contains('?') {
            let k = choose|k: int| 0 <= k < target@.len() && target@[k] == '?';
            assert(false);
        }
    }
    let path = String::from_str(target);
    (path, String::new())
}

/// The position of the first question mark.
pub open spec fn first_question(s: Seq<char>) -> int {
    choose|i: int| 0 <= i < s.len() && s[i] == '?' && (forall|k: int| 0 <= k < i ==> s[k] != '?')
}

/// A position that is a question mark after none is the first one.
proof fn lemma_first_question(s: Seq<char>, i: int)
    requires
        0 <= i < s.len(),
        s[i] == '?',
        forall|k: int| 0 <= k < i ==> s[k] != '?',
    ensures
        first_question(s) == i,
{
    let j = first_question(s);
    assert(0 <= j < s.len() && s[j] == '?' && (forall|k: int| 0 <= k < j ==> s[k] != '?')) by {
        assert(0 <= i < s.len() && s[i] == '?' && (forall|k: int| 0 <= k < i ==> s[k] != '?'));
    }
    if j < i {
        assert(s[j] != '?');
    }
    if i < j {
        assert(s[i] != '?');
    }
}

/// Splits a raw query on `&`, decodes each `key=value` pair, and
/// collects them in order; empty components are dropped.
pub fn parse_query(query_raw: &str) -> (r: QueryMap) {
    let n = query_raw.unicode_len();
    let mut pairs: Vec<(String, String)> = Vec::new();
    let mut start: usize = 0;
    let mut i: usize = 0;
    while i <= n
        invariant
            n == query_raw@.len(),
            0 <= start <= i <= n + 1,
        decreases n + 1 - i,
    {
        if i == n || query_raw.get_char(i) == '&' {
            if i > start {
                let pair = query_raw.substring_char(start, i);
                let m = pair.unicode_len();
                let mut eq: usize = m;
                let mut k: usize = 0;
                while k < m
                    invariant
                        m == pair@.len(),
                        0 <= k <= m,
                        eq == m || eq < m,
                    decreases m - k,
                {
                    if pair.get_char(k) == '=' {
                        eq = k;
                        k = m;
                    } else {
                        k += 1;
                    }
                }
                if eq < m {
                    let key = url_decode(pair.substring_char(0, eq));
                    let value = url_decode(pair.substring_char(eq + 1, m));
                    pairs.push((key, value));
                } else {
                    let key = url_decode(pair);
                    pairs.push((key, String::new()));
                }
            }
            if i < n {
                start = i + 1;
            } else {
                start = i;
            }
        }
        if i == n {
            break;
        }
        i += 1;
    }
    QueryMap { pairs }
}

/// The numeric value of a digit sequence, read left to right.
pub open spec fn spec_digits_val(s: Seq<char>, i: int) -> int
    decreases i,
{
    if i <= 0 {
        0
    } else {
        spec_digits_val(s, i - 1) * 10 + (s[i - 1] as u32 - 48)
    }
}

/// Whether every character is an ASCII digit.
pub open spec fn spec_all_digits(s: Seq<char>) -> bool {
    forall|k: int| 0 <= k < s.len() ==> '0' <= #[trigger] s[k] <= '9'
}

/// With digit characters the running value is never negative.
proof fn lemma_digits_val_nonneg(s: Seq<char>, i: int)
    requires
        0 <= i <= s.len(),
        spec_all_digits(s),
    ensures
        spec_digits_val(s, i) >= 0,
    decreases i,
{
    if i > 0 {
        lemma_digits_val_nonneg(s, i - 1);
        assert(spec_digits_val(s, i - 1) * 10 >= 0) by (nonlinear_arith)
            requires spec_digits_val(s, i - 1) >= 0;
    }
}

/// With digit characters the running value never shrinks.
proof fn lemma_digits_val_monotone(s: Seq<char>, i: int, n: int)
    requires
        0 <= i <= n <= s.len(),
        spec_all_digits(s),
    ensures
        spec_digits_val(s, i) <= spec_digits_val(s, n),
    decreases n - i,
{
    if i < n {
        lemma_digits_val_monotone(s, i, n - 1);
        lemma_digits_val_nonneg(s, n - 1);
        assert(spec_digits_val(s, n) == spec_digits_val(s, n - 1) * 10 + (s[n - 1] as u32
            - 48));
        assert(spec_digits_val(s, n - 1) * 10 >= spec_digits_val(s, n - 1)) by (nonlinear_arith)
            requires spec_digits_val(s, n - 1) >= 0;
    }
}

/// Parses an unsigned decimal number: digits only, inside the 64-bit
/// range.
pub fn str_parse_u64(s: &str) -> (r: Option<u64>)
    ensures
        r matches Some(v) ==> s@.len() > 0 && spec_all_digits(s@) && v == spec_digits_val(
            s@,
            s@.len() as int,
        ),
        r is None ==> !(s@.len() > 0 && spec_all_digits(s@) && spec_digits_val(
            s@,
            s@.len() as int,
        ) <= u64::MAX),
{
    let n = s.unicode_len();
    if n == 0 {
        return None;
    }
    let mut value: u64 = 0;
    let mut i: usize = 0;
    while i < n
        invariant
            n == s@.len(),
            0 <= i <= n,
            forall|k: int| 0 <= k < i ==> '0' <= #[trigger] s@[k] <= '9',
            value == spec_digits_val(s@, i as int),
        decreases n - i,
    {
        let c = s.get_char(i);
        if !(c >= '0' && c <= '9') {
            proof {
                assert(!('0' <= s@[i as int] <= '9'));
            }
            return None;
        }
        let d = (c as u32 - 48) as u64;
        if value > (u64::MAX - d) / 10 {
            proof {
                if spec_all_digits(s@) {
                    // the value already exceeds what a 64-bit count
                    // can hold, and further digits only grow it
                    let m = (u64::MAX - d) as int;
                    vstd::arithmetic::div_mod::lemma_fundamental_div_mod(m, 10);
                    assert(10 * (value as int) >= m - m % 10 + 10);
                    assert(spec_digits_val(s@, i as int + 1) == spec_digits_val(
                        s@,
                        i as int,
                    ) * 10 + (s@[i as int] as u32 - 48));
                    assert(spec_digits_val(s@, i as int) * 10 == 10 * (value as int))
                        by (nonlinear_arith)
                        requires spec_digits_val(s@, i as int) == value as int;
                    lemma_digits_val_monotone(s@, i as int + 1, s@.len() as int);
                    assert(spec_digits_val(s@, s@.len() as int) > u64::MAX);
                }
            }
            return None;
        }
        value = value * 10 + d;
        i += 1;
    }
    Some(value)
}

/// Reads an optional numeric query parameter, with a default.
pub fn query_usize(query: &QueryMap, key: &str, default: usize) -> (r: usize) {
    match query.get(key) {
        None => default,
        Some(v) => match str_parse_u64(v.as_str()) {
            Some(value) => {
                if value > usize::MAX as u64 {
                    default
                } else {
                    value as usize
                }
            },
            None => default,
        },
    }
}

/// Reads a required numeric query parameter; a missing or malformed
/// value is an `InvalidData` failure.
pub fn query_u64(query: &QueryMap, key: &str) -> (r: Result<u64, SnapshotError>)
    ensures
        r matches Err(e) ==> e is InvalidData,
{
    match query.get(key) {
        None => Err(SnapshotError::InvalidData {
            details: String::from_str("missing query parameter"),
        }),
        Some(v) => match str_parse_u64(v.as_str()) {
            Some(value) => Ok(value),
            None => Err(SnapshotError::InvalidData {
                details: String::from_str("invalid numeric query parameter"),
            }),
        },
    }
}

/// Reads an optional numeric query parameter.
pub fn query_u64_opt(query: &QueryMap, key: &str) -> (r: Option<u64>) {
    match query.get(key) {
        None => None,
        Some(v) => str_parse_u64(v.as_str()),
    }
}

} // verus!
