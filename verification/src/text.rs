use vstd::prelude::*;

verus! {

/// Lexicographic strictly-less-than on the scalar values of two
/// character sequences, compared from position `j` on. A proper prefix
/// precedes every extension of it.
pub open spec fn lex_lt_from(a: Seq<char>, b: Seq<char>, j: int) -> bool
    decreases b.len() - j,
{
    if j >= b.len() {
        false
    } else if j >= a.len() {
        true
    } else if a[j] != b[j] {
        (a[j] as u32) < (b[j] as u32)
    } else {
        lex_lt_from(a, b, j + 1)
    }
}

/// Lexicographic strictly-less-than on character sequences. For UTF-8
/// encoded strings this order agrees with the byte-wise order.
pub open spec fn lex_lt(a: Seq<char>, b: Seq<char>) -> bool {
    lex_lt_from(a, b, 0)
}

/// Two characters with the same scalar value are the same character.
proof fn lemma_char_inj(x: char, y: char)
    requires
        x as u32 == y as u32,
    ensures
        x == y,
{
}

/// Comparing two sequences from any position inside both decides them:
/// either one is smaller, or they agree from that position on and have
/// equal lengths.
pub proof fn lemma_lex_from_decides(a: Seq<char>, b: Seq<char>, j: int)
    requires
        0 <= j <= a.len(),
        j <= b.len(),
        !lex_lt_from(a, b, j),
        !lex_lt_from(b, a, j),
    ensures
        a.len() == b.len(),
        forall|l: int| j <= l < a.len() ==> a[l] == b[l],
    decreases b.len() - j,
{
    if j == b.len() {
        // a is not smaller from j, so j == a.len() too
    } else if a[j] == b[j] {
        lemma_lex_from_decides(a, b, j + 1);
    } else {
        // neither side smaller forces equal scalar values, so this
        // branch is vacuous
        lemma_char_inj(a[j], b[j]);
    }
}

/// The order is asymmetric from any position.
pub proof fn lemma_lex_from_asymmetric(a: Seq<char>, b: Seq<char>, j: int)
    requires
        0 <= j,
        lex_lt_from(a, b, j),
    ensures
        !lex_lt_from(b, a, j),
    decreases b.len() - j,
{
    if j >= b.len() {
    } else if j >= a.len() {
    } else if a[j] != b[j] {
    } else {
        lemma_lex_from_asymmetric(a, b, j + 1);
    }
}

/// The order is transitive from any position.
pub proof fn lemma_lex_from_transitive(a: Seq<char>, b: Seq<char>, c: Seq<char>, j: int)
    requires
        0 <= j,
        lex_lt_from(a, b, j),
        lex_lt_from(b, c, j),
    ensures
        lex_lt_from(a, c, j),
    decreases b.len() - j,
{
    if j >= c.len() {
        // contradicts lex_lt_from(b, c, j)
    } else if j >= a.len() {
    } else if j >= b.len() {
        // contradicts lex_lt_from(a, b, j): j < a.len() and j >= b.len()
    } else {
        if a[j] != b[j] {
            if b[j] != c[j] {
            } else {
            }
        } else {
            if b[j] != c[j] {
            } else {
                lemma_lex_from_transitive(a, b, c, j + 1);
            }
        }
    }
}

/// Lexicographic comparison of two strings, scalar value by scalar
/// value.
pub fn str_lex_lt(a: &str, b: &str) -> (r: bool)
    ensures
        r == lex_lt(a@, b@),
{
    let a_len = a.unicode_len();
    let b_len = b.unicode_len();
    let mut j: usize = 0;
    loop
        invariant
            0 <= j <= a_len,
            0 <= j <= b_len,
            a_len == a@.len(),
            b_len == b@.len(),
            lex_lt(a@, b@) == lex_lt_from(a@, b@, j as int),
        decreases b_len - j,
    {
        if j >= b_len {
            return false;
        }
        if j >= a_len {
            return true;
        }
        let ca = a.get_char(j);
        let cb = b.get_char(j);
        if ca != cb {
            return (ca as u32) < (cb as u32);
        }
        j += 1;
    }
}

/// String equality, decided through the lexicographic order.
pub fn str_eq(a: &str, b: &str) -> (r: bool)
    ensures
        r == (a@ == b@),
{
    let lt = str_lex_lt(a, b);
    if lt {
        proof {
            if a@ == b@ {
                lemma_lex_from_asymmetric(a@, b@, 0);
            }
        }
        return false;
    }
    let gt = str_lex_lt(b, a);
    if gt {
        proof {
            if a@ == b@ {
                lemma_lex_from_asymmetric(b@, a@, 0);
            }
        }
        return false;
    }
    proof {
        lemma_lex_from_decides(a@, b@, 0);
        assert(a@ =~= b@);
    }
    true
}

/// Whether `needle` occurs contiguously inside `hay`.
pub open spec fn has_substring(hay: Seq<char>, needle: Seq<char>) -> bool {
    exists|o: int|
        0 <= o <= hay.len() - needle.len() && #[trigger] hay.subrange(o, o + needle.len())
            == needle
}

/// Whether `needle` occurs at offset `o` of `hay`.
spec fn match_at(hay: Seq<char>, needle: Seq<char>, o: int) -> bool {
    hay.subrange(o, o + needle.len()) == needle
}

/// Whether `needle` occurs at offset `o` of `hay`, checked character
/// by character.
fn match_at_offset(hay: &str, needle: &str, o: usize, h_len: usize, n_len: usize) -> (r: bool)
    requires
        h_len == hay@.len(),
        n_len == needle@.len(),
        o + n_len <= h_len,
    ensures
        r == match_at(hay@, needle@, o as int),
{
    let mut j: usize = 0;
    while j < n_len
        invariant
            h_len == hay@.len(),
            n_len == needle@.len(),
            o + n_len <= h_len,
            0 <= j <= n_len,
            forall|l: int| 0 <= l < j ==> hay@[o + l] == needle@[l],
        decreases n_len - j,
    {
        let ch = hay.get_char(o + j);
        let cn = needle.get_char(j);
        if ch != cn {
            proof {
                assert(hay@.subrange(o as int, o + n_len)[j as int] == hay@[o + j]);
            }
            return false;
        }
        j += 1;
    }
    proof {
        assert forall|l: int| 0 <= l < n_len implies hay@.subrange(o as int, o + n_len)[l]
            == needle@[l] by {}
        assert(hay@.subrange(o as int, o + n_len) =~= needle@);
    }
    true
}

/// Substring search: scans every offset of `hay` for `needle`.
pub fn contains_substring(hay: &str, needle: &str) -> (r: bool)
    ensures
        r == has_substring(hay@, needle@),
{
    let h_len = hay.unicode_len();
    let n_len = needle.unicode_len();
    if n_len > h_len {
        return false;
    }
    if n_len == 0 {
        proof {
            assert(hay@.subrange(0, 0 + needle@.len() as int) =~= needle@);
        }
        return true;
    }
    let mut o: usize = 0;
    while o <= h_len - n_len
        invariant
            h_len == hay@.len(),
            n_len == needle@.len(),
            1 <= n_len <= h_len,
            0 <= o <= h_len - n_len + 1,
            forall|p: int| 0 <= p < o ==> !match_at(hay@, needle@, p),
        decreases h_len - n_len - o + 1,
    {
        if match_at_offset(hay, needle, o, h_len, n_len) {
            return true;
        }
        o += 1;
    }
    proof {
        assert forall|p: int|
            !(0 <= p <= hay@.len() - needle@.len() && #[trigger] hay@.subrange(
                p,
                p + needle@.len(),
            ) == needle@) by {
            if 0 <= p <= h_len - n_len {
                assert(!match_at(hay@, needle@, p));
            }
        }
    }
    return false;
}

/// The decimal digits of `n`, most significant first.
pub open spec fn spec_digits(n: nat) -> Seq<char>
    decreases n,
{
    if n < 10 {
        seq![((n + 48) as u8) as char]
    } else {
        spec_digits(n / 10).push((((n % 10) + 48) as u8) as char)
    }
}

/// The decimal rendering of a signed value.
pub open spec fn spec_i64_str(v: int) -> Seq<char> {
    if v < 0 {
        seq!['-'] + spec_digits((-v) as nat)
    } else {
        spec_digits(v as nat)
    }
}

/// Relies on `String::from_utf8`: a vector of ASCII bytes is valid
/// UTF-8 and decodes to the characters with those scalar values.
#[verifier::external_body]
fn string_from_ascii(bytes: Vec<u8>) -> (r: String)
    requires
        forall|i: int| 0 <= i < bytes@.len() ==> bytes@[i] < 128,
    ensures
        r@ == bytes@.map_values(|b: u8| b as char),
{
    match String::from_utf8(bytes) {
        Ok(s) => s,
        Err(_) => String::new(),
    }
}

/// Renders an unsigned value in decimal.
pub fn u64_to_string(n: u64) -> (r: String)
    ensures
        r@ == spec_digits(n as nat),
{
    let mut tmp: Vec<u8> = Vec::new();
    let mut cur: u64 = n;
    if cur == 0 {
        tmp.push(48);
        proof {
            assert(tmp@.map_values(|b: u8| b as char) =~= spec_digits(0));
        }
        return string_from_ascii(tmp);
    }
    while cur > 0
        invariant
            cur > 0 || tmp@.len() > 0,
            forall|i: int| 0 <= i < tmp@.len() ==> 48 <= #[trigger] tmp@[i] < 58,
            spec_digits(n as nat) == (if cur > 0 {
                spec_digits(cur as nat)
            } else {
                Seq::<char>::empty()
            }) + tmp@.map_values(|b: u8| b as char).reverse(),
        decreases cur,
    {
        let ghost tmp_pre = tmp@;
        let ghost cur_pre = cur;
        let d = (cur % 10) as u8;
        tmp.push(d + 48);
        cur = cur / 10;
        proof {
            let chars = |b: u8| b as char;
            assert(tmp@.map_values(chars).reverse() =~= seq![(d + 48) as char]
                + tmp_pre.map_values(chars).reverse());
            if cur > 0 {
                assert(spec_digits(cur_pre as nat) == spec_digits((cur_pre / 10) as nat).push(
                    (((cur_pre % 10) + 48) as u8) as char,
                ));
                assert(spec_digits(cur_pre as nat) =~= spec_digits(cur as nat) + seq![(d
                    + 48) as char]);
            } else {
                assert(spec_digits(cur_pre as nat) =~= seq![(d + 48) as char]);
            }
            assert(spec_digits(n as nat) =~= (if cur > 0 {
                spec_digits(cur as nat)
            } else {
                Seq::<char>::empty()
            }) + tmp@.map_values(chars).reverse());
        }
    }
    // reverse into most-significant-first order
    let mut out: Vec<u8> = Vec::new();
    let n_digits = tmp.len();
    let mut i: usize = 0;
    while i < n_digits
        invariant
            n_digits == tmp@.len(),
            0 <= i <= n_digits,
            out@.len() == i,
            forall|j: int| 0 <= j < tmp@.len() ==> 48 <= #[trigger] tmp@[j] < 58,
            forall|j: int| 0 <= j < i ==> #[trigger] out@[j] == tmp@[n_digits - 1 - j],
        decreases n_digits - i,
    {
        out.push(tmp[n_digits - 1 - i]);
        i += 1;
    }
    proof {
        let chars = |b: u8| b as char;
        assert(out@.map_values(chars) =~= tmp@.map_values(chars).reverse());
        assert(spec_digits(n as nat) == out@.map_values(chars));
    }
    string_from_ascii(out)
}

/// Renders a signed value in decimal.
pub fn i64_to_string(v: i64) -> (r: String)
    ensures
        r@ == spec_i64_str(v as int),
{
    if v >= 0 {
        u64_to_string(v as u64)
    } else {
        let mag: u64 = if v == i64::MIN {
            9223372036854775808u64
        } else {
            (-v) as u64
        };
        let digits = u64_to_string(mag);
        let r = String::from_str("-").concat(digits.as_str());
        proof {
            reveal_strlit("-");
            assert(r@ =~= spec_i64_str(v as int));
        }
        r
    }
}

} // verus!
