use vstd::prelude::*;

verus! {

/// Whether a byte is an ASCII hexadecimal digit.
pub open spec fn spec_is_hex(b: u8) -> bool {
    (48 <= b <= 57) || (97 <= b <= 102) || (65 <= b <= 70)
}

/// The value of one hexadecimal digit byte.
pub open spec fn spec_hex_val(b: u8) -> u16 {
    if 48 <= b <= 57 {
        (b - 48) as u16
    } else if 97 <= b <= 102 {
        (b - 97 + 10) as u16
    } else if 65 <= b <= 70 {
        (b - 65 + 10) as u16
    } else {
        0
    }
}

/// The 16-bit value of the four hex digit bytes at `i..i+4`.
pub open spec fn spec_hex4(s: Seq<u8>, i: int) -> u16 {
    (((spec_hex_val(s[i]) * 16 + spec_hex_val(s[i + 1])) * 16 + spec_hex_val(s[i + 2])) * 16
        + spec_hex_val(s[i + 3])) as u16
}

/// Whether the four bytes at `i..i+4` are all hex digits.
pub open spec fn spec_hex4_at(s: Seq<u8>, i: int) -> bool {
    &&& i + 4 <= s.len()
    &&& spec_is_hex(s[i])
    &&& spec_is_hex(s[i + 1])
    &&& spec_is_hex(s[i + 2])
    &&& spec_is_hex(s[i + 3])
}

/// Whether position `i` (just after a backslash) begins a `uXXXX`
/// escape whose value lies in the high-surrogate range and is followed
/// by a `\uYYYY` escape in the low-surrogate range: a valid pair.
pub open spec fn spec_pair_at(s: Seq<u8>, i: int) -> bool {
    &&& i + 11 <= s.len()
    &&& s[i + 5] == 92
    &&& s[i + 6] == 117
    &&& spec_hex4_at(s, i + 7)
    &&& 0xDC00 <= spec_hex4(s, i + 7) <= 0xDFFF
}

/// The bytes that stand in for a rewritten escape: `uFFFD` (the
/// backslash was already emitted).
pub open spec fn replacement_bytes() -> Seq<u8> {
    seq![117u8, 70u8, 70u8, 70u8, 68u8]
}

/// The lenient filter, from position `i` in state (`in_str`, `esc`).
///
/// Outside strings and for non-`u` escapes every byte passes through.
/// Inside a string, after `\`, a `uXXXX` escape is inspected: a lone
/// high or low surrogate is rewritten to `uFFFD`; a valid surrogate
/// pair passes through whole; everything else - non-hex payloads and
/// payloads cut short by the end of the input - passes through.
pub open spec fn spec_lenient_from(s: Seq<u8>, i: int, in_str: bool, esc: bool) -> Seq<u8>
    decreases s.len() - i,
{
    if i < 0 || i >= s.len() {
        Seq::empty()
    } else {
        let b = s[i];
        if !in_str {
            s.subrange(i, i + 1) + spec_lenient_from(s, i + 1, b == 34, false)
        } else if !esc {
            s.subrange(i, i + 1) + spec_lenient_from(s, i + 1, b != 34, b == 92)
        } else if b != 117 {
            s.subrange(i, i + 1) + spec_lenient_from(s, i + 1, true, false)
        } else if !spec_hex4_at(s, i + 1) {
            s.subrange(i, i + 1) + spec_lenient_from(s, i + 1, true, false)
        } else {
            let v = spec_hex4(s, i + 1);
            if 0xD800 <= v <= 0xDBFF {
                if spec_pair_at(s, i) {
                    s.subrange(i, i + 11) + spec_lenient_from(s, i + 11, true, false)
                } else {
                    replacement_bytes() + spec_lenient_from(s, i + 5, true, false)
                }
            } else if 0xDC00 <= v <= 0xDFFF {
                replacement_bytes() + spec_lenient_from(s, i + 5, true, false)
            } else {
                s.subrange(i, i + 5) + spec_lenient_from(s, i + 5, true, false)
            }
        }
    }
}

/// The lenient filter over a whole byte stream.
pub open spec fn spec_lenient(s: Seq<u8>) -> Seq<u8> {
    spec_lenient_from(s, 0, false, false)
}

/// No escape from position `i` on, in the given state, is a lone
/// surrogate: nothing would be rewritten.
pub open spec fn spec_clean_from(s: Seq<u8>, i: int, in_str: bool, esc: bool) -> bool
    decreases s.len() - i,
{
    if i < 0 || i >= s.len() {
        true
    } else {
        let b = s[i];
        if !in_str {
            spec_clean_from(s, i + 1, b == 34, false)
        } else if !esc {
            spec_clean_from(s, i + 1, b != 34, b == 92)
        } else if b != 117 {
            spec_clean_from(s, i + 1, true, false)
        } else if !spec_hex4_at(s, i + 1) {
            spec_clean_from(s, i + 1, true, false)
        } else {
            let v = spec_hex4(s, i + 1);
            if 0xD800 <= v <= 0xDBFF {
                spec_pair_at(s, i) && spec_clean_from(s, i + 11, true, false)
            } else if 0xDC00 <= v <= 0xDFFF {
                false
            } else {
                spec_clean_from(s, i + 5, true, false)
            }
        }
    }
}

/// A stream with no lone surrogate escape anywhere, starting outside
/// any string.
pub open spec fn spec_clean(s: Seq<u8>) -> bool {
    spec_clean_from(s, 0, false, false)
}

/// On a clean suffix the filter is the identity.
proof fn lemma_lenient_identity_from(s: Seq<u8>, i: int, in_str: bool, esc: bool)
    requires
        0 <= i <= s.len(),
        spec_clean_from(s, i, in_str, esc),
    ensures
        spec_lenient_from(s, i, in_str, esc) == s.subrange(i, s.len() as int),
    decreases s.len() - i,
{
    if i >= s.len() {
        assert(spec_lenient_from(s, i, in_str, esc) =~= s.subrange(i, s.len() as int));
    } else {
        let b = s[i];
        if !in_str {
            lemma_lenient_identity_from(s, i + 1, b == 34, false);
            assert(s.subrange(i, i + 1) + s.subrange(i + 1, s.len() as int) =~= s.subrange(
                i,
                s.len() as int,
            ));
        } else if !esc {
            lemma_lenient_identity_from(s, i + 1, b != 34, b == 92);
            assert(s.subrange(i, i + 1) + s.subrange(i + 1, s.len() as int) =~= s.subrange(
                i,
                s.len() as int,
            ));
        } else if b != 117 || !spec_hex4_at(s, i + 1) {
            lemma_lenient_identity_from(s, i + 1, true, false);
            assert(s.subrange(i, i + 1) + s.subrange(i + 1, s.len() as int) =~= s.subrange(
                i,
                s.len() as int,
            ));
        } else {
            let v = spec_hex4(s, i + 1);
            if 0xD800 <= v <= 0xDBFF {
                lemma_lenient_identity_from(s, i + 11, true, false);
                assert(s.subrange(i, i + 11) + s.subrange(i + 11, s.len() as int) =~= s.subrange(
                    i,
                    s.len() as int,
                ));
            } else {
                lemma_lenient_identity_from(s, i + 5, true, false);
                assert(s.subrange(i, i + 5) + s.subrange(i + 5, s.len() as int) =~= s.subrange(
                    i,
                    s.len() as int,
                ));
            }
        }
    }
}

/// A stream that contains no lone surrogate escape passes through the
/// lenient filter byte-for-byte.
pub proof fn lemma_lenient_identity(s: Seq<u8>)
    requires
        spec_clean(s),
    ensures
        spec_lenient(s) == s,
{
    lemma_lenient_identity_from(s, 0, false, false);
    assert(s.subrange(0, s.len() as int) =~= s);
}

/// Parses four hex digit bytes starting at `i` into their 16-bit value.
pub fn parse_hex4(input: &Vec<u8>, i: usize) -> (r: u16)
    requires
        i + 4 <= input.len(),
        spec_hex4_at(input@, i as int),
    ensures
        r == spec_hex4(input@, i as int),
{
    let d0 = hex_val(input[i]);
    let d1 = hex_val(input[i + 1]);
    let d2 = hex_val(input[i + 2]);
    let d3 = hex_val(input[i + 3]);
    ((d0 * 16 + d1) * 16 + d2) * 16 + d3
}

/// The value of one hex digit byte.
fn hex_val(b: u8) -> (r: u16)
    requires
        spec_is_hex(b),
    ensures
        r == spec_hex_val(b),
        r < 16,
{
    if b >= 48 && b <= 57 {
        (b - 48) as u16
    } else if b >= 97 && b <= 102 {
        (b - 97 + 10) as u16
    } else {
        (b - 65 + 10) as u16
    }
}

/// Whether the byte at `i` is an ASCII hex digit.
fn is_hex_digit(b: u8) -> (r: bool)
    ensures
        r == spec_is_hex(b),
{
    (b >= 48 && b <= 57) || (b >= 97 && b <= 102) || (b >= 65 && b <= 70)
}

/// Whether the four bytes at `i..i+4` are all hex digits.
fn hex4_at(input: &Vec<u8>, i: usize) -> (r: bool)
    requires
        i + 4 <= input.len(),
    ensures
        r == spec_hex4_at(input@, i as int),
{
    is_hex_digit(input[i]) && is_hex_digit(input[i + 1]) && is_hex_digit(input[i + 2])
        && is_hex_digit(input[i + 3])
}

/// Whether the escape starting at `i` (just after its backslash) is a
/// high surrogate completed by a following low-surrogate escape.
pub fn is_surrogate_pair(input: &Vec<u8>, i: usize) -> (r: bool)
    requires
        i <= input.len(),
    ensures
        r == spec_pair_at(input@, i as int),
{
    if input.len() - i < 11 {
        return false;
    }
    if input[i + 5] != 92 || input[i + 6] != 117 {
        return false;
    }
    if !hex4_at(input, i + 7) {
        return false;
    }
    let v = parse_hex4(input, i + 7);
    0xDC00 <= v && v <= 0xDFFF
}

/// Streams bytes through the lone-surrogate repair: the output is
/// valid JSON text whenever the input was JSON with at worst lone
/// surrogate escapes inside its strings.
pub struct LenientJsonReader {
    pub input: Vec<u8>,
}

impl LenientJsonReader {
    /// Wraps a byte stream for filtering.
    pub fn new(input: Vec<u8>) -> (r: LenientJsonReader)
        ensures
            r.input@ == input@,
    {
        LenientJsonReader { input }
    }

    /// Filters the whole stream.
    pub fn into_filtered(self) -> (r: Vec<u8>)
        ensures
            r@ == spec_lenient(self.input@),
    {
        filter_bytes(&self.input)
    }
}

/// Runs the lenient filter over a whole byte stream.
pub fn filter_bytes(input: &Vec<u8>) -> (r: Vec<u8>)
    ensures
        r@ == spec_lenient(input@),
{
    let n = input.len();
    let mut out: Vec<u8> = Vec::new();
    let mut i: usize = 0;
    let mut in_str: bool = false;
    let mut esc: bool = false;

    while i < n
        invariant
            n == input@.len(),
            0 <= i <= n,
            spec_lenient(input@) == out@ + spec_lenient_from(input@, i as int, in_str, esc),
        decreases n - i,
    {
        let ghost pre_out = out@;
        let ghost pre_i = i as int;
        let ghost pre_in_str = in_str;
        let ghost pre_esc = esc;
        let b = input[i];
        if !in_str {
            out.push(b);
            in_str = b == 34;
            esc = false;
            i += 1;
            proof {
                assert(input@.subrange(pre_i, pre_i + 1) =~= seq![b]);
                assert(out@ =~= pre_out + input@.subrange(pre_i, pre_i + 1));
            }
        } else if !esc {
            out.push(b);
            in_str = b != 34;
            esc = b == 92;
            i += 1;
            proof {
                assert(input@.subrange(pre_i, pre_i + 1) =~= seq![b]);
                assert(out@ =~= pre_out + input@.subrange(pre_i, pre_i + 1));
            }
        } else if b != 117 || n - i < 5 || !hex4_at(input, i + 1) {
            out.push(b);
            in_str = true;
            esc = false;
            i += 1;
            proof {
                assert(!spec_hex4_at(input@, pre_i + 1) || input@[pre_i] != 117);
                assert(input@.subrange(pre_i, pre_i + 1) =~= seq![b]);
                assert(out@ =~= pre_out + input@.subrange(pre_i, pre_i + 1));
            }
        } else {
            let v = parse_hex4(input, i + 1);
            if 0xD800 <= v && v <= 0xDBFF {
                if is_surrogate_pair(input, i) {
                    let mut t: usize = 0;
                    while t < 11
                        invariant
                            0 <= t <= 11,
                            pre_i == i,
                            i + 11 <= input@.len(),
                            n == input@.len(),
                            out@ == pre_out + input@.subrange(pre_i, pre_i + t),
                        decreases 11 - t,
                    {
                        out.push(input[i + t]);
                        proof {
                            assert(out@ =~= pre_out + input@.subrange(pre_i, pre_i + t + 1));
                        }
                        t += 1;
                    }
                    in_str = true;
                    esc = false;
                    i += 11;
                } else {
                    out.push(117);
                    out.push(70);
                    out.push(70);
                    out.push(70);
                    out.push(68);
                    in_str = true;
                    esc = false;
                    i += 5;
                    proof {
                        assert(out@ =~= pre_out + replacement_bytes());
                    }
                }
            } else if 0xDC00 <= v && v <= 0xDFFF {
                out.push(117);
                out.push(70);
                out.push(70);
                out.push(70);
                out.push(68);
                in_str = true;
                esc = false;
                i += 5;
                proof {
                    assert(out@ =~= pre_out + replacement_bytes());
                }
            } else {
                let mut t: usize = 0;
                while t < 5
                    invariant
                        0 <= t <= 5,
                        pre_i == i,
                        i + 5 <= input@.len(),
                        n == input@.len(),
                        out@ == pre_out + input@.subrange(pre_i, pre_i + t),
                    decreases 5 - t,
                {
                    out.push(input[i + t]);
                    proof {
                        assert(out@ =~= pre_out + input@.subrange(pre_i, pre_i + t + 1));
                    }
                    t += 1;
                }
                in_str = true;
                esc = false;
                i += 5;
            }
        }
        proof {
            let e = out@.subrange(pre_out.len() as int, out@.len() as int);
            assert(out@ =~= pre_out + e);
            assert(spec_lenient_from(input@, pre_i, pre_in_str, pre_esc) == e
                + spec_lenient_from(input@, i as int, in_str, esc));
            assert(out@ + spec_lenient_from(input@, i as int, in_str, esc) =~= pre_out
                + spec_lenient_from(input@, pre_i, pre_in_str, pre_esc));
        }
    }
    proof {
        assert(spec_lenient_from(input@, n as int, in_str, esc) =~= Seq::empty());
        assert(out@ + Seq::<u8>::empty() =~= out@);
    }
    out
}

} // verus!
