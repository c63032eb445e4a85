//! Character- and byte-level text helpers: Unicode whitespace, trimming,
//! ASCII case folding, decimal and hexadecimal digits, UTF-8 decoding.
use vstd::prelude::*;
use vstd::utf8::*;

verus! {

broadcast use vstd::utf8::group_utf8_lib;

/// The Unicode `White_Space` property, the set of characters that
/// `char::is_whitespace` (and hence `str::trim`) treats as whitespace.
pub open spec fn is_whitespace(c: char) -> bool {
    let v = c as u32;
    ||| 0x09 <= v <= 0x0d
    ||| v == 0x20
    ||| v == 0x85
    ||| v == 0xa0
    ||| v == 0x1680
    ||| 0x2000 <= v <= 0x200a
    ||| v == 0x2028
    ||| v == 0x2029
    ||| v == 0x202f
    ||| v == 0x205f
    ||| v == 0x3000
}

/// Whether `c` has the Unicode `White_Space` property.
pub fn char_is_whitespace(c: char) -> (r: bool)
    ensures
        r == is_whitespace(c),
{
    let v = c as u32;
    (0x09 <= v && v <= 0x0d) || v == 0x20 || v == 0x85 || v == 0xa0 || v == 0x1680 || (0x2000
        <= v && v <= 0x200a) || v == 0x2028 || v == 0x2029 || v == 0x202f || v == 0x205f || v
        == 0x3000
}

/// `s` with its leading whitespace removed.
pub open spec fn trim_start_chars(s: Seq<char>) -> Seq<char>
    decreases s.len(),
{
    if s.len() > 0 && is_whitespace(s[0]) {
        trim_start_chars(s.drop_first())
    } else {
        s
    }
}

/// `s` with its trailing whitespace removed.
pub open spec fn trim_end_chars(s: Seq<char>) -> Seq<char>
    decreases s.len(),
{
    if s.len() > 0 && is_whitespace(s.last()) {
        trim_end_chars(s.drop_last())
    } else {
        s
    }
}

/// `s` with leading and trailing whitespace removed, as `str::trim` does.
pub open spec fn trim_chars(s: Seq<char>) -> Seq<char> {
    trim_end_chars(trim_start_chars(s))
}

/// Every character of `s` is whitespace.
pub open spec fn all_whitespace(s: Seq<char>) -> bool {
    forall|i: int| 0 <= i < s.len() ==> is_whitespace(#[trigger] s[i])
}

/// Removing the first `i` characters, all whitespace, leaves the same trimmed start.
proof fn lemma_trim_start_skip(s: Seq<char>, i: int)
    requires
        0 <= i <= s.len(),
        all_whitespace(s.take(i)),
    ensures
        trim_start_chars(s) == trim_start_chars(s.skip(i)),
    decreases i,
{
    if i > 0 {
        assert(is_whitespace(s.take(i)[0]));
        assert(s.drop_first().take(i - 1) =~= s.take(i).drop_first());
        lemma_trim_start_skip(s.drop_first(), i - 1);
        assert(s.drop_first().skip(i - 1) =~= s.skip(i));
    } else {
        assert(s.skip(0) =~= s);
    }
}

/// Removing the last characters from index `j` on, all whitespace, leaves the same trimmed end.
proof fn lemma_trim_end_take(s: Seq<char>, j: int)
    requires
        0 <= j <= s.len(),
        all_whitespace(s.skip(j)),
    ensures
        trim_end_chars(s) == trim_end_chars(s.take(j)),
    decreases s.len() - j,
{
    if j < s.len() {
        assert(is_whitespace(s.skip(j)[s.len() - j - 1]));
        assert(s.drop_last().skip(j) =~= s.skip(j).drop_last());
        lemma_trim_end_take(s.drop_last(), j);
        assert(s.drop_last().take(j) =~= s.take(j));
    } else {
        assert(s.take(j) =~= s);
    }
}

/// A sequence of whitespace trims to nothing, and only such a sequence does.
pub proof fn lemma_trim_empty_iff_all_whitespace(s: Seq<char>)
    ensures
        (trim_chars(s).len() == 0) == all_whitespace(s),
    decreases s.len(),
{
    if s.len() > 0 {
        if is_whitespace(s[0]) {
            lemma_trim_empty_iff_all_whitespace(s.drop_first());
            if all_whitespace(s.drop_first()) {
                assert forall|i: int| 0 <= i < s.len() implies is_whitespace(#[trigger] s[i]) by {
                    if i > 0 {
                        assert(s[i] == s.drop_first()[i - 1]);
                    }
                }
            } else {
                let k = choose|k: int|
                    0 <= k < s.drop_first().len() && !is_whitespace(#[trigger] s.drop_first()[k]);
                assert(s[k + 1] == s.drop_first()[k]);
            }
        } else {
            lemma_trim_end_keeps_non_whitespace(s);
        }
    }
}

/// Trimming the end of a sequence that starts with a non-whitespace character keeps it non-empty.
proof fn lemma_trim_end_keeps_non_whitespace(s: Seq<char>)
    requires
        s.len() > 0,
        !is_whitespace(s[0]),
    ensures
        trim_end_chars(s).len() > 0,
    decreases s.len(),
{
    if s.len() > 1 && is_whitespace(s.last()) {
        lemma_trim_end_keeps_non_whitespace(s.drop_last());
    }
}

/// Whether `s.trim()` is empty, that is, whether `s` holds only whitespace.
pub fn trims_to_empty(s: &str) -> (r: bool)
    ensures
        r == (trim_chars(s@).len() == 0),
        r == all_whitespace(s@),
{
    proof {
        lemma_trim_empty_iff_all_whitespace(s@);
    }
    let n = s.unicode_len();
    let mut i: usize = 0;
    while i < n
        invariant
            n == s@.len(),
            0 <= i <= n,
            forall|k: int| 0 <= k < i ==> is_whitespace(#[trigger] s@[k]),
        decreases n - i,
    {
        let c = s.get_char(i);
        if !char_is_whitespace(c) {
            assert(!is_whitespace(s@[i as int]));
            proof {
                lemma_trim_empty_iff_all_whitespace(s@);
            }
            return false;
        }
        i = i + 1;
    }
    true
}

/// `s.trim()`: the slice of `s` without leading and trailing whitespace.
pub fn trim(s: &str) -> (r: &str)
    ensures
        r@ == trim_chars(s@),
{
    let n = s.unicode_len();
    let mut start: usize = 0;
    while start < n && char_is_whitespace(s.get_char(start))
        invariant
            n == s@.len(),
            0 <= start <= n,
            all_whitespace(s@.take(start as int)),
        decreases n - start,
    {
        proof {
            assert forall|k: int| 0 <= k < start + 1 implies is_whitespace(
                #[trigger] s@.take(start + 1)[k],
            ) by {
                if k < start {
                    assert(s@.take(start + 1)[k] == s@.take(start as int)[k]);
                }
            }
        }
        start = start + 1;
    }
    proof {
        lemma_trim_start_skip(s@, start as int);
        if start < n {
            assert(trim_start_chars(s@.skip(start as int)) == s@.skip(start as int));
        } else {
            assert(s@.skip(start as int).len() == 0);
        }
    }
    let ghost rest = s@.skip(start as int);
    let mut end: usize = n;
    while end > start && char_is_whitespace(s.get_char(end - 1))
        invariant
            n == s@.len(),
            0 <= start <= end <= n,
            rest == s@.skip(start as int),
            all_whitespace(rest.skip(end - start)),
        decreases end,
    {
        proof {
            let j = end - 1 - start;
            assert forall|k: int| 0 <= k < rest.len() - j implies is_whitespace(
                #[trigger] rest.skip(j)[k],
            ) by {
                if k > 0 {
                    assert(rest.skip(j)[k] == rest.skip(j + 1)[k - 1]);
                } else {
                    assert(rest.skip(j)[0] == s@[end - 1]);
                }
            }
        }
        end = end - 1;
    }
    proof {
        lemma_trim_end_take(rest, end - start);
        let kept = rest.take(end - start);
        if end > start {
            assert(kept.last() == s@[end - 1]);
            assert(trim_end_chars(kept) == kept);
        } else {
            assert(kept.len() == 0);
        }
        assert(kept =~= s@.subrange(start as int, end as int));
    }
    s.substring_char(start, end)
}

/// `String::from_utf8`: the bytes as a `String` when they are valid UTF-8.
///
/// Trusted: std documents that `String::from_utf8` succeeds exactly on valid
/// UTF-8 and then holds the characters those bytes encode; the contract states
/// this with vstd's UTF-8 definitions `valid_utf8` and `decode_utf8`.
#[verifier::external_body]
pub(crate) fn string_from_utf8(bytes: Vec<u8>) -> (r: Option<String>)
    ensures
        r is Some <==> valid_utf8(bytes@),
        r matches Some(s) ==> s@ == decode_utf8(bytes@),
{
    match String::from_utf8(bytes) {
        Ok(s) => Some(s),
        Err(_) => None,
    }
}

/// The characters whose codes are the bytes `b`.
pub open spec fn bytes_as_chars(b: Seq<u8>) -> Seq<char> {
    Seq::new(b.len(), |i: int| b[i] as char)
}

/// Every byte of `b` is ASCII.
pub open spec fn ascii_bytes(b: Seq<u8>) -> bool {
    forall|i: int| 0 <= i < b.len() ==> #[trigger] b[i] < 0x80
}

/// ASCII bytes are valid UTF-8 and decode to the characters with their codes.
pub proof fn lemma_ascii_bytes_decode(b: Seq<u8>)
    requires
        ascii_bytes(b),
    ensures
        valid_utf8(b),
        decode_utf8(b) == bytes_as_chars(b),
        encode_utf8(bytes_as_chars(b)) == b,
{
    let c = bytes_as_chars(b);
    assert forall|i: int| 0 <= i < c.len() implies '\0' <= #[trigger] c[i] <= '\u{7f}' by {
        assert(b[i] < 0x80);
    }
    is_ascii_chars_encode_utf8(c);
    assert forall|i: int| 0 <= i < c.len() implies encode_utf8(c)[i] == b[i] by {
        assert(c[i] as u8 == b[i]);
    }
    assert(encode_utf8(c) =~= b);
}

/// A `String` of ASCII bytes.
pub fn ascii_string(bytes: Vec<u8>) -> (r: String)
    requires
        ascii_bytes(bytes@),
    ensures
        r@ == bytes_as_chars(bytes@),
{
    proof {
        lemma_ascii_bytes_decode(bytes@);
    }
    match string_from_utf8(bytes) {
        Some(s) => s,
        None => {
            assert(false);
            String::new()
        },
    }
}

/// The decimal digit character of `d` (below 10).
pub open spec fn decimal_digit(d: int) -> char {
    (d + 0x30) as char
}

/// The decimal text of `v`, without leading zeros.
pub open spec fn decimal(v: nat) -> Seq<char>
    decreases v,
{
    if v < 10 {
        seq![decimal_digit(v as int)]
    } else {
        decimal(v / 10) + seq![decimal_digit((v % 10) as int)]
    }
}

/// The codes of the decimal text of `v`.
pub open spec fn decimal_bytes(v: nat) -> Seq<u8>
    decreases v,
{
    if v < 10 {
        seq![(v + 0x30) as u8]
    } else {
        decimal_bytes(v / 10) + seq![((v % 10) + 0x30) as u8]
    }
}

pub proof fn lemma_decimal_bytes(v: nat)
    ensures
        ascii_bytes(decimal_bytes(v)),
        bytes_as_chars(decimal_bytes(v)) == decimal(v),
    decreases v,
{
    if v >= 10 {
        lemma_decimal_bytes(v / 10);
        assert(bytes_as_chars(decimal_bytes(v)) =~= decimal(v));
    } else {
        assert(bytes_as_chars(decimal_bytes(v)) =~= decimal(v));
    }
}

/// The number that a string of decimal digit codes denotes.
pub open spec fn read_decimal(s: Seq<u8>) -> int
    decreases s.len(),
{
    if s.len() == 0 {
        0
    } else {
        read_decimal(s.drop_last()) * 10 + (s.last() as int - 0x30)
    }
}

/// The decimal text of a number is one or more digits `0`-`9`, with no
/// leading zero, that read back as the number.
pub proof fn lemma_decimal_reads_back(v: nat)
    ensures
        decimal_bytes(v).len() >= 1,
        forall|i: int|
            0 <= i < decimal_bytes(v).len() ==> 0x30 <= #[trigger] decimal_bytes(v)[i] <= 0x39,
        decimal_bytes(v).len() > 1 ==> decimal_bytes(v)[0] != 0x30,
        read_decimal(decimal_bytes(v)) == v,
        bytes_as_chars(decimal_bytes(v)) == decimal(v),
    decreases v,
{
    lemma_decimal_bytes(v);
    let s = decimal_bytes(v);
    if v >= 10 {
        lemma_decimal_reads_back(v / 10);
        let h = decimal_bytes(v / 10);
        assert(v == (v / 10) * 10 + v % 10) by (nonlinear_arith);
        assert(v / 10 >= 1) by (nonlinear_arith)
            requires
                v >= 10,
        ;
        assert(s.drop_last() =~= h);
        assert(s.last() == ((v % 10) + 0x30) as u8);
        assert forall|i: int| 0 <= i < s.len() implies 0x30 <= #[trigger] s[i] <= 0x39 by {
            if i < h.len() {
                assert(s[i] == h[i]);
            }
        }
        if v / 10 < 10 {
            assert(h =~= seq![((v / 10) + 0x30) as u8]);
        } else {
            lemma_decimal_reads_back(v / 10 / 10);
            assert(h.len() > 1);
        }
        assert(s[0] == h[0]);
        assert(read_decimal(s) == read_decimal(h) * 10 + (s.last() as int - 0x30));
    } else {
        assert(read_decimal(s) == read_decimal(s.drop_last()) * 10 + (s.last() as int - 0x30));
        assert(s.drop_last().len() == 0);
    }
}

pub(crate) fn push_decimal(v: u64, out: &mut Vec<u8>)
    ensures
        final(out)@ == old(out)@ + decimal_bytes(v as nat),
    decreases v,
{
    if v >= 10 {
        push_decimal(v / 10, out);
    }
    out.push((v % 10) as u8 + 0x30);
    assert(final(out)@ =~= old(out)@ + decimal_bytes(v as nat));
}

/// The decimal text of `v`, as `format!("{v}")` writes it.
pub fn decimal_string(v: u64) -> (r: String)
    ensures
        r@ == decimal(v as nat),
{
    let mut out: Vec<u8> = Vec::new();
    push_decimal(v, &mut out);
    proof {
        lemma_decimal_bytes(v as nat);
        assert(out@ =~= decimal_bytes(v as nat));
    }
    ascii_string(out)
}

} // verus!
