//! Trojan authentication: the CRLF-terminated line that opens a session, and
//! the check of that line against the hex SHA-224 or SHA-256 of the password.
use vstd::prelude::*;
use vstd::utf8::*;
use vstd::slice::slice_subrange;
use vstd::slice::slice_to_vec;
use sha2::Digest;
use subtle::ConstantTimeEq;
use crate::text::{all_whitespace, is_whitespace, string_from_utf8, trim, trim_chars};

verus! {

broadcast use vstd::utf8::group_utf8_lib;

/// The longest authentication line, CRLF included, that a session may open with.
pub const MAX_AUTH_LINE: usize = 128;

/* The authentication line */

/// `s` holds CR LF just before position `k`.
pub open spec fn crlf_ends_at(s: Seq<u8>, k: int) -> bool {
    2 <= k <= s.len() && s[k - 2] == 0x0d && s[k - 1] == 0x0a
}

/// `k` is the end of the first CR LF in `s`.
pub open spec fn first_crlf_end(s: Seq<u8>, k: int) -> bool {
    crlf_ends_at(s, k) && forall|j: int| 2 <= j < k ==> !#[trigger] crlf_ends_at(s, j)
}

/// Why an authentication line is refused.
#[derive(Debug, Clone, Copy, PartialEq, Eq)]
pub enum LineError {
    /// No CRLF within the longest line allowed.
    TooLong,
    /// The line is not UTF-8.
    NotUtf8,
}

/// What can be decided from the bytes of a line received so far.
#[derive(Debug, Clone, PartialEq, Eq)]
pub enum LineStatus {
    /// The line goes on: read another byte.
    NeedMore,
    /// The line without its CRLF, and how many bytes it took up, CRLF included.
    Complete(String, usize),
    /// The line is refused.
    Invalid(LineError),
}

/// The mathematical model of a [`LineStatus`].
pub enum SpecLineStatus {
    NeedMore,
    Complete(Seq<char>, nat),
    Invalid(LineError),
}

impl View for LineStatus {
    type V = SpecLineStatus;

    open spec fn view(&self) -> SpecLineStatus {
        match self {
            LineStatus::NeedMore => SpecLineStatus::NeedMore,
            LineStatus::Complete(line, n) => SpecLineStatus::Complete(line@, *n as nat),
            LineStatus::Invalid(e) => SpecLineStatus::Invalid(*e),
        }
    }
}

/// What the bytes `s` received so far say of a line of at most `max_len`
/// bytes: the line ends at the first CRLF; it is refused as too long once
/// `max_len` bytes have come without one.
pub open spec fn line_status(s: Seq<u8>, max_len: nat) -> SpecLineStatus {
    if exists|k: int| k <= max_len && first_crlf_end(s, k) {
        let k = choose|k: int| k <= max_len && first_crlf_end(s, k);
        let body = s.take(k - 2);
        if valid_utf8(body) {
            SpecLineStatus::Complete(decode_utf8(body), k as nat)
        } else {
            SpecLineStatus::Invalid(LineError::NotUtf8)
        }
    } else if s.len() >= max_len {
        SpecLineStatus::Invalid(LineError::TooLong)
    } else {
        SpecLineStatus::NeedMore
    }
}

/// The end of the first CRLF is unique.
proof fn lemma_first_crlf_end_unique(s: Seq<u8>, k1: int, k2: int)
    requires
        first_crlf_end(s, k1),
        first_crlf_end(s, k2),
    ensures
        k1 == k2,
{
    if k1 < k2 {
        assert(crlf_ends_at(s, k1));
    } else if k2 < k1 {
        assert(crlf_ends_at(s, k2));
    }
}

/// Decides what the bytes `buf` received so far say of a CRLF-terminated line
/// of at most `max_len` bytes.
pub fn read_crlf_line(buf: &[u8], max_len: usize) -> (r: LineStatus)
    ensures
        r@ == line_status(buf@, max_len as nat),
{
    let len = buf.len();
    let bound = if len < max_len {
        len
    } else {
        max_len
    };
    // `i` is the index of the LF of a candidate CRLF ending at `i + 1`.
    let mut i: usize = 1;
    while i < bound
        invariant
            len == buf@.len(),
            bound <= len,
            bound <= max_len,
            1 <= i,
            forall|j: int| 2 <= j < i + 1 ==> !#[trigger] crlf_ends_at(buf@, j),
        decreases bound - i,
    {
        if buf[i - 1] == 0x0d && buf[i] == 0x0a {
            let k = i + 1;
            assert(first_crlf_end(buf@, k as int));
            proof {
                let c = choose|c: int| c <= max_len && first_crlf_end(buf@, c);
                lemma_first_crlf_end_unique(buf@, c, k as int);
            }
            let body = slice_to_vec(slice_subrange(buf, 0, k - 2));
            assert(body@ =~= buf@.take(k - 2));
            return match string_from_utf8(body) {
                Some(line) => LineStatus::Complete(line, k),
                None => LineStatus::Invalid(LineError::NotUtf8),
            };
        }
        i = i + 1;
    }
    assert(!exists|c: int| c <= max_len && first_crlf_end(buf@, c)) by {
        if exists|c: int| c <= max_len && first_crlf_end(buf@, c) {
            let c = choose|c: int| c <= max_len && first_crlf_end(buf@, c);
            assert(crlf_ends_at(buf@, c));
        }
    }
    if len >= max_len {
        LineStatus::Invalid(LineError::TooLong)
    } else {
        LineStatus::NeedMore
    }
}

/// Bytes beyond a decision do not change it: once a line is complete or
/// refused, what follows it on the stream plays no part.
pub proof fn lemma_line_decision_is_final(s: Seq<u8>, t: Seq<u8>, max_len: nat)
    requires
        !(line_status(s, max_len) is NeedMore),
    ensures
        line_status(s + t, max_len) == line_status(s, max_len),
{
    let u = s + t;
    assert forall|j: int| 2 <= j <= s.len() implies crlf_ends_at(u, j) == crlf_ends_at(s, j) by {
        assert(u[j - 2] == s[j - 2]);
        assert(u[j - 1] == s[j - 1]);
    }
    if exists|k: int| k <= max_len && first_crlf_end(s, k) {
        let k = choose|k: int| k <= max_len && first_crlf_end(s, k);
        assert(first_crlf_end(u, k));
        let c = choose|c: int| c <= max_len && first_crlf_end(u, c);
        lemma_first_crlf_end_unique(u, c, k);
        assert(u.take(k - 2) =~= s.take(k - 2));
    } else {
        assert(s.len() >= max_len);
        if exists|k: int| k <= max_len && first_crlf_end(u, k) {
            let k = choose|k: int| k <= max_len && first_crlf_end(u, k);
            assert(first_crlf_end(s, k));
        }
    }
}

/// A complete line ends with CRLF within `max_len` bytes, holds no earlier
/// CRLF, and every shorter prefix of it asks for another byte: a reader that
/// reads one byte at a time stops at the end of the line.
pub proof fn lemma_line_reads_no_further(s: Seq<u8>, max_len: nat, j: int)
    requires
        line_status(s, max_len) matches SpecLineStatus::Complete(_, k) && 0 <= j < k,
    ensures
        line_status(s, max_len) matches SpecLineStatus::Complete(_, k) && k <= max_len && k
            <= s.len() && first_crlf_end(s, k as int),
        line_status(s.take(j), max_len) is NeedMore,
{
    let k = choose|k: int| k <= max_len && first_crlf_end(s, k);
    let p = s.take(j);
    if exists|c: int| c <= max_len && first_crlf_end(p, c) {
        let c = choose|c: int| c <= max_len && first_crlf_end(p, c);
        assert(crlf_ends_at(s, c));
    }
}

/// A complete line gives the same answer in the prefix that ends with it.
pub proof fn lemma_line_complete_prefix(s: Seq<u8>, max_len: nat, k: nat)
    requires
        line_status(s, max_len) matches SpecLineStatus::Complete(_, kk) && kk == k,
    ensures
        line_status(s.take(k as int), max_len) == line_status(s, max_len),
{
    let kk = choose|c: int| c <= max_len && first_crlf_end(s, c);
    let p = s.take(k as int);
    assert forall|j: int| 2 <= j <= k implies crlf_ends_at(p, j) == crlf_ends_at(s, j) by {
        assert(p[j - 2] == s[j - 2]);
        assert(p[j - 1] == s[j - 1]);
    }
    assert(first_crlf_end(p, kk));
    let c = choose|c: int| c <= max_len && first_crlf_end(p, c);
    lemma_first_crlf_end_unique(p, c, kk);
    assert(p.take(kk - 2) =~= s.take(kk - 2));
}

/// A line written as its bytes and CRLF, with no CRLF inside and short enough,
/// is read as exactly those bytes (refused if they are not UTF-8), whatever
/// follows it.
pub proof fn lemma_line_then_crlf(line: Seq<u8>, tail: Seq<u8>, max_len: nat)
    requires
        line.len() + 2 <= max_len,
        forall|i: int| 0 <= i < line.len() - 1 ==> !(line[i] == 0x0d && #[trigger] line[i + 1] == 0x0a),
    ensures
        valid_utf8(line) ==> line_status(line + seq![0x0du8, 0x0a] + tail, max_len)
            == SpecLineStatus::Complete(decode_utf8(line), (line.len() + 2) as nat),
        !valid_utf8(line) ==> line_status(line + seq![0x0du8, 0x0a] + tail, max_len)
            == SpecLineStatus::Invalid(LineError::NotUtf8),
{
    let s = line + seq![0x0du8, 0x0a] + tail;
    let k = line.len() + 2int;
    assert(crlf_ends_at(s, k));
    assert forall|j: int| 2 <= j < k implies !#[trigger] crlf_ends_at(s, j) by {
        if j < k - 1 {
            assert(s[j - 2] == line[j - 2] && s[j - 1] == line[j - 1]);
            let i = j - 2;
            assert(!(line[i] == 0x0d && line[i + 1] == 0x0a));
        } else {
            assert(s[j - 1] == 0x0d);
        }
    }
    assert(first_crlf_end(s, k));
    let c = choose|c: int| c <= max_len && first_crlf_end(s, c);
    lemma_first_crlf_end_unique(s, c, k);
    assert(s.take(k - 2) =~= line);
}

/// Once `max_len` bytes have come with no CRLF among them, the line is
/// refused as too long, whatever follows.
pub proof fn lemma_line_without_crlf_is_too_long(s: Seq<u8>, max_len: nat)
    requires
        s.len() >= max_len,
        forall|i: int| 0 <= i < max_len - 1 ==> !(s[i] == 0x0d && #[trigger] s[i + 1] == 0x0a),
    ensures
        line_status(s, max_len) == SpecLineStatus::Invalid(LineError::TooLong),
{
    if exists|k: int| k <= max_len && first_crlf_end(s, k) {
        let k = choose|k: int| k <= max_len && first_crlf_end(s, k);
        let i = k - 2;
        assert(s[i] == 0x0d && s[i + 1] == 0x0a);
    }
}

/* Password hashes */

/// SHA-224 of `data`, as the `sha2` crate computes it.
pub uninterp spec fn sha224(data: Seq<u8>) -> Seq<u8>;

/// SHA-256 of `data`, as the `sha2` crate computes it.
pub uninterp spec fn sha256(data: Seq<u8>) -> Seq<u8>;

/// `sha2::Sha224::digest`: the 28-byte SHA-224 digest of `data`.
///
/// Trusted: the result is named `sha224` of the input; its length is the
/// digest's `OutputSize` (`U28` in `sha2`). Nothing else of SHA-224 is stated.
#[verifier::external_body]
fn sha224_digest(data: &[u8]) -> (r: Vec<u8>)
    ensures
        r@ == sha224(data@),
        r@.len() == 28,
{
    sha2::Sha224::digest(data).to_vec()
}

/// `sha2::Sha256::digest`: the 32-byte SHA-256 digest of `data`.
///
/// Trusted: the result is named `sha256` of the input; its length is the
/// digest's `OutputSize` (`U32` in `sha2`). Nothing else of SHA-256 is stated.
#[verifier::external_body]
fn sha256_digest(data: &[u8]) -> (r: Vec<u8>)
    ensures
        r@ == sha256(data@),
        r@.len() == 32,
{
    sha2::Sha256::digest(data).to_vec()
}

/// The lower-case hexadecimal digit of `v` (below 16).
pub open spec fn hex_digit_lower(v: int) -> char {
    if v < 10 {
        (v + 0x30) as char
    } else {
        (v - 10 + 0x61) as char
    }
}

/// Lower-case hexadecimal text of `data`: two digits per byte, high nibble first.
pub open spec fn hex_lower(data: Seq<u8>) -> Seq<char> {
    Seq::new(
        2 * data.len(),
        |i: int|
            if i % 2 == 0 {
                hex_digit_lower(data[i / 2] as int / 16)
            } else {
                hex_digit_lower(data[i / 2] as int % 16)
            },
    )
}

/// `hex::encode`: lower-case hexadecimal text of `data`.
///
/// Trusted: `hex` 0.4 maps each byte to the characters of `b"0123456789abcdef"`
/// at its high and then its low nibble; the contract states exactly that.
#[verifier::external_body]
fn hex_encode(data: &[u8]) -> (r: String)
    ensures
        r@ == hex_lower(data@),
{
    hex::encode(data)
}

/// The hex SHA-224 of the UTF-8 bytes of `password`.
pub open spec fn password_sha224_hex(password: Seq<char>) -> Seq<char> {
    hex_lower(sha224(encode_utf8(password)))
}

/// The hex SHA-256 of the UTF-8 bytes of `password`.
pub open spec fn password_sha256_hex(password: Seq<char>) -> Seq<char> {
    hex_lower(sha256(encode_utf8(password)))
}

/// The lower-case hex SHA-224 of the password, as a Trojan client sends it.
pub fn sha224_password_hash(password: &str) -> (r: String)
    ensures
        r@ == password_sha224_hex(password@),
        r@.len() == 56,
{
    let digest = sha224_digest(password.as_bytes());
    hex_encode(digest.as_slice())
}

/// The lower-case hex SHA-256 of the password.
pub fn sha256_password_hash(password: &str) -> (r: String)
    ensures
        r@ == password_sha256_hex(password@),
        r@.len() == 64,
{
    let digest = sha256_digest(password.as_bytes());
    hex_encode(digest.as_slice())
}

/* Comparison */

/// `subtle`'s `ConstantTimeEq::ct_eq` on byte slices, turned into a `bool`.
///
/// Trusted: for slices of different lengths `subtle` 2.6 returns `Choice(0)`;
/// otherwise it combines the byte-wise comparisons, so the result is 1 exactly
/// when the slices are equal.
#[verifier::external_body]
fn ct_eq_bytes(left: &[u8], right: &[u8]) -> (r: bool)
    ensures
        r == (left@ == right@),
{
    left.ct_eq(right).into()
}

/// Compares two byte strings in time that depends on their lengths only.
pub fn constant_time_eq(left: &[u8], right: &[u8]) -> (r: bool)
    ensures
        r == (left@ == right@),
{
    left.len() == right.len() && ct_eq_bytes(left, right)
}

/* Verifying a presented hash */

/// `b` with an ASCII capital letter turned into lower case.
pub open spec fn ascii_lower(b: u8) -> u8 {
    if 0x41 <= b <= 0x5a {
        (b + 0x20) as u8
    } else {
        b
    }
}

/// The bytes of `s` with ASCII capitals in lower case, as `to_ascii_lowercase`
/// does to the bytes of a string.
pub open spec fn ascii_lower_bytes(s: Seq<u8>) -> Seq<u8> {
    Seq::new(s.len(), |i: int| ascii_lower(s[i]))
}

/// The bytes that a presented line is compared by: trimmed of surrounding
/// whitespace, in UTF-8, ASCII capitals in lower case.
pub open spec fn normalized_presented(presented: Seq<char>) -> Seq<u8> {
    ascii_lower_bytes(encode_utf8(trim_chars(presented)))
}

/// The presented line matches the hex SHA-224 or the hex SHA-256 of the password.
pub open spec fn password_matches(password: Seq<char>, presented: Seq<char>) -> bool {
    ||| normalized_presented(presented) == encode_utf8(password_sha224_hex(password))
    ||| normalized_presented(presented) == encode_utf8(password_sha256_hex(password))
}

fn ascii_lowercase_bytes(s: &[u8]) -> (r: Vec<u8>)
    ensures
        r@ == ascii_lower_bytes(s@),
{
    let mut out: Vec<u8> = Vec::new();
    let n = s.len();
    for i in 0..n
        invariant
            n == s@.len(),
            out@.len() == i,
            forall|j: int| 0 <= j < i ==> out@[j] == ascii_lower(#[trigger] s@[j]),
    {
        let b = s[i];
        if 0x41 <= b && b <= 0x5a {
            out.push(b + 0x20);
        } else {
            out.push(b);
        }
    }
    assert(out@ =~= ascii_lower_bytes(s@));
    out
}

/// Whether `presented`, trimmed and in lower case, is the hex SHA-224 or the
/// hex SHA-256 of `password`; both comparisons take constant time.
pub fn verify_password_hash(password: &str, presented: &str) -> (r: bool)
    ensures
        r == password_matches(password@, presented@),
        r == (ascii_lower_chars(trim_chars(presented@)) == password_sha224_hex(password@)
            || ascii_lower_chars(trim_chars(presented@)) == password_sha256_hex(password@)),
        password_sha224_hex(password@).len() == 56,
        password_sha256_hex(password@).len() == 64,
        trim_chars(presented@).len() != 56 && trim_chars(presented@).len() != 64 ==> !r,
{
    proof {
        lemma_password_matches_text(password@, presented@);
    }
    let trimmed = trim(presented);
    let normalized = ascii_lowercase_bytes(trimmed.as_bytes());
    let sha224 = sha224_password_hash(password);
    let sha256 = sha256_password_hash(password);
    constant_time_eq(normalized.as_slice(), sha224.as_str().as_bytes()) || constant_time_eq(
        normalized.as_slice(),
        sha256.as_str().as_bytes(),
    )
}

/* Laws */

/// `c` with an ASCII capital letter turned into lower case.
pub open spec fn ascii_lower_char(c: char) -> char {
    if 'A' <= c <= 'Z' {
        ((c as u32) + 0x20) as char
    } else {
        c
    }
}

/// The characters of `s` with ASCII capitals in lower case.
pub open spec fn ascii_lower_chars(s: Seq<char>) -> Seq<char> {
    Seq::new(s.len(), |i: int| ascii_lower_char(s[i]))
}

/// Folding ASCII case in the UTF-8 bytes of one character is folding it in the character.
proof fn lemma_ascii_lower_scalar(c: char)
    ensures
        ascii_lower_bytes(encode_scalar(c as u32)) == encode_scalar(ascii_lower_char(c) as u32),
{
    let v = c as u32;
    let e = encode_scalar(v);
    if has_width_1_encoding(v) {
        assert((v & 0x7f) as u8 == v) by (bit_vector)
            requires
                v <= 0x7f,
        ;
        let w = ascii_lower_char(c) as u32;
        if 'A' <= c <= 'Z' {
            assert(w == v + 0x20);
            assert((w & 0x7f) as u8 == w) by (bit_vector)
                requires
                    w <= 0x7f,
            ;
        } else {
            assert((w & 0x7f) as u8 == w) by (bit_vector)
                requires
                    w <= 0x7f,
            ;
        }
        assert(ascii_lower_bytes(e) =~= encode_scalar(w));
    } else {
        assert forall|y: u8| #![auto] (0x80u8 | y) >= 0x80 && (0xC0u8 | y) >= 0x80 && (0xE0u8 | y)
            >= 0x80 && (0xF0u8 | y) >= 0x80 by {
            assert((0x80u8 | y) >= 0x80 && (0xC0u8 | y) >= 0x80 && (0xE0u8 | y) >= 0x80 && (0xF0u8
                | y) >= 0x80) by (bit_vector);
        }
        assert forall|i: int| 0 <= i < e.len() implies #[trigger] e[i] >= 0x80 by {}
        assert(ascii_lower_bytes(e) =~= e);
    }
}

/// Folding ASCII case commutes with UTF-8 encoding.
proof fn lemma_ascii_lower_encode(s: Seq<char>)
    ensures
        ascii_lower_bytes(encode_utf8(s)) == encode_utf8(ascii_lower_chars(s)),
    decreases s.len(),
{
    if s.len() > 0 {
        lemma_ascii_lower_scalar(s[0]);
        lemma_ascii_lower_encode(s.drop_first());
        assert(ascii_lower_chars(s).drop_first() =~= ascii_lower_chars(s.drop_first()));
        let a = encode_scalar(s[0] as u32);
        let b = encode_utf8(s.drop_first());
        assert(ascii_lower_bytes(a + b) =~= ascii_lower_bytes(a) + ascii_lower_bytes(b));
    }
}

/// A presented line is let in exactly when, trimmed of surrounding whitespace
/// and with ASCII capitals in lower case, it is the hex SHA-224 or the hex
/// SHA-256 of the password.
pub proof fn lemma_password_matches_text(password: Seq<char>, presented: Seq<char>)
    ensures
        password_matches(password, presented) == (ascii_lower_chars(trim_chars(presented))
            == password_sha224_hex(password) || ascii_lower_chars(trim_chars(presented))
            == password_sha256_hex(password)),
{
    let t = ascii_lower_chars(trim_chars(presented));
    lemma_ascii_lower_encode(trim_chars(presented));
    let h224 = password_sha224_hex(password);
    let h256 = password_sha256_hex(password);
    if encode_utf8(t) == encode_utf8(h224) {
        assert(decode_utf8(encode_utf8(t)) == t);
        assert(decode_utf8(encode_utf8(h224)) == h224);
    }
    if encode_utf8(t) == encode_utf8(h256) {
        assert(decode_utf8(encode_utf8(t)) == t);
        assert(decode_utf8(encode_utf8(h256)) == h256);
    }
}

/// Hex text is ASCII, free of whitespace and already in lower case.
proof fn lemma_hex_lower_is_normal(data: Seq<u8>)
    ensures
        is_ascii_chars(hex_lower(data)),
        all_not_whitespace(hex_lower(data)),
        trim_chars(hex_lower(data)) == hex_lower(data),
        ascii_lower_bytes(encode_utf8(hex_lower(data))) == encode_utf8(hex_lower(data)),
        encode_utf8(hex_lower(data)).len() == 2 * data.len(),
{
    let h = hex_lower(data);
    assert forall|i: int| 0 <= i < h.len() implies '\0' <= #[trigger] h[i] <= '\u{7f}' && !is_whitespace(h[i])
        && ((h[i] as u32) < 0x41 || (h[i] as u32) > 0x5a) by {
        let v = if i % 2 == 0 { data[i / 2] as int / 16 } else { data[i / 2] as int % 16 };
        assert(0 <= v < 16);
    }
    lemma_trim_keeps_unspaced(h);
    is_ascii_chars_encode_utf8(h);
    assert(ascii_lower_bytes(encode_utf8(h)) =~= encode_utf8(h));
}

/// No character of `s` is whitespace.
pub open spec fn all_not_whitespace(s: Seq<char>) -> bool {
    forall|i: int| 0 <= i < s.len() ==> !is_whitespace(#[trigger] s[i])
}

/// Trimming a text without whitespace leaves it as it is.
proof fn lemma_trim_keeps_unspaced(s: Seq<char>)
    requires
        all_not_whitespace(s),
    ensures
        trim_chars(s) == s,
{
    if s.len() > 0 {
        assert(!is_whitespace(s[0]));
        assert(!is_whitespace(s.last()));
    }
}

/// A client that presents the hex SHA-224 or the hex SHA-256 of the password
/// is let in.
pub proof fn lemma_password_hashes_are_accepted(password: Seq<char>)
    ensures
        password_matches(password, password_sha224_hex(password)),
        password_matches(password, password_sha256_hex(password)),
{
    lemma_hex_lower_is_normal(sha224(encode_utf8(password)));
    lemma_hex_lower_is_normal(sha256(encode_utf8(password)));
}

/// A lower-case hex digit character: `0`-`9` or `a`-`f`.
pub open spec fn is_lower_hex_char(c: char) -> bool {
    '0' <= c <= '9' || 'a' <= c <= 'f'
}

/// The value of a lower-case hex digit character.
pub open spec fn lower_hex_char_value(c: char) -> int {
    if c <= '9' {
        c as int - 0x30
    } else {
        c as int - 0x61 + 10
    }
}

/// `text` is the lower-case hex writing of `data`: two digits per byte, high
/// nibble first, reading back to the byte.
pub open spec fn reads_as_hex_of(text: Seq<char>, data: Seq<u8>) -> bool {
    &&& text.len() == 2 * data.len()
    &&& forall|i: int| 0 <= i < text.len() ==> is_lower_hex_char(#[trigger] text[i])
    &&& forall|i: int|
        0 <= i < data.len() ==> lower_hex_char_value(text[2 * i]) * 16 + lower_hex_char_value(
            text[2 * i + 1],
        ) == #[trigger] data[i]
}

/// Hex text of bytes reads back as those bytes.
pub proof fn lemma_hex_lower_reads_back(data: Seq<u8>)
    ensures
        reads_as_hex_of(hex_lower(data), data),
{
    let h = hex_lower(data);
    assert forall|i: int| 0 <= i < h.len() implies is_lower_hex_char(#[trigger] h[i]) by {
        let v = if i % 2 == 0 { data[i / 2] as int / 16 } else { data[i / 2] as int % 16 };
        assert(0 <= v < 16);
    }
    assert forall|i: int| 0 <= i < data.len() implies lower_hex_char_value(h[2 * i]) * 16
        + lower_hex_char_value(h[2 * i + 1]) == #[trigger] data[i] by {
        assert((2 * i) % 2 == 0 && (2 * i) / 2 == i);
        assert((2 * i + 1) % 2 == 1 && (2 * i + 1) / 2 == i);
        let d = data[i] as int;
        assert(d == (d / 16) * 16 + d % 16);
    }
}

/// The password hashes are taken over the password's own UTF-8 bytes: the
/// SHA-224 hash reads back, digit pair by digit pair, as the SHA-224 digest of
/// exactly those bytes, and the SHA-256 hash as their SHA-256 digest.
pub proof fn lemma_password_hashes_digest_the_password(password: Seq<char>)
    ensures
        reads_as_hex_of(password_sha224_hex(password), sha224(encode_utf8(password))),
        reads_as_hex_of(password_sha256_hex(password), sha256(encode_utf8(password))),
{
    lemma_hex_lower_reads_back(sha224(encode_utf8(password)));
    lemma_hex_lower_reads_back(sha256(encode_utf8(password)));
}

/// Surrounding whitespace and the case of the hex letters make no difference:
/// two lines that trim and fold to the same bytes are let in alike.
pub proof fn lemma_acceptance_depends_on_normal_form(
    password: Seq<char>,
    presented1: Seq<char>,
    presented2: Seq<char>,
)
    requires
        normalized_presented(presented1) == normalized_presented(presented2),
    ensures
        password_matches(password, presented1) == password_matches(password, presented2),
{
}

} // verus!
