//! The text of a target address that an upstream connection is made to:
//! `name:port`, `a.b.c.d:port` or `[ipv6]:port`, with IPv6 written in its
//! canonical short form (lower-case hex, the first longest run of two or more
//! zero groups written `::`, IPv4-mapped addresses as `::ffff:a.b.c.d`).
use vstd::prelude::*;
use crate::request::{SpecTargetAddr, TargetAddr};
use crate::text::{
    ascii_bytes, ascii_string, bytes_as_chars, decimal, decimal_bytes, decimal_string,
    lemma_decimal_bytes, lemma_decimal_reads_back, push_decimal, read_decimal,
};

verus! {

/// The code of the lower-case hex digit of `v` (below 16).
pub open spec fn hex_byte(v: int) -> u8 {
    if v < 10 {
        (v + 0x30) as u8
    } else {
        (v - 10 + 0x61) as u8
    }
}

/// The lower-case hex text of `v` without leading zeros, as `{:x}` writes it.
pub open spec fn hex_bytes(v: nat) -> Seq<u8>
    decreases v,
{
    if v < 16 {
        seq![hex_byte(v as int)]
    } else {
        hex_bytes(v / 16) + seq![hex_byte((v % 16) as int)]
    }
}

/// The eight 16-bit groups of the IPv6 address `b` (16 bytes, network order).
pub open spec fn ipv6_segments(b: Seq<u8>) -> Seq<u16> {
    Seq::new(8, |i: int| (b[2 * i] as int * 256 + b[2 * i + 1] as int) as u16)
}

/// Groups in hex, separated by colons.
pub open spec fn joined(s: Seq<u16>) -> Seq<u8>
    decreases s.len(),
{
    if s.len() == 0 {
        Seq::empty()
    } else if s.len() == 1 {
        hex_bytes(s[0] as nat)
    } else {
        joined(s.drop_last()) + seq![0x3au8] + hex_bytes(s.last() as nat)
    }
}

/// The groups `start .. start + len` of `s` are all zero.
pub open spec fn zero_run(s: Seq<u16>, start: int, len: int) -> bool {
    &&& 0 <= start
    &&& 0 <= len
    &&& start + len <= s.len()
    &&& forall|k: int| start <= k < start + len ==> #[trigger] s[k] == 0
}

/// `start .. start + len` is the first of the longest runs of zero groups.
pub open spec fn first_longest_zero_run(s: Seq<u16>, start: int, len: int) -> bool {
    &&& zero_run(s, start, len)
    &&& forall|st: int, l: int| #[trigger] zero_run(s, st, l) ==> l <= len
    &&& forall|st: int| 0 <= st < start ==> !#[trigger] zero_run(s, st, len)
}

/// The groups are those of an IPv4-mapped address `::ffff:a.b.c.d`.
pub open spec fn is_ipv4_mapped(s: Seq<u16>) -> bool {
    s[0] == 0 && s[1] == 0 && s[2] == 0 && s[3] == 0 && s[4] == 0 && s[5] == 0xffff
}

/// The dotted decimal text of the four bytes `a`.
pub open spec fn dotted_bytes(a: Seq<u8>) -> Seq<u8> {
    decimal_bytes(a[0] as nat) + seq![0x2eu8] + decimal_bytes(a[1] as nat) + seq![0x2eu8]
        + decimal_bytes(a[2] as nat) + seq![0x2eu8] + decimal_bytes(a[3] as nat)
}

/// The canonical text of the IPv6 address `b`.
pub open spec fn ipv6_text(b: Seq<u8>) -> Seq<u8> {
    let s = ipv6_segments(b);
    if is_ipv4_mapped(s) {
        seq![0x3au8, 0x3a, 0x66, 0x66, 0x66, 0x66, 0x3a] + dotted_bytes(b.subrange(12, 16))
    } else {
        let (start, len) = choose|st: int, l: int| first_longest_zero_run(s, st, l);
        if len > 1 {
            joined(s.take(start)) + seq![0x3au8, 0x3a] + joined(s.skip(start + len))
        } else {
            joined(s)
        }
    }
}

/// The text that an upstream connection to `t` is made with.
pub open spec fn connect_text(t: SpecTargetAddr) -> Seq<char> {
    match t {
        SpecTargetAddr::Domain(name, port) => name + ":"@ + decimal(port as nat),
        SpecTargetAddr::Ipv4(a, port) => bytes_as_chars(dotted_bytes(a)) + ":"@ + decimal(
            port as nat,
        ),
        SpecTargetAddr::Ipv6(a, port) => "["@ + bytes_as_chars(ipv6_text(a)) + "]:"@ + decimal(
            port as nat,
        ),
    }
}

/* Laws of the hex text */

/// A code of a lower-case hex digit: `0`-`9` or `a`-`f`.
pub open spec fn is_lower_hex_code(b: u8) -> bool {
    0x30 <= b <= 0x39 || 0x61 <= b <= 0x66
}

/// The value of a lower-case hex digit code.
pub open spec fn lower_hex_code_value(b: u8) -> int {
    if b <= 0x39 {
        b as int - 0x30
    } else {
        b as int - 0x61 + 10
    }
}

/// The number that a string of lower-case hex digit codes denotes.
pub open spec fn read_hex(s: Seq<u8>) -> int
    decreases s.len(),
{
    if s.len() == 0 {
        0
    } else {
        read_hex(s.drop_last()) * 16 + lower_hex_code_value(s.last())
    }
}

/// The hex text of a number is one or more digits `0`-`9`, `a`-`f`, with no
/// leading zero, that read back as the number.
pub proof fn lemma_hex_reads_back(v: nat)
    ensures
        hex_bytes(v).len() >= 1,
        forall|i: int| 0 <= i < hex_bytes(v).len() ==> is_lower_hex_code(#[trigger] hex_bytes(v)[i]),
        hex_bytes(v).len() > 1 ==> hex_bytes(v)[0] != 0x30,
        read_hex(hex_bytes(v)) == v,
    decreases v,
{
    let s = hex_bytes(v);
    if v >= 16 {
        lemma_hex_reads_back(v / 16);
        let h = hex_bytes(v / 16);
        assert(v == (v / 16) * 16 + v % 16) by (nonlinear_arith);
        assert(v / 16 >= 1) by (nonlinear_arith)
            requires
                v >= 16,
        ;
        assert(s.drop_last() =~= h);
        assert(s.last() == hex_byte((v % 16) as int));
        assert forall|i: int| 0 <= i < s.len() implies is_lower_hex_code(#[trigger] s[i]) by {
            if i < h.len() {
                assert(s[i] == h[i]);
            }
        }
        assert(s[0] == h[0]);
        if v / 16 < 16 {
            assert(h =~= seq![hex_byte((v / 16) as int)]);
        } else {
            lemma_hex_reads_back(v / 16 / 16);
            assert(h.len() > 1);
        }
        let d = (v % 16) as int;
        assert(lower_hex_code_value(hex_byte(d)) == d);
        assert(read_hex(s) == read_hex(h) * 16 + lower_hex_code_value(s.last()));
    } else {
        assert(lower_hex_code_value(hex_byte(v as int)) == v);
        assert(read_hex(s) == read_hex(s.drop_last()) * 16 + lower_hex_code_value(s.last()));
        assert(s.drop_last().len() == 0);
    }
}

/// The dotted text of an IPv4 address is its four bytes in order, each in
/// decimal without leading zeros, joined by dots.
pub proof fn lemma_dotted_reads_back(a: Seq<u8>)
    requires
        a.len() == 4,
    ensures
        ({
            let p0 = decimal_bytes(a[0] as nat);
            let p1 = decimal_bytes(a[1] as nat);
            let p2 = decimal_bytes(a[2] as nat);
            let p3 = decimal_bytes(a[3] as nat);
            &&& dotted_bytes(a) == p0 + seq![0x2eu8] + p1 + seq![0x2eu8] + p2 + seq![0x2eu8] + p3
            &&& read_decimal(p0) == a[0] && read_decimal(p1) == a[1]
            &&& read_decimal(p2) == a[2] && read_decimal(p3) == a[3]
            &&& forall|i: int| 0 <= i < p0.len() ==> 0x30 <= #[trigger] p0[i] <= 0x39
            &&& forall|i: int| 0 <= i < p1.len() ==> 0x30 <= #[trigger] p1[i] <= 0x39
            &&& forall|i: int| 0 <= i < p2.len() ==> 0x30 <= #[trigger] p2[i] <= 0x39
            &&& forall|i: int| 0 <= i < p3.len() ==> 0x30 <= #[trigger] p3[i] <= 0x39
        }),
{
    lemma_decimal_reads_back(a[0] as nat);
    lemma_decimal_reads_back(a[1] as nat);
    lemma_decimal_reads_back(a[2] as nat);
    lemma_decimal_reads_back(a[3] as nat);
}

/* Reading the IPv6 text back */

/// The pieces of `t` between colons, in order (one piece when there is no colon).
pub open spec fn split_colon(t: Seq<u8>) -> Seq<Seq<u8>>
    decreases t.len(),
{
    if t.len() == 0 {
        seq![Seq::<u8>::empty()]
    } else {
        let r = split_colon(t.drop_last());
        if t.last() == 0x3a {
            r.push(Seq::<u8>::empty())
        } else {
            r.update(r.len() - 1, r.last().push(t.last()))
        }
    }
}

/// The numbers that the colon-separated hex pieces of `t` denote.
pub open spec fn read_hex_groups(t: Seq<u8>) -> Seq<int> {
    split_colon(t).map_values(|p: Seq<u8>| read_hex(p))
}

/// Where the first `::` of `t` starts.
pub open spec fn find_double_colon(t: Seq<u8>) -> Option<int>
    decreases t.len(),
{
    if t.len() < 2 {
        None
    } else if t[0] == 0x3a && t[1] == 0x3a {
        Some(0)
    } else {
        match find_double_colon(t.drop_first()) {
            Some(i) => Some(i + 1),
            None => None,
        }
    }
}

/// The eight groups that an IPv6 text written with at most one `::` stands
/// for: the groups before the `::`, zero groups to make eight, the groups after.
pub open spec fn read_ipv6_groups(t: Seq<u8>) -> Seq<int> {
    match find_double_colon(t) {
        None => read_hex_groups(t),
        Some(i) => {
            let head = if i == 0 {
                Seq::<int>::empty()
            } else {
                read_hex_groups(t.take(i))
            };
            let tail = if i + 2 == t.len() {
                Seq::<int>::empty()
            } else {
                read_hex_groups(t.skip(i + 2))
            };
            head + Seq::new((8 - head.len() - tail.len()) as nat, |k: int| 0int) + tail
        },
    }
}

/// `t` holds no colon.
pub open spec fn no_colon(t: Seq<u8>) -> bool {
    forall|i: int| 0 <= i < t.len() ==> #[trigger] t[i] != 0x3a
}

proof fn lemma_split_no_colon(b: Seq<u8>)
    requires
        no_colon(b),
    ensures
        split_colon(b) == seq![b],
    decreases b.len(),
{
    if b.len() > 0 {
        assert(no_colon(b.drop_last())) by {
            assert forall|i: int| 0 <= i < b.drop_last().len() implies #[trigger] b.drop_last()[i]
                != 0x3a by {
                assert(b.drop_last()[i] == b[i]);
            }
        }
        lemma_split_no_colon(b.drop_last());
        assert(b.last() != 0x3a);
        assert(b.drop_last().push(b.last()) =~= b);
        assert(split_colon(b) =~= seq![b]);
    } else {
        assert(b =~= Seq::<u8>::empty());
    }
}

proof fn lemma_split_after_colon(a: Seq<u8>, b: Seq<u8>)
    requires
        no_colon(b),
    ensures
        split_colon(a + seq![0x3au8] + b) == split_colon(a).push(b),
    decreases b.len(),
{
    let t = a + seq![0x3au8] + b;
    if b.len() == 0 {
        assert(t.drop_last() =~= a);
        assert(t.last() == 0x3a);
        assert(b =~= Seq::<u8>::empty());
        assert(split_colon(t) =~= split_colon(a).push(b));
    } else {
        assert(no_colon(b.drop_last())) by {
            assert forall|i: int| 0 <= i < b.drop_last().len() implies #[trigger] b.drop_last()[i]
                != 0x3a by {
                assert(b.drop_last()[i] == b[i]);
            }
        }
        assert(b.last() != 0x3a);
        lemma_split_after_colon(a, b.drop_last());
        assert(t.drop_last() =~= a + seq![0x3au8] + b.drop_last());
        assert(t.last() == b.last());
        assert(b.drop_last().push(b.last()) =~= b);
        assert(split_colon(t) =~= split_colon(a).push(b));
    }
}

proof fn lemma_hex_no_colon(v: nat)
    ensures
        no_colon(hex_bytes(v)),
{
    lemma_hex_reads_back(v);
    assert forall|i: int| 0 <= i < hex_bytes(v).len() implies #[trigger] hex_bytes(v)[i] != 0x3a by {
        assert(is_lower_hex_code(hex_bytes(v)[i]));
    }
}

/// Splitting the colon-joined hex groups at the colons gives the hex text of
/// each group, in order; there are no two colons in a row, and the text
/// neither starts nor ends with a colon.
pub proof fn lemma_joined_splits(x: Seq<u16>)
    requires
        x.len() >= 1,
    ensures
        split_colon(joined(x)) == x.map_values(|v: u16| hex_bytes(v as nat)),
        read_hex_groups(joined(x)) == x.map_values(|v: u16| v as int),
        joined(x).len() >= 1,
        joined(x)[0] != 0x3a,
        joined(x).last() != 0x3a,
        forall|i: int|
            0 <= i < joined(x).len() - 1 ==> !(#[trigger] joined(x)[i] == 0x3a && joined(x)[i + 1]
                == 0x3a),
    decreases x.len(),
{
    let j = joined(x);
    let h = hex_bytes(x.last() as nat);
    lemma_hex_reads_back(x.last() as nat);
    lemma_hex_no_colon(x.last() as nat);
    if x.len() == 1 {
        lemma_split_no_colon(h);
        assert(x.map_values(|v: u16| hex_bytes(v as nat)) =~= seq![h]);
        assert(h[0] != 0x3a);
        assert(h.last() != 0x3a);
    } else {
        let y = x.drop_last();
        lemma_joined_splits(y);
        let jy = joined(y);
        assert(j == jy + seq![0x3au8] + h);
        lemma_split_after_colon(jy, h);
        assert(x.map_values(|v: u16| hex_bytes(v as nat)) =~= y.map_values(
            |v: u16| hex_bytes(v as nat),
        ).push(h));
        assert(j[0] == jy[0]);
        assert(j.last() == h.last());
        assert(h.last() != 0x3a);
        assert forall|i: int| 0 <= i < j.len() - 1 implies !(#[trigger] j[i] == 0x3a && j[i + 1] == 0x3a) by {
            if i < jy.len() - 1 {
                assert(j[i] == jy[i] && j[i + 1] == jy[i + 1]);
            } else if i == jy.len() - 1 {
                assert(j[i] == jy.last());
            } else if i == jy.len() {
                assert(j[i + 1] == h[0]);
            } else {
                assert(j[i] == h[i - jy.len() - 1]);
            }
        }
    }
    let sp = split_colon(j);
    assert(read_hex_groups(j) =~= x.map_values(|v: u16| v as int)) by {
        assert forall|i: int| 0 <= i < x.len() implies #[trigger] read_hex_groups(j)[i] == x[i] as int by {
            lemma_hex_reads_back(x[i] as nat);
            assert(sp[i] == hex_bytes(x[i] as nat));
        }
    }
}

proof fn lemma_find_double_colon(a: Seq<u8>, b: Seq<u8>)
    requires
        forall|i: int| 0 <= i < a.len() - 1 ==> !(#[trigger] a[i] == 0x3a && a[i + 1] == 0x3a),
        a.len() > 0 ==> a.last() != 0x3a,
    ensures
        find_double_colon(a + seq![0x3au8, 0x3a] + b) == Some(a.len() as int),
    decreases a.len(),
{
    let t = a + seq![0x3au8, 0x3a] + b;
    if a.len() > 0 {
        let a1 = a.drop_first();
        assert(t.drop_first() =~= a1 + seq![0x3au8, 0x3a] + b);
        assert forall|i: int| 0 <= i < a1.len() - 1 implies !(#[trigger] a1[i] == 0x3a && a1[i + 1] == 0x3a) by {
            assert(a1[i] == a[i + 1] && a1[i + 1] == a[i + 2]);
        }
        if a1.len() > 0 {
            assert(a1.last() == a.last());
        }
        lemma_find_double_colon(a1, b);
        if a.len() == 1 {
            assert(t[1] == 0x3a);
        } else {
            assert(t[1] == a[1]);
        }
    }
}

proof fn lemma_no_double_colon(a: Seq<u8>)
    requires
        forall|i: int| 0 <= i < a.len() - 1 ==> !(#[trigger] a[i] == 0x3a && a[i + 1] == 0x3a),
    ensures
        find_double_colon(a) is None,
    decreases a.len(),
{
    if a.len() >= 2 {
        let a1 = a.drop_first();
        assert forall|i: int| 0 <= i < a1.len() - 1 implies !(#[trigger] a1[i] == 0x3a && a1[i + 1] == 0x3a) by {
            assert(a1[i] == a[i + 1] && a1[i + 1] == a[i + 2]);
        }
        lemma_no_double_colon(a1);
    }
}

proof fn lemma_first_run_from(s: Seq<u16>, l: int, st: int) -> (r: int)
    requires
        0 <= st,
        forall|st2: int| 0 <= st2 < st ==> !#[trigger] zero_run(s, st2, l),
        exists|st3: int| st <= st3 && #[trigger] zero_run(s, st3, l),
    ensures
        zero_run(s, r, l),
        forall|st2: int| 0 <= st2 < r ==> !#[trigger] zero_run(s, st2, l),
    decreases s.len() - st,
{
    if zero_run(s, st, l) {
        st
    } else {
        let st3 = choose|st3: int| st <= st3 && #[trigger] zero_run(s, st3, l);
        assert(st < st3);
        lemma_first_run_from(s, l, st + 1)
    }
}

proof fn lemma_longest_from(s: Seq<u16>, l: int) -> (r: (int, int))
    requires
        0 <= l,
        forall|st: int, l2: int| l < l2 ==> !#[trigger] zero_run(s, st, l2),
    ensures
        first_longest_zero_run(s, r.0, r.1),
    decreases l,
{
    if exists|st: int| #[trigger] zero_run(s, st, l) {
        let st = lemma_first_run_from(s, l, 0);
        (st, l)
    } else {
        if l == 0 {
            assert(zero_run(s, 0, 0));
        }
        lemma_longest_from(s, l - 1)
    }
}

/// Every sequence of groups has a first longest run of zero groups.
pub proof fn lemma_first_longest_zero_run_exists(s: Seq<u16>)
    ensures
        exists|st: int, l: int| first_longest_zero_run(s, st, l),
{
    let r = lemma_longest_from(s, s.len() as int);
    assert(first_longest_zero_run(s, r.0, r.1));
}

/// The IPv6 text of an address (other than an IPv4-mapped one) reads back as
/// its eight groups: the hex groups before the `::`, zero groups to make eight,
/// the hex groups after it; and only zero groups, two or more, are left out.
pub proof fn lemma_ipv6_text_reads_back(b: Seq<u8>)
    requires
        b.len() == 16,
        !is_ipv4_mapped(ipv6_segments(b)),
    ensures
        read_ipv6_groups(ipv6_text(b)) == ipv6_segments(b).map_values(|v: u16| v as int),
        find_double_colon(ipv6_text(b)) matches Some(i) ==> exists|st: int, l: int|
            l >= 2 && #[trigger] zero_run(ipv6_segments(b), st, l),
{
    let s = ipv6_segments(b);
    let t = ipv6_text(b);
    let target = s.map_values(|v: u16| v as int);
    lemma_first_longest_zero_run_exists(s);
    let (st, l) = choose|st: int, l: int| first_longest_zero_run(s, st, l);
    if l > 1 {
        let h = s.take(st);
        let tl = s.skip(st + l);
        assert(t == joined(h) + seq![0x3au8, 0x3a] + joined(tl));
        if h.len() >= 1 {
            lemma_joined_splits(h);
        }
        if tl.len() >= 1 {
            lemma_joined_splits(tl);
        }
        lemma_find_double_colon(joined(h), joined(tl));
        let i = joined(h).len() as int;
        assert(h.len() == 0 ==> joined(h).len() == 0);
        assert(tl.len() == 0 ==> joined(tl).len() == 0);
        assert(t.take(i) =~= joined(h));
        assert(t.skip(i + 2) =~= joined(tl));
        let hv = if i == 0 { Seq::<int>::empty() } else { read_hex_groups(t.take(i)) };
        let tv = if i + 2 == t.len() { Seq::<int>::empty() } else { read_hex_groups(t.skip(i + 2)) };
        assert(hv =~= h.map_values(|v: u16| v as int));
        assert(tv =~= tl.map_values(|v: u16| v as int));
        assert(read_ipv6_groups(t) =~= target) by {
            assert forall|k: int| 0 <= k < 8 implies #[trigger] read_ipv6_groups(t)[k] == target[k] by {
                if k < st {
                    assert(hv[k] == h[k] as int);
                } else if k < st + l {
                    assert(s[k] == 0);
                } else {
                    assert(tv[k - st - l] == tl[k - st - l] as int);
                }
            }
        }
    } else {
        assert(t == joined(s));
        lemma_joined_splits(s);
        lemma_no_double_colon(joined(s));
    }
}

/* ASCII */

proof fn lemma_hex_bytes_ascii(v: nat)
    ensures
        ascii_bytes(hex_bytes(v)),
    decreases v,
{
    if v >= 16 {
        lemma_hex_bytes_ascii(v / 16);
    }
}

proof fn lemma_joined_ascii(s: Seq<u16>)
    ensures
        ascii_bytes(joined(s)),
    decreases s.len(),
{
    if s.len() == 1 {
        lemma_hex_bytes_ascii(s[0] as nat);
    } else if s.len() > 1 {
        lemma_joined_ascii(s.drop_last());
        lemma_hex_bytes_ascii(s.last() as nat);
    }
}

/* Building the text */

fn push_hex(v: u64, out: &mut Vec<u8>)
    ensures
        final(out)@ == old(out)@ + hex_bytes(v as nat),
    decreases v,
{
    if v >= 16 {
        push_hex(v / 16, out);
    }
    let d = (v % 16) as u8;
    if d < 10 {
        out.push(d + 0x30);
    } else {
        out.push(d - 10 + 0x61);
    }
    assert(final(out)@ =~= old(out)@ + hex_bytes(v as nat));
}

/// Appends the groups `segs[from..to]` in hex, separated by colons.
fn push_joined(segs: &Vec<u16>, from: usize, to: usize, out: &mut Vec<u8>)
    requires
        from <= to <= segs@.len(),
    ensures
        final(out)@ == old(out)@ + joined(segs@.subrange(from as int, to as int)),
{
    let mut i = from;
    assert(segs@.subrange(from as int, from as int).len() == 0);
    while i < to
        invariant
            from <= i <= to <= segs@.len(),
            out@ == old(out)@ + joined(segs@.subrange(from as int, i as int)),
        decreases to - i,
    {
        let ghost before = out@;
        if i > from {
            out.push(0x3a);
        }
        push_hex(segs[i] as u64, out);
        proof {
            let x = segs@.subrange(from as int, i + 1);
            assert(x.drop_last() =~= segs@.subrange(from as int, i as int));
            if i > from {
                assert(out@ =~= old(out)@ + joined(x));
            } else {
                assert(out@ =~= old(out)@ + joined(x));
            }
        }
        i = i + 1;
    }
}

fn push_dotted(a0: u8, a1: u8, a2: u8, a3: u8, out: &mut Vec<u8>)
    ensures
        final(out)@ == old(out)@ + dotted_bytes(seq![a0, a1, a2, a3]),
{
    push_decimal(a0 as u64, out);
    out.push(0x2e);
    push_decimal(a1 as u64, out);
    out.push(0x2e);
    push_decimal(a2 as u64, out);
    out.push(0x2e);
    push_decimal(a3 as u64, out);
    assert(final(out)@ =~= old(out)@ + dotted_bytes(seq![a0, a1, a2, a3]));
}

/// The first of the longest runs of zero groups, as `(start, len)`.
fn longest_zero_run(segs: &Vec<u16>) -> (r: (usize, usize))
    ensures
        first_longest_zero_run(segs@, r.0 as int, r.1 as int),
{
    let n = segs.len();
    let mut best_start: usize = 0;
    let mut best_len: usize = 0;
    let mut cur_len: usize = 0;
    let mut i: usize = 0;
    while i < n
        invariant
            n == segs@.len(),
            0 <= i <= n,
            cur_len <= i,
            zero_run(segs@, i - cur_len, cur_len as int),
            i - cur_len == 0 || segs@[i - cur_len - 1] != 0,
            zero_run(segs@, best_start as int, best_len as int),
            best_start + best_len <= i,
            forall|st: int, l: int| #[trigger]
                zero_run(segs@, st, l) && st + l <= i ==> l <= best_len,
            forall|st: int|
                0 <= st < best_start ==> !(#[trigger] zero_run(segs@, st, best_len as int) && st
                    + best_len <= i),
        decreases n - i,
    {
        if segs[i] == 0 {
            cur_len = cur_len + 1;
            let ghost start = i + 1 - cur_len;
            proof {
                assert forall|st: int, l: int| #[trigger]
                    zero_run(segs@, st, l) && st + l <= i + 1 implies l <= if cur_len > best_len {
                    cur_len
                } else {
                    best_len
                } by {
                    if st + l == i + 1 && l > 0 && st < start {
                        assert(segs@[start - 1] == 0);
                    }
                }
            }
            if cur_len > best_len {
                proof {
                    assert forall|st: int| 0 <= st < start implies !(#[trigger] zero_run(
                        segs@,
                        st,
                        cur_len as int,
                    ) && st + cur_len <= i + 1) by {
                        if zero_run(segs@, st, cur_len as int) && st + cur_len <= i + 1 {
                            assert(segs@[start - 1] == 0);
                        }
                    }
                }
                best_start = i + 1 - cur_len;
                best_len = cur_len;
            } else {
                proof {
                    assert forall|st: int| 0 <= st < best_start implies !(#[trigger] zero_run(
                        segs@,
                        st,
                        best_len as int,
                    ) && st + best_len <= i + 1) by {
                        if zero_run(segs@, st, best_len as int) && st + best_len == i + 1 {
                            if st < start {
                                assert(segs@[start - 1] == 0);
                            }
                        }
                    }
                }
            }
        } else {
            proof {
                assert forall|st: int, l: int| #[trigger]
                    zero_run(segs@, st, l) && st + l <= i + 1 implies l <= best_len by {
                    if st + l == i + 1 && l > 0 {
                        assert(segs@[i as int] == 0);
                    }
                }
                assert forall|st: int| 0 <= st < best_start implies !(#[trigger] zero_run(
                    segs@,
                    st,
                    best_len as int,
                ) && st + best_len <= i + 1) by {
                    if zero_run(segs@, st, best_len as int) && st + best_len == i + 1 && best_len > 0 {
                        assert(segs@[i as int] == 0);
                    }
                }
            }
            cur_len = 0;
        }
        i = i + 1;
    }
    (best_start, best_len)
}

/// The first longest run of zero groups is unique.
proof fn lemma_first_longest_zero_run_unique(s: Seq<u16>, st1: int, l1: int, st2: int, l2: int)
    requires
        first_longest_zero_run(s, st1, l1),
        first_longest_zero_run(s, st2, l2),
    ensures
        st1 == st2,
        l1 == l2,
{
    assert(l1 <= l2 && l2 <= l1);
    if st1 < st2 {
        assert(zero_run(s, st1, l2));
    } else if st2 < st1 {
        assert(zero_run(s, st2, l1));
    }
}

/// The canonical text of the IPv6 address `a`, as ASCII codes.
#[verifier::spinoff_prover]
#[verifier::rlimit(40)]
fn ipv6_text_bytes(a: &[u8; 16]) -> (r: Vec<u8>)
    ensures
        r@ == ipv6_text(a@),
        ascii_bytes(r@),
{
    let mut segs: Vec<u16> = Vec::new();
    let mut i: usize = 0;
    while i < 8
        invariant
            0 <= i <= 8,
            segs@ == ipv6_segments(a@).take(i as int),
        decreases 8 - i,
    {
        segs.push(a[2 * i] as u16 * 256 + a[2 * i + 1] as u16);
        assert(segs@ =~= ipv6_segments(a@).take(i + 1));
        i = i + 1;
    }
    assert(segs@ =~= ipv6_segments(a@));
    let mut out: Vec<u8> = Vec::new();
    if segs[0] == 0 && segs[1] == 0 && segs[2] == 0 && segs[3] == 0 && segs[4] == 0 && segs[5]
        == 0xffff {
        out.push(0x3a);
        out.push(0x3a);
        out.push(0x66);
        out.push(0x66);
        out.push(0x66);
        out.push(0x66);
        out.push(0x3a);
        push_dotted(a[12], a[13], a[14], a[15], &mut out);
        proof {
            assert(a@.subrange(12, 16) =~= seq![a[12], a[13], a[14], a[15]]);
            assert(out@ =~= ipv6_text(a@));
            lemma_decimal_bytes(a[12] as nat);
            lemma_decimal_bytes(a[13] as nat);
            lemma_decimal_bytes(a[14] as nat);
            lemma_decimal_bytes(a[15] as nat);
        }
        return out;
    }
    let (start, len) = longest_zero_run(&segs);
    proof {
        let (st, l) = choose|st: int, l: int| first_longest_zero_run(segs@, st, l);
        lemma_first_longest_zero_run_unique(segs@, st, l, start as int, len as int);
        lemma_joined_ascii(segs@);
        lemma_joined_ascii(segs@.take(start as int));
        lemma_joined_ascii(segs@.skip(start + len));
    }
    if len > 1 {
        push_joined(&segs, 0, start, &mut out);
        out.push(0x3a);
        out.push(0x3a);
        push_joined(&segs, start + len, 8, &mut out);
        assert(segs@.subrange(0, start as int) =~= segs@.take(start as int));
        assert(segs@.subrange(start + len, 8) =~= segs@.skip(start + len));
    } else {
        push_joined(&segs, 0, 8, &mut out);
        assert(segs@.subrange(0, 8) =~= segs@);
    }
    out
}

impl TargetAddr {
    /// The text to connect upstream with: `name:port`, `a.b.c.d:port` or
    /// `[ipv6]:port`, as `Display` of std's address types writes them.
    pub fn to_connect_string(&self) -> (r: String)
        ensures
            r@ == connect_text(self@),
    {
        match self {
            TargetAddr::Domain(name, port) => {
                let mut s = String::from_str(name.as_str());
                s.append(":");
                s.append(decimal_string(*port as u64).as_str());
                s
            },
            TargetAddr::Ipv4(a, port) => {
                let mut text: Vec<u8> = Vec::new();
                push_dotted(a[0], a[1], a[2], a[3], &mut text);
                proof {
                    assert(a@ =~= seq![a[0], a[1], a[2], a[3]]);
                    lemma_decimal_bytes(a[0] as nat);
                    lemma_decimal_bytes(a[1] as nat);
                    lemma_decimal_bytes(a[2] as nat);
                    lemma_decimal_bytes(a[3] as nat);
                }
                let mut s = ascii_string(text);
                s.append(":");
                s.append(decimal_string(*port as u64).as_str());
                s
            },
            TargetAddr::Ipv6(a, port) => {
                let text = ipv6_text_bytes(a);
                let mut s = String::from_str("[");
                s.append(ascii_string(text).as_str());
                s.append("]:");
                s.append(decimal_string(*port as u64).as_str());
                s
            },
        }
    }
}

} // verus!
