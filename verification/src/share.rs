//! The `trojan://` link that client apps such as Shadowrocket import.
use vstd::prelude::*;
use vstd::utf8::*;
use crate::config::ServerConfig;
use crate::text::{decimal, decimal_digit, decimal_string};

verus! {

/// A byte that `urlencoding` leaves as it is: ASCII letters, digits, `-`, `.`, `_`, `~`.
pub open spec fn is_url_unreserved(b: u8) -> bool {
    ||| 0x30 <= b <= 0x39
    ||| 0x41 <= b <= 0x5a
    ||| 0x61 <= b <= 0x7a
    ||| b == 0x2d
    ||| b == 0x2e
    ||| b == 0x5f
    ||| b == 0x7e
}

/// The upper-case hexadecimal digit of `v` (below 16).
pub open spec fn hex_digit_upper(v: int) -> char {
    if v < 10 {
        (v + 0x30) as char
    } else {
        (v - 10 + 0x41) as char
    }
}

/// One byte percent-encoded: itself if unreserved, else `%` and two upper-case hex digits.
pub open spec fn percent_encode_byte(b: u8) -> Seq<char> {
    if is_url_unreserved(b) {
        seq![b as char]
    } else {
        seq!['%', hex_digit_upper(b as int / 16), hex_digit_upper(b as int % 16)]
    }
}

/// Bytes percent-encoded one by one.
pub open spec fn percent_encode(bytes: Seq<u8>) -> Seq<char>
    decreases bytes.len(),
{
    if bytes.len() == 0 {
        Seq::empty()
    } else {
        percent_encode_byte(bytes[0]) + percent_encode(bytes.drop_first())
    }
}

/// The text `s` percent-encoded over its UTF-8 bytes.
pub open spec fn url_encoded(s: Seq<char>) -> Seq<char> {
    percent_encode(encode_utf8(s))
}

/// `urlencoding::encode`: percent-encodes every UTF-8 byte of `s` but
/// alphanumerics and `-`, `.`, `_`, `~`.
///
/// Trusted: `urlencoding` 2.1 copies the unreserved bytes and writes each other
/// byte as `%` with two digits of `0123456789ABCDEF`; the contract states exactly that.
#[verifier::external_body]
fn url_encode(s: &str) -> (r: String)
    ensures
        r@ == url_encoded(s@),
{
    urlencoding::encode(s).into_owned()
}

/// The name a node is shown with: the configured one, else `lowprint-<domain>`.
pub open spec fn node_display_name(node_name: Option<Seq<char>>, domain: Seq<char>) -> Seq<char> {
    match node_name {
        Some(name) => name,
        None => "lowprint-"@ + domain,
    }
}

/// The link `trojan://<password>@<domain>:<port>?sni=<domain>#<name>`, with the
/// password, the SNI domain and the name percent-encoded.
pub open spec fn trojan_uri(
    password: Seq<char>,
    domain: Seq<char>,
    port: u16,
    node_name: Option<Seq<char>>,
) -> Seq<char> {
    "trojan://"@ + url_encoded(password) + "@"@ + domain + ":"@ + decimal(port as nat) + "?sni="@
        + url_encoded(domain) + "#"@ + url_encoded(node_display_name(node_name, domain))
}

/// The view of an optional string.
pub open spec fn option_view(o: Option<String>) -> Option<Seq<char>> {
    match o {
        Some(s) => Some(s@),
        None => None,
    }
}

/// The `trojan://` link of the server, to import into Shadowrocket.
pub fn shadowrocket_uri(config: &ServerConfig) -> (r: String)
    ensures
        r@ == trojan_uri(
            config.password@,
            config.domain@,
            config.listen.port_of(),
            option_view(config.node_name),
        ),
{
    let name = match &config.node_name {
        Some(name) => name.clone(),
        None => String::from_str("lowprint-").concat(config.domain.as_str()),
    };
    let port = decimal_string(config.listen.port() as u64);
    let mut uri = String::from_str("trojan://");
    uri.append(url_encode(config.password.as_str()).as_str());
    uri.append("@");
    uri.append(config.domain.as_str());
    uri.append(":");
    uri.append(port.as_str());
    uri.append("?sni=");
    uri.append(url_encode(config.domain.as_str()).as_str());
    uri.append("#");
    uri.append(url_encode(name.as_str()).as_str());
    uri
}

/* Reading the link back */

/// A character that percent-encoded text is made of: an unreserved one or `%`.
pub open spec fn is_url_text_char(c: char) -> bool {
    ||| '0' <= c <= '9'
    ||| 'A' <= c <= 'Z'
    ||| 'a' <= c <= 'z'
    ||| c == '-'
    ||| c == '.'
    ||| c == '_'
    ||| c == '~'
    ||| c == '%'
}

/// A hexadecimal digit, either case.
pub open spec fn is_hex_digit(c: char) -> bool {
    '0' <= c <= '9' || 'A' <= c <= 'F' || 'a' <= c <= 'f'
}

/// The value of the hexadecimal digit `c`.
pub open spec fn hex_value(c: char) -> int {
    if '0' <= c <= '9' {
        c as int - 0x30
    } else if 'A' <= c <= 'F' {
        c as int - 0x41 + 10
    } else {
        c as int - 0x61 + 10
    }
}

/// Percent-decoding: `%` and two hex digits give that byte, an ASCII character
/// gives its code; `None` for a stray `%` or a non-ASCII character.
pub open spec fn percent_decode(s: Seq<char>) -> Option<Seq<u8>>
    decreases s.len(),
{
    if s.len() == 0 {
        Some(Seq::empty())
    } else if s[0] == '%' {
        if s.len() >= 3 && is_hex_digit(s[1]) && is_hex_digit(s[2]) {
            match percent_decode(s.skip(3)) {
                Some(rest) => Some(seq![(hex_value(s[1]) * 16 + hex_value(s[2])) as u8] + rest),
                None => None,
            }
        } else {
            None
        }
    } else if (s[0] as u32) < 0x80 {
        match percent_decode(s.drop_first()) {
            Some(rest) => Some(seq![s[0] as u8] + rest),
            None => None,
        }
    } else {
        None
    }
}

/// The text of `s` before the first `c` (all of `s` when there is none).
pub open spec fn up_to_first(s: Seq<char>, c: char) -> Seq<char>
    decreases s.len(),
{
    if s.len() == 0 {
        s
    } else if s[0] == c {
        Seq::empty()
    } else {
        seq![s[0]] + up_to_first(s.drop_first(), c)
    }
}

/// The text of `s` after the first `c` (nothing when there is none).
pub open spec fn after_first(s: Seq<char>, c: char) -> Seq<char>
    decreases s.len(),
{
    if s.len() == 0 {
        s
    } else if s[0] == c {
        s.drop_first()
    } else {
        after_first(s.drop_first(), c)
    }
}

proof fn lemma_hex_digit_upper(v: int)
    requires
        0 <= v < 16,
    ensures
        is_url_text_char(hex_digit_upper(v)),
        is_hex_digit(hex_digit_upper(v)),
        hex_value(hex_digit_upper(v)) == v,
{
}

/// Percent-encoded text is made of unreserved characters and `%` only.
pub proof fn lemma_percent_encode_is_url_text(bytes: Seq<u8>)
    ensures
        forall|i: int|
            0 <= i < percent_encode(bytes).len() ==> is_url_text_char(
                #[trigger] percent_encode(bytes)[i],
            ),
    decreases bytes.len(),
{
    if bytes.len() > 0 {
        let b = bytes[0];
        lemma_percent_encode_is_url_text(bytes.drop_first());
        lemma_hex_digit_upper(b as int / 16);
        lemma_hex_digit_upper(b as int % 16);
        let head = percent_encode_byte(b);
        let tail = percent_encode(bytes.drop_first());
        assert forall|i: int| 0 <= i < head.len() implies is_url_text_char(#[trigger] head[i]) by {}
        assert forall|i: int| 0 <= i < (head + tail).len() implies is_url_text_char(
            #[trigger] (head + tail)[i],
        ) by {
            if i >= head.len() {
                assert((head + tail)[i] == tail[i - head.len()]);
            }
        }
    }
}

/// Percent-decoding gives back the bytes that were encoded.
pub proof fn lemma_percent_decode_encode(bytes: Seq<u8>)
    ensures
        percent_decode(percent_encode(bytes)) == Some(bytes),
    decreases bytes.len(),
{
    if bytes.len() > 0 {
        let b = bytes[0];
        let head = percent_encode_byte(b);
        let tail = percent_encode(bytes.drop_first());
        let s = head + tail;
        lemma_percent_decode_encode(bytes.drop_first());
        if is_url_unreserved(b) {
            assert(s[0] == b as char);
            assert(s.drop_first() =~= tail);
            assert((b as char) as u8 == b);
        } else {
            lemma_hex_digit_upper(b as int / 16);
            lemma_hex_digit_upper(b as int % 16);
            assert(s.skip(3) =~= tail);
            assert(s[1] == hex_digit_upper(b as int / 16));
            assert(s[2] == hex_digit_upper(b as int % 16));
        }
        assert(seq![b] + bytes.drop_first() =~= bytes);
    }
}

proof fn lemma_up_to_first(a: Seq<char>, c: char, rest: Seq<char>)
    requires
        !a.contains(c),
    ensures
        up_to_first(a + seq![c] + rest, c) == a,
        after_first(a + seq![c] + rest, c) == rest,
    decreases a.len(),
{
    let s = a + seq![c] + rest;
    if a.len() == 0 {
        assert(s.drop_first() =~= rest);
    } else {
        assert(s[0] == a[0]);
        assert(s.drop_first() =~= a.drop_first() + seq![c] + rest);
        assert(!a.drop_first().contains(c)) by {
            if a.drop_first().contains(c) {
                let k = choose|k: int| 0 <= k < a.drop_first().len() && a.drop_first()[k] == c;
                assert(a[k + 1] == c);
            }
        }
        lemma_up_to_first(a.drop_first(), c, rest);
        assert(seq![a[0]] + a.drop_first() =~= a);
    }
}

proof fn lemma_no_char_in_concat(a: Seq<char>, b: Seq<char>, c: char)
    requires
        !a.contains(c),
        !b.contains(c),
    ensures
        !(a + b).contains(c),
{
    if (a + b).contains(c) {
        let k = choose|k: int| 0 <= k < (a + b).len() && (a + b)[k] == c;
        if k < a.len() {
            assert(a[k] == c);
        } else {
            assert(b[k - a.len()] == c);
        }
    }
}

proof fn lemma_url_encoded_has_no(s: Seq<char>, c: char)
    requires
        !is_url_text_char(c),
    ensures
        !url_encoded(s).contains(c),
{
    lemma_percent_encode_is_url_text(encode_utf8(s));
}

proof fn lemma_decimal_has_no_hash(v: nat)
    ensures
        !decimal(v).contains('#'),
    decreases v,
{
    if v >= 10 {
        lemma_decimal_has_no_hash(v / 10);
        lemma_no_char_in_concat(decimal(v / 10), seq![decimal_digit((v % 10) as int)], '#');
    }
}

/// The share link reads back as it was written: the text between `trojan://`
/// and the first `@` percent-decodes to the UTF-8 of the password, and, when
/// the domain holds no `#`, the text after the first `#` percent-decodes to
/// the UTF-8 of the node's name. The encoded password and name are made of
/// unreserved characters and `%` only, so no `@`, `:`, `/`, `?`, `#` or space
/// of theirs appears in the link as it is.
pub proof fn lemma_share_link_round_trip(
    password: Seq<char>,
    domain: Seq<char>,
    port: u16,
    node_name: Option<Seq<char>>,
)
    requires
        !domain.contains('#'),
    ensures
        ({
            let u = trojan_uri(password, domain, port, node_name);
            let name = node_display_name(node_name, domain);
            &&& u.len() >= 9 && u.take(9) == "trojan://"@
            &&& percent_decode(up_to_first(u.skip(9), '@')) == Some(encode_utf8(password))
            &&& percent_decode(after_first(u, '#')) == Some(encode_utf8(name))
            &&& forall|i: int|
                0 <= i < url_encoded(password).len() ==> is_url_text_char(
                    #[trigger] url_encoded(password)[i],
                )
            &&& forall|i: int|
                0 <= i < url_encoded(name).len() ==> is_url_text_char(
                    #[trigger] url_encoded(name)[i],
                )
        }),
{
    reveal_strlit("trojan://");
    reveal_strlit("@");
    reveal_strlit(":");
    reveal_strlit("?sni=");
    reveal_strlit("#");
    let u = trojan_uri(password, domain, port, node_name);
    let name = node_display_name(node_name, domain);
    let ep = url_encoded(password);
    let ed = url_encoded(domain);
    let en = url_encoded(name);
    lemma_percent_encode_is_url_text(encode_utf8(password));
    lemma_percent_encode_is_url_text(encode_utf8(name));
    lemma_percent_decode_encode(encode_utf8(password));
    lemma_percent_decode_encode(encode_utf8(name));
    // The password ends at the first `@` after the scheme.
    let after_at = domain + ":"@ + decimal(port as nat) + "?sni="@ + ed + "#"@ + en;
    assert(u =~= "trojan://"@ + ep + "@"@ + after_at);
    assert(u.take(9) =~= "trojan://"@);
    lemma_url_encoded_has_no(password, '@');
    assert(u.skip(9) =~= ep + seq!['@'] + after_at);
    lemma_up_to_first(ep, '@', after_at);
    // The name follows the first `#`.
    let before_hash = "trojan://"@ + ep + "@"@ + domain + ":"@ + decimal(port as nat) + "?sni="@ + ed;
    assert(u =~= before_hash + seq!['#'] + en);
    lemma_url_encoded_has_no(password, '#');
    lemma_url_encoded_has_no(domain, '#');
    lemma_decimal_has_no_hash(port as nat);
    assert(!"trojan://"@.contains('#'));
    assert(!"@"@.contains('#'));
    assert(!":"@.contains('#'));
    assert(!"?sni="@.contains('#'));
    lemma_no_char_in_concat("trojan://"@, ep, '#');
    lemma_no_char_in_concat("trojan://"@ + ep, "@"@, '#');
    lemma_no_char_in_concat("trojan://"@ + ep + "@"@, domain, '#');
    lemma_no_char_in_concat("trojan://"@ + ep + "@"@ + domain, ":"@, '#');
    lemma_no_char_in_concat("trojan://"@ + ep + "@"@ + domain + ":"@, decimal(port as nat), '#');
    lemma_no_char_in_concat(
        "trojan://"@ + ep + "@"@ + domain + ":"@ + decimal(port as nat),
        "?sni="@,
        '#',
    );
    lemma_no_char_in_concat(
        "trojan://"@ + ep + "@"@ + domain + ":"@ + decimal(port as nat) + "?sni="@,
        ed,
        '#',
    );
    lemma_up_to_first(before_hash, '#', en);
}

} // verus!
