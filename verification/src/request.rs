//! The Trojan request that follows the authentication line:
//! `CMD(1) ATYP(1) DST.ADDR DST.PORT(2) CRLF`, with CMD 0x01 (CONNECT) and
//! ATYP 0x01 (IPv4, 4 bytes), 0x03 (domain, length byte then name) or
//! 0x04 (IPv6, 16 bytes).
use vstd::prelude::*;
use vstd::utf8::*;
use vstd::slice::slice_subrange;
use vstd::slice::slice_to_vec;
use crate::text::string_from_utf8;

verus! {

broadcast use vstd::utf8::group_utf8_lib;

/// Where the client asks the server to connect.
#[derive(Debug, Clone, PartialEq, Eq)]
pub enum TargetAddr {
    /// A host name and a port.
    Domain(String, u16),
    /// An IPv4 address (network byte order) and a port.
    Ipv4([u8; 4], u16),
    /// An IPv6 address (network byte order) and a port.
    Ipv6([u8; 16], u16),
}

/// The mathematical model of a [`TargetAddr`].
pub enum SpecTargetAddr {
    Domain(Seq<char>, u16),
    Ipv4(Seq<u8>, u16),
    Ipv6(Seq<u8>, u16),
}

impl View for TargetAddr {
    type V = SpecTargetAddr;

    open spec fn view(&self) -> SpecTargetAddr {
        match self {
            TargetAddr::Domain(name, port) => SpecTargetAddr::Domain(name@, *port),
            TargetAddr::Ipv4(ip, port) => SpecTargetAddr::Ipv4(ip@, *port),
            TargetAddr::Ipv6(ip, port) => SpecTargetAddr::Ipv6(ip@, *port),
        }
    }
}

/// A parsed Trojan CONNECT request.
#[derive(Debug, Clone, PartialEq, Eq)]
pub struct TrojanRequest {
    pub target: TargetAddr,
}

impl View for TrojanRequest {
    type V = SpecTargetAddr;

    open spec fn view(&self) -> SpecTargetAddr {
        self.target@
    }
}

/// Why a request is refused.
#[derive(Debug, Clone, Copy, PartialEq, Eq)]
pub enum RequestError {
    /// The command byte is not CONNECT (0x01).
    UnsupportedCommand(u8),
    /// The address type is none of 0x01, 0x03, 0x04.
    UnsupportedAddressType(u8),
    /// A domain target of length zero.
    EmptyDomain,
    /// The domain bytes are not UTF-8.
    DomainNotUtf8,
    /// The request does not end with CRLF.
    InvalidTerminator,
}

/// What can be decided from the bytes of a request received so far.
#[derive(Debug, Clone, PartialEq, Eq)]
pub enum RequestStatus {
    /// Nothing can be decided before this many bytes (in all) are at hand.
    NeedMore(usize),
    /// The request, and how many bytes it takes up.
    Complete(TrojanRequest, usize),
    /// The request is refused.
    Invalid(RequestError),
}

/// The mathematical model of a [`RequestStatus`].
pub enum SpecRequestStatus {
    NeedMore(nat),
    Complete(SpecTargetAddr, nat),
    Invalid(RequestError),
}

impl View for RequestStatus {
    type V = SpecRequestStatus;

    open spec fn view(&self) -> SpecRequestStatus {
        match self {
            RequestStatus::NeedMore(n) => SpecRequestStatus::NeedMore(*n as nat),
            RequestStatus::Complete(req, n) => SpecRequestStatus::Complete(req@, *n as nat),
            RequestStatus::Invalid(e) => SpecRequestStatus::Invalid(*e),
        }
    }
}

/// The command byte of CONNECT.
pub const CMD_CONNECT: u8 = 0x01;

/// Address type: IPv4.
pub const ATYP_IPV4: u8 = 0x01;

/// Address type: domain name.
pub const ATYP_DOMAIN: u8 = 0x03;

/// Address type: IPv6.
pub const ATYP_IPV6: u8 = 0x04;

/// Total length of a request for an IPv4 target.
pub const IPV4_REQUEST_LEN: usize = 10;

/// Total length of a request for an IPv6 target.
pub const IPV6_REQUEST_LEN: usize = 22;

/// The 16-bit big-endian number made of `hi` and `lo`.
pub open spec fn be_u16(hi: u8, lo: u8) -> u16 {
    (hi as int * 256 + lo as int) as u16
}

/// `s` holds CR LF at positions `i` and `i + 1`.
pub open spec fn crlf_at(s: Seq<u8>, i: int) -> bool {
    s[i] == 0x0d && s[i + 1] == 0x0a
}

/// A request whose address is `addr_len` raw bytes after the two header bytes:
/// the address, a big-endian port, then CRLF.
pub open spec fn fixed_address_status(s: Seq<u8>, addr_len: int, ipv6: bool) -> SpecRequestStatus {
    let total = 2 + addr_len + 4;
    if s.len() < total {
        SpecRequestStatus::NeedMore(total as nat)
    } else if !crlf_at(s, total - 2) {
        SpecRequestStatus::Invalid(RequestError::InvalidTerminator)
    } else {
        let ip = s.subrange(2, 2 + addr_len);
        let port = be_u16(s[2 + addr_len], s[2 + addr_len + 1]);
        SpecRequestStatus::Complete(
            if ipv6 {
                SpecTargetAddr::Ipv6(ip, port)
            } else {
                SpecTargetAddr::Ipv4(ip, port)
            },
            total as nat,
        )
    }
}

/// A request for a domain target: a length byte `n` (not zero), `n` bytes of
/// UTF-8, a big-endian port, then CRLF. The name is checked to be UTF-8 once
/// the port is at hand, before the terminator is looked at.
pub open spec fn domain_status(s: Seq<u8>) -> SpecRequestStatus {
    if s.len() < 3 {
        SpecRequestStatus::NeedMore(3)
    } else if s[2] == 0 {
        SpecRequestStatus::Invalid(RequestError::EmptyDomain)
    } else {
        let n = s[2] as int;
        if s.len() < 3 + n + 2 {
            SpecRequestStatus::NeedMore((3 + n + 2) as nat)
        } else if !valid_utf8(s.subrange(3, 3 + n)) {
            SpecRequestStatus::Invalid(RequestError::DomainNotUtf8)
        } else if s.len() < 3 + n + 4 {
            SpecRequestStatus::NeedMore((3 + n + 4) as nat)
        } else if !crlf_at(s, 3 + n + 2) {
            SpecRequestStatus::Invalid(RequestError::InvalidTerminator)
        } else {
            SpecRequestStatus::Complete(
                SpecTargetAddr::Domain(
                    decode_utf8(s.subrange(3, 3 + n)),
                    be_u16(s[3 + n], s[3 + n + 1]),
                ),
                (3 + n + 4) as nat,
            )
        }
    }
}

/// What the bytes `s` received so far say of a request: the two header bytes
/// are read first, then the address, port and terminator that the address type
/// calls for.
pub open spec fn request_status(s: Seq<u8>) -> SpecRequestStatus {
    if s.len() < 2 {
        SpecRequestStatus::NeedMore(2)
    } else if s[0] != CMD_CONNECT {
        SpecRequestStatus::Invalid(RequestError::UnsupportedCommand(s[0]))
    } else if s[1] == ATYP_IPV4 {
        fixed_address_status(s, 4, false)
    } else if s[1] == ATYP_DOMAIN {
        domain_status(s)
    } else if s[1] == ATYP_IPV6 {
        fixed_address_status(s, 16, true)
    } else {
        SpecRequestStatus::Invalid(RequestError::UnsupportedAddressType(s[1]))
    }
}

/// The big-endian port stored at `buf[at]`, `buf[at + 1]`.
pub fn read_port(buf: &[u8], at: usize) -> (port: u16)
    requires
        at + 2 <= buf@.len(),
    ensures
        port == be_u16(buf@[at as int], buf@[at + 1]),
{
    let hi = buf[at] as u16;
    let lo = buf[at + 1] as u16;
    hi * 256 + lo
}

fn has_crlf(buf: &[u8], at: usize) -> (r: bool)
    requires
        at + 2 <= buf@.len(),
    ensures
        r == crlf_at(buf@, at as int),
{
    buf[at] == 0x0d && buf[at + 1] == 0x0a
}

/// Decides what the bytes `buf` received so far say of a Trojan request.
///
/// A reader that reads exactly up to each `NeedMore` total never reads past
/// the request (see `lemma_request_reads_no_further`).
pub fn read_request(buf: &[u8]) -> (r: RequestStatus)
    ensures
        r@ == request_status(buf@),
{
    let len = buf.len();
    if len < 2 {
        return RequestStatus::NeedMore(2);
    }
    if buf[0] != CMD_CONNECT {
        return RequestStatus::Invalid(RequestError::UnsupportedCommand(buf[0]));
    }
    let atyp = buf[1];
    if atyp == ATYP_IPV4 {
        if len < IPV4_REQUEST_LEN {
            return RequestStatus::NeedMore(IPV4_REQUEST_LEN);
        }
        if !has_crlf(buf, 8) {
            return RequestStatus::Invalid(RequestError::InvalidTerminator);
        }
        let ip: [u8; 4] = [buf[2], buf[3], buf[4], buf[5]];
        let port = read_port(buf, 6);
        assert(ip@ =~= buf@.subrange(2, 6));
        RequestStatus::Complete(TrojanRequest { target: TargetAddr::Ipv4(ip, port) }, IPV4_REQUEST_LEN)
    } else if atyp == ATYP_DOMAIN {
        if len < 3 {
            return RequestStatus::NeedMore(3);
        }
        let n = buf[2] as usize;
        if n == 0 {
            return RequestStatus::Invalid(RequestError::EmptyDomain);
        }
        if len < 3 + n + 2 {
            return RequestStatus::NeedMore(3 + n + 2);
        }
        let name_bytes = slice_to_vec(slice_subrange(buf, 3, 3 + n));
        let name = match string_from_utf8(name_bytes) {
            Some(name) => name,
            None => {
                return RequestStatus::Invalid(RequestError::DomainNotUtf8);
            },
        };
        let port = read_port(buf, 3 + n);
        if len < 3 + n + 4 {
            return RequestStatus::NeedMore(3 + n + 4);
        }
        if !has_crlf(buf, 3 + n + 2) {
            return RequestStatus::Invalid(RequestError::InvalidTerminator);
        }
        RequestStatus::Complete(TrojanRequest { target: TargetAddr::Domain(name, port) }, 3 + n + 4)
    } else if atyp == ATYP_IPV6 {
        if len < IPV6_REQUEST_LEN {
            return RequestStatus::NeedMore(IPV6_REQUEST_LEN);
        }
        if !has_crlf(buf, 20) {
            return RequestStatus::Invalid(RequestError::InvalidTerminator);
        }
        let ip: [u8; 16] = [
            buf[2], buf[3], buf[4], buf[5], buf[6], buf[7], buf[8], buf[9],
            buf[10], buf[11], buf[12], buf[13], buf[14], buf[15], buf[16], buf[17],
        ];
        let port = read_port(buf, 18);
        assert(ip@ =~= buf@.subrange(2, 18));
        RequestStatus::Complete(TrojanRequest { target: TargetAddr::Ipv6(ip, port) }, IPV6_REQUEST_LEN)
    } else {
        RequestStatus::Invalid(RequestError::UnsupportedAddressType(atyp))
    }
}

/// The two big-endian bytes of a port.
pub open spec fn port_bytes(port: u16) -> Seq<u8> {
    seq![(port / 256) as u8, (port % 256) as u8]
}

/// The bytes of a CONNECT request for the target `t`, as a client writes them.
pub open spec fn request_bytes(t: SpecTargetAddr) -> Seq<u8> {
    match t {
        SpecTargetAddr::Ipv4(ip, port) => seq![CMD_CONNECT, ATYP_IPV4] + ip + port_bytes(port)
            + seq![0x0du8, 0x0a],
        SpecTargetAddr::Ipv6(ip, port) => seq![CMD_CONNECT, ATYP_IPV6] + ip + port_bytes(port)
            + seq![0x0du8, 0x0a],
        SpecTargetAddr::Domain(name, port) => seq![
            CMD_CONNECT,
            ATYP_DOMAIN,
            encode_utf8(name).len() as u8,
        ] + encode_utf8(name) + port_bytes(port) + seq![0x0du8, 0x0a],
    }
}

/// A target that a request can carry: a 4-byte IPv4 or 16-byte IPv6 address,
/// or a name of 1 to 255 UTF-8 bytes.
pub open spec fn is_request_target(t: SpecTargetAddr) -> bool {
    match t {
        SpecTargetAddr::Ipv4(ip, _) => ip.len() == 4,
        SpecTargetAddr::Ipv6(ip, _) => ip.len() == 16,
        SpecTargetAddr::Domain(name, _) => 1 <= encode_utf8(name).len() <= 255,
    }
}

proof fn lemma_port_bytes(port: u16)
    ensures
        be_u16(port_bytes(port)[0], port_bytes(port)[1]) == port,
{
    assert(port == (port / 256) * 256 + port % 256);
}

/// A complete request is exactly the bytes a client writes for the target it
/// names: the address bytes in the order received, the port big-endian, then
/// CRLF, and nothing more is taken up.
pub proof fn lemma_complete_request_is_its_bytes(s: Seq<u8>)
    requires
        request_status(s) is Complete,
    ensures
        request_status(s) matches SpecRequestStatus::Complete(t, n) && is_request_target(t) && n
            == request_bytes(t).len() && s.take(n as int) == request_bytes(t),
{
    let (t, n) = match request_status(s) {
        SpecRequestStatus::Complete(t, n) => (t, n),
        _ => arbitrary(),
    };
    if s[1] == ATYP_DOMAIN {
        let k = s[2] as int;
        let raw = s.subrange(3, 3 + k);
        assert(encode_utf8(decode_utf8(raw)) == raw);
        let port = be_u16(s[3 + k], s[3 + k + 1]);
        assert(port_bytes(port) =~= seq![s[3 + k], s[3 + k + 1]]);
        assert(s.take(n as int) =~= request_bytes(t));
    } else {
        let len = if s[1] == ATYP_IPV4 { 4int } else { 16int };
        let port = be_u16(s[2 + len], s[2 + len + 1]);
        assert(port_bytes(port) =~= seq![s[2 + len], s[2 + len + 1]]);
        assert(s.take(n as int) =~= request_bytes(t));
    }
}

/// The bytes a client writes for a target are read as that target, whatever
/// follows them.
pub proof fn lemma_request_bytes_read_back(t: SpecTargetAddr, rest: Seq<u8>)
    requires
        is_request_target(t),
    ensures
        request_status(request_bytes(t) + rest) == SpecRequestStatus::Complete(
            t,
            request_bytes(t).len() as nat,
        ),
{
    let s = request_bytes(t) + rest;
    match t {
        SpecTargetAddr::Ipv4(ip, port) => {
            lemma_port_bytes(port);
            assert(s.subrange(2, 6) =~= ip);
            assert(s[6] == port_bytes(port)[0] && s[7] == port_bytes(port)[1]);
        },
        SpecTargetAddr::Ipv6(ip, port) => {
            lemma_port_bytes(port);
            assert(s.subrange(2, 18) =~= ip);
            assert(s[18] == port_bytes(port)[0] && s[19] == port_bytes(port)[1]);
        },
        SpecTargetAddr::Domain(name, port) => {
            let raw = encode_utf8(name);
            let k = raw.len() as int;
            lemma_port_bytes(port);
            assert(s[2] == k);
            assert(s.subrange(3, 3 + k) =~= raw);
            assert(s[3 + k] == port_bytes(port)[0] && s[3 + k + 1] == port_bytes(port)[1]);
            assert(s[3 + k + 2] == 0x0d && s[3 + k + 3] == 0x0a);
        },
    }
}

/// What a request is refused for, read off its bytes: a command other than
/// CONNECT, an unknown address type, a zero-length name, a name that is not
/// UTF-8, or anything but CRLF where the terminator belongs.
pub proof fn lemma_request_refusals(s: Seq<u8>)
    ensures
        s.len() >= 2 && s[0] != 0x01 ==> request_status(s) == SpecRequestStatus::Invalid(
            RequestError::UnsupportedCommand(s[0]),
        ),
        s.len() >= 2 && s[0] == 0x01 && s[1] != 0x01 && s[1] != 0x03 && s[1] != 0x04
            ==> request_status(s) == SpecRequestStatus::Invalid(
            RequestError::UnsupportedAddressType(s[1]),
        ),
        s.len() >= 3 && s[0] == 0x01 && s[1] == 0x03 && s[2] == 0 ==> request_status(s)
            == SpecRequestStatus::Invalid(RequestError::EmptyDomain),
        s.len() >= 3 && s[0] == 0x01 && s[1] == 0x03 && s[2] != 0 && s.len() >= 3 + s[2] + 2
            && !valid_utf8(s.subrange(3, 3 + s[2] as int)) ==> request_status(s)
            == SpecRequestStatus::Invalid(RequestError::DomainNotUtf8),
        s.len() >= 10 && s[0] == 0x01 && s[1] == 0x01 && !(s[8] == 0x0d && s[9] == 0x0a)
            ==> request_status(s) == SpecRequestStatus::Invalid(RequestError::InvalidTerminator),
        s.len() >= 22 && s[0] == 0x01 && s[1] == 0x04 && !(s[20] == 0x0d && s[21] == 0x0a)
            ==> request_status(s) == SpecRequestStatus::Invalid(RequestError::InvalidTerminator),
{
}

/// Bytes beyond a decision do not change it: once a request is complete or
/// refused, what follows it on the stream (the payload) plays no part.
pub proof fn lemma_request_decision_is_final(s: Seq<u8>, t: Seq<u8>)
    requires
        !(request_status(s) is NeedMore),
    ensures
        request_status(s + t) == request_status(s),
{
    let u = s + t;
    assert forall|i: int| 0 <= i < s.len() implies u[i] == s[i] by {}
    if s.len() >= 3 {
        let n = s[2] as int;
        if 3 + n <= s.len() {
            assert(u.subrange(3, 3 + n) =~= s.subrange(3, 3 + n));
        }
    }
    if s.len() >= 6 {
        assert(u.subrange(2, 6) =~= s.subrange(2, 6));
    }
    if s.len() >= 18 {
        assert(u.subrange(2, 18) =~= s.subrange(2, 18));
    }
}

/// Asking for more bytes always asks for more than are at hand.
pub proof fn lemma_request_need_more_grows(s: Seq<u8>)
    ensures
        request_status(s) matches SpecRequestStatus::NeedMore(n) ==> n > s.len(),
{
}

/// Until the bytes asked for have all come, the answer stays the same: a reader
/// that is asked for `n` bytes in all may read them in any number of pieces.
pub proof fn lemma_request_need_more_is_stable(s: Seq<u8>, t: Seq<u8>)
    requires
        request_status(s) matches SpecRequestStatus::NeedMore(n) && s.len() + t.len() < n,
    ensures
        request_status(s + t) == request_status(s),
{
    let u = s + t;
    assert forall|i: int| 0 <= i < s.len() implies u[i] == s[i] by {}
    if s.len() >= 3 {
        let n = s[2] as int;
        if 3 + n <= s.len() {
            assert(u.subrange(3, 3 + n) =~= s.subrange(3, 3 + n));
        }
    }
}

/// A complete request ends with CRLF within the bytes at hand, and every
/// shorter prefix of it asks for more bytes, never for more than the request
/// holds: a reader that reads exactly what is asked stops at the end of the
/// request and leaves the payload that follows unread.
pub proof fn lemma_request_reads_no_further(s: Seq<u8>, j: int)
    requires
        request_status(s) matches SpecRequestStatus::Complete(_, k) && 0 <= j < k,
    ensures
        request_status(s) matches SpecRequestStatus::Complete(_, k) && k <= s.len() && crlf_at(s, k - 2),
        request_status(s.take(j)) matches SpecRequestStatus::NeedMore(n) && j < n <= (
        request_status(s) ->Complete_1),
{
    let p = s.take(j);
    assert forall|i: int| 0 <= i < j implies p[i] == s[i] by {}
    if j >= 3 {
        let n = s[2] as int;
        if 3 + n <= j {
            assert(p.subrange(3, 3 + n) =~= s.subrange(3, 3 + n));
        }
    }
}

} // verus!
