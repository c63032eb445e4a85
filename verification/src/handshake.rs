//! The decisions of a Trojan session between the TLS handshake and the
//! proxying of bytes: read the authentication line, check it, read the
//! request, then connect upstream or refuse.
//!
//! The caller does the reading: it asks [`Handshake::next_action`] what to
//! do, reads exactly the number of bytes asked for, hands them to
//! [`Handshake::push_bytes`], and asks again.
use vstd::prelude::*;
use crate::auth::{
    lemma_line_complete_prefix, lemma_line_decision_is_final, lemma_line_reads_no_further, line_status, password_matches,
    read_crlf_line, verify_password_hash, LineError, LineStatus, SpecLineStatus, MAX_AUTH_LINE,
};
use crate::request::{
    lemma_request_decision_is_final, lemma_request_reads_no_further, read_request,
    request_status, RequestError, RequestStatus, SpecRequestStatus, SpecTargetAddr, TargetAddr,
};
use vstd::slice::slice_subrange;
use vstd::utf8::*;
use crate::auth::lemma_line_then_crlf;
use crate::request::{is_request_target, lemma_request_bytes_read_back, request_bytes};

verus! {

/// Why a session is refused before any upstream connection is made.
#[derive(Debug, Clone, Copy, PartialEq, Eq)]
pub enum HandshakeError {
    /// The authentication line is too long or not UTF-8.
    Line(LineError),
    /// The authentication line is not a hash of the password.
    AuthenticationFailed,
    /// The request is malformed or not supported.
    Request(RequestError),
}

/// What a refused session is answered before the connection is closed: a
/// plain HTTP 400 page, so that a probe sees an ordinary HTTPS server.
pub fn fallback_response() -> (r: &'static str)
    ensures
        r@ == "HTTP/1.1 400 Bad Request\r\nContent-Type: text/plain\r\nContent-Length: 12\r\n\r\nBad Request\n"@,
{
    "HTTP/1.1 400 Bad Request\r\nContent-Type: text/plain\r\nContent-Length: 12\r\n\r\nBad Request\n"
}

/// What the session does next.
#[derive(Debug, Clone, PartialEq, Eq)]
pub enum HandshakeAction {
    /// Read exactly this many more bytes from the client.
    Read(usize),
    /// Connect to this target and relay bytes both ways.
    Connect(TargetAddr),
    /// Answer with the fallback page, close, and report the error.
    Reject(HandshakeError),
}

/// The mathematical model of a [`HandshakeAction`].
pub enum SpecHandshakeAction {
    Read(nat),
    Connect(SpecTargetAddr),
    Reject(HandshakeError),
}

impl View for HandshakeAction {
    type V = SpecHandshakeAction;

    open spec fn view(&self) -> SpecHandshakeAction {
        match self {
            HandshakeAction::Read(n) => SpecHandshakeAction::Read(*n as nat),
            HandshakeAction::Connect(t) => SpecHandshakeAction::Connect(t@),
            HandshakeAction::Reject(e) => SpecHandshakeAction::Reject(*e),
        }
    }
}

/// What a session does after receiving the bytes `received` from a client,
/// when the server's password is `password`.
pub open spec fn handshake_action(password: Seq<char>, received: Seq<u8>) -> SpecHandshakeAction {
    match line_status(received, MAX_AUTH_LINE as nat) {
        SpecLineStatus::NeedMore => SpecHandshakeAction::Read(1),
        SpecLineStatus::Invalid(e) => SpecHandshakeAction::Reject(HandshakeError::Line(e)),
        SpecLineStatus::Complete(line, k) => {
            if !password_matches(password, line) {
                SpecHandshakeAction::Reject(HandshakeError::AuthenticationFailed)
            } else {
                match request_status(received.skip(k as int)) {
                    SpecRequestStatus::NeedMore(n) => SpecHandshakeAction::Read(
                        (n - (received.len() - k)) as nat,
                    ),
                    SpecRequestStatus::Complete(target, _) => SpecHandshakeAction::Connect(target),
                    SpecRequestStatus::Invalid(e) => SpecHandshakeAction::Reject(
                        HandshakeError::Request(e),
                    ),
                }
            }
        },
    }
}

/// The state of one session's handshake: the password it checks against and
/// the bytes received so far.
pub struct Handshake {
    password: String,
    received: Vec<u8>,
    /// Where the authenticated line ends in `received`; 0 while it is not known.
    line_end: usize,
}

impl Handshake {
    /// The password the session checks against.
    pub closed spec fn password(&self) -> Seq<char> {
        self.password@
    }

    /// All bytes received from the client so far.
    pub closed spec fn received(&self) -> Seq<u8> {
        self.received@
    }

    /// The internal invariant: a remembered line end is that of an
    /// authenticated line.
    pub closed spec fn wf(&self) -> bool {
        self.line_end != 0 ==> (line_status(self.received@, MAX_AUTH_LINE as nat) matches SpecLineStatus::Complete(line, k)
            && k == self.line_end && password_matches(self.password@, line))
    }

    /// A fresh session that has received nothing.
    pub fn new(password: String) -> (r: Handshake)
        ensures
            r.wf(),
            r.password() == password@,
            r.received() == Seq::<u8>::empty(),
    {
        Handshake { password, received: Vec::new(), line_end: 0 }
    }

    /// Records bytes read from the client.
    pub fn push_bytes(&mut self, bytes: &[u8])
        requires
            old(self).wf(),
        ensures
            final(self).wf(),
            final(self).password() == old(self).password(),
            final(self).received() == old(self).received() + bytes@,
    {
        let ghost before = self.received@;
        let n = bytes.len();
        for i in 0..n
            invariant
                n == bytes@.len(),
                self.received@ == before + bytes@.take(i as int),
                self.password@ == old(self).password@,
                self.line_end == old(self).line_end,
        {
            self.received.push(bytes[i]);
            assert(before + bytes@.take(i + 1) =~= (before + bytes@.take(i as int)).push(bytes@[i as int]));
        }
        assert(bytes@.take(n as int) =~= bytes@);
        proof {
            if self.line_end != 0 {
                lemma_line_decision_is_final(before, bytes@, MAX_AUTH_LINE as nat);
            }
        }
    }

    /// What to do next, given all bytes received so far.
    pub fn next_action(&mut self) -> (r: HandshakeAction)
        requires
            old(self).wf(),
        ensures
            final(self).wf(),
            final(self).password() == old(self).password(),
            final(self).received() == old(self).received(),
            r@ == handshake_action(old(self).password(), old(self).received()),
    {
        if self.line_end == 0 {
            match read_crlf_line(self.received.as_slice(), MAX_AUTH_LINE) {
                LineStatus::NeedMore => {
                    return HandshakeAction::Read(1);
                },
                LineStatus::Invalid(e) => {
                    return HandshakeAction::Reject(HandshakeError::Line(e));
                },
                LineStatus::Complete(line, k) => {
                    if !verify_password_hash(self.password.as_str(), line.as_str()) {
                        return HandshakeAction::Reject(HandshakeError::AuthenticationFailed);
                    }
                    proof {
                        lemma_line_reads_no_further(self.received@, MAX_AUTH_LINE as nat, 0);
                    }
                    self.line_end = k;
                },
            }
        }
        let len = self.received.len();
        let rest = slice_subrange(self.received.as_slice(), self.line_end, len);
        assert(rest@ =~= self.received@.skip(self.line_end as int));
        proof {
            crate::request::lemma_request_need_more_grows(rest@);
        }
        match read_request(rest) {
            RequestStatus::NeedMore(n) => HandshakeAction::Read(n - (len - self.line_end)),
            RequestStatus::Complete(req, _) => HandshakeAction::Connect(req.target),
            RequestStatus::Invalid(e) => HandshakeAction::Reject(HandshakeError::Request(e)),
        }
    }
}

/* Laws */

/// A client that sends a line the password accepts, CRLF, then the request for
/// a target is connected to exactly that target, for every address type and
/// whatever payload follows; a client whose line the password does not accept
/// is refused as unauthenticated, whatever it sends next.
pub proof fn lemma_authenticated_request_connects(
    password: Seq<char>,
    line: Seq<u8>,
    t: SpecTargetAddr,
    rest: Seq<u8>,
)
    requires
        valid_utf8(line),
        line.len() + 2 <= MAX_AUTH_LINE,
        forall|i: int| 0 <= i < line.len() - 1 ==> !(line[i] == 0x0d && #[trigger] line[i + 1] == 0x0a),
        is_request_target(t),
    ensures
        password_matches(password, decode_utf8(line)) ==> handshake_action(
            password,
            line + seq![0x0du8, 0x0a] + request_bytes(t) + rest,
        ) == SpecHandshakeAction::Connect(t),
        !password_matches(password, decode_utf8(line)) ==> handshake_action(
            password,
            line + seq![0x0du8, 0x0a] + request_bytes(t) + rest,
        ) == SpecHandshakeAction::Reject(HandshakeError::AuthenticationFailed),
{
    let tail = request_bytes(t) + rest;
    let s = line + seq![0x0du8, 0x0a] + tail;
    assert(line + seq![0x0du8, 0x0a] + request_bytes(t) + rest =~= s);
    lemma_line_then_crlf(line, tail, MAX_AUTH_LINE as nat);
    assert(s.skip(line.len() + 2int) =~= tail);
    lemma_request_bytes_read_back(t, rest);
}

/// A client whose request is refused gets the refusal the request calls for.
pub proof fn lemma_authenticated_bad_request_is_refused(
    password: Seq<char>,
    line: Seq<u8>,
    request: Seq<u8>,
)
    requires
        valid_utf8(line),
        line.len() + 2 <= MAX_AUTH_LINE,
        forall|i: int| 0 <= i < line.len() - 1 ==> !(line[i] == 0x0d && #[trigger] line[i + 1] == 0x0a),
        password_matches(password, decode_utf8(line)),
        request_status(request) is Invalid,
    ensures
        handshake_action(password, line + seq![0x0du8, 0x0a] + request)
            == SpecHandshakeAction::Reject(HandshakeError::Request(request_status(request)->Invalid_0)),
{
    lemma_line_then_crlf(line, request, MAX_AUTH_LINE as nat);
    assert((line + seq![0x0du8, 0x0a] + request).skip(line.len() + 2int) =~= request);
}

/// Every read asks for at least one byte.
pub proof fn lemma_handshake_reads_progress(password: Seq<char>, received: Seq<u8>)
    ensures
        handshake_action(password, received) matches SpecHandshakeAction::Read(n) ==> n >= 1,
{
    if let SpecLineStatus::Complete(line, k) = line_status(received, MAX_AUTH_LINE as nat) {
        lemma_line_reads_no_further(received, MAX_AUTH_LINE as nat, 0);
    }
}

/// Once a session connects or refuses, later bytes change nothing.
pub proof fn lemma_handshake_decision_is_final(password: Seq<char>, received: Seq<u8>, t: Seq<u8>)
    requires
        !(handshake_action(password, received) is Read),
    ensures
        handshake_action(password, received + t) == handshake_action(password, received),
{
    lemma_line_decision_is_final(received, t, MAX_AUTH_LINE as nat);
    if let SpecLineStatus::Complete(line, k) = line_status(received, MAX_AUTH_LINE as nat) {
        lemma_line_reads_no_further(received, MAX_AUTH_LINE as nat, 0);
        if password_matches(password, line) {
            assert((received + t).skip(k as int) =~= received.skip(k as int) + t);
            lemma_request_decision_is_final(received.skip(k as int), t);
        }
    }
}

/// A session that connects has taken up exactly its authentication line and
/// its request, and every earlier point of it asked for no byte beyond them:
/// a caller that reads exactly what it is asked leaves the first payload bytes
/// unread for the upstream connection.
pub proof fn lemma_handshake_reads_no_further(password: Seq<char>, received: Seq<u8>, j: int)
    requires
        handshake_action(password, received) is Connect,
    ensures
        ({
            &&& line_status(received, MAX_AUTH_LINE as nat) matches SpecLineStatus::Complete(_, k)
            &&& request_status(received.skip(k as int)) matches SpecRequestStatus::Complete(_, m)
            &&& k + m <= received.len()
            &&& 0 <= j < k + m ==> (handshake_action(password, received.take(j)) matches SpecHandshakeAction::Read(n)
                && j + n <= k + m)
        }),
{
    let (line, k) = match line_status(received, MAX_AUTH_LINE as nat) {
        SpecLineStatus::Complete(line, k) => (line, k),
        _ => arbitrary(),
    };
    let rest = received.skip(k as int);
    let m = request_status(rest)->Complete_1;
    lemma_line_reads_no_further(received, MAX_AUTH_LINE as nat, 0);
    lemma_request_reads_no_further(rest, 0);
    if 0 <= j < k + m {
        let p = received.take(j);
        if j < k {
            lemma_line_reads_no_further(received, MAX_AUTH_LINE as nat, j);
        } else {
            lemma_line_complete_prefix(received, MAX_AUTH_LINE as nat, k);
            let head = received.take(k as int);
            assert(p =~= head + received.subrange(k as int, j));
            lemma_line_decision_is_final(head, received.subrange(k as int, j), MAX_AUTH_LINE as nat);
            assert(p.skip(k as int) =~= rest.take(j - k));
            if j - k < m {
                lemma_request_reads_no_further(rest, j - k);
            }
        }
    }
}

} // verus!
