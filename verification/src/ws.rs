//! The websocket mapper's own logic: early data carried in the upgrade
//! request's `Sec-WebSocket-Protocol` header, the upgrade request itself,
//! the client connection that sends its first write as early data while it
//! dials, the read side that turns binary messages into a byte stream, and
//! how websocket errors map to I/O error kinds.

use vstd::prelude::*;
use base64::Engine;
use crate::grpc::{append_headers_but_host, header_pairs, headers_but_host, CommonConfig};
use crate::http_head::{latin1, latin1_string};
use crate::text::{
    base64_text, is_base64url_char, lemma_base64_unpadded_injective, lemma_base64url_text_shape,
    string_push_str,
};
use vstd::utf8::{encode_utf8, is_ascii_chars, is_ascii_chars_encode_utf8};

verus! {

broadcast use vstd::string::group_string_axioms;

/// Early data longer than this, as base64, is not decoded at all.
pub const MAX_EARLY_DATA_LEN_BASE64: usize = 2732;
/// At most this many bytes of the first write go as early data.
pub const MAX_EARLY_DATA_LEN: usize = 2048;
/// The header that carries early data.
pub const EARLY_DATA_HEADER_KEY: &'static str = "Sec-WebSocket-Protocol";

/// The URL-safe base64 text, without padding, of `data`.
pub open spec fn base64url_encoded(data: Seq<u8>) -> Seq<char> {
    base64_text(data, true, false)
}

/// What URL-safe base64 without padding decodes `text` to: the bytes
/// whose unpadded text `text` is; none when `text` is no such text.
pub open spec fn base64url_decoded(text: Seq<char>) -> Option<Seq<u8>> {
    crate::text::base64_value(text, true, false)
}

/// `base64::engine::general_purpose::URL_SAFE_NO_PAD.encode`: the URL-safe
/// base64 text of `data`, without padding.
#[verifier::external_body]
fn base64url_encode(data: &[u8]) -> (r: String)
    ensures
        r@ == base64url_encoded(data@),
{
    base64::engine::general_purpose::URL_SAFE_NO_PAD.encode(data)
}

/// `base64::engine::general_purpose::URL_SAFE_NO_PAD.decode`: the bytes
/// whose unpadded URL-safe base64 text is `text`, or none when there are
/// none (the engine refuses padding and stray trailing bits).
#[verifier::external_body]
fn base64url_decode(text: &str) -> (r: Option<Vec<u8>>)
    ensures
        match base64url_decoded(text@) {
            Some(v) => r matches Some(x) && x@ == v,
            None => r is None,
        },
{
    match base64::engine::general_purpose::URL_SAFE_NO_PAD.decode(text) {
        Ok(v) => Some(v),
        Err(_) => None,
    }
}

/// Bytes that a header value can be read as text from: visible ASCII and
/// tabs.
pub open spec fn visible_ascii(b: Seq<u8>) -> bool {
    forall|i: int| 0 <= i < b.len() ==> (32 <= #[trigger] b[i] && b[i] < 127) || b[i] == 9
}

/// The early data that the server takes from the header's bytes: none
/// when there is no header, when it is empty or longer than
/// `MAX_EARLY_DATA_LEN_BASE64`, or when it is not base64.
pub open spec fn header_early_data(h: Option<Seq<u8>>) -> Option<Seq<u8>> {
    match h {
        None => None,
        Some(b) => if b.len() > MAX_EARLY_DATA_LEN_BASE64 || b.len() == 0 {
            None
        } else {
            base64url_decoded(latin1(b))
        },
    }
}

/// The early data a server reads from the value of the early data header,
/// if the request has one: none when the value is empty, longer than
/// `MAX_EARLY_DATA_LEN_BASE64` (not decoded at all) or not base64. A value
/// short enough to be decoded must read as text.
pub fn early_data_from_header(h: Option<&[u8]>) -> (r: Option<Vec<u8>>)
    requires
        h matches Some(b) ==> (b@.len() <= MAX_EARLY_DATA_LEN_BASE64 ==> visible_ascii(b@)),
    ensures
        match header_early_data(match h { Some(b) => Some(b@), None => None }) {
            Some(v) => r matches Some(x) && x@ == v,
            None => r is None,
        },
{
    match h {
        None => None,
        Some(b) => {
            if b.len() > MAX_EARLY_DATA_LEN_BASE64 || b.len() == 0 {
                None
            } else {
                let text = latin1_string(b, b.len());
                assert(b@.take(b@.len() as int) =~= b@);
                base64url_decode(text.as_str())
            }
        },
    }
}

/// The value of the early data header a client sends with `early`. The
/// server reads it back as `early`, for up to `MAX_EARLY_DATA_LEN` bytes.
pub fn early_data_header(early: &[u8]) -> (h: String)
    ensures
        h@ == base64url_encoded(early@),
        0 < early@.len() <= MAX_EARLY_DATA_LEN ==> header_early_data(Some(encode_utf8(h@))) == Some(early@),
{
    let h = base64url_encode(early);
    proof {
        lemma_base64url_text_shape(early@);
        if 0 < early@.len() <= MAX_EARLY_DATA_LEN {
            let t = h@;
            assert(is_ascii_chars(t)) by {
                assert forall|i: int| 0 <= i < t.len() implies '\0' <= #[trigger] t[i] <= '\u{7f}' by {
                    assert(is_base64url_char(t[i]));
                }
            }
            is_ascii_chars_encode_utf8(t);
            let b = encode_utf8(t);
            assert(latin1(b) =~= t) by {
                assert forall|i: int| 0 <= i < t.len() implies #[trigger] latin1(b)[i] == t[i] by {
                    assert(b[i] == t[i] as u8);
                }
            }
            assert(t.len() <= MAX_EARLY_DATA_LEN_BASE64);
            assert(t.len() > 0);
            assert(base64url_decoded(t) == Some(early@)) by {
                assert(base64_text(early@, true, false) == t);
                let d = choose|d: Seq<u8>| #[trigger] base64_text(d, true, false) == t;
                lemma_base64_unpadded_injective(d, early@, true);
            }
        }
    }
    h
}

/// The upgrade succeeded only when the server switched protocols (101);
/// otherwise the status is the error.
pub fn check_upgrade_status(status: u16) -> (r: Result<(), u16>)
    ensures
        status == 101 ==> r is Ok,
        status != 101 ==> r == Err::<(), u16>(status),
{
    if status == 101 { Ok(()) } else { Err(status) }
}

/// The websocket upgrade request a client sends.
pub struct WsRequest {
    pub method: String,
    pub uri: String,
    /// Headers in the order they are set.
    pub headers: Vec<(String, String)>,
}

/// The headers of an upgrade request to `host` with the key `key`.
pub open spec fn upgrade_headers(host: Seq<char>, key: Seq<char>) -> Seq<(Seq<char>, Seq<char>)> {
    seq![
        ("Host"@, host),
        ("Connection"@, "Upgrade"@),
        ("Upgrade"@, "websocket"@),
        ("Sec-WebSocket-Version"@, "13"@),
        ("Sec-WebSocket-Key"@, key),
    ]
}

/// `tungstenite::handshake::client::generate_key`: a fresh key, the
/// standard base64 of 16 random bytes; which key it is, is left open.
#[verifier::external_body]
fn websocket_key() -> (k: String)
    ensures
        k@.len() == 24,
{
    tokio_tungstenite::tungstenite::handshake::client::generate_key()
}

/// A websocket client: the upgrade request it sends, and whether its first
/// write goes as early data.
pub struct Client {
    pub request: WsRequest,
    pub use_early_data: bool,
}

/// Whether a request is the upgrade request a client configured by `c`
/// sends with the key `key`.
pub open spec fn is_upgrade_request(r: WsRequest, c: CommonConfig, key: Seq<char>) -> bool {
    &&& r.method@ == "GET"@
    &&& r.uri@ == "ws://"@ + c.host@ + c.path@
    &&& header_pairs(r.headers@) == upgrade_headers(c.host@, key) + headers_but_host(c.headers)
}

impl Client {
    /// The client for `c`, whose request carries the key `key`: a GET to
    /// `ws://` host and path, the upgrade headers, then the configured
    /// headers but `Host`.
    pub fn new_with_key(c: &CommonConfig, key: String) -> (r: Client)
        ensures
            is_upgrade_request(r.request, *c, key@),
            r.use_early_data == (c.use_early_data == Some(true)),
    {
        let mut uri = "ws://".to_owned();
        string_push_str(&mut uri, c.host.as_str());
        string_push_str(&mut uri, c.path.as_str());
        let mut headers: Vec<(String, String)> = Vec::new();
        headers.push(("Host".to_owned(), c.host.clone()));
        headers.push(("Connection".to_owned(), "Upgrade".to_owned()));
        headers.push(("Upgrade".to_owned(), "websocket".to_owned()));
        headers.push(("Sec-WebSocket-Version".to_owned(), "13".to_owned()));
        headers.push(("Sec-WebSocket-Key".to_owned(), key));
        assert(header_pairs(headers@) =~= upgrade_headers(c.host@, key@));
        append_headers_but_host(&mut headers, &c.headers);
        let use_early_data = match c.use_early_data { Some(b) => b, None => false };
        Client { request: WsRequest { method: "GET".to_owned(), uri, headers }, use_early_data }
    }

    /// The client for `c`, with a freshly drawn key.
    pub fn new(c: &CommonConfig) -> (r: Client)
        ensures
            exists|key: Seq<char>| key.len() == 24 && #[trigger] is_upgrade_request(r.request, *c, key),
            r.use_early_data == (c.use_early_data == Some(true)),
    {
        let key = websocket_key();
        let ghost k = key@;
        let r = Client::new_with_key(c, key);
        assert(is_upgrade_request(r.request, *c, k));
        r
    }
}

/// A websocket server: the HTTP parts its requests are checked against.
pub struct Server {
    pub config: Option<CommonConfig>,
}


/// A copy of the bytes of `s` from `from` up to `to`.
fn bytes_between(s: &[u8], from: usize, to: usize) -> (v: Vec<u8>)
    requires
        from <= to <= s@.len(),
    ensures
        v@ == s@.subrange(from as int, to as int),
{
    let mut v: Vec<u8> = Vec::new();
    let mut i = from;
    while i < to
        invariant
            from <= i <= to <= s@.len(),
            v@ == s@.subrange(from as int, i as int),
        decreases to - i,
    {
        v.push(s[i]);
        i = i + 1;
        assert(v@ =~= s@.subrange(from as int, i as int));
    }
    v
}

/// How far a client connection with early data is.
#[derive(Debug, Clone, Copy, PartialEq, Eq)]
pub enum DialPhase {
    /// Nothing written yet; the connection is not dialed.
    NotDialed,
    /// The first write started the dial, with its early data.
    Dialing,
    /// The websocket connection is up.
    Established,
}

/// What becomes of the first write once the dial succeeds.
pub enum FirstWrite {
    /// All of it went as early data: report this many bytes written.
    Done(usize),
    /// The rest of it is to be written on the connection first.
    Rest(Vec<u8>),
}

/// The write side of a client connection whose first write goes as early
/// data with the upgrade request: its phase, how much of the first write
/// went as early data, and bytes still to be written.
pub struct EarlyWriter {
    pub phase: DialPhase,
    pub first_data_len: usize,
    pub left: Option<Vec<u8>>,
}

impl EarlyWriter {
    /// Nothing is waiting before the dial; while dialing, the early data
    /// and the rest of the first write add up to a length.
    pub open spec fn well_formed(&self) -> bool {
        &&& self.phase == DialPhase::NotDialed ==> self.left is None
        &&& self.phase == DialPhase::Dialing ==> (self.left matches Some(l) ==> self.first_data_len + l@.len() <= usize::MAX)
    }

    /// A connection that has written nothing.
    pub fn new() -> (w: EarlyWriter)
        ensures
            w.well_formed(),
            w.phase == DialPhase::NotDialed,
            w.first_data_len == 0,
            w.left is None,
    {
        EarlyWriter { phase: DialPhase::NotDialed, first_data_len: 0, left: None }
    }

    /// The first write, `buf`, starts the dial: its first
    /// `MAX_EARLY_DATA_LEN` bytes at most go as early data (returned); the
    /// rest waits for the connection.
    pub fn begin(&mut self, buf: &[u8]) -> (early: Vec<u8>)
        requires
            old(self).well_formed(),
            old(self).phase == DialPhase::NotDialed,
        ensures
            final(self).well_formed(),
            final(self).phase == DialPhase::Dialing,
            buf@.len() <= MAX_EARLY_DATA_LEN ==> {
                &&& early@ == buf@
                &&& final(self).first_data_len == buf@.len()
                &&& final(self).left is None
            },
            buf@.len() > MAX_EARLY_DATA_LEN ==> {
                &&& early@ == buf@.take(MAX_EARLY_DATA_LEN as int)
                &&& final(self).first_data_len == MAX_EARLY_DATA_LEN
                &&& final(self).left matches Some(l) && l@ == buf@.skip(MAX_EARLY_DATA_LEN as int)
            },
    {
        let n = buf.len();
        let bl = if n > MAX_EARLY_DATA_LEN { MAX_EARLY_DATA_LEN } else { n };
        if n > MAX_EARLY_DATA_LEN {
            let rest = bytes_between(buf, bl, n);
            assert(rest@ =~= buf@.skip(bl as int));
            self.left = Some(rest);
        }
        self.first_data_len = bl;
        self.phase = DialPhase::Dialing;
        let early = bytes_between(buf, 0, bl);
        assert(early@ =~= buf@.take(bl as int));
        early
    }

    /// The dial succeeded: the connection is up; the rest of the first
    /// write, if any, is handed out to be written, else the early data's
    /// length is reported.
    pub fn dial_succeeded(&mut self) -> (r: FirstWrite)
        requires
            old(self).well_formed(),
            old(self).phase == DialPhase::Dialing,
        ensures
            final(self).well_formed(),
            final(self).phase == DialPhase::Established,
            final(self).first_data_len == old(self).first_data_len,
            final(self).left is None,
            match old(self).left {
                None => r == FirstWrite::Done(old(self).first_data_len),
                Some(l) => r matches FirstWrite::Rest(x) && x@ == l@
                    && old(self).first_data_len + x@.len() <= usize::MAX,
            },
    {
        self.phase = DialPhase::Established;
        match self.left.take() {
            None => FirstWrite::Done(self.first_data_len),
            Some(l) => FirstWrite::Rest(l),
        }
    }

    /// `u` bytes of `rest`, the rest of the first write, were written: the
    /// unwritten part waits; the write reports the early data and those
    /// bytes.
    pub fn first_rest_written(&mut self, rest: Vec<u8>, u: usize) -> (n: usize)
        requires
            old(self).well_formed(),
            old(self).phase == DialPhase::Established,
            u <= rest@.len(),
            old(self).first_data_len + rest@.len() <= usize::MAX,
        ensures
            final(self).well_formed(),
            n == old(self).first_data_len + u,
            final(self).phase == old(self).phase,
            final(self).first_data_len == old(self).first_data_len,
            u < rest@.len() ==> (final(self).left matches Some(l) && l@ == rest@.skip(u as int)),
            u == rest@.len() ==> final(self).left == old(self).left,
    {
        if u < rest.len() {
            let l = bytes_between(rest.as_slice(), u, rest.len());
            assert(l@ =~= rest@.skip(u as int));
            self.left = Some(l);
        }
        self.first_data_len + u
    }

    /// Writing the rest of the first write must wait: it stays pending.
    pub fn keep(&mut self, rest: Vec<u8>)
        requires
            old(self).well_formed(),
            old(self).phase == DialPhase::Established,
        ensures
            final(self).well_formed(),
            final(self).phase == old(self).phase,
            final(self).first_data_len == old(self).first_data_len,
            final(self).left == Some(rest),
    {
        self.left = Some(rest);
    }

    /// A later write of `buf`: with bytes still waiting, `buf` is appended to
    /// them and they are written together (true); else `buf` is written as
    /// it is (false).
    pub fn stage(&mut self, buf: &[u8]) -> (staged: bool)
        requires
            old(self).well_formed(),
            old(self).phase == DialPhase::Established,
        ensures
            final(self).well_formed(),
            final(self).phase == old(self).phase,
            final(self).first_data_len == old(self).first_data_len,
            staged == (old(self).left is Some),
            match old(self).left {
                None => final(self).left is None,
                Some(l) => final(self).left matches Some(x) && x@ == l@ + buf@,
            },
    {
        match self.left.take() {
            None => false,
            Some(mut l) => {
                l.extend_from_slice(buf);
                self.left = Some(l);
                true
            },
        }
    }

    /// `u` of the staged bytes were written: the unwritten part waits; the
    /// write reports `u`.
    pub fn staged_written(&mut self, u: usize) -> (n: usize)
        requires
            old(self).well_formed(),
            old(self).phase == DialPhase::Established,
            old(self).left matches Some(l) && u <= l@.len(),
        ensures
            final(self).well_formed(),
            n == u,
            final(self).phase == old(self).phase,
            final(self).first_data_len == old(self).first_data_len,
            old(self).left matches Some(l) && (if u < l@.len() {
                final(self).left matches Some(x) && x@ == l@.skip(u as int)
            } else {
                final(self).left is None
            }),
    {
        let l = self.left.take().unwrap();
        if u < l.len() {
            let rest = bytes_between(l.as_slice(), u, l.len());
            assert(rest@ =~= l@.skip(u as int));
            self.left = Some(rest);
        }
        u
    }

    /// Writing the waiting bytes failed: they are dropped.
    pub fn write_failed(&mut self)
        requires
            old(self).well_formed(),
            old(self).phase == DialPhase::Established,
        ensures
            final(self).well_formed(),
            final(self).phase == old(self).phase,
            final(self).first_data_len == old(self).first_data_len,
            final(self).left is None,
    {
        self.left = None;
    }
}

/// A message read from a websocket, as the read side sees it.
pub enum WsMessage {
    Binary(Vec<u8>),
    Close,
    /// A text, ping, pong or raw frame message.
    Other,
}

/// What a read does after a message arrived.
pub enum WsReadStep {
    /// Hand these bytes to the reader.
    Deliver(Vec<u8>),
    /// The message was kept: hand out from it.
    Kept,
    /// The peer closed: the read ends with nothing.
    Eof,
    /// A message other than binary or close: fail.
    Fail,
}

/// The read side of a websocket connection: bytes of a message that did not
/// fit the reader's buffer wait here.
pub struct WsReader {
    pub r_buf: Option<Vec<u8>>,
}

impl WsReader {
    /// Nothing waits.
    pub fn new() -> (r: WsReader)
        ensures
            r.r_buf is None,
    {
        WsReader { r_buf: None }
    }

    /// Waiting bytes come first: as many as the reader has `room` for are
    /// handed out, the rest keeps waiting; no byte is lost or reordered.
    pub fn take_kept(&mut self, room: usize) -> (r: Option<Vec<u8>>)
        ensures
            match old(self).r_buf {
                None => r is None && final(self).r_buf is None,
                Some(b) => r matches Some(x) && if b@.len() <= room {
                    x@ == b@ && final(self).r_buf is None
                } else {
                    x@ == b@.take(room as int) && (final(self).r_buf matches Some(k) && k@ == b@.skip(room as int))
                },
            },
    {
        match self.r_buf.take() {
            None => None,
            Some(b) => {
                if b.len() <= room {
                    Some(b)
                } else {
                    let out = bytes_between(b.as_slice(), 0, room);
                    let k = bytes_between(b.as_slice(), room, b.len());
                    assert(out@ =~= b@.take(room as int));
                    assert(k@ =~= b@.skip(room as int));
                    self.r_buf = Some(k);
                    Some(out)
                }
            },
        }
    }

    /// A message arrived while nothing waits: a binary message shorter than
    /// the reader's `room` is handed out whole; a longer one is kept to be
    /// handed out from; a close ends the stream; anything else fails.
    pub fn on_message(&mut self, m: WsMessage, room: usize) -> (r: WsReadStep)
        requires
            old(self).r_buf is None,
        ensures
            match m {
                WsMessage::Binary(d) => if d@.len() < room {
                    r matches WsReadStep::Deliver(x) && x@ == d@ && final(self).r_buf is None
                } else {
                    r is Kept && (final(self).r_buf matches Some(k) && k@ == d@)
                },
                WsMessage::Close => r is Eof && final(self).r_buf is None,
                WsMessage::Other => r is Fail && final(self).r_buf is None,
            },
    {
        match m {
            WsMessage::Binary(d) => {
                if d.len() < room {
                    WsReadStep::Deliver(d)
                } else {
                    self.r_buf = Some(d);
                    WsReadStep::Kept
                }
            },
            WsMessage::Close => WsReadStep::Eof,
            WsMessage::Other => WsReadStep::Fail,
        }
    }
}

/// The kinds of websocket error.
#[derive(Debug, Clone, Copy, PartialEq, Eq)]
pub enum WsErrorKind {
    ConnectionClosed,
    AlreadyClosed,
    Io,
    Tls,
    Capacity,
    Protocol,
    WriteBufferFull,
    Utf8,
    AttackAttempt,
    Url,
    Http,
    HttpFormat,
}

/// The I/O error kinds that websocket errors become.
#[derive(Debug, Clone, Copy, PartialEq, Eq)]
pub enum IoErrorKind {
    ConnectionAborted,
    BrokenPipe,
    OutOfMemory,
    InvalidData,
}

/// The I/O error kind for a websocket error kind.
pub open spec fn io_kind_of(k: WsErrorKind) -> IoErrorKind {
    match k {
        WsErrorKind::ConnectionClosed | WsErrorKind::AlreadyClosed => IoErrorKind::ConnectionAborted,
        WsErrorKind::Io | WsErrorKind::Tls => IoErrorKind::BrokenPipe,
        WsErrorKind::Capacity | WsErrorKind::WriteBufferFull => IoErrorKind::OutOfMemory,
        _ => IoErrorKind::InvalidData,
    }
}

/// A closed connection is aborted; an I/O or TLS failure is a broken pipe;
/// a full buffer or capacity limit is out of memory; the rest is invalid
/// data.
pub fn ws_err_to_io_err_kind(ws: WsErrorKind) -> (r: IoErrorKind)
    ensures
        r == io_kind_of(ws),
{
    match ws {
        WsErrorKind::ConnectionClosed => IoErrorKind::ConnectionAborted,
        WsErrorKind::AlreadyClosed => IoErrorKind::ConnectionAborted,
        WsErrorKind::Io => IoErrorKind::BrokenPipe,
        WsErrorKind::Tls => IoErrorKind::BrokenPipe,
        WsErrorKind::Capacity => IoErrorKind::OutOfMemory,
        WsErrorKind::Protocol => IoErrorKind::InvalidData,
        WsErrorKind::WriteBufferFull => IoErrorKind::OutOfMemory,
        WsErrorKind::Utf8 => IoErrorKind::InvalidData,
        WsErrorKind::AttackAttempt => IoErrorKind::InvalidData,
        WsErrorKind::Url => IoErrorKind::InvalidData,
        WsErrorKind::Http => IoErrorKind::InvalidData,
        WsErrorKind::HttpFormat => IoErrorKind::InvalidData,
    }
}

} // verus!
