//! The head of an HTTP/1.1 message as the spe1 protocol reads it: where
//! the body starts and how long it is; and the read side of an spe1
//! connection that gathers a whole body before decoding it.

use vstd::prelude::*;
use crate::ai::{all_digits, digits_value, find_char, is_ws, parse_decimal, parse_uint, split_once_char, trim, trim_end, trim_start, trim_str};
use crate::spe1::{client_message, first_occurrence, lemma_conn_roundtrip, lemma_split_first_line, read_outcome, server_message, valid_choices, QaData, ReadOutcome};
use crate::text::{decimal, digit_char, lemma_split_on_plain, split_char, split_on, string_push};
use vstd::utf8::{decode_utf8, encode_scalar, encode_utf8, encode_utf8_decode_utf8, encode_utf8_valid_utf8, is_ascii_chars, is_ascii_chars_encode_utf8, valid_utf8};

verus! {

broadcast use vstd::string::group_string_axioms;

/// The bytes as characters, one for one.
pub open spec fn latin1(d: Seq<u8>) -> Seq<char> {
    d.map_values(|b: u8| b as char)
}

/// Whether `\r\n\r\n` stands in `d` from `i`.
pub open spec fn blank_line_at(d: Seq<u8>, i: int) -> bool {
    0 <= i && i + 4 <= d.len() && d[i] == 13 && d[i + 1] == 10 && d[i + 2] == 13 && d[i + 3] == 10
}

/// The first index from `i` on where the head ends with `\r\n\r\n`.
pub open spec fn head_end_from(d: Seq<u8>, i: int) -> Option<int>
    decreases d.len() + 1 - i,
{
    if i < 0 || i + 4 > d.len() {
        None
    } else if blank_line_at(d, i) {
        Some(i)
    } else {
        head_end_from(d, i + 1)
    }
}

proof fn lemma_head_end_found(d: Seq<u8>, i: int)
    ensures
        head_end_from(d, i) matches Some(e) ==> i <= e && blank_line_at(d, e),
    decreases d.len() + 1 - i,
{
    if !(i < 0 || i + 4 > d.len()) && !blank_line_at(d, i) {
        lemma_head_end_found(d, i + 1);
    }
}

/// A line without its final `\r`.
pub open spec fn strip_cr(l: Seq<char>) -> Seq<char> {
    if l.len() > 0 && l.last() == '\r' { l.drop_last() } else { l }
}

/// The header lines of a head of `e` bytes: its lines after the start line.
pub open spec fn header_lines(d: Seq<u8>, e: int) -> Seq<Seq<char>> {
    split_on(latin1(d.take(e)), '\n').map_values(|l: Seq<char>| strip_cr(l)).drop_first()
}

/// The value of the first header line whose name holds `Content-Length`.
pub open spec fn content_length_value(lines: Seq<Seq<char>>) -> Option<Seq<char>>
    decreases lines.len(),
{
    if lines.len() == 0 {
        None
    } else {
        match crate::ai::split_once_char(lines[0], ':') {
            Some((name, value)) => if first_occurrence(name, "Content-Length"@, 0) is Some {
                Some(value)
            } else {
                content_length_value(lines.drop_first())
            },
            None => content_length_value(lines.drop_first()),
        }
    }
}

/// What the head of a message says.
#[derive(Debug, Clone, Copy, PartialEq, Eq)]
pub enum HeadResult {
    /// The head is not complete yet.
    Partial,
    /// No header names the body's length.
    NoContentLength,
    /// The length header is not a number.
    BadContentLength,
    /// The body's length and where it starts.
    Ready(usize, usize),
}

/// Reading the head of `d`.
pub open spec fn head_result(d: Seq<u8>) -> HeadResult {
    match head_end_from(d, 0) {
        None => HeadResult::Partial,
        Some(e) => match content_length_value(header_lines(d, e)) {
            None => HeadResult::NoContentLength,
            Some(v) => match parse_uint(trim(v), usize::MAX as nat) {
                Some(n) => HeadResult::Ready(n as usize, (e + 4) as usize),
                None => HeadResult::BadContentLength,
            },
        },
    }
}

/// The bytes as a string, one character per byte.
pub(crate) fn latin1_string(d: &[u8], n: usize) -> (s: String)
    requires
        n <= d@.len(),
    ensures
        s@ == latin1(d@.take(n as int)),
{
    let mut s = String::new();
    let mut i: usize = 0;
    while i < n
        invariant
            i <= n,
            n <= d@.len(),
            s@ == latin1(d@.take(i as int)),
        decreases n - i,
    {
        string_push(&mut s, d[i] as char);
        i = i + 1;
        assert(s@ =~= latin1(d@.take(i as int)));
    }
    s
}

/// Whether `s` holds `pat` somewhere.
fn contains_text(s: &String, pat: &str) -> (r: bool)
    ensures
        r == (first_occurrence(s@, pat@, 0) is Some),
{
    let cs = crate::text::chars_of(s.as_str());
    let ps = crate::text::chars_of(pat);
    let n = cs.len();
    let m = ps.len();
    if m > n {
        return false;
    }
    let mut i: usize = 0;
    while i <= n - m
        invariant
            cs@ == s@,
            ps@ == pat@,
            n == cs@.len(),
            m == ps@.len(),
            m <= n,
            i <= n - m + 1,
            first_occurrence(s@, pat@, 0) == first_occurrence(s@, pat@, i as int),
        decreases n - i,
    {
        let mut j: usize = 0;
        let mut same = true;
        while j < m
            invariant
                i + m <= n,
                n == cs@.len(),
                m == ps@.len(),
                j <= m,
                same == (forall|t: int| 0 <= t < j ==> cs@[i + t] == ps@[t]),
            decreases m - j,
        {
            if cs[i + j] != ps[j] {
                same = false;
            }
            j = j + 1;
        }
        proof {
            if same {
                assert(cs@.subrange(i as int, i + m) =~= ps@);
            } else {
                if s@.subrange(i as int, i + m) == pat@ {
                    let t = choose|t: int| 0 <= t < m && !(cs@[i + t] == ps@[t]);
                    assert(s@.subrange(i as int, i + m)[t] == cs@[i + t]);
                }
            }
        }
        if same {
            return true;
        }
        assert(m > 0) by {
            if m == 0 {
                assert(s@.subrange(i as int, i as int) =~= pat@);
            }
        }
        i = i + 1;
    }
    false
}

/// Where the head of `d` ends: the index of its `\r\n\r\n`.
fn find_head_end(d: &[u8]) -> (r: Option<usize>)
    ensures
        match r {
            Some(x) => head_end_from(d@, 0) == Some(x as int),
            None => head_end_from(d@, 0) is None,
        },
{
    let n = d.len();
    if n < 4 {
        return None;
    }
    let mut i: usize = 0;
    while i <= n - 4
        invariant
            n == d@.len(),
            4 <= n,
            i <= n - 3,
            head_end_from(d@, 0) == head_end_from(d@, i as int),
        decreases n - i,
    {
        if d[i] == 13 && d[i + 1] == 10 && d[i + 2] == 13 && d[i + 3] == 10 {
            return Some(i);
        }
        i = i + 1;
    }
    None
}

/// Reads the head of `d`: where the body starts and how long it is.
pub fn parse_head(d: &[u8]) -> (r: HeadResult)
    ensures
        r == head_result(d@),
{
    let e = match find_head_end(d) {
        None => {
            return HeadResult::Partial;
        },
        Some(e) => e,
    };
    proof {
        lemma_head_end_found(d@, 0);
    }
    let dlen = d.len();
    let head = latin1_string(d, e);
    let raw = split_char(head.as_str(), '\n');
    let ghost raw_v = split_on(latin1(d@.take(e as int)), '\n');
    let ghost lines = header_lines(d@, e as int);
    proof {
        crate::text::lemma_split_on_nonempty(latin1(d@.take(e as int)), '\n');
        assert(lines.skip(0) =~= lines);
    }
    let mut k: usize = 1;
    while k < raw.len()
        invariant
            raw@.len() == raw_v.len(),
            raw_v == split_on(latin1(d@.take(e as int)), '\n'),
            forall|t: int| 0 <= t < raw@.len() ==> (#[trigger] raw@[t])@ == raw_v[t],
            lines == header_lines(d@, e as int),
            lines.len() + 1 == raw_v.len(),
            1 <= k <= raw@.len(),
            content_length_value(lines) == content_length_value(lines.skip(k - 1)),
            head_end_from(d@, 0) == Some(e as int),
            e + 4 <= d@.len(),
            dlen == d@.len(),
        decreases raw@.len() - k,
    {
        assert(lines.skip(k - 1)[0] == strip_cr(raw_v[k as int]));
        assert(lines.skip(k - 1).drop_first() =~= lines.skip(k as int));
        let line = strip_cr_string(&raw[k]);
        match crate::ai::split_once_at(line.as_str(), ':') {
            Some((name, value)) => {
                if contains_text(&name, "Content-Length") {
                    let v = trim_str(value.as_str());
                    return match parse_decimal(v.as_str(), usize::MAX as u64) {
                        Some(n) => HeadResult::Ready(n as usize, e + 4),
                        None => HeadResult::BadContentLength,
                    };
                }
            },
            None => {},
        }
        k = k + 1;
    }
    assert(lines.skip(k - 1).len() == 0);
    HeadResult::NoContentLength
}

/// A line without its final `\r`.
fn strip_cr_string(l: &String) -> (r: String)
    ensures
        r@ == strip_cr(l@),
{
    let cs = crate::text::chars_of(l.as_str());
    let n = cs.len();
    if n > 0 && cs[n - 1] == '\r' {
        let r = crate::text::string_from_chars(&cs, 0, n - 1);
        assert(r@ =~= l@.drop_last());
        r
    } else {
        let r = crate::text::string_from_chars(&cs, 0, n);
        assert(r@ =~= l@);
        r
    }
}

/// How far a connection is through reading one message.
#[derive(Debug, Clone, Copy, PartialEq, Eq)]
pub enum ReadState {
    /// The next read starts a new message.
    ReadyForNew,
    /// Part of a body is read: its length, where it starts, and how many
    /// bytes the buffer holds.
    Previous(usize, usize, usize),
    /// The peer closed the connection.
    Closed,
}

/// What the caller does after a read.
#[derive(Debug, Clone, Copy, PartialEq, Eq)]
pub enum ReadAction {
    /// The connection is closed: fail.
    Closed,
    /// The head could not be read: fail with what it says.
    Fail(HeadResult),
    /// Read more bytes into the same buffer.
    ReadMore,
    /// The body is the buffer's bytes from the first index to the second.
    Body(usize, usize),
}

/// The read side of an spe1 connection: it gathers a whole message body.
pub struct BodyReader {
    pub state: ReadState,
}

impl BodyReader {
    /// A reader waiting for a new message.
    pub fn new() -> (r: BodyReader)
        ensures
            r.state == ReadState::ReadyForNew,
    {
        BodyReader { state: ReadState::ReadyForNew }
    }

    /// After a read: `data` is every byte the buffer holds for the current
    /// message. A new message's head gives the body's length and start; a
    /// body not wholly there asks for more; a whole body is handed over and
    /// the reader waits for a new message. An empty first read means the
    /// peer closed.
    pub fn on_read(&mut self, data: &[u8]) -> (a: ReadAction)
        requires
            old(self).state matches ReadState::Previous(_, si, filled) ==> si <= filled <= data@.len(),
        ensures
            match old(self).state {
                ReadState::Closed => a == ReadAction::Closed && final(self).state == old(self).state,
                ReadState::ReadyForNew => if data@.len() == 0 {
                    a == ReadAction::Closed && final(self).state == ReadState::Closed
                } else {
                    match head_result(data@) {
                        HeadResult::Ready(cl, si) => if data@.len() - si < cl {
                            a == ReadAction::ReadMore
                                && final(self).state == ReadState::Previous(cl, si, data@.len() as usize)
                        } else {
                            a == ReadAction::Body(si, (si + cl) as usize) && final(self).state == ReadState::ReadyForNew
                        },
                        other => a == ReadAction::Fail(other) && final(self).state == old(self).state,
                    }
                },
                ReadState::Previous(cl, si, _) => if data@.len() - si < cl {
                    a == ReadAction::ReadMore && final(self).state == ReadState::Previous(cl, si, data@.len() as usize)
                } else {
                    a == ReadAction::Body(si, (si + cl) as usize) && final(self).state == ReadState::ReadyForNew
                },
            },
    {
        match self.state {
            ReadState::Closed => ReadAction::Closed,
            ReadState::ReadyForNew => {
                if data.len() == 0 {
                    self.state = ReadState::Closed;
                    return ReadAction::Closed;
                }
                let h = parse_head(data);
                match h {
                    HeadResult::Ready(cl, si) => {
                        proof {
                            lemma_head_end_found(data@, 0);
                        }
                        if data.len() - si < cl {
                            self.state = ReadState::Previous(cl, si, data.len());
                            ReadAction::ReadMore
                        } else {
                            ReadAction::Body(si, si + cl)
                        }
                    },
                    other => ReadAction::Fail(other),
                }
            },
            ReadState::Previous(cl, si, _) => {
                if data.len() - si < cl {
                    self.state = ReadState::Previous(cl, si, data.len());
                    ReadAction::ReadMore
                } else {
                    self.state = ReadState::ReadyForNew;
                    ReadAction::Body(si, si + cl)
                }
            },
        }
    }

    /// The read failed: the server keeps its state; the client drops a
    /// partly read body.
    pub fn on_read_error(&mut self, is_server: bool)
        ensures
            is_server ==> final(self).state == old(self).state,
            !is_server ==> final(self).state == (if old(self).state is Previous {
                ReadState::ReadyForNew
            } else {
                old(self).state
            }),
    {
        if !is_server {
            match self.state {
                ReadState::Previous(_, _, _) => {
                    self.state = ReadState::ReadyForNew;
                },
                _ => {},
            }
        }
    }
}


/// Encoding two texts one after the other gives the two encodings one
/// after the other.
proof fn lemma_encode_concat(a: Seq<char>, b: Seq<char>)
    ensures
        encode_utf8(a + b) == encode_utf8(a) + encode_utf8(b),
    decreases a.len(),
{
    if a.len() == 0 {
        assert(a + b =~= b);
        assert(encode_utf8(a) + encode_utf8(b) =~= encode_utf8(b));
    } else {
        lemma_encode_concat(a.drop_first(), b);
        assert((a + b).drop_first() =~= a.drop_first() + b);
        assert((a + b)[0] == a[0]);
        let e0 = encode_scalar(a[0] as u32);
        assert(e0 + (encode_utf8(a.drop_first()) + encode_utf8(b)) =~= (e0 + encode_utf8(a.drop_first())) + encode_utf8(b));
    }
}

/// The numeral of `n`: one or more digits whose value is `n`.
proof fn lemma_decimal_digits(n: nat)
    ensures
        decimal(n).len() >= 1,
        all_digits(decimal(n)),
        digits_value(decimal(n)) == n,
    decreases n,
{
    let c = digit_char(n % 10);
    assert(c as u32 == '0' as u32 + n % 10);
    if n < 10 {
        assert(decimal(n).drop_last() =~= Seq::<char>::empty());
        assert(decimal(n).last() == c);
        assert(digits_value(Seq::<char>::empty()) == 0);
        assert(digits_value(decimal(n)) == 10 * digits_value(decimal(n).drop_last()) + ((c as u32) - ('0' as u32)) as nat);
    } else {
        lemma_decimal_digits(n / 10);
        let d = decimal(n / 10);
        assert(decimal(n).drop_last() =~= d);
        assert(decimal(n).last() == c);
        assert(digits_value(decimal(n)) == 10 * digits_value(d) + ((c as u32) - ('0' as u32)) as nat);
        assert forall|i: int| 0 <= i < decimal(n).len() implies '0' <= #[trigger] decimal(n)[i] && decimal(n)[i] <= '9' by {
            if i < d.len() {
                assert(decimal(n)[i] == d[i]);
            }
        }
    }
}

/// No `\r\n\r\n` stands in `s`.
spec fn lacks_blank_line(s: Seq<char>) -> bool {
    forall|k: int| #![trigger s[k]] 0 <= k && k + 4 <= s.len()
        ==> !(s[k] == '\r' && s[k + 1] == '\n' && s[k + 2] == '\r' && s[k + 3] == '\n')
}

/// The head ends at `a` when a blank line stands there and none before.
proof fn lemma_head_end_at(d: Seq<u8>, i: int, a: int)
    requires
        0 <= i <= a,
        blank_line_at(d, a),
        forall|j: int| i <= j < a ==> !#[trigger] blank_line_at(d, j),
    ensures
        head_end_from(d, i) == Some(a),
    decreases a - i,
{
    if i < a {
        lemma_head_end_at(d, i + 1, a);
    }
}

/// A message whose head is `a`, a numeral, then `b` ending in a blank line:
/// its head ends at that blank line, and its bytes up to there read as the
/// head's characters.
proof fn lemma_head_bytes(a: Seq<char>, dn: Seq<char>, b: Seq<char>, body: Seq<char>)
    requires
        is_ascii_chars(a),
        is_ascii_chars(b),
        dn.len() >= 1,
        all_digits(dn),
        lacks_blank_line(a),
        lacks_blank_line(b.drop_last()),
        b.len() >= 4,
        b[b.len() - 4] == '\r',
        b[b.len() - 3] == '\n',
        b[b.len() - 2] == '\r',
        b[b.len() - 1] == '\n',
    ensures
        ({
            let x = a + dn + b;
            let m = encode_utf8(x + body);
            &&& head_end_from(m, 0) == Some(x.len() - 4)
            &&& latin1(m.take(x.len() - 4)) == x.take(x.len() - 4)
            &&& m.len() == x.len() + encode_utf8(body).len()
            &&& m.subrange(x.len() as int, m.len() as int) == encode_utf8(body)
        }),
{
    let x = a + dn + b;
    let m = encode_utf8(x + body);
    let e = x.len() - 4;
    assert(is_ascii_chars(x)) by {
        assert forall|i: int| 0 <= i < x.len() implies '\0' <= #[trigger] x[i] <= '\u{7f}' by {
            if i < a.len() {
                assert(x[i] == a[i]);
            } else if i < a.len() + dn.len() {
                assert(x[i] == dn[i - a.len()]);
            } else {
                assert(x[i] == b[i - a.len() - dn.len()]);
            }
        }
    }
    lemma_encode_concat(x, body);
    is_ascii_chars_encode_utf8(x);
    let ex = encode_utf8(x);
    assert forall|i: int| 0 <= i < x.len() implies #[trigger] m[i] == x[i] as u8 by {
        assert(m[i] == ex[i]);
    }
    assert forall|j: int| 0 <= j < e implies !#[trigger] blank_line_at(m, j) by {
        if blank_line_at(m, j) {
            assert(m[j] == x[j] as u8);
            assert(m[j + 1] == x[j + 1] as u8);
            assert(m[j + 2] == x[j + 2] as u8);
            assert(m[j + 3] == x[j + 3] as u8);
            assert(x[j] == '\r' && x[j + 1] == '\n' && x[j + 2] == '\r' && x[j + 3] == '\n');
            if j + 4 <= a.len() {
                assert(x[j] == a[j] && x[j + 1] == a[j + 1] && x[j + 2] == a[j + 2] && x[j + 3] == a[j + 3]);
            } else if j >= a.len() + dn.len() {
                let k = j - a.len() - dn.len();
                let bl = b.drop_last();
                assert(x[j] == bl[k] && x[j + 1] == bl[k + 1] && x[j + 2] == bl[k + 2] && x[j + 3] == bl[k + 3]);
            } else {
                let p = if j < a.len() { a.len() as int } else { j };
                assert(x[p] == dn[p - a.len()]);
            }
        }
    }
    assert(blank_line_at(m, e)) by {
        assert(m[e] == x[e] as u8);
        assert(m[e + 1] == x[e + 1] as u8);
        assert(m[e + 2] == x[e + 2] as u8);
        assert(m[e + 3] == x[e + 3] as u8);
        assert(x[e] == b[b.len() - 4]);
        assert(x[e + 1] == b[b.len() - 3]);
        assert(x[e + 2] == b[b.len() - 2]);
        assert(x[e + 3] == b[b.len() - 1]);
    }
    lemma_head_end_at(m, 0, e);
    assert forall|i: int| 0 <= i < e implies #[trigger] latin1(m.take(e))[i] == x.take(e)[i] by {
        assert(m[i] == x[i] as u8);
        assert(x[i] <= '\u{7f}');
    }
    assert(latin1(m.take(e)) =~= x.take(e));
    assert(m.subrange(x.len() as int, m.len() as int) =~= encode_utf8(body));
}


/// The first `c` from `i` on is at `a` when `c` stands there and nowhere
/// in between.
proof fn lemma_find_char_at(s: Seq<char>, c: char, i: int, a: int)
    requires
        0 <= i <= a < s.len(),
        s[a] == c,
        forall|j: int| i <= j < a ==> #[trigger] s[j] != c,
    ensures
        find_char(s, c, i) == Some(a),
    decreases a - i,
{
    if i < a {
        lemma_find_char_at(s, c, i + 1, a);
    }
}

/// A header line whose name, before its first colon, is shorter than
/// `Content-Length` is passed over.
proof fn lemma_short_name_line(l: Seq<char>, i: int, rest: Seq<Seq<char>>)
    requires
        find_char(l, ':', 0) == Some(i),
        0 <= i < 14,
        i < l.len(),
    ensures
        content_length_value(seq![l] + rest) == content_length_value(rest),
{
    reveal_strlit("Content-Length");
    let ls = seq![l] + rest;
    assert(ls[0] == l);
    assert(ls.drop_first() =~= rest);
    assert("Content-Length"@.len() == 14);
    assert(l.take(i).len() == i);
    assert(first_occurrence(l.take(i), "Content-Length"@, 0) is None);
}

/// The line `Content-Length: ` and a numeral names that numeral, after a
/// space.
proof fn lemma_length_line(l: Seq<char>, dn: Seq<char>, rest: Seq<Seq<char>>)
    requires
        l == "Content-Length: "@ + dn,
        all_digits(dn),
    ensures
        content_length_value(seq![l] + rest) == Some(seq![' '] + dn),
{
    reveal_strlit("Content-Length: ");
    reveal_strlit("Content-Length");
    let ls = seq![l] + rest;
    assert(ls[0] == l);
    assert(l[14] == ':');
    assert forall|j: int| 0 <= j < 14 implies #[trigger] l[j] != ':' by {}
    lemma_find_char_at(l, ':', 0, 14);
    assert(l.take(14).subrange(0, 14) =~= "Content-Length"@);
    assert(first_occurrence(l.take(14), "Content-Length"@, 0) == Some(0int));
    assert(l.skip(15) =~= seq![' '] + dn);
}

/// A space and a numeral, trimmed and read, give the numeral's value.
proof fn lemma_numeral_value(dn: Seq<char>, max: nat)
    requires
        dn.len() >= 1,
        all_digits(dn),
        digits_value(dn) <= max,
    ensures
        parse_uint(trim(seq![' '] + dn), max) == Some(digits_value(dn)),
{
    let s = seq![' '] + dn;
    assert(is_ws(s[0]));
    assert(s.drop_first() =~= dn);
    assert(trim_start(s) == trim_start(dn));
    assert(dn[0] <= '9');
    assert(!is_ws(dn[0]));
    assert(trim_start(dn) == dn);
    assert(dn[dn.len() - 1] <= '9');
    assert(!is_ws(dn.last()));
    assert(trim_end(dn) == dn);
    assert(dn[0] != '+');
}


/// The request the client writes is framed by its own head: the head ends
/// where the body begins and names the body's length in bytes, so a reader
/// hands over exactly the body.
pub proof fn lemma_client_message_framed(body: Seq<char>)
    requires
        encode_utf8(client_message(body)).len() <= usize::MAX,
    ensures
        ({
            let m = encode_utf8(client_message(body));
            let n = encode_utf8(body).len();
            &&& n <= m.len()
            &&& head_result(m) == HeadResult::Ready(n as usize, (m.len() - n) as usize)
            &&& m.subrange(m.len() - n, m.len() as int) == encode_utf8(body)
        }),
{
    reveal_strlit("POST /ask HTTP/1.1\r\nHost: httpbin.org\r\nConnection: keep-alive\r\nContent-Length: ");
    reveal_strlit("\r\nContent-Type: text/plain\r\n\r\n");
    reveal_strlit("Content-Length: ");
    let a = "POST /ask HTTP/1.1\r\nHost: httpbin.org\r\nConnection: keep-alive\r\nContent-Length: "@;
    let b = "\r\nContent-Type: text/plain\r\n\r\n"@;
    let n = encode_utf8(body).len();
    let dn = decimal(n);
    lemma_decimal_digits(n);
    assert(client_message(body) == a + dn + b + body);
    assert(a.len() == 79 && b.len() == 30);
    assert(is_ascii_chars(a)) by {
        assert forall|i: int| 0 <= i < a.len() implies '\0' <= #[trigger] a[i] <= '\u{7f}' by {}
    }
    assert(is_ascii_chars(b)) by {
        assert forall|i: int| 0 <= i < b.len() implies '\0' <= #[trigger] b[i] <= '\u{7f}' by {}
    }
    assert(lacks_blank_line(a)) by {
        assert forall|k: int| 0 <= k && k + 4 <= a.len() implies !(#[trigger] a[k] == '\r' && a[k + 1] == '\n' && a[k + 2] == '\r' && a[k + 3] == '\n') by {}
    }
    let bl = b.drop_last();
    assert(lacks_blank_line(bl)) by {
        assert forall|k: int| 0 <= k && k + 4 <= bl.len() implies !(#[trigger] bl[k] == '\r' && bl[k + 1] == '\n' && bl[k + 2] == '\r' && bl[k + 3] == '\n') by {
            assert(bl[k] == b[k] && bl[k + 1] == b[k + 1] && bl[k + 2] == b[k + 2] && bl[k + 3] == b[k + 3]);
        }
    }
    lemma_head_bytes(a, dn, b, body);
    let x = a + dn + b;
    let m = encode_utf8(x + body);
    let e = x.len() - 4;
    let t = x.take(e);
    let p0 = a.subrange(0, 19);
    let p1 = a.subrange(20, 38);
    let p2 = a.subrange(39, 62);
    let p3 = a.subrange(63, 79) + dn + seq!['\r'];
    let p4 = b.subrange(2, 26);
    let r3 = p3.push('\n') + p4;
    let r2 = p2.push('\n') + r3;
    let r1 = p1.push('\n') + r2;
    assert(t =~= p0.push('\n') + r1);
    assert(!p0.contains('\n')) by {
        assert forall|j: int| 0 <= j < p0.len() implies #[trigger] p0[j] != '\n' by {}
    }
    assert(!p1.contains('\n')) by {
        assert forall|j: int| 0 <= j < p1.len() implies #[trigger] p1[j] != '\n' by {}
    }
    assert(!p2.contains('\n')) by {
        assert forall|j: int| 0 <= j < p2.len() implies #[trigger] p2[j] != '\n' by {}
    }
    assert(!p3.contains('\n')) by {
        assert forall|j: int| 0 <= j < p3.len() implies #[trigger] p3[j] != '\n' by {
            if j >= 16 && j < 16 + dn.len() {
                assert(p3[j] == dn[j - 16]);
            }
        }
    }
    assert(!p4.contains('\n')) by {
        assert forall|j: int| 0 <= j < p4.len() implies #[trigger] p4[j] != '\n' by {}
    }
    lemma_split_first_line(p0, r1, '\n');
    lemma_split_first_line(p1, r2, '\n');
    lemma_split_first_line(p2, r3, '\n');
    lemma_split_first_line(p3, p4, '\n');
    lemma_split_on_plain(p4, '\n');
    let pieces = seq![p0] + (seq![p1] + (seq![p2] + (seq![p3] + seq![p4])));
    assert(split_on(t, '\n') == pieces);
    let s1 = a.subrange(20, 37);
    let s2 = a.subrange(39, 61);
    let s3 = a.subrange(63, 79) + dn;
    assert(strip_cr(p1) =~= s1);
    assert(strip_cr(p2) =~= s2);
    assert(p3.last() == '\r');
    assert(strip_cr(p3) =~= s3);
    assert(p4.last() != '\r');
    assert(strip_cr(p4) == p4);
    let lines = seq![s1] + (seq![s2] + (seq![s3] + seq![p4]));
    assert(header_lines(m, e) =~= lines);
    assert(s1[4] == ':');
    lemma_find_char_at(s1, ':', 0, 4);
    lemma_short_name_line(s1, 4, seq![s2] + (seq![s3] + seq![p4]));
    assert(s2[10] == ':');
    lemma_find_char_at(s2, ':', 0, 10);
    lemma_short_name_line(s2, 10, seq![s3] + seq![p4]);
    assert(a.subrange(63, 79) =~= "Content-Length: "@);
    lemma_length_line(s3, dn, seq![p4]);
    lemma_numeral_value(dn, usize::MAX as nat);
}


/// The response the server writes is framed by its own head: the head ends
/// where the body begins and names the body's length in bytes, so a reader
/// hands over exactly the body.
pub proof fn lemma_server_message_framed(body: Seq<char>)
    requires
        encode_utf8(server_message(body)).len() <= usize::MAX,
    ensures
        ({
            let m = encode_utf8(server_message(body));
            let n = encode_utf8(body).len();
            &&& n <= m.len()
            &&& head_result(m) == HeadResult::Ready(n as usize, (m.len() - n) as usize)
            &&& m.subrange(m.len() - n, m.len() as int) == encode_utf8(body)
        }),
{
    reveal_strlit("http/1.1 200 OK\r\nConnection: keep-alive\r\nContent-Type: text/plain\r\nContent-Length: ");
    reveal_strlit("\r\n\r\n");
    reveal_strlit("Content-Length: ");
    let a = "http/1.1 200 OK\r\nConnection: keep-alive\r\nContent-Type: text/plain\r\nContent-Length: "@;
    let b = "\r\n\r\n"@;
    let n = encode_utf8(body).len();
    let dn = decimal(n);
    lemma_decimal_digits(n);
    assert(server_message(body) == a + dn + b + body);
    assert(a.len() == 83 && b.len() == 4);
    assert(is_ascii_chars(a)) by {
        assert forall|i: int| 0 <= i < a.len() implies '\0' <= #[trigger] a[i] <= '\u{7f}' by {}
    }
    assert(is_ascii_chars(b)) by {
        assert forall|i: int| 0 <= i < b.len() implies '\0' <= #[trigger] b[i] <= '\u{7f}' by {}
    }
    assert(lacks_blank_line(a)) by {
        assert forall|k: int| 0 <= k && k + 4 <= a.len() implies !(#[trigger] a[k] == '\r' && a[k + 1] == '\n' && a[k + 2] == '\r' && a[k + 3] == '\n') by {}
    }
    assert(lacks_blank_line(b.drop_last()));
    lemma_head_bytes(a, dn, b, body);
    let x = a + dn + b;
    let m = encode_utf8(x + body);
    let e = x.len() - 4;
    let t = x.take(e);
    let p0 = a.subrange(0, 16);
    let p1 = a.subrange(17, 40);
    let p2 = a.subrange(41, 66);
    let p3 = a.subrange(67, 83) + dn;
    let r2 = p2.push('\n') + p3;
    let r1 = p1.push('\n') + r2;
    assert(t =~= p0.push('\n') + r1);
    assert(!p0.contains('\n')) by {
        assert forall|j: int| 0 <= j < p0.len() implies #[trigger] p0[j] != '\n' by {}
    }
    assert(!p1.contains('\n')) by {
        assert forall|j: int| 0 <= j < p1.len() implies #[trigger] p1[j] != '\n' by {}
    }
    assert(!p2.contains('\n')) by {
        assert forall|j: int| 0 <= j < p2.len() implies #[trigger] p2[j] != '\n' by {}
    }
    assert(!p3.contains('\n')) by {
        assert forall|j: int| 0 <= j < p3.len() implies #[trigger] p3[j] != '\n' by {
            if j >= 16 {
                assert(p3[j] == dn[j - 16]);
            }
        }
    }
    lemma_split_first_line(p0, r1, '\n');
    lemma_split_first_line(p1, r2, '\n');
    lemma_split_first_line(p2, p3, '\n');
    lemma_split_on_plain(p3, '\n');
    let pieces = seq![p0] + (seq![p1] + (seq![p2] + seq![p3]));
    assert(split_on(t, '\n') == pieces);
    let s1 = a.subrange(17, 39);
    let s2 = a.subrange(41, 65);
    assert(strip_cr(p1) =~= s1);
    assert(strip_cr(p2) =~= s2);
    assert(p3.last() == dn.last());
    assert(p3.last() != '\r');
    assert(strip_cr(p3) == p3);
    let lines = seq![s1] + (seq![s2] + seq![p3]);
    assert(header_lines(m, e) =~= lines);
    assert(s1[10] == ':');
    lemma_find_char_at(s1, ':', 0, 10);
    lemma_short_name_line(s1, 10, seq![s2] + seq![p3]);
    assert(s2[12] == ':');
    lemma_find_char_at(s2, ':', 0, 12);
    lemma_short_name_line(s2, 12, seq![p3]);
    assert(a.subrange(67, 83) =~= "Content-Length: "@);
    lemma_length_line(p3, dn, Seq::<Seq<char>>::empty());
    assert(seq![p3] + Seq::<Seq<char>>::empty() =~= seq![p3]);
    lemma_numeral_value(dn, usize::MAX as nat);
}


/// What one side puts on the wire, the other side's reader frames and
/// decodes back to the hidden data, whichever questions were drawn: the
/// server gets the client's data, and the client the server's.
pub proof fn lemma_wire_roundtrip(qa: &QaData, d: Seq<u8>, choices: Seq<usize>, owed: Seq<(bool, u8)>)
    requires
        qa.well_formed(),
        qa.questions_decodable(),
        qa.answers_colon_free(),
        d.len() > 0,
        valid_choices(choices, 8 * d.len()),
        forall|k: int| 0 <= k < owed.len() ==> (#[trigger] owed[k]).1 < 128,
        encode_utf8(client_message(qa.client_body(d, choices))).len() <= usize::MAX,
        encode_utf8(server_message(qa.server_body(owed, d, choices))).len() <= usize::MAX,
    ensures
        ({
            let m = encode_utf8(client_message(qa.client_body(d, choices)));
            match head_result(m) {
                HeadResult::Ready(cl, si) => {
                    &&& si + cl == m.len()
                    &&& valid_utf8(m.subrange(si as int, si + cl))
                    &&& read_outcome(qa, true, decode_utf8(m.subrange(si as int, si + cl))) matches ReadOutcome::Data(x, Some(_)) && x == d
                },
                _ => false,
            }
        }),
        ({
            let m = encode_utf8(server_message(qa.server_body(owed, d, choices)));
            match head_result(m) {
                HeadResult::Ready(cl, si) => {
                    &&& si + cl == m.len()
                    &&& valid_utf8(m.subrange(si as int, si + cl))
                    &&& read_outcome(qa, false, decode_utf8(m.subrange(si as int, si + cl))) matches ReadOutcome::Data(y, None) && y == d
                },
                _ => false,
            }
        }),
{
    let cb = qa.client_body(d, choices);
    let sb = qa.server_body(owed, d, choices);
    lemma_client_message_framed(cb);
    lemma_server_message_framed(sb);
    encode_utf8_valid_utf8(cb);
    encode_utf8_valid_utf8(sb);
    encode_utf8_decode_utf8(cb);
    encode_utf8_decode_utf8(sb);
    lemma_conn_roundtrip(qa, d, choices, owed);
    let mc = encode_utf8(client_message(cb));
    let nc = encode_utf8(cb).len();
    assert(mc.subrange(mc.len() - nc, mc.len() as int) == encode_utf8(cb));
    assert(((mc.len() - nc) as usize) + (nc as usize) == mc.len());
    let ms = encode_utf8(server_message(sb));
    let ns = encode_utf8(sb).len();
    assert(ms.subrange(ms.len() - ns, ms.len() as int) == encode_utf8(sb));
    assert(((ms.len() - ns) as usize) + (ns as usize) == ms.len());
}

} // verus!
