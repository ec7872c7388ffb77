//! The AI-generated steganography protocol: an AI model turns each write
//! into a sequence of packets to write and lengths to read back. This
//! module reads the model's replies and steps through the sequences.

use vstd::prelude::*;
use crate::text::{chars_of, split_char, split_on, string_from_chars};
use crate::ip::{ip_text, ip_text_ok};
use base64::Engine;

verus! {

broadcast use vstd::string::group_string_axioms;

/// Whether `c` has the Unicode `White_Space` property.
pub open spec fn is_ws(c: char) -> bool {
    let u = c as u32;
    (0x9 <= u && u <= 0xd) || u == 0x20 || u == 0x85 || u == 0xa0 || u == 0x1680
        || (0x2000 <= u && u <= 0x200a) || u == 0x2028 || u == 0x2029 || u == 0x202f
        || u == 0x205f || u == 0x3000
}

/// Whether `c` has the Unicode `White_Space` property.
pub fn is_whitespace(c: char) -> (r: bool)
    ensures
        r == is_ws(c),
{
    let u = c as u32;
    (0x9 <= u && u <= 0xd) || u == 0x20 || u == 0x85 || u == 0xa0 || u == 0x1680
        || (0x2000 <= u && u <= 0x200a) || u == 0x2028 || u == 0x2029 || u == 0x202f
        || u == 0x205f || u == 0x3000
}

/// `s` without leading white space.
pub open spec fn trim_start(s: Seq<char>) -> Seq<char>
    decreases s.len(),
{
    if s.len() > 0 && is_ws(s[0]) { trim_start(s.drop_first()) } else { s }
}

/// `s` without trailing white space.
pub open spec fn trim_end(s: Seq<char>) -> Seq<char>
    decreases s.len(),
{
    if s.len() > 0 && is_ws(s.last()) { trim_end(s.drop_last()) } else { s }
}

/// `s` without leading and trailing white space.
pub open spec fn trim(s: Seq<char>) -> Seq<char> {
    trim_end(trim_start(s))
}

proof fn lemma_trim_start_at(s: Seq<char>, i: int)
    requires
        0 <= i <= s.len(),
        forall|k: int| 0 <= k < i ==> is_ws(#[trigger] s[k]),
    ensures
        trim_start(s) == trim_start(s.skip(i)),
    decreases i,
{
    if i > 0 {
        assert(s.skip(1) =~= s.drop_first());
        lemma_trim_start_at(s.drop_first(), i - 1);
        assert(s.drop_first().skip(i - 1) =~= s.skip(i));
    } else {
        assert(s.skip(0) =~= s);
    }
}

proof fn lemma_trim_end_at(s: Seq<char>, j: int)
    requires
        0 <= j <= s.len(),
        forall|k: int| j <= k < s.len() ==> is_ws(#[trigger] s[k]),
    ensures
        trim_end(s) == trim_end(s.take(j)),
    decreases s.len() - j,
{
    if j < s.len() {
        assert(s.take(s.len() - 1) =~= s.drop_last());
        lemma_trim_end_at(s.drop_last(), j);
        assert(s.drop_last().take(j) =~= s.take(j));
    } else {
        assert(s.take(j) =~= s);
    }
}

/// `s` without leading and trailing white space.
pub fn trim_str(s: &str) -> (r: String)
    ensures
        r@ == trim(s@),
{
    let cs = chars_of(s);
    let n = cs.len();
    let mut a: usize = 0;
    while a < n && is_whitespace(cs[a])
        invariant
            cs@ == s@,
            n == cs@.len(),
            a <= n,
            forall|k: int| 0 <= k < a ==> is_ws(#[trigger] cs@[k]),
        decreases n - a,
    {
        a = a + 1;
    }
    proof {
        lemma_trim_start_at(s@, a as int);
        assert(a < n ==> !is_ws(s@.skip(a as int)[0]));
    }
    let mut b: usize = n;
    while b > a && is_whitespace(cs[b - 1])
        invariant
            cs@ == s@,
            n == cs@.len(),
            a <= b <= n,
            forall|k: int| b <= k < n ==> is_ws(#[trigger] cs@[k]),
        decreases b - a,
    {
        b = b - 1;
    }
    proof {
        let t = s@.skip(a as int);
        assert(trim_start(s@) == t);
        assert forall|k: int| (b - a) <= k < t.len() implies is_ws(#[trigger] t[k]) by {
            assert(t[k] == cs@[a + k]);
        }
        lemma_trim_end_at(t, (b - a) as int);
        assert(t.take((b - a) as int) =~= s@.subrange(a as int, b as int));
        if b > a {
            assert(!is_ws(s@.subrange(a as int, b as int).last()));
        }
    }
    string_from_chars(&cs, a, b)
}

/// The index of the first `c` in `s`, if any.
pub open spec fn find_char(s: Seq<char>, c: char, i: int) -> Option<int>
    decreases s.len() - i,
{
    if i < 0 || i >= s.len() {
        None
    } else if s[i] == c {
        Some(i)
    } else {
        find_char(s, c, i + 1)
    }
}

/// `s` cut at its first `c`.
pub open spec fn split_once_char(s: Seq<char>, c: char) -> Option<(Seq<char>, Seq<char>)> {
    match find_char(s, c, 0) {
        Some(i) => Some((s.take(i), s.skip(i + 1))),
        None => None,
    }
}

/// `s` cut at its first `c`: what stands before it and what follows it.
pub fn split_once_at(s: &str, c: char) -> (r: Option<(String, String)>)
    ensures
        match split_once_char(s@, c) {
            Some((a, b)) => r matches Some((x, y)) && x@ == a && y@ == b,
            None => r is None,
        },
{
    let cs = chars_of(s);
    let n = cs.len();
    let mut i: usize = 0;
    while i < n
        invariant
            cs@ == s@,
            n == cs@.len(),
            i <= n,
            find_char(s@, c, 0) == find_char(s@, c, i as int),
        decreases n - i,
    {
        if cs[i] == c {
            let a = string_from_chars(&cs, 0, i);
            let b = string_from_chars(&cs, i + 1, n);
            proof {
                assert(a@ =~= s@.take(i as int));
                assert(b@ =~= s@.skip(i + 1));
            }
            return Some((a, b));
        }
        i = i + 1;
    }
    None
}

/// The lines of `s` as `str::lines` gives them: split at each `'\n'`, a
/// `'\r'` before it dropped, no empty line after a final `'\n'`.
pub open spec fn lines_spec(s: Seq<char>) -> Seq<Seq<char>> {
    let p = split_on(s, '\n');
    let strip = |l: Seq<char>| if l.len() > 0 && l.last() == '\r' { l.drop_last() } else { l };
    if s.len() == 0 {
        Seq::empty()
    } else if s.last() == '\n' {
        p.drop_last().map_values(strip)
    } else {
        p.drop_last().map_values(strip).push(p.last())
    }
}

/// The lines of `s`, as `str::lines` gives them.
pub fn lines_of(s: &str) -> (r: Vec<String>)
    ensures
        r@.len() == lines_spec(s@).len(),
        forall|i: int| 0 <= i < r@.len() ==> (#[trigger] r@[i])@ == lines_spec(s@)[i],
{
    let pieces = split_char(s, '\n');
    let ghost p = split_on(s@, '\n');
    proof {
        crate::text::lemma_split_on_nonempty(s@, '\n');
    }
    let mut r: Vec<String> = Vec::new();
    if s.is_empty() {
        return r;
    }
    let cs = chars_of(s);
    let ends_nl = cs[cs.len() - 1] == '\n';
    let m = pieces.len() - 1;
    let mut i: usize = 0;
    while i < m
        invariant
            pieces@.len() == p.len(),
            forall|k: int| 0 <= k < pieces@.len() ==> (#[trigger] pieces@[k])@ == p[k],
            m + 1 == p.len(),
            i <= m,
            r@.len() == i,
            forall|k: int| 0 <= k < i ==> (#[trigger] r@[k])@ == (if p[k].len() > 0 && p[k].last() == '\r' {
                p[k].drop_last()
            } else {
                p[k]
            }),
        decreases m - i,
    {
        let lc = chars_of(pieces[i].as_str());
        let len = lc.len();
        if len > 0 && lc[len - 1] == '\r' {
            r.push(string_from_chars(&lc, 0, len - 1));
            assert(r@[i as int]@ =~= p[i as int].drop_last());
        } else {
            r.push(string_from_chars(&lc, 0, len));
            assert(r@[i as int]@ =~= p[i as int]);
        }
        i = i + 1;
    }
    if !ends_nl {
        r.push(string_from_chars(&chars_of(pieces[m].as_str()), 0, chars_of(pieces[m].as_str()).len()));
        assert(r@[m as int]@ =~= p[m as int]);
    }
    proof {
        assert(cs@.last() == s@.last());
        let strip = |l: Seq<char>| if l.len() > 0 && l.last() == '\r' { l.drop_last() } else { l };
        let want = lines_spec(s@);
        if ends_nl {
            assert(want =~= p.drop_last().map_values(strip));
        } else {
            assert(want =~= p.drop_last().map_values(strip).push(p.last()));
        }
        assert forall|k: int| 0 <= k < r@.len() implies (#[trigger] r@[k])@ == want[k] by {}
    }
    r
}

/// Whether every character of `s` is an ASCII digit.
pub open spec fn all_digits(s: Seq<char>) -> bool {
    forall|i: int| 0 <= i < s.len() ==> '0' <= #[trigger] s[i] && s[i] <= '9'
}

/// The value of the decimal digits `s`.
pub open spec fn digits_value(s: Seq<char>) -> nat
    decreases s.len(),
{
    if s.len() == 0 { 0 } else { 10 * digits_value(s.drop_last()) + ((s.last() as u32) - ('0' as u32)) as nat }
}

/// The unsigned integer that `s` spells, as `str::parse` reads it: an
/// optional `+`, then one or more decimal digits, at most `max`.
pub open spec fn parse_uint(s: Seq<char>, max: nat) -> Option<nat> {
    let d = if s.len() > 0 && s[0] == '+' { s.drop_first() } else { s };
    if d.len() > 0 && all_digits(d) && digits_value(d) <= max { Some(digits_value(d)) } else { None }
}

proof fn lemma_digits_value_grows(s: Seq<char>, k: int)
    requires
        0 <= k <= s.len(),
    ensures
        digits_value(s.take(k)) <= digits_value(s),
    decreases s.len() - k,
{
    if k < s.len() {
        lemma_digits_value_grows(s.drop_last(), k);
        assert(s.drop_last().take(k) =~= s.take(k));
        assert(s.take(s.len() as int) =~= s);
    } else {
        assert(s.take(k) =~= s);
    }
}

/// The unsigned integer that `s` spells, if it is at most `max`.
pub fn parse_decimal(s: &str, max: u64) -> (r: Option<u64>)
    ensures
        match parse_uint(s@, max as nat) {
            Some(v) => r == Some(v as u64),
            None => r is None,
        },
{
    let cs = chars_of(s);
    let n = cs.len();
    let start: usize = if n > 0 && cs[0] == '+' { 1 } else { 0 };
    let ghost d = if s@.len() > 0 && s@[0] == '+' { s@.drop_first() } else { s@ };
    assert(d =~= cs@.skip(start as int));
    if start >= n {
        return None;
    }
    let mut v: u64 = 0;
    let mut i: usize = start;
    while i < n
        invariant
            cs@ == s@,
            n == cs@.len(),
            start < n,
            start <= i <= n,
            d == cs@.skip(start as int),
            d == (if s@.len() > 0 && s@[0] == '+' { s@.drop_first() } else { s@ }),
            all_digits(d.take(i - start)),
            v as nat == digits_value(d.take(i - start)),
            v <= max,
        decreases n - i,
    {
        let c = cs[i];
        let k = i - start;
        assert(d.take(k + 1).drop_last() =~= d.take(k as int));
        assert(d.take(k + 1).last() == c);
        assert(d[k as int] == c);
        if c < '0' || c > '9' {
            assert(!('0' <= d[k as int] && d[k as int] <= '9'));
            assert(!all_digits(d));
            assert(parse_uint(s@, max as nat) is None);
            return None;
        }
        let digit = (c as u32 - '0' as u32) as u64;
        assert(digits_value(d.take(k + 1)) == 10 * v + digit);
        if digit > max || v > (max - digit) / 10 {
            proof {
                if digit <= max {
                    assert(10 * v + digit > max) by (nonlinear_arith)
                        requires v > (max - digit) / 10, digit <= max;
                }
                lemma_digits_value_grows(d, k + 1);
                assert(digits_value(d) > max);
                assert(parse_uint(s@, max as nat) is None);
            }
            return None;
        }
        proof {
            assert(10 * v + digit <= max) by (nonlinear_arith)
                requires v <= (max - digit) / 10, digit <= 9;
        }
        v = 10 * v + digit;
        i = i + 1;
        assert forall|t: int| 0 <= t < i - start implies '0' <= #[trigger] d.take(i - start)[t] && d.take(i - start)[t] <= '9' by {
            if t < k {
                assert(d.take(i - start)[t] == d.take(k as int)[t]);
            }
        }
    }
    assert(d.take(n - start) =~= d);
    Some(v)
}

/// A `usize` as `str::parse` reads it.
pub fn parse_usize(s: &str) -> (r: Option<usize>)
    ensures
        match parse_uint(s@, usize::MAX as nat) {
            Some(v) => r == Some(v as usize),
            None => r is None,
        },
{
    match parse_decimal(s, usize::MAX as u64) {
        Some(v) => Some(v as usize),
        None => None,
    }
}

/// A `u16` as `str::parse` reads it.
pub fn parse_u16(s: &str) -> (r: Option<u16>)
    ensures
        match parse_uint(s@, u16::MAX as nat) {
            Some(v) => r == Some(v as u16),
            None => r is None,
        },
{
    match parse_decimal(s, u16::MAX as u64) {
        Some(v) => Some(v as u16),
        None => None,
    }
}

/// What the standard base64 alphabet with padding decodes `s` to: the
/// bytes whose padded text `s` is; none when `s` is no such text.
pub open spec fn base64_decoded(s: Seq<char>) -> Option<Seq<u8>> {
    crate::text::base64_value(s, false, true)
}

/// `base64::engine::general_purpose::STANDARD.decode`: the bytes whose
/// padded standard base64 text is `s`, or none when there are none (the
/// engine asks for canonical padding and rejects stray trailing bits).
#[verifier::external_body]
fn base64_decode(s: &str) -> (r: Option<Vec<u8>>)
    ensures
        match base64_decoded(s@) {
            Some(v) => r matches Some(x) && x@ == v,
            None => r is None,
        },
{
    match base64::engine::general_purpose::STANDARD.decode(s) {
        Ok(v) => Some(v),
        Err(_) => None,
    }
}

/// Why a model's reply could not be read.
#[derive(Debug, Clone, Copy, PartialEq, Eq)]
pub enum SequenceError {
    /// A packet is not valid base64.
    BadPacket,
    /// A length is not a number.
    BadLength,
    /// A port is not a number.
    BadPort,
    /// An IP address is not IPv4 or IPv6 text.
    BadIp,
}

/// The packets listed in comma-separated `items`, in order: blank items
/// skipped, the first that is not base64 an error.
pub open spec fn decode_items(items: Seq<Seq<char>>) -> Result<Seq<Seq<u8>>, SequenceError>
    decreases items.len(),
{
    if items.len() == 0 {
        Ok(Seq::empty())
    } else {
        match decode_items(items.drop_last()) {
            Err(e) => Err(e),
            Ok(acc) => {
                let t = trim(items.last());
                if t.len() == 0 {
                    Ok(acc)
                } else {
                    match base64_decoded(t) {
                        Some(b) => Ok(acc.push(b)),
                        None => Err(SequenceError::BadPacket),
                    }
                }
            },
        }
    }
}

/// The lengths listed in comma-separated `items`, in order: blank items
/// skipped, the first that is not a number an error.
pub open spec fn length_items(items: Seq<Seq<char>>) -> Result<Seq<usize>, SequenceError>
    decreases items.len(),
{
    if items.len() == 0 {
        Ok(Seq::empty())
    } else {
        match length_items(items.drop_last()) {
            Err(e) => Err(e),
            Ok(acc) => {
                let t = trim(items.last());
                if t.len() == 0 {
                    Ok(acc)
                } else {
                    match parse_uint(t, usize::MAX as nat) {
                        Some(n) => Ok(acc.push(n as usize)),
                        None => Err(SequenceError::BadLength),
                    }
                }
            },
        }
    }
}

/// What a reply has read so far: packets, lengths and the target address
/// parts (network, host, ip text, port).
pub struct ReplyFields {
    pub packets: Seq<Seq<u8>>,
    pub lengths: Seq<usize>,
    pub network: Option<Seq<char>>,
    pub host: Option<Seq<char>>,
    pub ip: Option<Seq<char>>,
    pub port: Option<u16>,
}

/// The key and trimmed value of a `KEY: value` line.
pub open spec fn key_value(line: Seq<char>) -> Option<(Seq<char>, Seq<char>)> {
    match split_once_char(trim(line), ':') {
        Some((k, v)) => Some((trim(k), trim(v))),
        None => None,
    }
}

/// Reading the reply lines in order: `WRITE_PACKETS` and `READ_LENGTHS`
/// add to the lists; with `with_addr`, non-empty `TARGET_ADDR_*` values set
/// the address parts, an IP that is not address text and a port that is not
/// a number being errors; other lines are ignored.
pub open spec fn read_reply(lines: Seq<Seq<char>>, with_addr: bool) -> Result<ReplyFields, SequenceError>
    decreases lines.len(),
{
    if lines.len() == 0 {
        Ok(ReplyFields { packets: Seq::empty(), lengths: Seq::empty(), network: None, host: None, ip: None, port: None })
    } else {
        match read_reply(lines.drop_last(), with_addr) {
            Err(e) => Err(e),
            Ok(f) => match key_value(lines.last()) {
                None => Ok(f),
                Some((k, v)) => if k == "WRITE_PACKETS"@ {
                    match decode_items(split_on(v, ',')) {
                        Ok(ps) => Ok(ReplyFields { packets: f.packets + ps, ..f }),
                        Err(e) => Err(e),
                    }
                } else if k == "READ_LENGTHS"@ {
                    match length_items(split_on(v, ',')) {
                        Ok(ls) => Ok(ReplyFields { lengths: f.lengths + ls, ..f }),
                        Err(e) => Err(e),
                    }
                } else if with_addr && k == "TARGET_ADDR_NETWORK"@ {
                    Ok(if v.len() > 0 { ReplyFields { network: Some(v), ..f } } else { f })
                } else if with_addr && k == "TARGET_ADDR_HOST"@ {
                    Ok(if v.len() > 0 { ReplyFields { host: Some(v), ..f } } else { f })
                } else if with_addr && k == "TARGET_ADDR_IP"@ {
                    if v.len() == 0 {
                        Ok(f)
                    } else if ip_text_ok(v) {
                        Ok(ReplyFields { ip: Some(v), ..f })
                    } else {
                        Err(SequenceError::BadIp)
                    }
                } else if with_addr && k == "TARGET_ADDR_PORT"@ {
                    if v.len() > 0 {
                        match parse_uint(v, u16::MAX as nat) {
                            Some(p) => Ok(ReplyFields { port: Some(p as u16), ..f }),
                            None => Err(SequenceError::BadPort),
                        }
                    } else {
                        Ok(f)
                    }
                } else {
                    Ok(f)
                },
            },
        }
    }
}

/// The packets listed in `value`, appended to `out`.
fn decode_packets(value: &str, out: &mut Vec<Vec<u8>>) -> (r: Result<(), SequenceError>)
    ensures
        match decode_items(split_on(value@, ',')) {
            Ok(ps) => r is Ok && final(out)@.map_values(|p: Vec<u8>| p@) == old(out)@.map_values(|p: Vec<u8>| p@) + ps,
            Err(e) => r == Err::<(), SequenceError>(e),
        },
{
    let items = split_char(value, ',');
    let ghost its = split_on(value@, ',');
    let ghost start = old(out)@.map_values(|p: Vec<u8>| p@);
    let mut i: usize = 0;
    assert(its.take(0) =~= Seq::<Seq<char>>::empty());
    while i < items.len()
        invariant
            its == split_on(value@, ','),
            items@.len() == its.len(),
            forall|k: int| 0 <= k < items@.len() ==> (#[trigger] items@[k])@ == its[k],
            i <= items@.len(),
            decode_items(its.take(i as int)) matches Ok(ps) && out@.map_values(|p: Vec<u8>| p@) == start + ps,
        decreases items@.len() - i,
    {
        assert(its.take(i + 1).drop_last() =~= its.take(i as int));
        assert(its.take(i + 1).last() == its[i as int]);
        let ghost before = out@.map_values(|p: Vec<u8>| p@);
        let t = trim_str(items[i].as_str());
        if !t.as_str().is_empty() {
            match base64_decode(t.as_str()) {
                Some(b) => {
                    out.push(b);
                    assert(out@.map_values(|p: Vec<u8>| p@) =~= before.push(b@));
                },
                None => {
                    proof {
                        assert(trim(its.take(i + 1).last()) == t@);
                        assert(decode_items(its.take(i + 1)) == Err::<Seq<Seq<u8>>, SequenceError>(SequenceError::BadPacket));
                        lemma_decode_items_err_stays(its, i as int + 1, its.len() as int);
                        assert(its.take(its.len() as int) =~= its);
                    }
                    return Err(SequenceError::BadPacket);
                },
            }
        }
        i = i + 1;
    }
    assert(its.take(its.len() as int) =~= its);
    Ok(())
}

proof fn lemma_decode_items_err_stays(items: Seq<Seq<char>>, k: int, j: int)
    requires
        0 <= k <= j <= items.len(),
        decode_items(items.take(k)) is Err,
    ensures
        decode_items(items.take(j)) == decode_items(items.take(k)),
    decreases j - k,
{
    if j > k {
        lemma_decode_items_err_stays(items, k, j - 1);
        assert(items.take(j).drop_last() =~= items.take(j - 1));
    }
}

proof fn lemma_length_items_err_stays(items: Seq<Seq<char>>, k: int, j: int)
    requires
        0 <= k <= j <= items.len(),
        length_items(items.take(k)) is Err,
    ensures
        length_items(items.take(j)) == length_items(items.take(k)),
    decreases j - k,
{
    if j > k {
        lemma_length_items_err_stays(items, k, j - 1);
        assert(items.take(j).drop_last() =~= items.take(j - 1));
    }
}

/// The lengths listed in `value`, appended to `out`.
fn parse_lengths(value: &str, out: &mut Vec<usize>) -> (r: Result<(), SequenceError>)
    ensures
        match length_items(split_on(value@, ',')) {
            Ok(ls) => r is Ok && final(out)@ == old(out)@ + ls,
            Err(e) => r == Err::<(), SequenceError>(e),
        },
{
    let items = split_char(value, ',');
    let ghost its = split_on(value@, ',');
    let ghost start = old(out)@;
    let mut i: usize = 0;
    assert(its.take(0) =~= Seq::<Seq<char>>::empty());
    while i < items.len()
        invariant
            its == split_on(value@, ','),
            items@.len() == its.len(),
            forall|k: int| 0 <= k < items@.len() ==> (#[trigger] items@[k])@ == its[k],
            i <= items@.len(),
            length_items(its.take(i as int)) matches Ok(ls) && out@ == start + ls,
        decreases items@.len() - i,
    {
        assert(its.take(i + 1).drop_last() =~= its.take(i as int));
        assert(its.take(i + 1).last() == its[i as int]);
        let ghost before = out@;
        let t = trim_str(items[i].as_str());
        if !t.as_str().is_empty() {
            match parse_usize(t.as_str()) {
                Some(n) => {
                    out.push(n);
                    assert(out@ =~= before.push(n));
                },
                None => {
                    proof {
                        assert(trim(its.take(i + 1).last()) == t@);
                        assert(length_items(its.take(i + 1)) == Err::<Seq<usize>, SequenceError>(SequenceError::BadLength));
                        lemma_length_items_err_stays(its, i as int + 1, its.len() as int);
                        assert(its.take(its.len() as int) =~= its);
                    }
                    return Err(SequenceError::BadLength);
                },
            }
        }
        i = i + 1;
    }
    assert(its.take(its.len() as int) =~= its);
    Ok(())
}

/// Whether `s` holds exactly `lit`.
fn str_is(s: &String, lit: &str) -> (r: bool)
    ensures
        r == (s@ == lit@),
{
    let l = lit.to_owned();
    *s == l
}

/// A model's reply as read: packets, lengths and target address parts.
pub struct Reply {
    pub packets: Vec<Vec<u8>>,
    pub lengths: Vec<usize>,
    pub network: Option<String>,
    pub host: Option<String>,
    pub ip: Option<String>,
    pub port: Option<u16>,
}

/// The text of an optional string.
pub open spec fn opt_view(o: Option<String>) -> Option<Seq<char>> {
    match o { Some(s) => Some(s@), None => None }
}

impl Reply {
    /// The reply as values.
    pub open spec fn fields(&self) -> ReplyFields {
        ReplyFields {
            packets: self.packets@.map_values(|p: Vec<u8>| p@),
            lengths: self.lengths@,
            network: opt_view(self.network),
            host: opt_view(self.host),
            ip: opt_view(self.ip),
            port: self.port,
        }
    }
}

proof fn lemma_read_reply_err_stays(lines: Seq<Seq<char>>, with_addr: bool, k: int, j: int)
    requires
        0 <= k <= j <= lines.len(),
        read_reply(lines.take(k), with_addr) is Err,
    ensures
        read_reply(lines.take(j), with_addr) == read_reply(lines.take(k), with_addr),
    decreases j - k,
{
    if j > k {
        lemma_read_reply_err_stays(lines, with_addr, k, j - 1);
        assert(lines.take(j).drop_last() =~= lines.take(j - 1));
    }
}

/// Reads a model's reply: its `WRITE_PACKETS` (base64, comma-separated)
/// and `READ_LENGTHS` (comma-separated) lines and, with `with_addr`, its
/// `TARGET_ADDR_NETWORK`, `_HOST`, `_IP` (IPv4 or IPv6 text) and `_PORT`
/// lines; other lines are ignored.
pub fn parse_reply(content: &str, with_addr: bool) -> (r: Result<Reply, SequenceError>)
    ensures
        match read_reply(lines_spec(content@), with_addr) {
            Ok(f) => r matches Ok(reply) && reply.fields() == f,
            Err(e) => r matches Err(x) && x == e,
        },
{
    let lines = lines_of(content);
    let ghost ls = lines_spec(content@);
    let mut reply = Reply { packets: Vec::new(), lengths: Vec::new(), network: None, host: None, ip: None, port: None };
    let mut i: usize = 0;
    proof {
        assert(ls.take(0) =~= Seq::<Seq<char>>::empty());
        assert(reply.fields().packets =~= Seq::<Seq<u8>>::empty());
    }
    while i < lines.len()
        invariant
            ls == lines_spec(content@),
            lines@.len() == ls.len(),
            forall|k: int| 0 <= k < lines@.len() ==> (#[trigger] lines@[k])@ == ls[k],
            i <= lines@.len(),
            read_reply(ls.take(i as int), with_addr) == Ok::<ReplyFields, SequenceError>(reply.fields()),
        decreases lines@.len() - i,
    {
        assert(ls.take(i + 1).drop_last() =~= ls.take(i as int));
        assert(ls.take(i + 1).last() == ls[i as int]);
        let ghost f = reply.fields();
        let line = trim_str(lines[i].as_str());
        match split_once_at(line.as_str(), ':') {
            None => {},
            Some((k0, v0)) => {
                let k = trim_str(k0.as_str());
                let v = trim_str(v0.as_str());
                if str_is(&k, "WRITE_PACKETS") {
                    match decode_packets(v.as_str(), &mut reply.packets) {
                        Ok(()) => {},
                        Err(e) => {
                            proof {
                                lemma_read_reply_err_stays(ls, with_addr, i + 1, ls.len() as int);
                                assert(ls.take(ls.len() as int) =~= ls);
                            }
                            return Err(e);
                        },
                    }
                } else if str_is(&k, "READ_LENGTHS") {
                    match parse_lengths(v.as_str(), &mut reply.lengths) {
                        Ok(()) => {},
                        Err(e) => {
                            proof {
                                lemma_read_reply_err_stays(ls, with_addr, i + 1, ls.len() as int);
                                assert(ls.take(ls.len() as int) =~= ls);
                            }
                            return Err(e);
                        },
                    }
                } else if with_addr && str_is(&k, "TARGET_ADDR_NETWORK") {
                    if !v.as_str().is_empty() {
                        reply.network = Some(v);
                    }
                } else if with_addr && str_is(&k, "TARGET_ADDR_HOST") {
                    if !v.as_str().is_empty() {
                        reply.host = Some(v);
                    }
                } else if with_addr && str_is(&k, "TARGET_ADDR_IP") {
                    if !v.as_str().is_empty() {
                        if ip_text(v.as_str()) {
                            reply.ip = Some(v);
                        } else {
                            proof {
                                lemma_read_reply_err_stays(ls, with_addr, i + 1, ls.len() as int);
                                assert(ls.take(ls.len() as int) =~= ls);
                            }
                            return Err(SequenceError::BadIp);
                        }
                    }
                } else if with_addr && str_is(&k, "TARGET_ADDR_PORT") {
                    if !v.as_str().is_empty() {
                        match parse_u16(v.as_str()) {
                            Some(p) => {
                                reply.port = Some(p);
                            },
                            None => {
                                proof {
                                    lemma_read_reply_err_stays(ls, with_addr, i + 1, ls.len() as int);
                                    assert(ls.take(ls.len() as int) =~= ls);
                                }
                                return Err(SequenceError::BadPort);
                            },
                        }
                    }
                }
            },
        }
        i = i + 1;
    }
    assert(ls.take(ls.len() as int) =~= ls);
    Ok(reply)
}

/// Where a write sequence stands: whether the next step writes, and the
/// index of the packet or length it uses.
#[derive(Debug, Clone, Copy, PartialEq, Eq)]
pub struct WriteStep {
    pub is_write: bool,
    pub index: usize,
}

/// One write turned into packets to write (`w1..wN`) and lengths to read
/// between them (`r1..rN`).
pub struct WriteSequence {
    pub write_packets: Vec<Vec<u8>>,
    pub read_lengths: Vec<usize>,
    pub current_step: WriteStep,
}

/// Where a read sequence stands: whether the next step reads, and the
/// index of the packet or length it uses.
#[derive(Debug, Clone, Copy, PartialEq, Eq)]
pub struct ReadStep {
    pub is_read: bool,
    pub index: usize,
}

/// The packets to answer with and the lengths to read, for data received.
pub struct ReadSequence {
    pub write_packets: Vec<Vec<u8>>,
    pub read_lengths: Vec<usize>,
    pub read_packets: Vec<Vec<u8>>,
    pub current_step: ReadStep,
}

impl ReadSequence {
    /// The next step writes.
    pub fn advance_to_next_write(&mut self)
        ensures
            final(self).current_step == (ReadStep { is_read: false, index: old(self).current_step.index }),
            final(self).write_packets == old(self).write_packets,
            final(self).read_lengths == old(self).read_lengths,
            final(self).read_packets == old(self).read_packets,
    {
        self.current_step.is_read = false;
    }

    /// The next step reads, at the next index.
    pub fn advance_to_next_read(&mut self)
        requires
            old(self).current_step.index < usize::MAX,
        ensures
            final(self).current_step == (ReadStep { is_read: true, index: (old(self).current_step.index + 1) as usize }),
            final(self).write_packets == old(self).write_packets,
            final(self).read_lengths == old(self).read_lengths,
            final(self).read_packets == old(self).read_packets,
    {
        self.current_step.is_read = true;
        self.current_step.index = self.current_step.index + 1;
    }
}

impl WriteSequence {
    /// The next step reads.
    pub fn advance_to_next_read(&mut self)
        ensures
            final(self).current_step == (WriteStep { is_write: false, index: old(self).current_step.index }),
            final(self).write_packets == old(self).write_packets,
            final(self).read_lengths == old(self).read_lengths,
    {
        self.current_step.is_write = false;
    }

    /// The next step writes, at the next index.
    pub fn advance_to_next_write(&mut self)
        requires
            old(self).current_step.index < usize::MAX,
        ensures
            final(self).current_step == (WriteStep { is_write: true, index: (old(self).current_step.index + 1) as usize }),
            final(self).write_packets == old(self).write_packets,
            final(self).read_lengths == old(self).read_lengths,
    {
        self.current_step.is_write = true;
        self.current_step.index = self.current_step.index + 1;
    }
}

/// The parts of a target address that a reply names.
pub struct TargetAddr {
    pub network: String,
    pub host: Option<String>,
    pub ip: Option<String>,
    pub port: u16,
}

/// The write sequence in a model's reply, at its first step.
pub fn parse_ai_response_to_write_sequence(content: &str) -> (r: Result<WriteSequence, SequenceError>)
    ensures
        match read_reply(lines_spec(content@), false) {
            Ok(f) => r matches Ok(w) && w.write_packets@.map_values(|p: Vec<u8>| p@) == f.packets
                && w.read_lengths@ == f.lengths && w.current_step == (WriteStep { is_write: true, index: 0 }),
            Err(e) => r matches Err(x) && x == e,
        },
{
    match parse_reply(content, false) {
        Ok(reply) => Ok(WriteSequence {
            write_packets: reply.packets,
            read_lengths: reply.lengths,
            current_step: WriteStep { is_write: true, index: 0 },
        }),
        Err(e) => Err(e),
    }
}

/// The target address a reply names: when it names a network and a port.
pub open spec fn target_of(f: ReplyFields) -> Option<(Seq<char>, Option<Seq<char>>, Option<Seq<char>>, u16)> {
    match (f.network, f.port) {
        (Some(n), Some(p)) => Some((n, f.host, f.ip, p)),
        _ => None,
    }
}

/// The target address parts as values.
pub open spec fn target_view(t: Option<TargetAddr>) -> Option<(Seq<char>, Option<Seq<char>>, Option<Seq<char>>, u16)> {
    match t {
        Some(a) => Some((a.network@, opt_view(a.host), opt_view(a.ip), a.port)),
        None => None,
    }
}

/// Takes the target address parts out of a reply.
fn take_target(reply: &mut Reply) -> (t: Option<TargetAddr>)
    ensures
        target_view(t) == target_of(old(reply).fields()),
        final(reply).packets == old(reply).packets,
        final(reply).lengths == old(reply).lengths,
{
    let network = reply.network.take();
    let host = reply.host.take();
    let ip = reply.ip.take();
    match (network, reply.port) {
        (Some(n), Some(p)) => Some(TargetAddr { network: n, host, ip, port: p }),
        _ => None,
    }
}

/// The read sequence in a model's reply, at its first step, and the
/// target address it names, if any.
pub fn parse_ai_response_to_read_sequence(content: &str) -> (r: Result<(ReadSequence, Option<TargetAddr>), SequenceError>)
    ensures
        match read_reply(lines_spec(content@), true) {
            Ok(f) => r matches Ok((s, t)) && s.write_packets@.map_values(|p: Vec<u8>| p@) == f.packets
                && s.read_lengths@ == f.lengths && s.read_packets@.len() == 0
                && s.current_step == (ReadStep { is_read: true, index: 0 })
                && target_view(t) == target_of(f),
            Err(e) => r matches Err(x) && x == e,
        },
{
    match parse_reply(content, true) {
        Ok(mut reply) => {
            let t = take_target(&mut reply);
            Ok((ReadSequence {
                write_packets: reply.packets,
                read_lengths: reply.lengths,
                read_packets: Vec::new(),
                current_step: ReadStep { is_read: true, index: 0 },
            }, t))
        },
        Err(e) => Err(e),
    }
}

/// The packets, lengths and target address in a model's reply.
pub struct AISequence {
    pub write_packets: Vec<Vec<u8>>,
    pub read_lengths: Vec<usize>,
    pub target_addr: Option<TargetAddr>,
}

/// The sequence in a model's reply, with the target address it names.
pub fn parse_server_response(content: &str) -> (r: Result<AISequence, SequenceError>)
    ensures
        match read_reply(lines_spec(content@), true) {
            Ok(f) => r matches Ok(s) && s.write_packets@.map_values(|p: Vec<u8>| p@) == f.packets
                && s.read_lengths@ == f.lengths && target_view(s.target_addr) == target_of(f),
            Err(e) => r matches Err(x) && x == e,
        },
{
    match parse_reply(content, true) {
        Ok(mut reply) => {
            let t = take_target(&mut reply);
            Ok(AISequence { write_packets: reply.packets, read_lengths: reply.lengths, target_addr: t })
        },
        Err(e) => Err(e),
    }
}

/// Why no decrypted data could be read from a reply.
#[derive(Debug, Clone, Copy, PartialEq, Eq)]
pub enum DecryptError {
    /// The `DECRYPTED_DATA` value is not valid base64.
    BadBase64,
    /// No line is `DECRYPTED_DATA: ...`.
    NotFound,
}

/// The decrypted data in the reply lines: the first `DECRYPTED_DATA` line decides.
pub open spec fn decrypted_in(lines: Seq<Seq<char>>) -> Result<Seq<u8>, DecryptError>
    decreases lines.len(),
{
    if lines.len() == 0 {
        Err(DecryptError::NotFound)
    } else {
        match key_value(lines[0]) {
            Some((k, v)) => if k == "DECRYPTED_DATA"@ {
                match base64_decoded(v) {
                    Some(d) => Ok(d),
                    None => Err(DecryptError::BadBase64),
                }
            } else {
                decrypted_in(lines.drop_first())
            },
            None => decrypted_in(lines.drop_first()),
        }
    }
}

/// The data in a decryption reply's first `DECRYPTED_DATA` line.
pub fn parse_decrypted_data(content: &str) -> (r: Result<Vec<u8>, DecryptError>)
    ensures
        match decrypted_in(lines_spec(content@)) {
            Ok(d) => r matches Ok(v) && v@ == d,
            Err(e) => r matches Err(x) && x == e,
        },
{
    let lines = lines_of(content);
    let ghost ls = lines_spec(content@);
    let mut i: usize = 0;
    assert(ls.skip(0) =~= ls);
    while i < lines.len()
        invariant
            ls == lines_spec(content@),
            lines@.len() == ls.len(),
            forall|k: int| 0 <= k < lines@.len() ==> (#[trigger] lines@[k])@ == ls[k],
            i <= lines@.len(),
            decrypted_in(ls) == decrypted_in(ls.skip(i as int)),
        decreases lines@.len() - i,
    {
        assert(ls.skip(i as int)[0] == ls[i as int]);
        assert(ls.skip(i as int).drop_first() =~= ls.skip(i + 1));
        let line = trim_str(lines[i].as_str());
        match split_once_at(line.as_str(), ':') {
            Some((k0, v0)) => {
                let k = trim_str(k0.as_str());
                if str_is(&k, "DECRYPTED_DATA") {
                    let v = trim_str(v0.as_str());
                    return match base64_decode(v.as_str()) {
                        Some(d) => Ok(d),
                        None => Err(DecryptError::BadBase64),
                    };
                }
            },
            None => {},
        }
        i = i + 1;
    }
    assert(ls.skip(i as int).len() == 0);
    Err(DecryptError::NotFound)
}

/// A write sequence under way on a connection: packets still to write,
/// lengths still to read, the step count, and whether a read is awaited.
pub struct ConnWriteSequence {
    pub write_packets: Vec<Vec<u8>>,
    pub read_lengths: Vec<usize>,
    pub current_step: usize,
    pub waiting_for_read: bool,
    pub expected_read_length: Option<usize>,
}

/// A read sequence under way on a connection: lengths of the answers
/// still to write, packets still to hand to the reader, the step count,
/// and an answer waiting to be written.
pub struct ConnReadSequence {
    pub write_lengths: Vec<usize>,
    pub read_packets: Vec<Vec<u8>>,
    pub current_step: usize,
    pub pending_write: Option<Vec<u8>>,
}

/// What an AI connection is doing.
pub enum AiConnState {
    /// Nothing: the next read or write starts a sequence.
    Ready,
    Writing(ConnWriteSequence),
    Reading(ConnReadSequence),
    /// The model is working out the next sequence.
    ProcessingAI,
}

/// The protocol state of a connection that speaks AI-generated sequences.
pub struct AIConn {
    /// The first packet of the opening sequence, still to be written.
    pub first_packet: Option<Vec<u8>>,
    pub state: AiConnState,
}

/// The length of an answer waiting to be written.
pub open spec fn pending_len(o: Option<Vec<u8>>) -> Option<usize> {
    match o { Some(v) => Some(v@.len() as usize), None => None }
}

/// `n` zero bytes.
fn zero_bytes(n: usize) -> (r: Vec<u8>)
    ensures
        r@ == Seq::new(n as nat, |i: int| 0u8),
{
    let mut v: Vec<u8> = Vec::new();
    let mut i: usize = 0;
    while i < n
        invariant
            i <= n,
            v@ == Seq::new(i as nat, |k: int| 0u8),
        decreases n - i,
    {
        v.push(0);
        i = i + 1;
        assert(v@ =~= Seq::new(i as nat, |k: int| 0u8));
    }
    v
}

impl AIConn {
    /// A connection whose first write sends the first packet of the opening
    /// sequence (an empty one when it has none).
    pub fn new(first_sequence: AISequence) -> (c: AIConn)
        ensures
            c.state is Ready,
            c.first_packet matches Some(p) && (if first_sequence.write_packets@.len() > 0 {
                p@ == first_sequence.write_packets@[0]@
            } else {
                p@.len() == 0
            }),
    {
        let mut packets = first_sequence.write_packets;
        let first = if packets.len() > 0 { packets.remove(0) } else { Vec::new() };
        AIConn { first_packet: Some(first), state: AiConnState::Ready }
    }

    /// The model is asked for a sequence, for data written or read.
    pub fn start_processing(&mut self)
        ensures
            final(self).state is ProcessingAI,
            final(self).first_packet == old(self).first_packet,
    {
        self.state = AiConnState::ProcessingAI;
    }

    /// The model failed: back to ready.
    pub fn processing_failed(&mut self)
        ensures
            final(self).state is Ready,
            final(self).first_packet == old(self).first_packet,
    {
        self.state = AiConnState::Ready;
    }

    /// Starts writing the sequence the model gave.
    pub fn create_write_sequence(&mut self, sequence: AISequence)
        ensures
            final(self).first_packet == old(self).first_packet,
            final(self).state matches AiConnState::Writing(w) && w.write_packets@ == sequence.write_packets@
                && w.read_lengths@ == sequence.read_lengths@ && w.current_step == 0
                && !w.waiting_for_read && w.expected_read_length is None,
    {
        self.state = AiConnState::Writing(ConnWriteSequence {
            write_packets: sequence.write_packets,
            read_lengths: sequence.read_lengths,
            current_step: 0,
            waiting_for_read: false,
            expected_read_length: None,
        });
    }

    /// Starts handing over the sequence the model gave: its packets are
    /// read in turn, and after each an answer of the same length is owed.
    pub fn create_read_sequence(&mut self, sequence: AISequence)
        ensures
            final(self).first_packet == old(self).first_packet,
            final(self).state matches AiConnState::Reading(r) && r.read_packets@ == sequence.write_packets@
                && r.write_lengths@ == sequence.write_packets@.map_values(|p: Vec<u8>| p@.len() as usize)
                && r.current_step == 0 && r.pending_write is None,
    {
        let mut lens: Vec<usize> = Vec::new();
        let mut i: usize = 0;
        while i < sequence.write_packets.len()
            invariant
                i <= sequence.write_packets@.len(),
                lens@ == sequence.write_packets@.take(i as int).map_values(|p: Vec<u8>| p@.len() as usize),
            decreases sequence.write_packets@.len() - i,
        {
            lens.push(sequence.write_packets[i].len());
            i = i + 1;
            assert(lens@ =~= sequence.write_packets@.take(i as int).map_values(|p: Vec<u8>| p@.len() as usize));
        }
        assert(sequence.write_packets@.take(i as int) =~= sequence.write_packets@);
        self.state = AiConnState::Reading(ConnReadSequence {
            write_lengths: lens,
            read_packets: sequence.write_packets,
            current_step: 0,
            pending_write: None,
        });
    }

    /// While reading: takes the answer waiting to be written, if any.
    pub fn take_pending_write(&mut self) -> (r: Option<Vec<u8>>)
        ensures
            final(self).first_packet == old(self).first_packet,
            match old(self).state {
                AiConnState::Reading(s) => r == s.pending_write && final(self).state
                    == AiConnState::Reading(ConnReadSequence { pending_write: None, ..s }),
                _ => r is None && final(self).state == old(self).state,
            },
    {
        match &mut self.state {
            AiConnState::Reading(s) => s.pending_write.take(),
            _ => None,
        }
    }

    /// While reading: an answer could not be written yet; it waits again.
    pub fn restore_pending_write(&mut self, data: Vec<u8>)
        ensures
            final(self).first_packet == old(self).first_packet,
            match old(self).state {
                AiConnState::Reading(s) => final(self).state
                    == AiConnState::Reading(ConnReadSequence { pending_write: Some(data), ..s }),
                _ => final(self).state == old(self).state,
            },
    {
        match &mut self.state {
            AiConnState::Reading(s) => {
                s.pending_write = Some(data);
            },
            _ => {},
        }
    }

    /// While reading: an answer was written; the step count moves on.
    pub fn pending_write_done(&mut self)
        requires
            old(self).state matches AiConnState::Reading(s) ==> s.current_step < usize::MAX,
        ensures
            final(self).first_packet == old(self).first_packet,
            match old(self).state {
                AiConnState::Reading(s) => final(self).state
                    == AiConnState::Reading(ConnReadSequence { current_step: (s.current_step + 1) as usize, ..s }),
                _ => final(self).state == old(self).state,
            },
    {
        match &mut self.state {
            AiConnState::Reading(s) => {
                s.current_step = s.current_step + 1;
            },
            _ => {},
        }
    }

    /// While reading with no answer waiting: hands over the next packet,
    /// cut to the `remaining` room of the reader, and owes an answer of the
    /// next length when that is not zero; with no packet left, the
    /// connection is ready again and nothing is handed over.
    pub fn deliver(&mut self, remaining: usize) -> (r: Option<Vec<u8>>)
        requires
            old(self).state matches AiConnState::Reading(s) ==> s.current_step < usize::MAX,
        ensures
            final(self).first_packet == old(self).first_packet,
            match old(self).state {
                AiConnState::Reading(s) => if s.read_packets@.len() == 0 {
                    r is None && final(self).state is Ready
                } else {
                    let p = s.read_packets@[0]@;
                    let owes = s.write_lengths@.len() > 0 && s.write_lengths@[0] > 0;
                    &&& r matches Some(v) && v@ == p.take(if p.len() < remaining { p.len() as int } else { remaining as int })
                    &&& if s.read_packets@.len() == 1 && !owes && s.pending_write is None {
                        final(self).state is Ready
                    } else {
                        final(self).state matches AiConnState::Reading(t)
                            && t.read_packets@ == s.read_packets@.drop_first()
                            && t.write_lengths@ == (if s.write_lengths@.len() > 0 { s.write_lengths@.drop_first() } else { s.write_lengths@ })
                            && t.current_step == s.current_step + 1
                            && (if owes {
                                t.pending_write matches Some(w) && w@ == Seq::new(s.write_lengths@[0] as nat, |i: int| 0u8)
                            } else {
                                t.pending_write == s.pending_write
                            })
                    }
                },
                _ => r is None && final(self).state == old(self).state,
            },
    {
        let mut become_ready = false;
        let out = match &mut self.state {
            AiConnState::Reading(s) => {
                if s.read_packets.len() == 0 {
                    become_ready = true;
                    None
                } else {
                    let p = s.read_packets.remove(0);
                    let len = if p.len() < remaining { p.len() } else { remaining };
                    let mut out: Vec<u8> = Vec::new();
                    let mut i: usize = 0;
                    while i < len
                        invariant
                            i <= len,
                            len <= p@.len(),
                            out@ == p@.take(i as int),
                        decreases len - i,
                    {
                        out.push(p[i]);
                        i = i + 1;
                        assert(out@ =~= p@.take(i as int));
                    }
                    s.current_step = s.current_step + 1;
                    if s.write_lengths.len() > 0 {
                        let w = s.write_lengths.remove(0);
                        if w > 0 {
                            s.pending_write = Some(zero_bytes(w));
                        }
                    }
                    if s.read_packets.len() == 0 && s.pending_write.is_none() {
                        become_ready = true;
                    }
                    Some(out)
                }
            },
            _ => None,
        };
        if become_ready {
            self.state = AiConnState::Ready;
        }
        out
    }

    /// Takes the first packet still to be written, if any.
    pub fn take_first_packet(&mut self) -> (r: Option<Vec<u8>>)
        ensures
            r == old(self).first_packet,
            final(self).first_packet is None,
            final(self).state == old(self).state,
    {
        self.first_packet.take()
    }

    /// The first packet could not be written yet; it waits again.
    pub fn restore_first_packet(&mut self, p: Vec<u8>)
        ensures
            final(self).first_packet == Some(p),
            final(self).state == old(self).state,
    {
        self.first_packet = Some(p);
    }

    /// While writing and not awaiting a read: the next packet to write.
    pub fn next_packet(&self) -> (r: Option<&Vec<u8>>)
        ensures
            match self.state {
                AiConnState::Writing(w) => if w.write_packets@.len() > 0 {
                    r == Some(&w.write_packets@[0])
                } else {
                    r is None
                },
                _ => r is None,
            },
    {
        match &self.state {
            AiConnState::Writing(w) => if w.write_packets.len() > 0 { Some(&w.write_packets[0]) } else { None },
            _ => None,
        }
    }

    /// While writing: the next packet was written. A read of the next
    /// length is then awaited when that is not zero; with no packet left
    /// and nothing awaited, the connection is ready again. With no packet
    /// left before, it just becomes ready.
    pub fn packet_written(&mut self)
        requires
            old(self).state matches AiConnState::Writing(w) ==> w.current_step < usize::MAX,
        ensures
            final(self).first_packet == old(self).first_packet,
            match old(self).state {
                AiConnState::Writing(w) => if w.write_packets@.len() == 0 {
                    final(self).state is Ready
                } else {
                    let waits = w.waiting_for_read || (w.read_lengths@.len() > 0 && w.read_lengths@[0] > 0);
                    if w.write_packets@.len() == 1 && !waits {
                        final(self).state is Ready
                    } else {
                        final(self).state matches AiConnState::Writing(t)
                            && t.write_packets@ == w.write_packets@.drop_first()
                            && t.read_lengths@ == (if w.read_lengths@.len() > 0 { w.read_lengths@.drop_first() } else { w.read_lengths@ })
                            && t.current_step == w.current_step + 1
                            && t.waiting_for_read == waits
                            && t.expected_read_length == (if w.read_lengths@.len() > 0 && w.read_lengths@[0] > 0 {
                                Some(w.read_lengths@[0])
                            } else {
                                w.expected_read_length
                            })
                    }
                },
                _ => final(self).state == old(self).state,
            },
    {
        let mut become_ready = false;
        match &mut self.state {
            AiConnState::Writing(w) => {
                if w.write_packets.len() == 0 {
                    become_ready = true;
                } else {
                    w.write_packets.remove(0);
                    w.current_step = w.current_step + 1;
                    if w.read_lengths.len() > 0 {
                        let l = w.read_lengths.remove(0);
                        if l > 0 {
                            w.waiting_for_read = true;
                            w.expected_read_length = Some(l);
                        }
                    }
                    if w.write_packets.len() == 0 && !w.waiting_for_read {
                        become_ready = true;
                    }
                }
            },
            _ => {},
        }
        if become_ready {
            self.state = AiConnState::Ready;
        }
    }

    /// While writing: how many bytes the awaited read takes (0 when none
    /// is awaited).
    pub fn awaited_read(&self) -> (r: Option<usize>)
        ensures
            match self.state {
                AiConnState::Writing(w) => r == (if w.waiting_for_read {
                    Some(match w.expected_read_length { Some(n) => n, None => 0 })
                } else {
                    None
                }),
                _ => r is None,
            },
    {
        match &self.state {
            AiConnState::Writing(w) => if w.waiting_for_read {
                Some(match w.expected_read_length { Some(n) => n, None => 0 })
            } else {
                None
            },
            _ => None,
        }
    }

    /// While writing: the awaited read is done.
    pub fn read_awaited_done(&mut self)
        ensures
            final(self).first_packet == old(self).first_packet,
            match old(self).state {
                AiConnState::Writing(w) => final(self).state == AiConnState::Writing(
                    ConnWriteSequence { waiting_for_read: false, expected_read_length: None, ..w }),
                _ => final(self).state == old(self).state,
            },
    {
        match &mut self.state {
            AiConnState::Writing(w) => {
                w.waiting_for_read = false;
                w.expected_read_length = None;
            },
            _ => {},
        }
    }
}

/// The padded standard base64 text of `d`.
pub open spec fn base64_encoded(d: Seq<u8>) -> Seq<char> {
    crate::text::base64_text(d, false, true)
}

/// `base64::engine::general_purpose::STANDARD.encode`: the padded standard
/// base64 text of `d`.
#[verifier::external_body]
fn base64_encode(d: &[u8]) -> (r: String)
    ensures
        r@ == base64_encoded(d@),
{
    base64::engine::general_purpose::STANDARD.encode(d)
}

/// The message content of the first choice in a chat completion reply.
pub uninterp spec fn chat_reply_content(body: Seq<char>) -> Option<Seq<char>>;

/// Reads a chat completion reply (`serde_json::from_str` into a JSON
/// value) and takes `choices[0].message.content` when it is a string. What
/// the reading is, is named, not stated.
#[verifier::external_body]
fn reply_content(body: &str) -> (r: Option<String>)
    ensures
        match chat_reply_content(body@) {
            Some(c) => r matches Some(x) && x@ == c,
            None => r is None,
        },
{
    match serde_json::from_str::<serde_json::Value>(body) {
        Ok(v) => v["choices"][0]["message"]["content"].as_str().map(|c| c.to_string()),
        Err(_) => None,
    }
}

/// The settings of the AI-generated protocol: the model and how to reach
/// it, the algorithm it follows, and which side this is.
#[derive(Debug, Clone)]
pub struct AIProtocolConfig {
    pub api_key: String,
    pub model: String,
    pub algorithm_description: String,
    pub is_server: bool,
    pub api_base_url: String,
}

/// `s` without trailing `c`s.
pub open spec fn trim_end_char(s: Seq<char>, c: char) -> Seq<char>
    decreases s.len(),
{
    if s.len() > 0 && s.last() == c { trim_end_char(s.drop_last(), c) } else { s }
}

/// The chat completions endpoint under `base`.
pub fn api_url(base: &str) -> (r: String)
    ensures
        r@ == trim_end_char(base@, '/') + "/v1/chat/completions"@,
{
    let cs = chars_of(base);
    let mut n = cs.len();
    assert(cs@.take(n as int) =~= base@);
    while n > 0 && cs[n - 1] == '/'
        invariant
            cs@ == base@,
            n <= cs@.len(),
            trim_end_char(base@, '/') == trim_end_char(cs@.take(n as int), '/'),
        decreases n,
    {
        assert(cs@.take(n as int).drop_last() =~= cs@.take(n - 1));
        n = n - 1;
    }
    let mut r = string_from_chars(&cs, 0, n);
    assert(trim_end_char(cs@.take(n as int), '/') == cs@.take(n as int));
    crate::text::string_push_str(&mut r, "/v1/chat/completions");
    r
}

/// The authorization header value for `api_key`.
pub fn bearer(api_key: &str) -> (r: String)
    ensures
        r@ == "Bearer "@ + api_key@,
{
    let mut r = "Bearer ".to_owned();
    crate::text::string_push_str(&mut r, api_key);
    r
}

/// The system prompt that asks the model for a sequence.
pub open spec fn sequence_system_prompt(is_server: bool, is_read: bool, algorithm: Seq<char>) -> Seq<char> {
    "You are the "@ + (if is_server { "server"@ } else { "client"@ }) + " of a network protocol processor. You need to decode a "@
        + (if is_read { "read"@ } else { "write"@ })
        + " data sequence for a steganography protocol according to the following algorithm description:\n"@
        + algorithm
        + "\n\nResponse Format:\nFor write sequences, please return:\nWRITE_PACKETS: [base64 encoded actual packet sequence w1,w2,...,wN]\nREAD_LENGTHS: [expected received packet length sequence r1,r2,...,rN]\nFor read sequences, please return:\nWRITE_PACKETS: [base64 encoded response packet sequence w1,w2,...,wN]\nREAD_LENGTHS: [expected received packet length sequence r1,r2,...,rN]\nTARGET_ADDR_*: [address information, only needed for server handshake]"@
}

/// The kind of operation named in the user prompt.
pub open spec fn operation_type(is_handshake: bool, is_server: bool) -> Seq<char> {
    if is_handshake {
        if is_server { "Server Handshake"@ } else { "Client Handshake"@ }
    } else {
        if is_server { "Server Normal"@ } else { "Client Normal"@ }
    }
}

/// The user prompt that hands the data to the model.
pub open spec fn sequence_user_prompt(is_server: bool, is_handshake: bool, target: Option<Seq<char>>, early: Option<Seq<char>>, data: Seq<char>) -> Seq<char> {
    let op = operation_type(is_handshake, is_server);
    if is_server {
        "This is "@ + op + " data. Please extract the target address and actual data from the following data:\n"@ + data
    } else {
        match (target, early) {
            (Some(a), Some(e)) => "This is "@ + op + " data. Please process the following information:\nTarget address: "@
                + a + "\nEarly data: "@ + e + "\nMain data: "@ + data,
            (Some(a), None) => "This is "@ + op + " data. Please process the following information:\nTarget address: "@
                + a + "\nMain data: "@ + data,
            _ => "This is "@ + op + " data. Please process the following data:\n"@ + data,
        }
    }
}

/// Every user prompt ends with the data's text, so the model is handed
/// all of it; a client prompt with a target address and early data ends
/// with the target address, `Early data: ` and the early data's text, then
/// `Main data: ` and the data's text. (`sequence_prompts` hands the base64
/// text of the data and of the early data.)
pub proof fn lemma_user_prompt_carries_data(is_server: bool, is_handshake: bool, target: Option<Seq<char>>, early: Option<Seq<char>>, data: Seq<char>)
    ensures
        ({
            let p = sequence_user_prompt(is_server, is_handshake, target, early, data);
            &&& p.len() >= data.len()
            &&& p.skip(p.len() - data.len()) == data
            &&& (!is_server && target is Some && early is Some) ==> exists|i: int| 0 <= i <= p.len()
                && #[trigger] p.skip(i) == target->0 + "\nEarly data: "@ + early->0 + "\nMain data: "@ + data
        }),
{
    let d = data;
    let p = sequence_user_prompt(is_server, is_handshake, target, early, d);
    let op = operation_type(is_handshake, is_server);
    if is_server {
        let h = "This is "@ + op + " data. Please extract the target address and actual data from the following data:\n"@;
        assert(p == h + d);
        crate::text::lemma_after_prefix(h, d);
    } else if target is Some && early is Some {
        let a = target->0;
        let eb = early->0;
        let h = "This is "@ + op + " data. Please process the following information:\nTarget address: "@;
        let m = "\nEarly data: "@ + eb + "\nMain data: "@;
        let t = a + m + d;
        assert(p == h + a + m + d);
        assert(h + a + m + d =~= h + t);
        crate::text::lemma_after_prefix(h, t);
        crate::text::lemma_after_prefix(h + a + m, d);
        assert(t =~= a + "\nEarly data: "@ + eb + "\nMain data: "@ + d);
        assert(p.skip(h.len() as int) == t);
    } else if target is Some {
        let h = "This is "@ + op + " data. Please process the following information:\nTarget address: "@ + target->0 + "\nMain data: "@;
        assert(p == h + d);
        crate::text::lemma_after_prefix(h, d);
    } else {
        let h = "This is "@ + op + " data. Please process the following data:\n"@;
        assert(p == h + d);
        crate::text::lemma_after_prefix(h, d);
    }
}

/// The system and user prompts that ask the model for the sequence for
/// `data`: the data and early data go as base64, the target address as text.
pub fn sequence_prompts(config: &AIProtocolConfig, data: &[u8], target_addr: Option<&str>, early_data: Option<&[u8]>, is_handshake: bool, is_read: bool) -> (r: (String, String))
    ensures
        r.0@ == sequence_system_prompt(config.is_server, is_read, config.algorithm_description@),
        r.1@ == sequence_user_prompt(config.is_server, is_handshake,
            match target_addr { Some(a) => Some(a@), None => None },
            match early_data { Some(e) => Some(base64_encoded(e@)), None => None },
            base64_encoded(data@)),
        r.1@.len() >= base64_encoded(data@).len(),
        r.1@.skip(r.1@.len() - base64_encoded(data@).len()) == base64_encoded(data@),
        (!config.is_server && target_addr is Some && early_data is Some) ==> exists|i: int| 0 <= i <= r.1@.len()
            && #[trigger] r.1@.skip(i) == target_addr->0@ + "\nEarly data: "@ + base64_encoded(early_data->0@)
                + "\nMain data: "@ + base64_encoded(data@),
{
    let data_b64 = base64_encode(data);
    let early_b64 = match early_data { Some(e) => Some(base64_encode(e)), None => None };
    let mut sys = "You are the ".to_owned();
    crate::text::string_push_str(&mut sys, if config.is_server { "server" } else { "client" });
    crate::text::string_push_str(&mut sys, " of a network protocol processor. You need to decode a ");
    crate::text::string_push_str(&mut sys, if is_read { "read" } else { "write" });
    crate::text::string_push_str(&mut sys, " data sequence for a steganography protocol according to the following algorithm description:\n");
    crate::text::string_push_str(&mut sys, config.algorithm_description.as_str());
    crate::text::string_push_str(&mut sys, "\n\nResponse Format:\nFor write sequences, please return:\nWRITE_PACKETS: [base64 encoded actual packet sequence w1,w2,...,wN]\nREAD_LENGTHS: [expected received packet length sequence r1,r2,...,rN]\nFor read sequences, please return:\nWRITE_PACKETS: [base64 encoded response packet sequence w1,w2,...,wN]\nREAD_LENGTHS: [expected received packet length sequence r1,r2,...,rN]\nTARGET_ADDR_*: [address information, only needed for server handshake]");
    let op = if is_handshake {
        if config.is_server { "Server Handshake" } else { "Client Handshake" }
    } else {
        if config.is_server { "Server Normal" } else { "Client Normal" }
    };
    let mut user = "This is ".to_owned();
    crate::text::string_push_str(&mut user, op);
    if config.is_server {
        crate::text::string_push_str(&mut user, " data. Please extract the target address and actual data from the following data:\n");
    } else {
        match (target_addr, &early_b64) {
            (Some(a), Some(e)) => {
                crate::text::string_push_str(&mut user, " data. Please process the following information:\nTarget address: ");
                crate::text::string_push_str(&mut user, a);
                crate::text::string_push_str(&mut user, "\nEarly data: ");
                crate::text::string_push_str(&mut user, e.as_str());
                crate::text::string_push_str(&mut user, "\nMain data: ");
            },
            (Some(a), None) => {
                crate::text::string_push_str(&mut user, " data. Please process the following information:\nTarget address: ");
                crate::text::string_push_str(&mut user, a);
                crate::text::string_push_str(&mut user, "\nMain data: ");
            },
            _ => {
                crate::text::string_push_str(&mut user, " data. Please process the following data:\n");
            },
        }
    }
    crate::text::string_push_str(&mut user, data_b64.as_str());
    proof {
        assert(sys@ =~= sequence_system_prompt(config.is_server, is_read, config.algorithm_description@));
        let ta = match target_addr { Some(a) => Some(a@), None => None };
        let eb = match early_data { Some(e) => Some(base64_encoded(e@)), None => None };
        assert(user@ =~= sequence_user_prompt(config.is_server, is_handshake, ta, eb, base64_encoded(data@)));
        lemma_user_prompt_carries_data(config.is_server, is_handshake, ta, eb, base64_encoded(data@));
    }
    (sys, user)
}

/// Which form the model's reply is read in: a read sequence with its
/// target address on the server's handshake, a read sequence when reading,
/// else a write sequence.
pub enum AIResult {
    Write(WriteSequence),
    Read(ReadSequence, Option<TargetAddr>),
}

/// Reads the model's reply in the form the request calls for.
pub fn read_sequence_reply(content: &str, is_server: bool, is_handshake: bool, is_read: bool) -> (r: Result<AIResult, SequenceError>)
    ensures
        is_handshake && is_server ==> match read_reply(lines_spec(content@), true) {
            Ok(f) => r matches Ok(AIResult::Read(s, t)) && s.write_packets@.map_values(|p: Vec<u8>| p@) == f.packets
                && s.read_lengths@ == f.lengths && target_view(t) == target_of(f),
            Err(e) => r matches Err(x) && x == e,
        },
        !(is_handshake && is_server) && is_read ==> match read_reply(lines_spec(content@), true) {
            Ok(f) => r matches Ok(AIResult::Read(s, t)) && s.write_packets@.map_values(|p: Vec<u8>| p@) == f.packets
                && s.read_lengths@ == f.lengths && t is None,
            Err(e) => r matches Err(x) && x == e,
        },
        !(is_handshake && is_server) && !is_read ==> match read_reply(lines_spec(content@), false) {
            Ok(f) => r matches Ok(AIResult::Write(w)) && w.write_packets@.map_values(|p: Vec<u8>| p@) == f.packets
                && w.read_lengths@ == f.lengths,
            Err(e) => r matches Err(x) && x == e,
        },
{
    if is_handshake && is_server {
        match parse_ai_response_to_read_sequence(content) {
            Ok((s, t)) => Ok(AIResult::Read(s, t)),
            Err(e) => Err(e),
        }
    } else if is_read {
        match parse_ai_response_to_read_sequence(content) {
            Ok((s, _)) => Ok(AIResult::Read(s, None)),
            Err(e) => Err(e),
        }
    } else {
        match parse_ai_response_to_write_sequence(content) {
            Ok(w) => Ok(AIResult::Write(w)),
            Err(e) => Err(e),
        }
    }
}

/// The system and user prompts that ask the model to decrypt `data`.
pub fn decrypt_prompts(config: &AIProtocolConfig, data: &[u8]) -> (r: (String, String))
    ensures
        r.0@ == "You are a network protocol processor. You need to decrypt data read from the steganography protocol according to the following algorithm description:\n"@
            + config.algorithm_description@
            + "\n\nPlease decrypt the following data and return the original data.\nResponse format:\nDECRYPTED_DATA: [base64 encoded decrypted data]"@,
        r.1@ == "ENCRYPTED_DATA: "@ + base64_encoded(data@),
{
    let b64 = base64_encode(data);
    let mut sys = "You are a network protocol processor. You need to decrypt data read from the steganography protocol according to the following algorithm description:\n".to_owned();
    crate::text::string_push_str(&mut sys, config.algorithm_description.as_str());
    crate::text::string_push_str(&mut sys, "\n\nPlease decrypt the following data and return the original data.\nResponse format:\nDECRYPTED_DATA: [base64 encoded decrypted data]");
    let mut user = "ENCRYPTED_DATA: ".to_owned();
    crate::text::string_push_str(&mut user, b64.as_str());
    (sys, user)
}


/// Why a chat completion reply gave nothing usable.
#[derive(Debug, Clone, Copy, PartialEq, Eq)]
pub enum ReplyError {
    /// The reply has no message content in its first choice.
    BadFormat,
    /// The content does not hold a sequence.
    Sequence(SequenceError),
    /// The content does not hold decrypted data.
    Decrypt(DecryptError),
}

/// The sequence in the content of a chat completion reply `body`.
pub fn sequence_from_reply(body: &str) -> (r: Result<AISequence, ReplyError>)
    ensures
        match chat_reply_content(body@) {
            None => r == Err::<AISequence, ReplyError>(ReplyError::BadFormat),
            Some(c) => match read_reply(lines_spec(c), true) {
                Ok(f) => r matches Ok(s) && s.write_packets@.map_values(|p: Vec<u8>| p@) == f.packets
                    && s.read_lengths@ == f.lengths && target_view(s.target_addr) == target_of(f),
                Err(e) => r == Err::<AISequence, ReplyError>(ReplyError::Sequence(e)),
            },
        },
{
    match reply_content(body) {
        None => Err(ReplyError::BadFormat),
        Some(c) => match parse_server_response(c.as_str()) {
            Ok(s) => Ok(s),
            Err(e) => Err(ReplyError::Sequence(e)),
        },
    }
}

/// The sequence read in the form the request called for, from the content
/// of a chat completion reply `body`.
pub fn sequence_reply_from_body(body: &str, is_server: bool, is_handshake: bool, is_read: bool) -> (r: Result<AIResult, ReplyError>)
    ensures
        chat_reply_content(body@) is None ==> r == Err::<AIResult, ReplyError>(ReplyError::BadFormat),
        chat_reply_content(body@) matches Some(c) ==> {
            let with_addr = is_handshake && is_server;
            let reads = with_addr || is_read;
            match read_reply(lines_spec(c), reads) {
                Ok(f) => if reads {
                    r matches Ok(AIResult::Read(s, t)) && s.write_packets@.map_values(|p: Vec<u8>| p@) == f.packets
                        && s.read_lengths@ == f.lengths && (if with_addr { target_view(t) == target_of(f) } else { t is None })
                } else {
                    r matches Ok(AIResult::Write(w)) && w.write_packets@.map_values(|p: Vec<u8>| p@) == f.packets
                        && w.read_lengths@ == f.lengths
                },
                Err(e) => r == Err::<AIResult, ReplyError>(ReplyError::Sequence(e)),
            }
        },
{
    match reply_content(body) {
        None => Err(ReplyError::BadFormat),
        Some(c) => match read_sequence_reply(c.as_str(), is_server, is_handshake, is_read) {
            Ok(x) => Ok(x),
            Err(e) => Err(ReplyError::Sequence(e)),
        },
    }
}

/// The decrypted data in the content of a chat completion reply `body`.
pub fn decrypted_from_reply(body: &str) -> (r: Result<Vec<u8>, ReplyError>)
    ensures
        match chat_reply_content(body@) {
            None => r == Err::<Vec<u8>, ReplyError>(ReplyError::BadFormat),
            Some(c) => match decrypted_in(lines_spec(c)) {
                Ok(d) => r matches Ok(v) && v@ == d,
                Err(e) => r == Err::<Vec<u8>, ReplyError>(ReplyError::Decrypt(e)),
            },
        },
{
    match reply_content(body) {
        None => Err(ReplyError::BadFormat),
        Some(c) => match parse_decrypted_data(c.as_str()) {
            Ok(d) => Ok(d),
            Err(e) => Err(ReplyError::Decrypt(e)),
        },
    }
}

/// Takes the algorithm description from the content of a chat completion
/// reply `body`: the configuration keeps it, or stays as it was when the
/// reply has no content.
pub fn set_algorithm_from_reply(config: &mut AIProtocolConfig, body: &str) -> (r: Result<(), ReplyError>)
    ensures
        match chat_reply_content(body@) {
            None => r == Err::<(), ReplyError>(ReplyError::BadFormat) && *final(config) == *old(config),
            Some(c) => r is Ok && final(config).algorithm_description@ == c
                && final(config).api_key == old(config).api_key
                && final(config).model == old(config).model
                && final(config).is_server == old(config).is_server
                && final(config).api_base_url == old(config).api_base_url,
        },
{
    match reply_content(body) {
        None => Err(ReplyError::BadFormat),
        Some(c) => {
            config.algorithm_description = c;
            Ok(())
        },
    }
}


/// What the AI-generated mapper does with a new connection.
#[derive(Debug, Clone, Copy, PartialEq, Eq)]
pub enum AiMapChoice {
    /// Carry the connection's traffic in AI-generated sequences.
    Wrap,
    /// Hand the connection on as it is.
    PassThrough,
    /// A mapper without a behavior does nothing.
    Unsupported,
}

/// The client wraps every connection; the server wraps one that arrived
/// with first data and passes the others through.
pub fn ai_map_choice(behavior: crate::recorder::ProxyBehavior, has_first_data: bool) -> (r: AiMapChoice)
    ensures
        r == match behavior {
            crate::recorder::ProxyBehavior::ENCODE => AiMapChoice::Wrap,
            crate::recorder::ProxyBehavior::DECODE => if has_first_data { AiMapChoice::Wrap } else { AiMapChoice::PassThrough },
            crate::recorder::ProxyBehavior::UNSPECIFIED => AiMapChoice::Unsupported,
        },
{
    match behavior {
        crate::recorder::ProxyBehavior::ENCODE => AiMapChoice::Wrap,
        crate::recorder::ProxyBehavior::DECODE => if has_first_data { AiMapChoice::Wrap } else { AiMapChoice::PassThrough },
        crate::recorder::ProxyBehavior::UNSPECIFIED => AiMapChoice::Unsupported,
    }
}

} // verus!
