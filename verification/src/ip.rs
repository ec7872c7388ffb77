//! IP address text, as `IpAddr`'s parser reads it: dotted IPv4 with four
//! decimal parts, or IPv6 with eight colon-separated hex groups, a `::`
//! standing for one or more groups of zeros and an IPv4 address allowed in
//! place of the last two groups.

use vstd::prelude::*;
use crate::ai::{all_digits, digits_value, parse_decimal, parse_uint};
use crate::text::{chars_of, lemma_split_on_len_bound, split_char, split_on, string_from_chars};

verus! {

broadcast use vstd::string::group_string_axioms;

/// An ASCII hex digit, either case.
pub open spec fn is_hex_char(c: char) -> bool {
    ('0' <= c && c <= '9') || ('a' <= c && c <= 'f') || ('A' <= c && c <= 'F')
}

/// A part of a dotted IPv4 address: one to three decimal digits, no
/// leading zero but in `0` itself, at most 255.
pub open spec fn octet_ok(p: Seq<char>) -> bool {
    &&& 1 <= p.len() <= 3
    &&& all_digits(p)
    &&& (p[0] == '0' ==> p.len() == 1)
    &&& digits_value(p) <= 255
}

/// Dotted IPv4 text: four parts between dots.
pub open spec fn ipv4_ok(s: Seq<char>) -> bool {
    let ps = split_on(s, '.');
    &&& ps.len() == 4
    &&& forall|i: int| 0 <= i < 4 ==> octet_ok(#[trigger] ps[i])
}

/// A group of IPv6 text: one to four hex digits.
pub open spec fn h16_ok(p: Seq<char>) -> bool {
    &&& 1 <= p.len() <= 4
    &&& forall|i: int| 0 <= i < p.len() ==> is_hex_char(#[trigger] p[i])
}

/// Whether `s` holds `::` starting at `k`.
pub open spec fn double_colon_at(s: Seq<char>, k: int) -> bool {
    0 <= k && k + 1 < s.len() && s[k] == ':' && s[k + 1] == ':'
}

/// How many 16-bit groups the colon-separated text `s` stands for: each
/// piece a hex group, or, with `v4_last`, the last piece IPv4 text counting
/// for two; none when a piece is neither (an empty one included).
pub open spec fn group_count(s: Seq<char>, v4_last: bool) -> Option<nat> {
    let ps = split_on(s, ':');
    if s.len() == 0 || s[0] == ':' || s.last() == ':' || exists|k: int| #[trigger] double_colon_at(s, k) {
        None
    } else if forall|i: int| 0 <= i < ps.len() - 1 ==> h16_ok(#[trigger] ps[i]) {
        if h16_ok(ps.last()) {
            Some(ps.len())
        } else if v4_last && ipv4_ok(ps.last()) {
            Some(ps.len() + 1)
        } else {
            None
        }
    } else {
        None
    }
}

/// The groups on one side of `::`: none at all when the side is empty.
pub open spec fn side_count(s: Seq<char>, v4_last: bool) -> Option<nat> {
    if s.len() == 0 { Some(0) } else { group_count(s, v4_last) }
}

/// Whether `::` at `k` splits `s` into sides of at most seven groups in
/// all, IPv4 text allowed only at the end of the right side.
pub open spec fn compressed_at(s: Seq<char>, k: int) -> bool {
    &&& double_colon_at(s, k)
    &&& match (side_count(s.take(k), false), side_count(s.skip(k + 2), true)) {
        (Some(a), Some(b)) => a + b <= 7,
        _ => false,
    }
}

/// IPv6 text: eight groups, or fewer around one `::`.
pub open spec fn ipv6_ok(s: Seq<char>) -> bool {
    group_count(s, true) == Some(8nat) || exists|k: int| #[trigger] compressed_at(s, k)
}

/// Text that `IpAddr` parsing accepts.
pub open spec fn ip_text_ok(s: Seq<char>) -> bool {
    ipv4_ok(s) || ipv6_ok(s)
}

fn octet_text(p: &str) -> (r: bool)
    ensures
        r == octet_ok(p@),
{
    let cs = chars_of(p);
    let n = cs.len();
    if n < 1 || n > 3 || cs[0] < '0' || cs[0] > '9' || (cs[0] == '0' && n > 1) {
        proof {
            if n >= 1 && (cs[0] < '0' || cs[0] > '9') {
                assert(!('0' <= p@[0] && p@[0] <= '9'));
            }
        }
        return false;
    }
    assert(!(p@.len() > 0 && p@[0] == '+'));
    match parse_decimal(p, 255) {
        Some(_) => true,
        None => false,
    }
}

fn hex_group_text(p: &str) -> (r: bool)
    ensures
        r == h16_ok(p@),
{
    let cs = chars_of(p);
    let n = cs.len();
    if n < 1 || n > 4 {
        return false;
    }
    let mut i: usize = 0;
    while i < n
        invariant
            cs@ == p@,
            n == cs@.len(),
            i <= n,
            forall|j: int| 0 <= j < i ==> is_hex_char(#[trigger] p@[j]),
        decreases n - i,
    {
        let c = cs[i];
        if !(('0' <= c && c <= '9') || ('a' <= c && c <= 'f') || ('A' <= c && c <= 'F')) {
            assert(!is_hex_char(p@[i as int]));
            return false;
        }
        i = i + 1;
    }
    true
}

/// Whether `s` is dotted IPv4 text.
pub fn ipv4_text(s: &str) -> (r: bool)
    ensures
        r == ipv4_ok(s@),
{
    let ps = split_char(s, '.');
    if ps.len() != 4 {
        return false;
    }
    let mut i: usize = 0;
    while i < 4
        invariant
            ps@.len() == 4,
            split_on(s@, '.').len() == 4,
            forall|k: int| 0 <= k < 4 ==> (#[trigger] ps@[k])@ == split_on(s@, '.')[k],
            i <= 4,
            forall|k: int| 0 <= k < i ==> octet_ok(#[trigger] split_on(s@, '.')[k]),
        decreases 4 - i,
    {
        if !octet_text(ps[i].as_str()) {
            assert(!octet_ok(split_on(s@, '.')[i as int]));
            return false;
        }
        i = i + 1;
    }
    true
}

/// The first `k` at or after `from` where `::` starts in `cs`, if any.
fn find_double_colon(cs: &Vec<char>, from: usize) -> (r: Option<usize>)
    requires
        from <= cs@.len(),
    ensures
        match r {
            Some(k) => from <= k && double_colon_at(cs@, k as int)
                && forall|j: int| from <= j < k ==> !#[trigger] double_colon_at(cs@, j),
            None => forall|j: int| from <= j ==> !#[trigger] double_colon_at(cs@, j),
        },
{
    let mut i = from;
    while cs.len() - i > 1
        invariant
            from <= i <= cs@.len(),
            forall|j: int| from <= j < i ==> !#[trigger] double_colon_at(cs@, j),
        decreases cs@.len() - i,
    {
        if cs[i] == ':' && cs[i + 1] == ':' {
            return Some(i);
        }
        i = i + 1;
    }
    None
}

/// The groups that the colon-separated text `s` stands for.
fn group_count_text(s: &str, v4_last: bool) -> (r: Option<usize>)
    ensures
        match group_count(s@, v4_last) {
            Some(n) => r matches Some(x) && x == n,
            None => r is None,
        },
{
    let cs = chars_of(s);
    let n = cs.len();
    if n == 0 || cs[0] == ':' || cs[n - 1] == ':' {
        return None;
    }
    match find_double_colon(&cs, 0) {
        Some(k) => {
            assert(double_colon_at(s@, k as int));
            return None;
        },
        None => {},
    }
    assert(!exists|k: int| #[trigger] double_colon_at(s@, k));
    let ps = split_char(s, ':');
    let ghost sp = split_on(s@, ':');
    let m = ps.len();
    proof {
        crate::text::lemma_split_on_nonempty(s@, ':');
    }
    let mut i: usize = 0;
    while i + 1 < m
        invariant
            sp == split_on(s@, ':'),
            m == ps@.len(),
            m == sp.len(),
            m >= 1,
            forall|k: int| 0 <= k < m ==> (#[trigger] ps@[k])@ == sp[k],
            i < m,
            forall|k: int| 0 <= k < i ==> h16_ok(#[trigger] sp[k]),
        decreases m - i,
    {
        if !hex_group_text(ps[i].as_str()) {
            assert(!h16_ok(sp[i as int]));
            return None;
        }
        i = i + 1;
    }
    assert(ps@[m - 1]@ == sp.last());
    if hex_group_text(ps[m - 1].as_str()) {
        Some(m)
    } else if v4_last && ipv4_text(ps[m - 1].as_str()) {
        proof {
            lemma_split_on_len_bound(s@, ':');
            lemma_split_on_len_bound(sp.last(), '.');
        }
        Some(m + 1)
    } else {
        None
    }
}

fn side_count_text(cs: &Vec<char>, from: usize, to: usize, v4_last: bool) -> (r: Option<usize>)
    requires
        from <= to <= cs@.len(),
    ensures
        match side_count(cs@.subrange(from as int, to as int), v4_last) {
            Some(n) => r matches Some(x) && x == n,
            None => r is None,
        },
{
    if from == to {
        return Some(0);
    }
    let t = string_from_chars(cs, from, to);
    group_count_text(t.as_str(), v4_last)
}

/// Whether `s` is IPv6 text.
pub fn ipv6_text(s: &str) -> (r: bool)
    ensures
        r == ipv6_ok(s@),
{
    let cs = chars_of(s);
    let n = cs.len();
    match find_double_colon(&cs, 0) {
        None => {
            assert forall|k: int| !#[trigger] compressed_at(s@, k) by {
                assert(!double_colon_at(cs@, k));
            }
            match group_count_text(s, true) {
                Some(g) => g == 8,
                None => false,
            }
        },
        Some(k) => {
            assert(double_colon_at(s@, k as int));
            assert(group_count(s@, true) is None);
            let a = side_count_text(&cs, 0, k, false);
            let b = side_count_text(&cs, k + 2, n, true);
            assert(cs@.subrange(0, k as int) =~= s@.take(k as int));
            assert(cs@.subrange(k + 2, n as int) =~= s@.skip(k + 2));
            let ok = match (a, b) {
                (Some(x), Some(y)) => x <= 7 && y <= 7 - x,
                _ => false,
            };
            proof {
                if ok {
                    assert(compressed_at(s@, k as int));
                } else {
                    assert forall|j: int| !#[trigger] compressed_at(s@, j) by {
                        if j == k + 1 && double_colon_at(s@, j) {
                            let l = s@.take(j);
                            assert(l.len() > 0 && l.last() == ':');
                        } else if j > k + 1 && double_colon_at(s@, j) {
                            let l = s@.take(j);
                            assert(double_colon_at(l, k as int));
                        }
                    }
                }
            }
            ok
        },
    }
}

/// Whether `s` is text that `IpAddr` parsing accepts.
pub fn ip_text(s: &str) -> (r: bool)
    ensures
        r == ip_text_ok(s@),
{
    ipv4_text(s) || ipv6_text(s)
}

} // verus!
