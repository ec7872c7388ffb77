//! Text helpers over the character sequences that `String` and `str` hold:
//! splitting into lines, joining lines, decimal numerals.

use vstd::prelude::*;
use vstd::string::StringExecFns;

verus! {

broadcast use vstd::string::group_string_axioms;

/// The characters of `s`, in order.
pub fn chars_of(s: &str) -> (v: Vec<char>)
    ensures
        v@ == s@,
{
    let mut v: Vec<char> = Vec::new();
    for c in it: s.chars()
        invariant
            v@ == it.seq().take(it.index() as int),
            it.seq() == s@,
    {
        v.push(c);
    }
    assert(v@ =~= s@);
    v
}

/// `String::push`: appends one character.
#[verifier::external_body]
pub(crate) fn string_push(s: &mut String, c: char)
    ensures
        final(s)@ == old(s)@.push(c),
{
    s.push(c)
}

/// Appends the characters of `t`.
pub fn string_push_str(s: &mut String, t: &str)
    ensures
        final(s)@ == old(s)@ + t@,
{
    s.append(t);
}

/// A string holding the characters of `v[from..to]`.
pub fn string_from_chars(v: &Vec<char>, from: usize, to: usize) -> (s: String)
    requires
        from <= to <= v@.len(),
    ensures
        s@ == v@.subrange(from as int, to as int),
{
    let mut s = String::new();
    let mut i = from;
    while i < to
        invariant
            from <= i <= to <= v@.len(),
            s@ == v@.subrange(from as int, i as int),
        decreases to - i,
    {
        string_push(&mut s, v[i]);
        i = i + 1;
        assert(s@ =~= v@.subrange(from as int, i as int));
    }
    s
}

/// The pieces of `s` between occurrences of `sep`, in order. There is
/// always one piece more than there are separators.
pub open spec fn split_on(s: Seq<char>, sep: char) -> Seq<Seq<char>>
    decreases s.len(),
{
    if s.len() == 0 {
        seq![Seq::<char>::empty()]
    } else {
        let r = split_on(s.drop_last(), sep);
        if s.last() == sep {
            r.push(Seq::<char>::empty())
        } else {
            r.update(r.len() - 1, r.last().push(s.last()))
        }
    }
}

/// The pieces `ls` with `sep` between each two neighbours.
pub open spec fn join_with(ls: Seq<Seq<char>>, sep: char) -> Seq<char>
    decreases ls.len(),
{
    if ls.len() == 0 {
        Seq::<char>::empty()
    } else if ls.len() == 1 {
        ls[0]
    } else {
        join_with(ls.drop_last(), sep).push(sep) + ls.last()
    }
}

pub proof fn lemma_split_on_nonempty(s: Seq<char>, sep: char)
    ensures
        split_on(s, sep).len() >= 1,
    decreases s.len(),
{
    if s.len() > 0 {
        lemma_split_on_nonempty(s.drop_last(), sep);
    }
}

/// There are no more pieces than characters and one, and the last piece
/// takes up characters of its own.
pub proof fn lemma_split_on_len_bound(s: Seq<char>, sep: char)
    ensures
        split_on(s, sep).len() + split_on(s, sep).last().len() <= s.len() + 1,
    decreases s.len(),
{
    if s.len() > 0 {
        lemma_split_on_len_bound(s.drop_last(), sep);
        lemma_split_on_nonempty(s.drop_last(), sep);
    }
}

/// What follows a prefix is the rest of the sequence.
pub proof fn lemma_after_prefix(h: Seq<char>, x: Seq<char>)
    ensures
        (h + x).len() >= x.len(),
        (h + x).skip(h.len() as int) == x,
        (h + x).skip((h + x).len() - x.len()) == x,
        (h + x).take(h.len() as int) == h,
{
    assert((h + x).skip(h.len() as int) =~= x);
    assert((h + x).take(h.len() as int) =~= h);
}

/// Appending characters other than `sep` extends the last piece.
proof fn lemma_split_append_plain(x: Seq<char>, y: Seq<char>, sep: char)
    requires
        !y.contains(sep),
    ensures
        split_on(x + y, sep) == split_on(x, sep).update(
            split_on(x, sep).len() - 1,
            split_on(x, sep).last() + y,
        ),
    decreases y.len(),
{
    lemma_split_on_nonempty(x, sep);
    if y.len() == 0 {
        assert(x + y =~= x);
        assert(split_on(x, sep).last() + y =~= split_on(x, sep).last());
        assert(split_on(x, sep).update(split_on(x, sep).len() - 1, split_on(x, sep).last())
            =~= split_on(x, sep));
    } else {
        let y0 = y.drop_last();
        assert(!y0.contains(sep)) by {
            if y0.contains(sep) {
                let k = choose|k: int| 0 <= k < y0.len() && y0[k] == sep;
                assert(y[k] == sep);
            }
        }
        lemma_split_append_plain(x, y0, sep);
        assert((x + y).drop_last() =~= x + y0);
        assert((x + y).last() == y.last());
        assert(y.last() != sep) by {
            assert(y[y.len() - 1] == y.last());
        }
        lemma_split_on_nonempty(x + y0, sep);
        let r = split_on(x, sep);
        assert((r.last() + y0).push(y.last()) =~= r.last() + y);
        assert(split_on(x + y, sep) =~= r.update(r.len() - 1, r.last() + y));
    }
}

/// Text without the separator is one piece.
pub proof fn lemma_split_on_plain(p: Seq<char>, sep: char)
    requires
        !p.contains(sep),
    ensures
        split_on(p, sep) == seq![p],
{
    lemma_split_append_plain(Seq::<char>::empty(), p, sep);
    assert(Seq::<char>::empty() + p =~= p);
    assert(seq![Seq::<char>::empty()].update(0, Seq::<char>::empty() + p) =~= seq![p]);
}

/// Splitting the joined pieces on the separator gives the pieces back,
/// when no piece holds the separator.
pub proof fn lemma_split_join(ls: Seq<Seq<char>>, sep: char)
    requires
        ls.len() >= 1,
        forall|i: int| 0 <= i < ls.len() ==> !(#[trigger] ls[i]).contains(sep),
    ensures
        split_on(join_with(ls, sep), sep) == ls,
    decreases ls.len(),
{
    if ls.len() == 1 {
        lemma_split_append_plain(Seq::<char>::empty(), ls[0], sep);
        assert(Seq::<char>::empty() + ls[0] =~= ls[0]);
        assert(split_on(Seq::<char>::empty(), sep) == seq![Seq::<char>::empty()]);
        assert(Seq::<char>::empty() + ls[0] =~= ls[0]);
        assert(seq![Seq::<char>::empty()].update(0, Seq::<char>::empty() + ls[0]) =~= ls);
    } else {
        let init = ls.drop_last();
        assert forall|i: int| 0 <= i < init.len() implies !(#[trigger] init[i]).contains(sep) by {
            assert(init[i] == ls[i]);
        }
        lemma_split_join(init, sep);
        let j = join_with(init, sep);
        let jp = j.push(sep);
        assert(split_on(jp, sep) == split_on(j, sep).push(Seq::<char>::empty())) by {
            assert(jp.drop_last() =~= j);
        }
        assert(!ls[ls.len() - 1].contains(sep));
        lemma_split_append_plain(jp, ls.last(), sep);
        let r = init.push(Seq::<char>::empty());
        assert(Seq::<char>::empty() + ls.last() =~= ls.last());
        assert(r.update(r.len() - 1, r.last() + ls.last()) =~= ls);
    }
}

/// The pieces of `s` between occurrences of `sep`.
pub fn split_char(s: &str, sep: char) -> (pieces: Vec<String>)
    ensures
        pieces@.len() == split_on(s@, sep).len(),
        forall|i: int| 0 <= i < pieces@.len() ==> (#[trigger] pieces@[i])@ == split_on(s@, sep)[i],
{
    let cs = chars_of(s);
    let mut pieces: Vec<String> = Vec::new();
    let mut start: usize = 0;
    let mut i: usize = 0;
    while i < cs.len()
        invariant
            cs@ == s@,
            start <= i <= cs@.len(),
            pieces@.len() + 1 == split_on(cs@.take(i as int), sep).len(),
            forall|k: int| 0 <= k < pieces@.len()
                ==> (#[trigger] pieces@[k])@ == split_on(cs@.take(i as int), sep)[k],
            split_on(cs@.take(i as int), sep).last() == cs@.subrange(start as int, i as int),
        decreases cs@.len() - i,
    {
        let ghost p = cs@.take(i as int);
        let ghost q = cs@.take(i + 1);
        proof {
            assert(q.drop_last() =~= p);
            assert(q.last() == cs@[i as int]);
            lemma_split_on_nonempty(p, sep);
        }
        if cs[i] == sep {
            let piece = string_from_chars(&cs, start, i);
            pieces.push(piece);
            start = i + 1;
            proof {
                assert(cs@.subrange(start as int, (i + 1) as int) =~= Seq::<char>::empty());
            }
        } else {
            proof {
                assert(cs@.subrange(start as int, (i + 1) as int)
                    =~= cs@.subrange(start as int, i as int).push(cs@[i as int]));
            }
        }
        i = i + 1;
    }
    let last = string_from_chars(&cs, start, cs.len());
    pieces.push(last);
    proof {
        assert(cs@.take(cs@.len() as int) =~= s@);
    }
    pieces
}

/// The lines of `s`, split on `'\n'`.
pub fn split_lines(s: &str) -> (lines: Vec<String>)
    ensures
        lines@.len() == split_on(s@, '\n').len(),
        forall|i: int| 0 <= i < lines@.len() ==> (#[trigger] lines@[i])@ == split_on(s@, '\n')[i],
{
    split_char(s, '\n')
}

/// The decimal digit for `d`, below ten.
pub open spec fn digit_char(d: nat) -> char {
    (('0' as nat) + d) as char
}

/// The decimal numeral of `n`, without leading zeros.
pub open spec fn decimal(n: nat) -> Seq<char>
    decreases n,
{
    if n < 10 {
        seq![digit_char(n)]
    } else {
        decimal(n / 10).push(digit_char(n % 10))
    }
}

/// Appends the decimal numeral of `n`.
pub fn push_decimal(s: &mut String, n: usize)
    ensures
        final(s)@ == old(s)@ + decimal(n as nat),
    decreases n,
{
    if n >= 10 {
        push_decimal(s, n / 10);
    }
    let d = (n % 10) as u32;
    let c = char_from_digit(d);
    string_push(s, c);
    proof {
        if n >= 10 {
            assert(old(s)@ + decimal(n as nat) =~= (old(s)@ + decimal((n / 10) as nat)).push(c));
        } else {
            assert(old(s)@ + decimal(n as nat) =~= old(s)@.push(c));
        }
    }
}

/// The character for decimal digit `d`.
fn char_from_digit(d: u32) -> (c: char)
    requires
        d < 10,
    ensures
        c == digit_char(d as nat),
{
    if d == 0 { '0' }
    else if d == 1 { '1' }
    else if d == 2 { '2' }
    else if d == 3 { '3' }
    else if d == 4 { '4' }
    else if d == 5 { '5' }
    else if d == 6 { '6' }
    else if d == 7 { '7' }
    else if d == 8 { '8' }
    else { '9' }
}


/// The base64 digit for a six-bit value: `A`-`Z`, `a`-`z`, `0`-`9`, then
/// `-` and `_` in the URL-safe alphabet, `+` and `/` in the standard one.
pub open spec fn base64_digit(v: nat, url_safe: bool) -> char {
    if v < 26 {
        (('A' as nat) + v) as char
    } else if v < 52 {
        (('a' as nat) + (v - 26)) as char
    } else if v < 62 {
        (('0' as nat) + (v - 52)) as char
    } else if v == 62 {
        if url_safe { '-' } else { '+' }
    } else {
        if url_safe { '_' } else { '/' }
    }
}

/// The base64 text of `d`: four digits for each three bytes, most
/// significant bits first; a last group of one or two bytes gives two or
/// three digits, followed by `=` to fill four when `padded`.
pub open spec fn base64_text(d: Seq<u8>, url_safe: bool, padded: bool) -> Seq<char>
    decreases d.len(),
{
    if d.len() == 0 {
        Seq::empty()
    } else if d.len() == 1 {
        let n = d[0] as nat;
        seq![base64_digit(n / 4, url_safe), base64_digit((n % 4) * 16, url_safe)]
            + if padded { seq!['=', '='] } else { Seq::empty() }
    } else if d.len() == 2 {
        let n = (d[0] as nat) * 256 + (d[1] as nat);
        seq![base64_digit(n / 1024, url_safe), base64_digit((n / 16) % 64, url_safe), base64_digit((n % 16) * 4, url_safe)]
            + if padded { seq!['='] } else { Seq::empty() }
    } else {
        let n = (d[0] as nat) * 65536 + (d[1] as nat) * 256 + (d[2] as nat);
        seq![
            base64_digit(n / 262144, url_safe),
            base64_digit((n / 4096) % 64, url_safe),
            base64_digit((n / 64) % 64, url_safe),
            base64_digit(n % 64, url_safe),
        ] + base64_text(d.skip(3), url_safe, padded)
    }
}

/// A digit of the URL-safe alphabet.
pub open spec fn is_base64url_char(c: char) -> bool {
    ('A' <= c && c <= 'Z') || ('a' <= c && c <= 'z') || ('0' <= c && c <= '9') || c == '-' || c == '_'
}

/// Unpadded URL-safe base64 text has four digits for each three bytes and
/// two or three for a last partial group, all of the URL-safe alphabet.
pub proof fn lemma_base64url_text_shape(d: Seq<u8>)
    ensures
        base64_text(d, true, false).len() == (4 * d.len() + 2) / 3,
        forall|i: int| 0 <= i < base64_text(d, true, false).len() ==> is_base64url_char(#[trigger] base64_text(d, true, false)[i]),
    decreases d.len(),
{
    assert forall|v: nat| v < 64 implies is_base64url_char(#[trigger] base64_digit(v, true)) by {}
    if d.len() == 1 {
        let n = d[0] as nat;
        assert(n / 4 < 64 && (n % 4) * 16 < 64);
    } else if d.len() == 2 {
        let n = (d[0] as nat) * 256 + (d[1] as nat);
        assert(n < 65536);
        assert(n / 1024 < 64) by (nonlinear_arith) requires n < 65536;
        assert((n % 16) * 4 < 64);
    } else if d.len() >= 3 {
        let n = (d[0] as nat) * 65536 + (d[1] as nat) * 256 + (d[2] as nat);
        assert(n < 16777216);
        assert(n / 262144 < 64) by (nonlinear_arith) requires n < 16777216;
        lemma_base64url_text_shape(d.skip(3));
        let t = base64_text(d, true, false);
        let head = seq![
            base64_digit(n / 262144, true),
            base64_digit((n / 4096) % 64, true),
            base64_digit((n / 64) % 64, true),
            base64_digit(n % 64, true),
        ];
        assert(t == head + base64_text(d.skip(3), true, false));
        assert forall|i: int| 0 <= i < t.len() implies is_base64url_char(#[trigger] t[i]) by {
            if i >= 4 {
                assert(t[i] == base64_text(d.skip(3), true, false)[i - 4]);
            }
        }
    }
}


/// The bytes whose base64 text, in the given alphabet and padding, is
/// `s`; none when no bytes have that text.
pub open spec fn base64_value(s: Seq<char>, url_safe: bool, padded: bool) -> Option<Seq<u8>> {
    if exists|d: Seq<u8>| #[trigger] base64_text(d, url_safe, padded) == s {
        Some(choose|d: Seq<u8>| #[trigger] base64_text(d, url_safe, padded) == s)
    } else {
        None
    }
}

/// Different six-bit values have different digits.
proof fn lemma_base64_digit_injective(a: nat, b: nat, url_safe: bool)
    requires
        a < 64,
        b < 64,
        base64_digit(a, url_safe) == base64_digit(b, url_safe),
    ensures
        a == b,
{
}

/// Unpadded base64 text has four digits for each three bytes.
proof fn lemma_base64_unpadded_len(d: Seq<u8>, url_safe: bool)
    ensures
        base64_text(d, url_safe, false).len() == (4 * d.len() + 2) / 3,
    decreases d.len(),
{
    if d.len() >= 3 {
        lemma_base64_unpadded_len(d.skip(3), url_safe);
    }
}

/// Three bytes are fixed by their four digits.
proof fn lemma_group_of_three(a0: u8, a1: u8, a2: u8, b0: u8, b1: u8, b2: u8)
    requires
        ((a0 as u32) * 65536 + (a1 as u32) * 256 + (a2 as u32)) / 262144
            == ((b0 as u32) * 65536 + (b1 as u32) * 256 + (b2 as u32)) / 262144,
        (((a0 as u32) * 65536 + (a1 as u32) * 256 + (a2 as u32)) / 4096) % 64
            == (((b0 as u32) * 65536 + (b1 as u32) * 256 + (b2 as u32)) / 4096) % 64,
        (((a0 as u32) * 65536 + (a1 as u32) * 256 + (a2 as u32)) / 64) % 64
            == (((b0 as u32) * 65536 + (b1 as u32) * 256 + (b2 as u32)) / 64) % 64,
        ((a0 as u32) * 65536 + (a1 as u32) * 256 + (a2 as u32)) % 64
            == ((b0 as u32) * 65536 + (b1 as u32) * 256 + (b2 as u32)) % 64,
    ensures
        a0 == b0,
        a1 == b1,
        a2 == b2,
{
    assert(a0 == b0 && a1 == b1 && a2 == b2) by (bit_vector)
        requires
            ((a0 as u32) * 65536 + (a1 as u32) * 256 + (a2 as u32)) / 262144
                == ((b0 as u32) * 65536 + (b1 as u32) * 256 + (b2 as u32)) / 262144,
            (((a0 as u32) * 65536 + (a1 as u32) * 256 + (a2 as u32)) / 4096) % 64
                == (((b0 as u32) * 65536 + (b1 as u32) * 256 + (b2 as u32)) / 4096) % 64,
            (((a0 as u32) * 65536 + (a1 as u32) * 256 + (a2 as u32)) / 64) % 64
                == (((b0 as u32) * 65536 + (b1 as u32) * 256 + (b2 as u32)) / 64) % 64,
            ((a0 as u32) * 65536 + (a1 as u32) * 256 + (a2 as u32)) % 64
                == ((b0 as u32) * 65536 + (b1 as u32) * 256 + (b2 as u32)) % 64;
}

/// Two bytes are fixed by their three digits.
proof fn lemma_group_of_two(a0: u8, a1: u8, b0: u8, b1: u8)
    requires
        ((a0 as u32) * 256 + (a1 as u32)) / 1024 == ((b0 as u32) * 256 + (b1 as u32)) / 1024,
        (((a0 as u32) * 256 + (a1 as u32)) / 16) % 64 == (((b0 as u32) * 256 + (b1 as u32)) / 16) % 64,
        (((a0 as u32) * 256 + (a1 as u32)) % 16) * 4 == (((b0 as u32) * 256 + (b1 as u32)) % 16) * 4,
    ensures
        a0 == b0,
        a1 == b1,
{
    assert(a0 == b0 && a1 == b1) by (bit_vector)
        requires
            ((a0 as u32) * 256 + (a1 as u32)) / 1024 == ((b0 as u32) * 256 + (b1 as u32)) / 1024,
            (((a0 as u32) * 256 + (a1 as u32)) / 16) % 64 == (((b0 as u32) * 256 + (b1 as u32)) / 16) % 64,
            (((a0 as u32) * 256 + (a1 as u32)) % 16) * 4 == (((b0 as u32) * 256 + (b1 as u32)) % 16) * 4;
}

/// Two byte strings with the same unpadded base64 text are equal.
pub proof fn lemma_base64_unpadded_injective(d1: Seq<u8>, d2: Seq<u8>, url_safe: bool)
    requires
        base64_text(d1, url_safe, false) == base64_text(d2, url_safe, false),
    ensures
        d1 == d2,
    decreases d1.len(),
{
    lemma_base64_unpadded_len(d1, url_safe);
    lemma_base64_unpadded_len(d2, url_safe);
    let t = base64_text(d1, url_safe, false);
    assert(d1.len() == d2.len());
    if d1.len() == 0 {
        assert(d1 =~= d2);
    } else if d1.len() == 1 {
        let n1 = d1[0] as nat;
        let n2 = d2[0] as nat;
        assert(t[0] == base64_digit(n1 / 4, url_safe) && t[0] == base64_digit(n2 / 4, url_safe));
        assert(t[1] == base64_digit((n1 % 4) * 16, url_safe) && t[1] == base64_digit((n2 % 4) * 16, url_safe));
        lemma_base64_digit_injective(n1 / 4, n2 / 4, url_safe);
        lemma_base64_digit_injective((n1 % 4) * 16, (n2 % 4) * 16, url_safe);
        assert(n1 == n2);
        assert(d1 =~= d2);
    } else if d1.len() == 2 {
        let n1 = (d1[0] as nat) * 256 + (d1[1] as nat);
        let n2 = (d2[0] as nat) * 256 + (d2[1] as nat);
        assert(n1 < 65536 && n2 < 65536);
        assert(n1 / 1024 < 64 && n2 / 1024 < 64);
        assert(t[0] == base64_digit(n1 / 1024, url_safe) && t[0] == base64_digit(n2 / 1024, url_safe));
        assert(t[1] == base64_digit((n1 / 16) % 64, url_safe) && t[1] == base64_digit((n2 / 16) % 64, url_safe));
        assert(t[2] == base64_digit((n1 % 16) * 4, url_safe) && t[2] == base64_digit((n2 % 16) * 4, url_safe));
        lemma_base64_digit_injective(n1 / 1024, n2 / 1024, url_safe);
        lemma_base64_digit_injective((n1 / 16) % 64, (n2 / 16) % 64, url_safe);
        lemma_base64_digit_injective((n1 % 16) * 4, (n2 % 16) * 4, url_safe);
        lemma_group_of_two(d1[0], d1[1], d2[0], d2[1]);
        assert(d1 =~= d2);
    } else {
        let n1 = (d1[0] as nat) * 65536 + (d1[1] as nat) * 256 + (d1[2] as nat);
        let n2 = (d2[0] as nat) * 65536 + (d2[1] as nat) * 256 + (d2[2] as nat);
        assert(n1 < 16777216 && n2 < 16777216);
        assert(n1 / 262144 < 64 && n2 / 262144 < 64);
        let h1 = seq![
            base64_digit(n1 / 262144, url_safe),
            base64_digit((n1 / 4096) % 64, url_safe),
            base64_digit((n1 / 64) % 64, url_safe),
            base64_digit(n1 % 64, url_safe),
        ];
        let h2 = seq![
            base64_digit(n2 / 262144, url_safe),
            base64_digit((n2 / 4096) % 64, url_safe),
            base64_digit((n2 / 64) % 64, url_safe),
            base64_digit(n2 % 64, url_safe),
        ];
        let r1 = base64_text(d1.skip(3), url_safe, false);
        let r2 = base64_text(d2.skip(3), url_safe, false);
        assert(t == h1 + r1);
        assert(t == h2 + r2);
        assert(h1 == t.take(4) && h2 == t.take(4));
        assert(r1 =~= t.skip(4) && r2 =~= t.skip(4));
        assert(h1[0] == h2[0] && h1[1] == h2[1] && h1[2] == h2[2] && h1[3] == h2[3]);
        lemma_base64_digit_injective(n1 / 262144, n2 / 262144, url_safe);
        lemma_base64_digit_injective((n1 / 4096) % 64, (n2 / 4096) % 64, url_safe);
        lemma_base64_digit_injective((n1 / 64) % 64, (n2 / 64) % 64, url_safe);
        lemma_base64_digit_injective(n1 % 64, n2 % 64, url_safe);
        lemma_group_of_three(d1[0], d1[1], d1[2], d2[0], d2[1], d2[2]);
        lemma_base64_unpadded_injective(d1.skip(3), d2.skip(3), url_safe);
        assert(d1 =~= d1.take(3) + d1.skip(3));
        assert(d2 =~= d2.take(3) + d2.skip(3));
        assert(d1.take(3) =~= d2.take(3));
    }
}

} // verus!
