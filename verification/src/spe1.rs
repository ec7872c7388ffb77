//! The question/answer steganography protocol "spe1".
//!
//! Each bit of the hidden data is sent as one question line: a question of
//! the first set of 128 stands for 0, one of the second set for 1, picked
//! at random within its set. The server answers each question with its
//! answer and then sends its own data as a list of "related questions".

use vstd::prelude::*;
use crate::bits::{byte_bit, lemma_pack_unpack, pack_bits, unpack_bits};
use crate::text::{lemma_split_join, lemma_split_on_nonempty, chars_of, string_from_chars, decimal, join_with, push_decimal, split_lines, split_on, string_push, string_push_str};
use vstd::utf8::encode_utf8;
use vstd::arithmetic::power2::pow2;
use rand::Rng;
use crate::bits::bools_to_bytes;
use crate::buf::{buf_from_slice, bytes_of};
use bytes::BytesMut;

verus! {

broadcast use vstd::string::group_string_axioms;

/// A question and its answer.
pub type QA = (String, String);

/// The 128 question/answer pairs that all stand for one bit value.
pub type Token = Vec<QA>;

/// The number of question/answer pairs that stand for one bit value.
pub const TOKEN_LEN: usize = 128;

/// The question/answer tables of the protocol: `qa_set[0]` stands for the
/// bit 0, `qa_set[1]` for the bit 1. Every question is asked with the same
/// chance.
pub struct QaData {
    pub qa_set: [Token; 2],
}

impl QaData {
    /// Both tables hold 128 pairs.
    pub open spec fn well_formed(&self) -> bool {
        &&& self.qa_set@[0]@.len() == 128
        &&& self.qa_set@[1]@.len() == 128
    }

    /// The question at index `i` of the table for `bit`.
    pub open spec fn question(&self, bit: int, i: int) -> Seq<char> {
        self.qa_set@[bit]@[i].0@
    }

    /// The answer at index `i` of the table for `bit`.
    pub open spec fn answer(&self, bit: int, i: int) -> Seq<char> {
        self.qa_set@[bit]@[i].1@
    }

    /// The questions, or the answers, of the table for `bit`, in order.
    pub open spec fn keys(&self, bit: int, answers: bool) -> Seq<Seq<char>> {
        Seq::new(
            self.qa_set@[bit]@.len(),
            |i: int| if answers { self.answer(bit, i) } else { self.question(bit, i) },
        )
    }
}

/// The largest power of two not above `n`, and 0 for 0.
pub open spec fn floor_pow2(n: nat) -> nat
    decreases n,
{
    if n == 0 {
        0
    } else if n == 1 {
        1
    } else {
        2 * floor_pow2(n / 2)
    }
}

proof fn lemma_floor_pow2_shape(n: nat)
    requires
        n >= 1,
    ensures
        floor_pow2(n) <= n < 2 * floor_pow2(n),
        floor_pow2(n) >= 1,
    decreases n,
{
    if n > 1 {
        lemma_floor_pow2_shape(n / 2);
    }
}

/// The largest power of two not above `n`, and 0 for 0.
fn nearest_power_of_two(n: u32) -> (r: u32)
    ensures
        r == floor_pow2(n as nat),
{
    if n == 0 {
        return 0;
    }
    let mut m = n;
    m = m | (m >> 1u32);
    m = m | (m >> 2u32);
    m = m | (m >> 4u32);
    m = m | (m >> 8u32);
    m = m | (m >> 16u32);
    assert(m >= (m >> 1u32)) by (bit_vector);
    let r = m - (m >> 1u32);
    proof {
        lemma_smear_top_bit(n);
    }
    r
}

/// Smearing the bits of `n` down and keeping the top one gives the
/// largest power of two not above `n`.
proof fn lemma_smear_top_bit(n: u32)
    requires
        n > 0,
    ensures
        ({
            let m1 = n | (n >> 1u32);
            let m2 = m1 | (m1 >> 2u32);
            let m3 = m2 | (m2 >> 4u32);
            let m4 = m3 | (m3 >> 8u32);
            let m5 = m4 | (m4 >> 16u32);
            m5 - (m5 >> 1u32) == floor_pow2(n as nat)
        }),
{
    let m1 = n | (n >> 1u32);
    let m2 = m1 | (m1 >> 2u32);
    let m3 = m2 | (m2 >> 4u32);
    let m4 = m3 | (m3 >> 8u32);
    let m5 = m4 | (m4 >> 16u32);
    let r: u32 = (m5 - (m5 >> 1u32)) as u32;
    assert(r <= n && n < 2 * (r as u64) && r > 0 && r & ((r - 1) as u32) == 0) by (bit_vector)
        requires
            n > 0,
            m1 == n | (n >> 1u32),
            m2 == m1 | (m1 >> 2u32),
            m3 == m2 | (m2 >> 4u32),
            m4 == m3 | (m3 >> 8u32),
            m5 == m4 | (m4 >> 16u32),
            r == (m5 - (m5 >> 1u32)) as u32,
    ;
    assert(m5 >= (m5 >> 1u32)) by (bit_vector);
    lemma_pow2_unique(n as nat, r);
}

/// A power of two `r` with `r <= n < 2 * r` is the largest one not above `n`.
proof fn lemma_pow2_unique(n: nat, r: u32)
    requires
        r > 0,
        r & ((r - 1) as u32) == 0,
        r <= n < 2 * r,
    ensures
        r == floor_pow2(n),
    decreases n,
{
    if n == 1 {
    } else {
        assert(r >= 2 ==> (r / 2) & ((r / 2 - 1) as u32) == 0 && r % 2 == 0) by (bit_vector)
            requires r > 0, r & ((r - 1) as u32) == 0;
        if r == 1 {
            assert(false);
        }
        let h = (r / 2) as u32;
        assert(h <= n / 2 < 2 * h);
        lemma_pow2_unique(n / 2, h);
    }
}

/// The question text of the built-in table entry `n`.
pub open spec fn simple_question(n: nat) -> Seq<char> {
    "question "@ + decimal(n)
}

/// The answer text of the built-in table entry `n`.
pub open spec fn simple_answer(n: nat) -> Seq<char> {
    "answer "@ + decimal(n)
}

/// The half length that `QaData::from` repeats: a table is filled by
/// repeating the first `from_half(len)` pairs (bit 0) or the next ones (bit 1).
pub open spec fn from_half(len: nat) -> nat {
    if len >= 256 { 128 } else { floor_pow2(len / 2) }
}

/// The built-in pair numbered `from + plus`.
fn simple_qa(from: usize, plus: usize) -> (qa: QA)
    requires
        from + plus <= u16::MAX,
    ensures
        qa.0@ == simple_question((from + plus) as nat),
        qa.1@ == simple_answer((from + plus) as nat),
{
    let n = from + plus;
    let mut q = String::new();
    string_push_str(&mut q, "question ");
    push_decimal(&mut q, n);
    let mut a = String::new();
    string_push_str(&mut a, "answer ");
    push_decimal(&mut a, n);
    (q, a)
}

/// `count` built-in tables of 128 pairs each, numbered on from 0.
fn simple_token_vec(count: usize) -> (r: Vec<Token>)
    requires
        count * 128 <= u16::MAX + 1,
    ensures
        r@.len() == count,
        forall|t: int| 0 <= t < count ==> (#[trigger] r@[t])@.len() == 128,
        forall|t: int, i: int| 0 <= t < count && 0 <= i < 128 ==> {
            &&& (#[trigger] r@[t]@[i]).0@ == simple_question((128 * t + i) as nat)
            &&& r@[t]@[i].1@ == simple_answer((128 * t + i) as nat)
        },
{
    let mut r: Vec<Token> = Vec::new();
    let mut t: usize = 0;
    while t < count
        invariant
            t <= count,
            count * 128 <= u16::MAX + 1,
            r@.len() == t,
            forall|k: int| 0 <= k < t ==> (#[trigger] r@[k])@.len() == 128,
            forall|k: int, i: int| 0 <= k < t && 0 <= i < 128 ==> {
                &&& (#[trigger] r@[k]@[i]).0@ == simple_question((128 * k + i) as nat)
                &&& r@[k]@[i].1@ == simple_answer((128 * k + i) as nat)
            },
        decreases count - t,
    {
        let from = t * 128;
        let mut token: Token = Vec::new();
        let mut i: usize = 0;
        while i < 128
            invariant
                i <= 128,
                from == t * 128,
                t < count,
                count * 128 <= u16::MAX + 1,
                token@.len() == i,
                forall|j: int| 0 <= j < i ==> {
                    &&& (#[trigger] token@[j]).0@ == simple_question((from + j) as nat)
                    &&& token@[j].1@ == simple_answer((from + j) as nat)
                },
            decreases 128 - i,
        {
            let qa = simple_qa(from, i);
            token.push(qa);
            i = i + 1;
        }
        r.push(token);
        t = t + 1;
    }
    r
}

impl QaData {
    /// The tables are taken as they are; the protocol's reads and writes
    /// ask for tables of 128 pairs each.
    pub fn new(qa_set: [Token; 2]) -> (r: QaData)
        ensures
            r.qa_set == qa_set,
            r.well_formed() == (qa_set@[0]@.len() == 128 && qa_set@[1]@.len() == 128),
    {
        QaData { qa_set }
    }

    /// The built-in tables: `"question n"` / `"answer n"` for `n` in
    /// `0..128` stand for 0, for `n` in `128..256` for 1.
    pub fn new_simple() -> (r: QaData)
        ensures
            r.well_formed(),
            forall|b: int, i: int| 0 <= b < 2 && 0 <= i < 128 ==> {
                &&& #[trigger] r.question(b, i) == simple_question((128 * b + i) as nat)
                &&& r.answer(b, i) == simple_answer((128 * b + i) as nat)
            },
    {
        let mut tokens = simple_token_vec(2);
        let ghost all = tokens@;
        let t1 = tokens.pop().unwrap();
        let t0 = tokens.pop().unwrap();
        assert(t0 == all[0] && t1 == all[1]);
        let qa_set = [t0, t1];
        assert(qa_set@[0] == t0 && qa_set@[1] == t1);
        Self::new(qa_set)
    }

    /// Tables made of the given pairs: the first half stands for 0, the
    /// second half for 1. Past 256 pairs the rest is dropped; below 256
    /// the pairs are cut down to a power of two and each half is repeated
    /// until it fills 128 entries.
    pub fn from(qas: Vec<QA>) -> (r: QaData)
        requires
            qas@.len() >= 2,
        ensures
            r.well_formed(),
            forall|b: int, i: int| 0 <= b < 2 && 0 <= i < 128 ==>
                #[trigger] r.qa_set@[b]@[i] == qas@[b * from_half(qas@.len() as nat) + i % (from_half(qas@.len() as nat) as int)],
    {
        let len = qas.len();
        let h: usize = if len >= 256 {
            128
        } else {
            let p = nearest_power_of_two((len / 2) as u32);
            p as usize
        };
        proof {
            if len < 256 {
                lemma_floor_pow2_shape((len / 2) as nat);
            }
            assert(h == from_half(len as nat));
            assert(1 <= h && 2 * h <= len);
        }
        let mut t0: Token = Vec::new();
        let mut t1: Token = Vec::new();
        let mut i: usize = 0;
        while i < 128
            invariant
                i <= 128,
                1 <= h,
                2 * h <= len,
                len == qas@.len(),
                h == from_half(len as nat),
                t0@.len() == i,
                t1@.len() == i,
                forall|j: int| 0 <= j < i ==> #[trigger] t0@[j] == qas@[j % (h as int)],
                forall|j: int| 0 <= j < i ==> #[trigger] t1@[j] == qas@[h + j % (h as int)],
            decreases 128 - i,
        {
            let k = i % h;
            let q0 = (qas[k].0.clone(), qas[k].1.clone());
            let q1 = (qas[h + k].0.clone(), qas[h + k].1.clone());
            t0.push(q0);
            t1.push(q1);
            i = i + 1;
        }
        let qa_set = [t0, t1];
        assert(qa_set@[0] == t0 && qa_set@[1] == t1);
        let r = Self::new(qa_set);
        assert forall|b: int, i: int| 0 <= b < 2 && 0 <= i < 128 implies
            #[trigger] r.qa_set@[b]@[i] == qas@[b * from_half(qas@.len() as nat) + i % (from_half(qas@.len() as nat) as int)] by {
            if b == 0 {
                assert(r.qa_set@[b]@[i] == t0@[i]);
            } else {
                assert(r.qa_set@[b]@[i] == t1@[i]);
            }
        }
        r
    }
}

/// The last index at which `keys` holds `s`, or -1. Built as a map from
/// key to index, a table keeps the last index of a key that occurs twice.
pub open spec fn find_last(keys: Seq<Seq<char>>, s: Seq<char>) -> int
    decreases keys.len(),
{
    if keys.len() == 0 {
        -1
    } else if keys.last() == s {
        keys.len() - 1
    } else {
        find_last(keys.drop_last(), s)
    }
}

proof fn lemma_find_last_range(keys: Seq<Seq<char>>, s: Seq<char>)
    ensures
        -1 <= find_last(keys, s) < keys.len(),
        find_last(keys, s) >= 0 ==> keys[find_last(keys, s)] == s,
        find_last(keys, s) == -1 ==> !keys.contains(s),
    decreases keys.len(),
{
    if keys.len() > 0 {
        lemma_find_last_range(keys.drop_last(), s);
        if find_last(keys, s) == -1 {
            assert(keys.last() != s);
            if keys.contains(s) {
                let k = choose|k: int| 0 <= k < keys.len() && keys[k] == s;
                assert(keys.drop_last()[k] == s);
            }
        }
    }
}

/// Why a text could not be read back as hidden data.
pub enum QaError {
    /// A line is none of the table's questions.
    NoQuestion(String),
    /// A line is none of the table's answers.
    NoAnswer(String),
    /// The text does not start with the line `Questions:`.
    NoHeader,
    /// A response body lacks the prompt that comes before its questions.
    NoPrompt,
}

impl QaData {
    /// The bit and index that the line `s` stands for, among the questions
    /// (or the answers): the table for 0 is searched first.
    pub open spec fn match_spec(&self, s: Seq<char>, answers: bool) -> Option<(bool, u8)> {
        let i0 = find_last(self.keys(0, answers), s);
        let i1 = find_last(self.keys(1, answers), s);
        if i0 >= 0 {
            Some((false, i0 as u8))
        } else if i1 >= 0 {
            Some((true, i1 as u8))
        } else {
            None
        }
    }

    /// The last index of `s` in the questions (or answers) of table `bit`.
    fn find_in_table(&self, bit: usize, s: &String, answers: bool) -> (r: Option<u8>)
        requires
            self.well_formed(),
            bit < 2,
        ensures
            find_last(self.keys(bit as int, answers), s@) >= 0 ==> r == Some(
                find_last(self.keys(bit as int, answers), s@) as u8,
            ),
            find_last(self.keys(bit as int, answers), s@) < 0 ==> r.is_none(),
    {
        let table = &self.qa_set[bit];
        let ghost keys = self.keys(bit as int, answers);
        let mut found: Option<u8> = None;
        let mut i: usize = 0;
        while i < 128
            invariant
                i <= 128,
                table@ == self.qa_set@[bit as int]@,
                table@.len() == 128,
                keys == self.keys(bit as int, answers),
                keys.len() == 128,
                find_last(keys.take(i as int), s@) >= 0 ==> found == Some(
                    find_last(keys.take(i as int), s@) as u8,
                ),
                find_last(keys.take(i as int), s@) < 0 ==> found.is_none(),
            decreases 128 - i,
        {
            let key = if answers { &table[i].1 } else { &table[i].0 };
            assert(key@ == keys[i as int]);
            assert(keys.take(i + 1).drop_last() =~= keys.take(i as int));
            assert(keys.take(i + 1).last() == keys[i as int]);
            if *key == *s {
                found = Some(i as u8);
            }
            i = i + 1;
        }
        assert(keys.take(128) =~= keys);
        found
    }

    /// The line `s` among the questions (`answers` false) or answers.
    fn match_line(&self, s: &String, answers: bool) -> (r: Option<(bool, u8)>)
        requires
            self.well_formed(),
        ensures
            r == self.match_spec(s@, answers),
    {
        match self.find_in_table(0, s, answers) {
            Some(i) => Some((false, i)),
            None => match self.find_in_table(1, s, answers) {
                Some(i) => Some((true, i)),
                None => None,
            },
        }
    }

    /// The bit (`true` for 1) and index that the question `s` stands for.
    pub fn match_question(&self, s: &str) -> (r: Result<(bool, u8), QaError>)
        requires
            self.well_formed(),
        ensures
            match self.match_spec(s@, false) {
                Some(m) => r == Ok::<(bool, u8), QaError>(m),
                None => r matches Err(QaError::NoQuestion(l)) && l@ == s@,
            },
    {
        let owned = s.to_owned();
        match self.match_line(&owned, false) {
            Some(m) => Ok(m),
            None => Err(QaError::NoQuestion(owned)),
        }
    }

    /// The bit (`true` for 1) and index that the answer `s` stands for.
    pub fn match_answer(&self, s: &str) -> (r: Result<(bool, u8), QaError>)
        requires
            self.well_formed(),
        ensures
            match self.match_spec(s@, true) {
                Some(m) => r == Ok::<(bool, u8), QaError>(m),
                None => r matches Err(QaError::NoAnswer(l)) && l@ == s@,
            },
    {
        let owned = s.to_owned();
        match self.match_line(&owned, true) {
            Some(m) => Ok(m),
            None => Err(QaError::NoAnswer(owned)),
        }
    }
}

/// The bits that the matched lines stand for.
pub open spec fn bits_of(ms: Seq<(bool, u8)>) -> Seq<bool> {
    ms.map_values(|m: (bool, u8)| m.0)
}

impl QaData {
    /// Every line matched in order, or the first line that matches nothing.
    pub open spec fn match_lines(&self, lines: Seq<Seq<char>>, answers: bool) -> Result<Seq<(bool, u8)>, Seq<char>>
        decreases lines.len(),
    {
        if lines.len() == 0 {
            Ok(Seq::empty())
        } else {
            match self.match_lines(lines.drop_last(), answers) {
                Err(l) => Err(l),
                Ok(ms) => match self.match_spec(lines.last(), answers) {
                    Some(m) => Ok(ms.push(m)),
                    None => Err(lines.last()),
                },
            }
        }
    }

    /// The lines of the text of questions, after the header line when there
    /// is one.
    pub open spec fn question_body(s: Seq<char>, has_header: bool) -> Seq<Seq<char>> {
        if has_header { split_on(s, '\n').drop_first() } else { split_on(s, '\n') }
    }

    /// Whether the header line is missing where one is asked for.
    pub open spec fn header_missing(s: Seq<char>, has_header: bool) -> bool {
        has_header && split_on(s, '\n')[0] != "Questions:"@
    }
}

proof fn lemma_match_lines_err_stays(q: &QaData, lines: Seq<Seq<char>>, answers: bool, k: int, j: int)
    requires
        0 <= k <= j <= lines.len(),
        q.match_lines(lines.take(k), answers) is Err,
    ensures
        q.match_lines(lines.take(j), answers) == q.match_lines(lines.take(k), answers),
    decreases j - k,
{
    if j > k {
        lemma_match_lines_err_stays(q, lines, answers, k, j - 1);
        assert(lines.take(j).drop_last() =~= lines.take(j - 1));
    }
}

impl QaData {
    /// Matches `lines[start..]` in order; the first line that matches
    /// nothing is handed back.
    fn match_all(&self, lines: &Vec<String>, start: usize, answers: bool) -> (r: Result<Vec<(bool, u8)>, String>)
        requires
            self.well_formed(),
            start <= lines@.len(),
        ensures
            match self.match_lines(lines@.skip(start as int).map_values(|l: String| l@), answers) {
                Ok(ms) => r matches Ok(v) && v@ == ms,
                Err(l) => r matches Err(e) && e@ == l,
            },
    {
        let ghost body = lines@.skip(start as int).map_values(|l: String| l@);
        let mut ms: Vec<(bool, u8)> = Vec::new();
        let mut i: usize = start;
        assert(body.take(0) =~= Seq::<Seq<char>>::empty());
        while i < lines.len()
            invariant
                self.well_formed(),
                start <= i <= lines@.len(),
                body == lines@.skip(start as int).map_values(|l: String| l@),
                self.match_lines(body.take(i - start), answers) == Ok::<Seq<(bool, u8)>, Seq<char>>(ms@),
            decreases lines@.len() - i,
        {
            let k = i - start;
            assert(body.take(k + 1).drop_last() =~= body.take(k as int));
            assert(body.take(k + 1).last() == lines@[i as int]@);
            match self.match_line(&lines[i], answers) {
                Some(m) => {
                    ms.push(m);
                }
                None => {
                    proof {
                        lemma_match_lines_err_stays(self, body, answers, k + 1, body.len() as int);
                        assert(body.take(body.len() as int) =~= body);
                    }
                    return Err(lines[i].clone());
                }
            }
            i = i + 1;
        }
        assert(body.take(i - start) =~= body);
        Ok(ms)
    }

    /// The bits of the matched lines, packed into bytes.
    fn pack_matches(ms: &Vec<(bool, u8)>) -> (b: BytesMut)
        ensures
            bytes_of(b) == pack_bits(bits_of(ms@)),
    {
        let mut bools: Vec<bool> = Vec::new();
        let mut i: usize = 0;
        while i < ms.len()
            invariant
                i <= ms@.len(),
                bools@ == bits_of(ms@.take(i as int)),
            decreases ms@.len() - i,
        {
            bools.push(ms[i].0);
            i = i + 1;
            assert(bits_of(ms@.take(i as int)) =~= bits_of(ms@.take(i - 1)).push(ms@[i - 1].0));
        }
        assert(ms@.take(ms@.len() as int) =~= ms@);
        let bytes = bools_to_bytes(bools);
        buf_from_slice(bytes.as_slice())
    }

    /// The hidden bytes of a text of questions, one question a line, after
    /// the header line `Questions:` when `has_header`; with
    /// `with_answer_index`, also the bit and index of every question.
    pub fn questions_to_bytes(&self, s: &str, with_answer_index: bool, has_header: bool) -> (r: Result<(BytesMut, Option<Vec<(bool, u8)>>), QaError>)
        requires
            self.well_formed(),
        ensures
            Self::header_missing(s@, has_header) ==> r matches Err(QaError::NoHeader),
            !Self::header_missing(s@, has_header) ==> match self.match_lines(Self::question_body(s@, has_header), false) {
                Ok(ms) => r matches Ok((b, o)) && bytes_of(b) == pack_bits(bits_of(ms)) && (
                    if with_answer_index { o matches Some(v) && v@ == ms } else { o is None }),
                Err(l) => r matches Err(QaError::NoQuestion(e)) && e@ == l,
            },
    {
        let lines = split_lines(s);
        let ghost ls = split_on(s@, '\n');
        assert(lines@.map_values(|l: String| l@) =~= ls);
        proof {
            crate::text::lemma_split_on_nonempty(s@, '\n');
        }
        let mut start: usize = 0;
        if has_header {
            let header = "Questions:".to_owned();
            if lines[0] != header {
                assert(lines@[0]@ == ls[0]);
                return Err(QaError::NoHeader);
            }
            start = 1;
        }
        assert(lines@.skip(start as int).map_values(|l: String| l@) =~= Self::question_body(s@, has_header));
        match self.match_all(&lines, start, false) {
            Err(l) => Err(QaError::NoQuestion(l)),
            Ok(ms) => {
                let b = Self::pack_matches(&ms);
                if with_answer_index {
                    Ok((b, Some(ms)))
                } else {
                    Ok((b, None))
                }
            },
        }
    }

    /// The hidden bytes of a text of answers, one answer a line.
    pub fn answers_to_bytes(&self, s: &str) -> (r: Result<BytesMut, QaError>)
        requires
            self.well_formed(),
        ensures
            match self.match_lines(split_on(s@, '\n'), true) {
                Ok(ms) => r matches Ok(b) && bytes_of(b) == pack_bits(bits_of(ms)),
                Err(l) => r matches Err(QaError::NoAnswer(e)) && e@ == l,
            },
    {
        let lines = split_lines(s);
        assert(lines@.skip(0).map_values(|l: String| l@) =~= split_on(s@, '\n'));
        match self.match_all(&lines, 0, true) {
            Err(l) => Err(QaError::NoAnswer(l)),
            Ok(ms) => Ok(Self::pack_matches(&ms)),
        }
    }
}

/// `Rng::gen_range(0..n)` on the thread's generator: an index below `n`,
/// drawn at random. It panics on an empty range, which `requires` rules out.
#[verifier::external_body]
fn random_below(n: usize) -> (r: usize)
    requires
        n > 0,
    ensures
        r < n,
{
    rand::thread_rng().gen_range(0..n)
}

/// Table indices, one for each line: each below 128.
pub open spec fn valid_choices(choices: Seq<usize>, n: nat) -> bool {
    &&& choices.len() == n
    &&& forall|k: int| 0 <= k < n ==> #[trigger] choices[k] < 128
}

/// `count` table indices drawn at random.
pub fn draw_choices(count: usize) -> (r: Vec<usize>)
    ensures
        valid_choices(r@, count as nat),
{
    let mut r: Vec<usize> = Vec::new();
    let mut i: usize = 0;
    while i < count
        invariant
            i <= count,
            valid_choices(r@, i as nat),
        decreases count - i,
    {
        let c = random_below(TOKEN_LEN);
        r.push(c);
        i = i + 1;
    }
    r
}

/// Bit `j` (0 the most significant) of `b`.
fn bit_at(b: u8, j: usize) -> (r: bool)
    requires
        j < 8,
    ensures
        r == byte_bit(b, j as nat),
{
    let k = (7 - j) as u8;
    let sh = b >> k;
    proof {
        vstd::bits::lemma_u8_shr_is_div(b, k);
        assert((7 - j) as nat == k as nat);
        assert(sh & 1 == sh % 2) by (bit_vector);
    }
    sh & 1 == 1
}

/// The table for a bit.
pub open spec fn bit_table(bit: bool) -> int {
    if bit { 1 } else { 0 }
}

impl QaData {
    /// The question lines that hide `d`: line `k` is the question at index
    /// `choices[k]` of the table for bit `k` of `d`.
    pub open spec fn question_lines(&self, d: Seq<u8>, choices: Seq<usize>) -> Seq<Seq<char>> {
        Seq::new(8 * d.len(), |k: int| self.question(bit_table(unpack_bits(d)[k]), choices[k] as int))
    }

    /// The question lines that hide `d`, joined by newlines.
    pub open spec fn questions_text(&self, d: Seq<u8>, choices: Seq<usize>) -> Seq<char> {
        join_with(self.question_lines(d, choices), '\n')
    }

    /// The question lines that hide `buf`, with the question for each bit
    /// taken at the given index of its table.
    pub fn bytes_to_questions_text_with(&self, buf: &[u8], choices: &[usize]) -> (r: String)
        requires
            self.well_formed(),
            valid_choices(choices@, 8 * buf@.len()),
        ensures
            r@ == self.questions_text(buf@, choices@),
    {
        let ghost lines = self.question_lines(buf@, choices@);
        let n = choices.len();
        let mut s = String::new();
        let mut i: usize = 0;
        while i < buf.len()
            invariant
                self.well_formed(),
                valid_choices(choices@, 8 * buf@.len()),
                lines == self.question_lines(buf@, choices@),
                n == 8 * buf@.len(),
                i <= buf@.len(),
                s@ == join_with(lines.take(8 * i), '\n'),
            decreases buf@.len() - i,
        {
            let b = buf[i];
            let mut j: usize = 0;
            while j < 8
                invariant
                    self.well_formed(),
                    valid_choices(choices@, 8 * buf@.len()),
                    lines == self.question_lines(buf@, choices@),
                    i < buf@.len(),
                    n == 8 * buf@.len(),
                    b == buf@[i as int],
                    j <= 8,
                    s@ == join_with(lines.take(8 * i + j), '\n'),
                decreases 8 - j,
            {
                let k = 8 * i + j;
                let bit = bit_at(b, j);
                let c = choices[k];
                let t: usize = if bit { 1 } else { 0 };
                let q = &self.qa_set[t][c].0;
                proof {
                    assert(k / 8 == i && k % 8 == j);
                    assert(unpack_bits(buf@)[k as int] == bit);
                    assert(lines[k as int] == q@);
                    assert(lines.take(k + 1).drop_last() =~= lines.take(k as int));
                    assert(lines.take(k + 1).last() == lines[k as int]);
                }
                if k > 0 {
                    string_push(&mut s, '\n');
                }
                string_push_str(&mut s, q.as_str());
                proof {
                    if k == 0 {
                        assert(lines.take(1) =~= seq![lines[0]]);
                        assert(s@ =~= lines[0]);
                    }
                }
                j = j + 1;
            }
            i = i + 1;
        }
        assert(lines.take(8 * buf@.len() as int) =~= lines);
        s
    }

    /// The question lines that hide `buf`, the question for each bit drawn
    /// at random from its table.
    pub fn bytes_to_questions_text(&self, buf: &[u8]) -> (r: String)
        requires
            self.well_formed(),
            8 * buf@.len() <= usize::MAX,
        ensures
            exists|choices: Seq<usize>| #[trigger] valid_choices(choices, 8 * buf@.len())
                && r@ == self.questions_text(buf@, choices),
    {
        let choices = draw_choices(8 * buf.len());
        let r = self.bytes_to_questions_text_with(buf, choices.as_slice());
        assert(valid_choices(choices@, 8 * buf@.len()));
        r
    }
}

/// Where the server's answers end and its questions begin.
pub open spec fn server_prompt() -> Seq<char> {
    "\nYou can also ask these questions:\n"@
}

/// The request the client sends: an HTTP POST whose body is `body`.
pub open spec fn client_message(body: Seq<char>) -> Seq<char> {
    "POST /ask HTTP/1.1\r\nHost: httpbin.org\r\nConnection: keep-alive\r\nContent-Length: "@
        + decimal(encode_utf8(body).len()) + "\r\nContent-Type: text/plain\r\n\r\n"@ + body
}

/// The response the server sends: an HTTP 200 whose body is `body`.
pub open spec fn server_message(body: Seq<char>) -> Seq<char> {
    "http/1.1 200 OK\r\nConnection: keep-alive\r\nContent-Type: text/plain\r\nContent-Length: "@
        + decimal(encode_utf8(body).len()) + "\r\n\r\n"@ + body
}

impl QaData {
    /// The body of a client request that hides `d`.
    pub open spec fn client_body(&self, d: Seq<u8>, choices: Seq<usize>) -> Seq<char> {
        "Questions:\n"@ + self.questions_text(d, choices)
    }

    /// The answer lines for the matched questions, joined by newlines.
    pub open spec fn answers_text(&self, ms: Seq<(bool, u8)>) -> Seq<char> {
        join_with(Seq::new(ms.len(), |k: int| self.answer(bit_table(ms[k].0), ms[k].1 as int)), '\n')
    }

    /// The body of a server response: the answers to the cached questions,
    /// the prompt, then the questions that hide `d`.
    pub open spec fn server_body(&self, ms: Seq<(bool, u8)>, d: Seq<u8>, choices: Seq<usize>) -> Seq<char> {
        self.answers_text(ms) + server_prompt() + self.questions_text(d, choices)
    }

    /// The answer lines for `ms`, joined by newlines.
    fn answers_string(&self, ms: &[(bool, u8)]) -> (r: String)
        requires
            self.well_formed(),
            forall|k: int| 0 <= k < ms@.len() ==> (#[trigger] ms@[k]).1 < 128,
        ensures
            r@ == self.answers_text(ms@),
    {
        let ghost lines = Seq::new(ms@.len(), |k: int| self.answer(bit_table(ms@[k].0), ms@[k].1 as int));
        let mut s = String::new();
        let mut k: usize = 0;
        while k < ms.len()
            invariant
                self.well_formed(),
                forall|j: int| 0 <= j < ms@.len() ==> (#[trigger] ms@[j]).1 < 128,
                lines == Seq::new(ms@.len(), |j: int| self.answer(bit_table(ms@[j].0), ms@[j].1 as int)),
                k <= ms@.len(),
                s@ == join_with(lines.take(k as int), '\n'),
            decreases ms@.len() - k,
        {
            let (bit, idx) = ms[k];
            let t: usize = if bit { 1 } else { 0 };
            let a = &self.qa_set[t][idx as usize].1;
            proof {
                assert(lines[k as int] == a@);
                assert(lines.take(k + 1).drop_last() =~= lines.take(k as int));
                assert(lines.take(k + 1).last() == lines[k as int]);
            }
            if k > 0 {
                string_push(&mut s, '\n');
            }
            string_push_str(&mut s, a.as_str());
            proof {
                if k == 0 {
                    assert(lines.take(1) =~= seq![lines[0]]);
                    assert(s@ =~= lines[0]);
                }
            }
            k = k + 1;
        }
        assert(lines.take(ms@.len() as int) =~= lines);
        s
    }

    /// Puts into `write_cache` the client request that hides `data`, with
    /// the given question for each bit; returns the length of its body.
    pub fn write_client_data_with(&self, data: &[u8], choices: &[usize], write_cache: &mut BytesMut) -> (n: usize)
        requires
            self.well_formed(),
            valid_choices(choices@, 8 * data@.len()),
        ensures
            n == encode_utf8(self.client_body(data@, choices@)).len(),
            bytes_of(*final(write_cache)) == encode_utf8(client_message(self.client_body(data@, choices@))),
    {
        let mut body = String::new();
        string_push_str(&mut body, "Questions:\n");
        let q = self.bytes_to_questions_text_with(data, choices);
        string_push_str(&mut body, q.as_str());
        let content_len = body.as_str().as_bytes().len();
        let mut m = String::new();
        string_push_str(&mut m, "POST /ask HTTP/1.1\r\nHost: httpbin.org\r\nConnection: keep-alive\r\nContent-Length: ");
        push_decimal(&mut m, content_len);
        string_push_str(&mut m, "\r\nContent-Type: text/plain\r\n\r\n");
        string_push_str(&mut m, body.as_str());
        *write_cache = buf_from_slice(m.as_str().as_bytes());
        content_len
    }

    /// Puts into `write_cache` the client request that hides `data`, the
    /// question for each bit drawn at random; returns the length of its body.
    pub fn write_client_data(&self, data: &[u8], write_cache: &mut BytesMut) -> (n: usize)
        requires
            self.well_formed(),
            8 * data@.len() <= usize::MAX,
        ensures
            exists|choices: Seq<usize>| #[trigger] valid_choices(choices, 8 * data@.len())
                && n == encode_utf8(self.client_body(data@, choices)).len()
                && bytes_of(*final(write_cache)) == encode_utf8(client_message(self.client_body(data@, choices))),
    {
        let choices = draw_choices(8 * data.len());
        let n = self.write_client_data_with(data, choices.as_slice(), write_cache);
        assert(valid_choices(choices@, 8 * data@.len()));
        n
    }

    /// Puts into `write_cache` the server response: the answers to
    /// `server_cached_answers`, then questions that hide `data`, with the
    /// given question for each bit; returns the length of its body.
    pub fn write_server_data_with(&self, data: &[u8], choices: &[usize], write_cache: &mut BytesMut, server_cached_answers: &[(bool, u8)]) -> (n: usize)
        requires
            self.well_formed(),
            valid_choices(choices@, 8 * data@.len()),
            forall|k: int| 0 <= k < server_cached_answers@.len() ==> (#[trigger] server_cached_answers@[k]).1 < 128,
        ensures
            n == encode_utf8(self.server_body(server_cached_answers@, data@, choices@)).len(),
            bytes_of(*final(write_cache)) == encode_utf8(server_message(self.server_body(server_cached_answers@, data@, choices@))),
    {
        let mut body = self.answers_string(server_cached_answers);
        string_push_str(&mut body, "\nYou can also ask these questions:\n");
        let q = self.bytes_to_questions_text_with(data, choices);
        string_push_str(&mut body, q.as_str());
        let content_len = body.as_str().as_bytes().len();
        let mut m = String::new();
        string_push_str(&mut m, "http/1.1 200 OK\r\nConnection: keep-alive\r\nContent-Type: text/plain\r\nContent-Length: ");
        push_decimal(&mut m, content_len);
        string_push_str(&mut m, "\r\n\r\n");
        string_push_str(&mut m, body.as_str());
        *write_cache = buf_from_slice(m.as_str().as_bytes());
        content_len
    }

    /// Puts into `write_cache` the server response, the question for each
    /// bit drawn at random; returns the length of its body.
    pub fn write_server_data(&self, data: &[u8], write_cache: &mut BytesMut, server_cached_answers: &[(bool, u8)]) -> (n: usize)
        requires
            self.well_formed(),
            8 * data@.len() <= usize::MAX,
            forall|k: int| 0 <= k < server_cached_answers@.len() ==> (#[trigger] server_cached_answers@[k]).1 < 128,
        ensures
            exists|choices: Seq<usize>| #[trigger] valid_choices(choices, 8 * data@.len())
                && n == encode_utf8(self.server_body(server_cached_answers@, data@, choices)).len()
                && bytes_of(*final(write_cache)) == encode_utf8(server_message(self.server_body(server_cached_answers@, data@, choices))),
    {
        let choices = draw_choices(8 * data.len());
        let n = self.write_server_data_with(data, choices.as_slice(), write_cache, server_cached_answers);
        assert(valid_choices(choices@, 8 * data@.len()));
        n
    }
}

/// Whether `pat` stands in `s` from index `i`.
pub open spec fn occurs_at(s: Seq<char>, pat: Seq<char>, i: int) -> bool {
    0 <= i && i + pat.len() <= s.len() && s.subrange(i, i + pat.len()) == pat
}

/// The first index from `i` on at which `pat` stands in `s`.
pub open spec fn first_occurrence(s: Seq<char>, pat: Seq<char>, i: int) -> Option<int>
    decreases s.len() + 1 - i,
{
    if i < 0 || i + pat.len() > s.len() {
        None
    } else if occurs_at(s, pat, i) {
        Some(i)
    } else {
        first_occurrence(s, pat, i + 1)
    }
}

/// `s` cut at the first occurrence of `pat`: what stands before it and
/// what follows it.
pub open spec fn split_once_spec(s: Seq<char>, pat: Seq<char>) -> Option<(Seq<char>, Seq<char>)> {
    match first_occurrence(s, pat, 0) {
        Some(i) => Some((s.take(i), s.skip(i + pat.len()))),
        None => None,
    }
}

/// Whether `cs[i..]` starts with `pat`.
fn matches_at(cs: &Vec<char>, pat: &Vec<char>, i: usize) -> (r: bool)
    requires
        i + pat@.len() <= cs@.len(),
    ensures
        r == occurs_at(cs@, pat@, i as int),
{
    let n = cs.len();
    let mut j: usize = 0;
    while j < pat.len()
        invariant
            n == cs@.len(),
            i + pat@.len() <= cs@.len(),
            j <= pat@.len(),
            forall|t: int| 0 <= t < j ==> cs@[i + t] == pat@[t],
        decreases pat@.len() - j,
    {
        if cs[i + j] != pat[j] {
            proof {
                assert(cs@.subrange(i as int, i + pat@.len())[j as int] != pat@[j as int]);
            }
            return false;
        }
        j = j + 1;
    }
    assert(cs@.subrange(i as int, i + pat@.len()) =~= pat@);
    true
}

/// A server response body cut at the prompt: the answers before it and
/// the questions after it.
pub fn server_response_to_2_parts(s: &str) -> (r: Option<(String, String)>)
    ensures
        match split_once_spec(s@, server_prompt()) {
            Some((a, b)) => r matches Some((x, y)) && x@ == a && y@ == b,
            None => r is None,
        },
{
    let cs = chars_of(s);
    let pat = chars_of("\nYou can also ask these questions:\n");
    let n = cs.len();
    let plen = pat.len();
    if plen > n {
        return None;
    }
    let mut i: usize = 0;
    while i <= n - plen
        invariant
            cs@ == s@,
            pat@ == server_prompt(),
            n == cs@.len(),
            plen == pat@.len(),
            plen <= n,
            i <= n - plen + 1,
            first_occurrence(s@, server_prompt(), 0) == first_occurrence(s@, server_prompt(), i as int),
        decreases n - i,
    {
        if matches_at(&cs, &pat, i) {
            let a = string_from_chars(&cs, 0, i);
            let b = string_from_chars(&cs, i + plen, n);
            proof {
                assert(a@ =~= s@.take(i as int));
                assert(b@ =~= s@.skip(i + plen));
            }
            return Some((a, b));
        }
        assert(plen > 0) by {
            if plen == 0 {
                assert(cs@.subrange(i as int, i as int) =~= pat@);
            }
        }
        i = i + 1;
    }
    None
}

impl QaData {
    /// No question holds a newline, and no question of the table for 1 is
    /// also a question of the table for 0: then question lines can be told
    /// apart and read back.
    pub open spec fn questions_decodable(&self) -> bool {
        &&& forall|b: int, i: int| 0 <= b < 2 && 0 <= i < 128 ==> !(#[trigger] self.question(b, i)).contains('\n')
        &&& forall|i: int, j: int| 0 <= i < 128 && 0 <= j < 128 ==> #[trigger] self.question(1, i) != #[trigger] self.question(0, j)
    }
}

/// A key at some index is found.
proof fn lemma_find_last_found(keys: Seq<Seq<char>>, s: Seq<char>, i: int)
    requires
        0 <= i < keys.len(),
        keys[i] == s,
    ensures
        find_last(keys, s) >= 0,
{
    lemma_find_last_range(keys, s);
    assert(keys.contains(s));
}

/// The first `k` question lines that hide `d` match, in order, the first
/// `k` bits of `d`.
proof fn lemma_match_question_prefix(q: &QaData, d: Seq<u8>, choices: Seq<usize>, k: int)
    requires
        q.well_formed(),
        q.questions_decodable(),
        valid_choices(choices, 8 * d.len()),
        0 <= k <= 8 * d.len(),
    ensures
        q.match_lines(q.question_lines(d, choices).take(k), false) matches Ok(ms)
            && bits_of(ms) == unpack_bits(d).take(k),
    decreases k,
{
    let lines = q.question_lines(d, choices);
    if k == 0 {
        assert(lines.take(0) =~= Seq::<Seq<char>>::empty());
        assert(bits_of(Seq::<(bool, u8)>::empty()) =~= unpack_bits(d).take(0));
    } else {
        let j = k - 1;
        lemma_match_question_prefix(q, d, choices, j);
        assert(lines.take(k).drop_last() =~= lines.take(j));
        let bit = unpack_bits(d)[j];
        let c = choices[j] as int;
        assert(c < 128);
        let line = lines[j];
        assert(line == q.question(bit_table(bit), c));
        assert(lines.take(k).last() == line);
        let k0 = q.keys(0, false);
        let k1 = q.keys(1, false);
        if bit {
            lemma_find_last_range(k0, line);
            if find_last(k0, line) >= 0 {
                let t = find_last(k0, line);
                assert(q.question(1, c) != q.question(0, t));
            }
            lemma_find_last_found(k1, line, c);
        } else {
            lemma_find_last_found(k0, line, c);
        }
        let ms = q.match_lines(lines.take(j), false)->Ok_0;
        let m = q.match_spec(line, false)->Some_0;
        assert(m.0 == bit);
        assert(q.match_lines(lines.take(k), false) == Ok::<Seq<(bool, u8)>, Seq<char>>(ms.push(m)));
        assert(bits_of(ms) == unpack_bits(d).take(j));
        assert(unpack_bits(d).len() == 8 * d.len());
        assert(unpack_bits(d).take(j).len() == j);
        assert(bits_of(ms).len() == ms.len());
        assert(ms.len() == j);
        assert forall|i: int| 0 <= i < k implies #[trigger] bits_of(ms.push(m))[i] == unpack_bits(d).take(k)[i] by {
            if i < j {
                assert(bits_of(ms.push(m))[i] == ms[i].0);
                assert(bits_of(ms)[i] == ms[i].0);
            }
        }
        assert(bits_of(ms.push(m)) =~= unpack_bits(d).take(k));
    }
}

/// Reading back the question lines that hide non-empty data gives the data
/// back, whichever question was picked for each bit.
pub proof fn lemma_questions_roundtrip(q: &QaData, d: Seq<u8>, choices: Seq<usize>)
    requires
        q.well_formed(),
        q.questions_decodable(),
        d.len() > 0,
        valid_choices(choices, 8 * d.len()),
    ensures
        q.match_lines(split_on(q.questions_text(d, choices), '\n'), false) matches Ok(ms)
            && pack_bits(bits_of(ms)) == d,
{
    let lines = q.question_lines(d, choices);
    assert forall|i: int| 0 <= i < lines.len() implies !(#[trigger] lines[i]).contains('\n') by {
        assert(choices[i] < 128);
    }
    lemma_split_join(lines, '\n');
    lemma_match_question_prefix(q, d, choices, 8 * d.len() as int);
    assert(lines.take(8 * d.len() as int) =~= lines);
    assert(unpack_bits(d).take(8 * d.len() as int) =~= unpack_bits(d));
    lemma_pack_unpack(d);
}

/// A first line without the separator, then the separator, then `t`:
/// splitting gives that line followed by the pieces of `t`.
pub(crate) proof fn lemma_split_first_line(p: Seq<char>, t: Seq<char>, sep: char)
    requires
        !p.contains(sep),
    ensures
        split_on(p.push(sep) + t, sep) == seq![p] + split_on(t, sep),
    decreases t.len(),
{
    let x = p.push(sep);
    if t.len() == 0 {
        assert(x + t =~= x);
        assert(x.drop_last() =~= p);
        crate::text::lemma_split_on_plain(p, sep);
        assert(split_on(t, sep) == seq![Seq::<char>::empty()]);
        assert(seq![p].push(Seq::<char>::empty()) =~= seq![p] + seq![Seq::<char>::empty()]);
    } else {
        let t0 = t.drop_last();
        lemma_split_first_line(p, t0, sep);
        assert((x + t).drop_last() =~= x + t0);
        assert((x + t).last() == t.last());
        lemma_split_on_nonempty(t0, sep);
        let r = split_on(t0, sep);
        if t.last() == sep {
            assert((seq![p] + r).push(Seq::<char>::empty()) =~= seq![p] + r.push(Seq::<char>::empty()));
        } else {
            let u = seq![p] + r;
            assert(u.last() == r.last());
            assert(u.update(u.len() - 1, u.last().push(t.last())) =~= seq![p] + r.update(r.len() - 1, r.last().push(t.last())));
        }
    }
}

/// The server reads back the data that a client request body hides.
pub proof fn lemma_client_body_roundtrip(q: &QaData, d: Seq<u8>, choices: Seq<usize>)
    requires
        q.well_formed(),
        q.questions_decodable(),
        d.len() > 0,
        valid_choices(choices, 8 * d.len()),
    ensures
        !QaData::header_missing(q.client_body(d, choices), true),
        q.match_lines(QaData::question_body(q.client_body(d, choices), true), false) matches Ok(ms)
            && pack_bits(bits_of(ms)) == d,
{
    reveal_strlit("Questions:\n");
    reveal_strlit("Questions:");
    let h = "Questions:"@;
    assert("Questions:\n"@ =~= h.push('\n'));
    assert(!h.contains('\n')) by {
        if h.contains('\n') {
            let k = choose|k: int| 0 <= k < h.len() && h[k] == '\n';
            assert(h[k] != '\n');
        }
    }
    let t = q.questions_text(d, choices);
    lemma_split_first_line(h, t, '\n');
    assert((seq![h] + split_on(t, '\n')).drop_first() =~= split_on(t, '\n'));
    lemma_questions_roundtrip(q, d, choices);
}

/// The first occurrence from `i` on is at `a` when `pat` stands at `a`
/// and nowhere in between.
proof fn lemma_first_occurrence_at(s: Seq<char>, pat: Seq<char>, i: int, a: int)
    requires
        0 <= i <= a,
        occurs_at(s, pat, a),
        forall|j: int| i <= j < a ==> !#[trigger] occurs_at(s, pat, j),
    ensures
        first_occurrence(s, pat, i) == Some(a),
    decreases a - i,
{
    if i < a {
        lemma_first_occurrence_at(s, pat, i + 1, a);
    }
}

/// Joining pieces that lack `c` with a separator other than `c` gives text
/// that lacks `c`.
proof fn lemma_join_lacks(ls: Seq<Seq<char>>, sep: char, c: char)
    requires
        sep != c,
        forall|i: int| 0 <= i < ls.len() ==> !(#[trigger] ls[i]).contains(c),
    ensures
        !join_with(ls, sep).contains(c),
    decreases ls.len(),
{
    if ls.len() > 1 {
        let init = ls.drop_last();
        assert forall|i: int| 0 <= i < init.len() implies !(#[trigger] init[i]).contains(c) by {
            assert(init[i] == ls[i]);
        }
        lemma_join_lacks(init, sep, c);
        let j = join_with(init, sep);
        let r = j.push(sep) + ls.last();
        assert(!ls[ls.len() - 1].contains(c));
        if r.contains(c) {
            let k = choose|k: int| 0 <= k < r.len() && r[k] == c;
            if k < j.len() {
                assert(j[k] == c);
            } else if k > j.len() {
                assert(ls.last()[k - j.len() - 1] == c);
            }
        }
    } else if ls.len() == 1 {
        assert(!ls[0].contains(c));
    }
}

impl QaData {
    /// No answer holds a colon.
    pub open spec fn answers_colon_free(&self) -> bool {
        forall|b: int, i: int| 0 <= b < 2 && 0 <= i < 128 ==> !(#[trigger] self.answer(b, i)).contains(':')
    }
}

/// Cutting a server response body at the prompt gives back the answers and
/// the question lines, when no answer holds a colon.
pub proof fn lemma_server_body_split(q: &QaData, ms: Seq<(bool, u8)>, d: Seq<u8>, choices: Seq<usize>)
    requires
        q.well_formed(),
        q.answers_colon_free(),
        forall|k: int| 0 <= k < ms.len() ==> (#[trigger] ms[k]).1 < 128,
    ensures
        split_once_spec(q.server_body(ms, d, choices), server_prompt())
            == Some((q.answers_text(ms), q.questions_text(d, choices))),
{
    let lines = Seq::new(ms.len(), |k: int| q.answer(bit_table(ms[k].0), ms[k].1 as int));
    assert forall|i: int| 0 <= i < lines.len() implies !(#[trigger] lines[i]).contains(':') by {
        assert(ms[i].1 < 128);
    }
    lemma_join_lacks(lines, '\n', ':');
    let a = q.answers_text(ms);
    let p = server_prompt();
    let t = q.questions_text(d, choices);
    let body = a + p + t;
    reveal_strlit("\nYou can also ask these questions:\n");
    assert(p.len() == 35);
    assert(p[33] == ':');
    assert forall|m: int| 0 <= m < 33 implies p[m] != ':' by {}
    assert forall|j: int| 0 <= j < a.len() implies !#[trigger] occurs_at(body, p, j) by {
        if occurs_at(body, p, j) {
            assert(body.subrange(j, j + 35)[33] == p[33]);
            assert(body[j + 33] == ':');
            if j + 33 < a.len() {
                assert(a[j + 33] == ':');
            } else {
                assert(body[j + 33] == p[j + 33 - a.len()]);
            }
        }
    }
    assert(body.subrange(a.len() as int, a.len() as int + 35) =~= p);
    lemma_first_occurrence_at(body, p, 0, a.len() as int);
    assert(body.take(a.len() as int) =~= a);
    assert(body.skip(a.len() as int + 35) =~= t);
}

/// How far the connection is through writing its current message.
pub enum WriteState {
    /// No message is under way: the next write builds a new one.
    ReadyForNew,
    /// A message is under way; this many of its bytes are written.
    Previous(usize),
}

/// What a write to the underlying stream leads to.
pub enum WriteProgress {
    /// Part of the message is left: write the rest.
    Continue,
    /// The whole message is written: report this many bytes taken.
    Done(usize),
    /// The stream claims more bytes than were left: (claimed, left).
    LengthMismatch(usize, usize),
}

/// The protocol state of one spe1 connection: the side it plays, the
/// answers owed for the last questions read, and the message being written.
pub struct ConnState {
    pub is_server: bool,
    pub server_cached_answers: Vec<(bool, u8)>,
    pub write_cache: BytesMut,
    pub write_state: WriteState,
}

impl ConnState {
    /// The bytes of the message under way.
    pub open spec fn message(&self) -> Seq<u8> {
        bytes_of(self.write_cache)
    }

    /// How many bytes of the message are written.
    pub open spec fn written(&self) -> nat {
        match self.write_state {
            WriteState::ReadyForNew => 0,
            WriteState::Previous(h) => h as nat,
        }
    }

    /// Whether a message is under way.
    pub open spec fn in_progress(&self) -> bool {
        self.write_state is Previous
    }

    /// The bytes still to be written.
    pub open spec fn pending(&self) -> Seq<u8> {
        self.message().skip(self.written() as int)
    }

    /// A message under way has bytes left; every cached answer index lies in a table.
    pub open spec fn well_formed(&self) -> bool {
        &&& self.written() <= self.message().len()
        &&& self.in_progress() ==> self.written() < self.message().len()
        &&& forall|k: int| 0 <= k < self.server_cached_answers@.len() ==> (#[trigger] self.server_cached_answers@[k]).1 < 128
    }

    /// A connection with nothing read and nothing under way.
    pub fn new(is_server: bool) -> (c: ConnState)
        ensures
            c.well_formed(),
            c.is_server == is_server,
            c.server_cached_answers@ == Seq::<(bool, u8)>::empty(),
            !c.in_progress(),
    {
        ConnState {
            is_server,
            server_cached_answers: Vec::new(),
            write_cache: crate::buf::buf_new(),
            write_state: WriteState::ReadyForNew,
        }
    }

    /// Whether a message is under way.
    pub fn is_writing(&self) -> (r: bool)
        ensures
            r == self.in_progress(),
    {
        match self.write_state {
            WriteState::ReadyForNew => false,
            WriteState::Previous(_) => true,
        }
    }

    /// The message under way, and how many of its bytes are written: the
    /// stream is to be given the bytes from that index on.
    pub fn to_write(&self) -> (r: (&BytesMut, usize))
        requires
            self.well_formed(),
        ensures
            bytes_of(*r.0) == self.message(),
            r.1 == self.written(),
            r.1 <= self.message().len(),
    {
        let h = match self.write_state {
            WriteState::ReadyForNew => 0,
            WriteState::Previous(h) => h,
        };
        (&self.write_cache, h)
    }

    /// Builds the next message, hiding `buf`: a request on the client, a
    /// response with the owed answers on the server.
    pub fn start_write_with(&mut self, qa: &QaData, buf: &[u8], choices: &[usize])
        requires
            old(self).well_formed(),
            !old(self).in_progress(),
            qa.well_formed(),
            valid_choices(choices@, 8 * buf@.len()),
        ensures
            final(self).well_formed(),
            !final(self).in_progress(),
            final(self).is_server == old(self).is_server,
            final(self).server_cached_answers == old(self).server_cached_answers,
            old(self).is_server ==> final(self).message() == encode_utf8(
                server_message(qa.server_body(old(self).server_cached_answers@, buf@, choices@)),
            ),
            !old(self).is_server ==> final(self).message() == encode_utf8(
                client_message(qa.client_body(buf@, choices@)),
            ),
    {
        if self.is_server {
            qa.write_server_data_with(buf, choices, &mut self.write_cache, self.server_cached_answers.as_slice());
        } else {
            qa.write_client_data_with(buf, choices, &mut self.write_cache);
        }
    }

    /// Builds the next message, the question for each bit drawn at random.
    pub fn start_write(&mut self, qa: &QaData, buf: &[u8])
        requires
            old(self).well_formed(),
            !old(self).in_progress(),
            qa.well_formed(),
            8 * buf@.len() <= usize::MAX,
        ensures
            final(self).well_formed(),
            !final(self).in_progress(),
            final(self).is_server == old(self).is_server,
            final(self).server_cached_answers == old(self).server_cached_answers,
            exists|choices: Seq<usize>| #[trigger] valid_choices(choices, 8 * buf@.len()) && (
                if old(self).is_server {
                    final(self).message() == encode_utf8(
                        server_message(qa.server_body(old(self).server_cached_answers@, buf@, choices)))
                } else {
                    final(self).message() == encode_utf8(client_message(qa.client_body(buf@, choices)))
                }),
    {
        let choices = draw_choices(8 * buf.len());
        self.start_write_with(qa, buf, choices.as_slice());
        assert(valid_choices(choices@, 8 * buf@.len()));
    }

    /// The stream took `n` of the pending bytes of a write of `buf_len`
    /// bytes: the rest stays pending, or the message is done and the write
    /// reports `buf_len`; a claim of more bytes than were pending is an
    /// error and drops the message.
    pub fn on_written(&mut self, n: usize, buf_len: usize) -> (r: WriteProgress)
        requires
            old(self).well_formed(),
        ensures
            final(self).well_formed(),
            final(self).message() == old(self).message(),
            final(self).is_server == old(self).is_server,
            final(self).server_cached_answers == old(self).server_cached_answers,
            n < old(self).pending().len() ==> r is Continue && final(self).in_progress()
                && old(self).pending().take(n as int) + final(self).pending() == old(self).pending(),
            n == old(self).pending().len() ==> r == WriteProgress::Done(buf_len) && !final(self).in_progress(),
            n > old(self).pending().len() ==> r == WriteProgress::LengthMismatch(n, old(self).pending().len() as usize)
                && !final(self).in_progress(),
    {
        let h = match self.write_state {
            WriteState::ReadyForNew => 0,
            WriteState::Previous(h) => h,
        };
        let len = crate::buf::buf_len(&self.write_cache);
        let left = len - h;
        if n < left {
            self.write_state = WriteState::Previous(h + n);
            proof {
                let p = old(self).pending();
                assert(p.take(n as int) + self.pending() =~= p);
            }
            WriteProgress::Continue
        } else if n == left {
            self.write_state = WriteState::ReadyForNew;
            WriteProgress::Done(buf_len)
        } else {
            self.write_state = WriteState::ReadyForNew;
            WriteProgress::LengthMismatch(n, left)
        }
    }

    /// The stream failed: the message under way is dropped.
    pub fn on_write_error(&mut self)
        requires
            old(self).well_formed(),
        ensures
            final(self).well_formed(),
            !final(self).in_progress(),
            final(self).message() == old(self).message(),
            final(self).is_server == old(self).is_server,
            final(self).server_cached_answers == old(self).server_cached_answers,
    {
        self.write_state = WriteState::ReadyForNew;
    }
}

/// The text `String::from_utf8_lossy` reads from `b`: invalid sequences
/// replaced by U+FFFD.
pub uninterp spec fn utf8_lossy_text(b: Seq<u8>) -> Seq<char>;

/// `String::from_utf8_lossy`, made owned: the text is named; valid UTF-8
/// is decoded as it is.
#[verifier::external_body]
fn utf8_lossy(b: &[u8]) -> (s: String)
    ensures
        s@ == utf8_lossy_text(b@),
        vstd::utf8::valid_utf8(b@) ==> s@ == vstd::utf8::decode_utf8(b@),
{
    String::from_utf8_lossy(b).into_owned()
}

/// What reading a message body comes to.
pub enum ReadOutcome {
    /// The hidden bytes, and on the server the answers now owed.
    Data(Seq<u8>, Option<Seq<(bool, u8)>>),
    /// The request lacks its header line.
    NoHeader,
    /// The response lacks the prompt before its questions.
    NoPrompt,
    /// A line that is none of the questions.
    NoQuestion(Seq<char>),
}

/// Reading the body `text` of a request (on the server) or of a response
/// (on the client).
pub open spec fn read_outcome(qa: &QaData, is_server: bool, text: Seq<char>) -> ReadOutcome {
    if is_server {
        if QaData::header_missing(text, true) {
            ReadOutcome::NoHeader
        } else {
            match qa.match_lines(QaData::question_body(text, true), false) {
                Ok(ms) => ReadOutcome::Data(pack_bits(bits_of(ms)), Some(ms)),
                Err(l) => ReadOutcome::NoQuestion(l),
            }
        }
    } else {
        match split_once_spec(text, server_prompt()) {
            None => ReadOutcome::NoPrompt,
            Some((_, t)) => match qa.match_lines(split_on(t, '\n'), false) {
                Ok(ms) => ReadOutcome::Data(pack_bits(bits_of(ms)), None),
                Err(l) => ReadOutcome::NoQuestion(l),
            },
        }
    }
}

/// Whether a read returned `o`, and left the owed answers as `o` says.
pub open spec fn read_returned(r: Result<BytesMut, QaError>, o: ReadOutcome, before: Seq<(bool, u8)>, after: Seq<(bool, u8)>) -> bool {
    match o {
        ReadOutcome::Data(d, owed) => r matches Ok(b) && bytes_of(b) == d && after == (match owed {
            Some(ms) => ms,
            None => before,
        }),
        ReadOutcome::NoHeader => r matches Err(QaError::NoHeader) && after == before,
        ReadOutcome::NoPrompt => r matches Err(QaError::NoPrompt) && after == before,
        ReadOutcome::NoQuestion(l) => r matches Err(QaError::NoQuestion(e)) && e@ == l && after == before,
    }
}

/// Matched lines name table indices below 128.
proof fn lemma_match_lines_indices(q: &QaData, lines: Seq<Seq<char>>, answers: bool)
    requires
        q.well_formed(),
    ensures
        q.match_lines(lines, answers) matches Ok(ms) ==> forall|k: int| 0 <= k < ms.len() ==> (#[trigger] ms[k]).1 < 128,
    decreases lines.len(),
{
    if lines.len() > 0 {
        lemma_match_lines_indices(q, lines.drop_last(), answers);
        lemma_find_last_range(q.keys(0, answers), lines.last());
        lemma_find_last_range(q.keys(1, answers), lines.last());
    }
}

impl ConnState {
    /// Reads back the bytes hidden in a message body: on the server, the
    /// questions of a request, whose answers are then owed; on the client,
    /// the questions after the prompt of a response (a response without the
    /// prompt is an error).
    pub fn real_read_text(&mut self, qa: &QaData, text: &str) -> (r: Result<BytesMut, QaError>)
        requires
            old(self).well_formed(),
            qa.well_formed(),
        ensures
            final(self).well_formed(),
            final(self).is_server == old(self).is_server,
            final(self).write_cache == old(self).write_cache,
            final(self).write_state == old(self).write_state,
            read_returned(r, read_outcome(qa, old(self).is_server, text@),
                old(self).server_cached_answers@, final(self).server_cached_answers@),
    {
        if self.is_server {
            proof {
                lemma_match_lines_indices(qa, QaData::question_body(text@, true), false);
            }
            match qa.questions_to_bytes(text, true, true) {
                Ok((b, owed)) => {
                    match owed {
                        Some(v) => {
                            self.server_cached_answers = v;
                        },
                        None => {},
                    }
                    Ok(b)
                },
                Err(e) => Err(e),
            }
        } else {
            match server_response_to_2_parts(text) {
                None => Err(QaError::NoPrompt),
                Some((_, questions)) => {
                    match qa.questions_to_bytes(questions.as_str(), false, false) {
                        Ok((b, _)) => Ok(b),
                        Err(e) => Err(e),
                    }
                },
            }
        }
    }

    /// Reads back the bytes hidden in a message body given as bytes, which
    /// are taken as UTF-8 (invalid sequences replaced).
    pub fn real_read(&mut self, qa: &QaData, body: &[u8]) -> (r: Result<BytesMut, QaError>)
        requires
            old(self).well_formed(),
            qa.well_formed(),
        ensures
            final(self).well_formed(),
            final(self).is_server == old(self).is_server,
            final(self).write_cache == old(self).write_cache,
            final(self).write_state == old(self).write_state,
            read_returned(r, read_outcome(qa, old(self).is_server, utf8_lossy_text(body@)),
                old(self).server_cached_answers@, final(self).server_cached_answers@),
            vstd::utf8::valid_utf8(body@) ==> read_returned(r,
                read_outcome(qa, old(self).is_server, vstd::utf8::decode_utf8(body@)),
                old(self).server_cached_answers@, final(self).server_cached_answers@),
    {
        let text = utf8_lossy(body);
        self.real_read_text(qa, text.as_str())
    }
}

/// What one side writes, the other side reads back: the server reads the
/// data hidden in a client request body, and the client reads the data
/// hidden in a server response body, whatever questions were drawn.
pub proof fn lemma_conn_roundtrip(qa: &QaData, d: Seq<u8>, choices: Seq<usize>, owed: Seq<(bool, u8)>)
    requires
        qa.well_formed(),
        qa.questions_decodable(),
        qa.answers_colon_free(),
        d.len() > 0,
        valid_choices(choices, 8 * d.len()),
        forall|k: int| 0 <= k < owed.len() ==> (#[trigger] owed[k]).1 < 128,
    ensures
        read_outcome(qa, true, qa.client_body(d, choices)) matches ReadOutcome::Data(x, Some(_)) && x == d,
        read_outcome(qa, false, qa.server_body(owed, d, choices)) matches ReadOutcome::Data(y, None) && y == d,
{
    lemma_client_body_roundtrip(qa, d, choices);
    lemma_server_body_split(qa, owed, d, choices);
    lemma_questions_roundtrip(qa, d, choices);
}

} // verus!
