//! Traffic records: the timed pieces of data sent up and down a
//! connection, and the simplified form of a record kept for training
//! data, with its truncation rules.

use vstd::prelude::*;
use crate::text::{decimal, push_decimal, string_push_str};

verus! {

broadcast use vstd::string::group_string_axioms;

/// Which end of a proxy chain a mapper plays.
#[derive(Debug, Clone, Copy, PartialEq, Eq, Default)]
pub enum ProxyBehavior {
    #[default]
    UNSPECIFIED,
    ENCODE,
    DECODE,
}

/// The direction mark of uploaded data.
pub const UPLOAD: i8 = 1;
/// The direction mark of downloaded data.
pub const DOWNLOAD: i8 = -1;

/// The bytes of one read or write, with the peer address for datagrams.
#[derive(Debug, Clone)]
pub enum PayloadData {
    Pure(Vec<u8>),
    Addr(String, Vec<u8>),
}

/// One read or write and when it happened, in nanoseconds since the
/// connection started.
#[derive(Debug, Clone)]
pub struct DataPiece {
    pub nanos_since_start: u128,
    pub data: PayloadData,
}

/// The run-wide data kept with a record; the start time is seconds and
/// nanoseconds since the Unix epoch.
#[derive(Debug, Clone, Copy, Default)]
pub struct SerializableGlobalData {
    pub run_instance_id: u32,
    pub instance_start_time: Option<(i64, u32)>,
    pub read_handshake_timeout: Option<u64>,
}

/// The full record of one connection.
#[derive(Debug, Clone, Default)]
pub struct Record {
    pub cid: String,
    pub behavior: ProxyBehavior,
    /// A mark chosen by the user.
    pub label: Option<String>,
    pub file_prefix: Option<String>,
    pub serialize_format: Option<String>,
    pub full_record: Option<bool>,
    pub no_truncate: Option<bool>,
    pub piece_truncate: Option<usize>,
    pub session_truncate: Option<usize>,
    pub global_data: Option<SerializableGlobalData>,
    pub upload_data: Vec<DataPiece>,
    pub download_data: Vec<DataPiece>,
}

/// A record reduced to its data, in time order, each piece marked `1` for
/// upload and `-1` for download.
#[derive(Debug, Clone, Default)]
pub struct SimplifiedRecordData {
    pub label: Option<String>,
    pub data: Vec<(i8, Vec<u8>)>,
}

/// The bytes of a piece.
pub open spec fn piece_bytes(p: DataPiece) -> Seq<u8> {
    match p.data {
        PayloadData::Pure(d) => d@,
        PayloadData::Addr(_, d) => d@,
    }
}

/// An entry while simplifying: direction, time, bytes.
pub type Entry = (i8, u128, Vec<u8>);

/// An entry as values.
pub open spec fn entry_view(e: Entry) -> (i8, u128, Seq<u8>) {
    (e.0, e.1, e.2@)
}

/// The entries for `ps`, marked `dir`, each cut to `limit` bytes when `cut`.
pub open spec fn tagged(ps: Seq<DataPiece>, dir: i8, cut: bool, limit: nat) -> Seq<(i8, u128, Seq<u8>)> {
    Seq::new(ps.len(), |i: int| (dir, ps[i].nanos_since_start,
        if cut && piece_bytes(ps[i]).len() > limit { piece_bytes(ps[i]).take(limit as int) } else { piece_bytes(ps[i]) }))
}

/// The index of the first entry from `i` on that is later than `t`, or the length.
pub open spec fn first_later(s: Seq<(i8, u128, Seq<u8>)>, t: u128, i: int) -> int
    decreases s.len() - i,
{
    if i < 0 || i >= s.len() {
        s.len() as int
    } else if s[i].1 > t {
        i
    } else {
        first_later(s, t, i + 1)
    }
}

/// `x` put after every entry of `s` that is not later than it.
pub open spec fn insert_by_time(s: Seq<(i8, u128, Seq<u8>)>, x: (i8, u128, Seq<u8>)) -> Seq<(i8, u128, Seq<u8>)> {
    let p = first_later(s, x.1, 0);
    s.take(p) + seq![x] + s.skip(p)
}

/// The entries in time order; entries of equal time keep their order.
pub open spec fn sort_by_time(s: Seq<(i8, u128, Seq<u8>)>) -> Seq<(i8, u128, Seq<u8>)>
    decreases s.len(),
{
    if s.len() == 0 {
        s
    } else {
        insert_by_time(sort_by_time(s.drop_last()), s.last())
    }
}

/// Walking the entries from `i` with `sum` bytes seen: the index of the
/// first entry that takes the total past `budget`; the length when none
/// does, so that every entry is kept.
pub open spec fn session_cut(s: Seq<(i8, u128, Seq<u8>)>, budget: nat, i: int, sum: nat) -> int
    decreases s.len() - i,
{
    if i < 0 || i >= s.len() {
        s.len() as int
    } else if sum + s[i].2.len() > budget {
        i
    } else {
        session_cut(s, budget, i + 1, sum + s[i].2.len())
    }
}

impl Record {
    /// Whether pieces and sessions are cut.
    pub open spec fn cuts(&self) -> bool {
        !(self.no_truncate matches Some(true))
    }

    /// The most bytes kept of one piece.
    pub open spec fn piece_limit(&self) -> nat {
        match self.piece_truncate { Some(n) => n as nat, None => 1500 }
    }

    /// The most bytes kept of the whole session.
    pub open spec fn session_limit(&self) -> nat {
        match self.session_truncate { Some(n) => n as nat, None => 3000 }
    }

    /// The simplified data of the record: download then upload entries,
    /// pieces cut, sorted by time, and, when cutting, only the entries
    /// before the cut index.
    pub open spec fn simplified(&self) -> Seq<(i8, Seq<u8>)> {
        let all = sort_by_time(
            tagged(self.download_data@, -1i8, self.cuts(), self.piece_limit())
                + tagged(self.upload_data@, 1i8, self.cuts(), self.piece_limit()),
        );
        let kept = if self.cuts() { all.take(session_cut(all, self.session_limit(), 0, 0)) } else { all };
        kept.map_values(|e: (i8, u128, Seq<u8>)| (e.0, e.2))
    }
}

/// The entries for `ps`, marked `dir`, each cut to `limit` bytes when `cut`.
fn tag_pieces(ps: Vec<DataPiece>, dir: i8, cut: bool, limit: usize, out: &mut Vec<Entry>)
    ensures
        final(out)@.map_values(|e: Entry| entry_view(e))
            == old(out)@.map_values(|e: Entry| entry_view(e)) + tagged(ps@, dir, cut, limit as nat),
{
    let ghost start = old(out)@.map_values(|e: Entry| entry_view(e));
    let ghost want = tagged(ps@, dir, cut, limit as nat);
    let mut i: usize = 0;
    while i < ps.len()
        invariant
            i <= ps@.len(),
            want == tagged(ps@, dir, cut, limit as nat),
            out@.map_values(|e: Entry| entry_view(e)) == start + want.take(i as int),
        decreases ps@.len() - i,
    {
        let p = &ps[i];
        let mut d = match &p.data {
            PayloadData::Pure(d) => d.clone(),
            PayloadData::Addr(_, d) => d.clone(),
        };
        assert(d@ == piece_bytes(ps@[i as int]));
        if cut {
            d.truncate(limit);
        }
        let ghost before = out@.map_values(|e: Entry| entry_view(e));
        out.push((dir, p.nanos_since_start, d));
        proof {
            assert(entry_view((dir, p.nanos_since_start, d)) == want[i as int]) by {
                if cut && piece_bytes(ps@[i as int]).len() > limit {
                    assert(d@ =~= piece_bytes(ps@[i as int]).take(limit as int));
                }
            }
            assert(out@.map_values(|e: Entry| entry_view(e)) =~= before.push(want[i as int]));
            assert(want.take(i + 1) =~= want.take(i as int).push(want[i as int]));
        }
        i = i + 1;
    }
    assert(want.take(ps@.len() as int) =~= want);
}

/// The entries sorted by time, entries of equal time in their given order.
fn sort_entries(a: Vec<Entry>) -> (r: Vec<Entry>)
    ensures
        r@.map_values(|e: Entry| entry_view(e)) == sort_by_time(a@.map_values(|e: Entry| entry_view(e))),
{
    let ghost av = a@.map_values(|e: Entry| entry_view(e));
    let mut r: Vec<Entry> = Vec::new();
    let mut rest = a;
    let ghost mut k: int = 0;
    assert(av.take(0) =~= Seq::<(i8, u128, Seq<u8>)>::empty());
    while rest.len() > 0
        invariant
            0 <= k <= av.len(),
            rest@.map_values(|e: Entry| entry_view(e)) == av.skip(k),
            r@.map_values(|e: Entry| entry_view(e)) == sort_by_time(av.take(k)),
        decreases rest@.len(),
    {
        let ghost rv = r@.map_values(|e: Entry| entry_view(e));
        let ghost rest_before = rest@;
        assert(rest@.map_values(|e: Entry| entry_view(e)).len() == rest@.len());
        assert(k < av.len());
        let x = rest.remove(0);
        proof {
            assert(rest@ =~= rest_before.skip(1));
            assert(av.skip(k)[0] == entry_view(x));
            assert forall|j: int| 0 <= j < rest@.len() implies
                #[trigger] entry_view(rest@[j]) == av.skip(k + 1)[j] by {
                assert(rest_before.map_values(|e: Entry| entry_view(e))[j + 1] == av.skip(k)[j + 1]);
            }
            assert(rest@.map_values(|e: Entry| entry_view(e)) =~= av.skip(k + 1));
        }
        let t = x.1;
        let mut p: usize = 0;
        while p < r.len() && r[p].1 <= t
            invariant
                p <= r@.len(),
                rv == r@.map_values(|e: Entry| entry_view(e)),
                first_later(rv, t, 0) == first_later(rv, t, p as int),
            decreases r@.len() - p,
        {
            p = p + 1;
        }
        proof {
            if p < r@.len() {
                assert(rv[p as int].1 > t);
            }
            assert(first_later(rv, t, p as int) == p);
            assert(av.take(k + 1).drop_last() =~= av.take(k));
            assert(av.take(k + 1).last() == entry_view(x));
        }
        r.insert(p, x);
        proof {
            assert(r@.map_values(|e: Entry| entry_view(e)) =~= rv.take(p as int) + seq![entry_view(x)] + rv.skip(p as int));
            k = k + 1;
        }
    }
    proof {
        assert(av.skip(k).len() == 0);
        assert(av.take(k) =~= av);
    }
    r
}

/// The index before which the sorted entries are kept: the first entry
/// that takes the total past `budget`, else the number of entries.
fn cut_index(s: &Vec<Entry>, budget: usize) -> (r: usize)
    ensures
        r == session_cut(s@.map_values(|e: Entry| entry_view(e)), budget as nat, 0, 0),
{
    let ghost sv = s@.map_values(|e: Entry| entry_view(e));
    let mut sum: usize = 0;
    let mut i: usize = 0;
    while i < s.len()
        invariant
            sv == s@.map_values(|e: Entry| entry_view(e)),
            i <= s@.len(),
            sum <= budget,
            session_cut(sv, budget as nat, 0, 0) == session_cut(sv, budget as nat, i as int, sum as nat),
        decreases s@.len() - i,
    {
        let len = s[i].2.len();
        assert(sv[i as int].2.len() == len);
        if len > budget - sum {
            return i;
        }
        sum = sum + len;
        i = i + 1;
    }
    i
}

impl SimplifiedRecordData {
    /// The simplified data of `d`, taking its upload and download pieces out
    /// of it: pieces are cut to the piece limit (1500 bytes unless set)
    /// and, in time order, only the entries before the one that takes the
    /// total past the session limit (3000 unless set) are kept; nothing is
    /// cut when `no_truncate` is set.
    pub fn from(d: &mut Record) -> (r: SimplifiedRecordData)
        ensures
            r.label == old(d).label,
            r.data@.map_values(|e: (i8, Vec<u8>)| (e.0, e.1@)) == old(d).simplified(),
            final(d).upload_data@.len() == 0,
            final(d).download_data@.len() == 0,
            same_but_pieces(*final(d), *old(d)),
    {
        let piece_limit = match d.piece_truncate { Some(n) => n, None => 1500 };
        let session_limit = match d.session_truncate { Some(n) => n, None => 3000 };
        let cut = match d.no_truncate { Some(b) => !b, None => true };
        let mut dd: Vec<DataPiece> = Vec::new();
        std::mem::swap(&mut d.download_data, &mut dd);
        let mut ud: Vec<DataPiece> = Vec::new();
        std::mem::swap(&mut d.upload_data, &mut ud);
        let mut a: Vec<Entry> = Vec::new();
        tag_pieces(dd, -1, cut, piece_limit, &mut a);
        tag_pieces(ud, 1, cut, piece_limit, &mut a);
        proof {
            assert(a@.map_values(|e: Entry| entry_view(e)) =~=
                tagged(old(d).download_data@, -1i8, old(d).cuts(), old(d).piece_limit())
                + tagged(old(d).upload_data@, 1i8, old(d).cuts(), old(d).piece_limit()));
        }
        let mut sorted = sort_entries(a);
        let ghost all = sorted@.map_values(|e: Entry| entry_view(e));
        if cut {
            let last = cut_index(&sorted, session_limit);
            proof {
                crate::recorder::lemma_session_cut_range(all, session_limit as nat, 0, 0);
            }
            sorted.truncate(last);
            assert(sorted@.map_values(|e: Entry| entry_view(e)) =~= all.take(last as int));
        }
        let ghost kept = sorted@.map_values(|e: Entry| entry_view(e));
        let mut data: Vec<(i8, Vec<u8>)> = Vec::new();
        let ghost mut i: int = 0;
        while sorted.len() > 0
            invariant
                0 <= i <= kept.len(),
                sorted@.map_values(|e: Entry| entry_view(e)) == kept.skip(i),
                data@.map_values(|e: (i8, Vec<u8>)| (e.0, e.1@))
                    == kept.take(i).map_values(|e: (i8, u128, Seq<u8>)| (e.0, e.2)),
            decreases sorted@.len(),
        {
            let ghost before = data@.map_values(|e: (i8, Vec<u8>)| (e.0, e.1@));
            let ghost sorted_before = sorted@;
            assert(sorted@.map_values(|e: Entry| entry_view(e)).len() == sorted@.len());
            assert(i < kept.len());
            let e = sorted.remove(0);
            proof {
                assert(sorted@ =~= sorted_before.skip(1));
                assert(kept.skip(i)[0] == entry_view(e));
                assert(kept[i] == entry_view(e));
                assert forall|j: int| 0 <= j < sorted@.len() implies
                    #[trigger] entry_view(sorted@[j]) == kept.skip(i + 1)[j] by {
                    assert(sorted_before.map_values(|e: Entry| entry_view(e))[j + 1] == kept.skip(i)[j + 1]);
                }
                assert(sorted@.map_values(|e: Entry| entry_view(e)) =~= kept.skip(i + 1));
            }
            data.push((e.0, e.2));
            proof {
                assert(data@.map_values(|e: (i8, Vec<u8>)| (e.0, e.1@)) =~= before.push((e.0, e.2@)));
                assert(kept.take(i + 1).map_values(|e: (i8, u128, Seq<u8>)| (e.0, e.2))
                    =~= kept.take(i).map_values(|e: (i8, u128, Seq<u8>)| (e.0, e.2)).push((e.0, e.2@)));
                i = i + 1;
            }
        }
        proof {
            assert(kept.skip(i).len() == 0);
            assert(kept.take(i) =~= kept);
        }
        SimplifiedRecordData { label: d.label.clone(), data }
    }
}

/// The cut index lies within the entries.
proof fn lemma_session_cut_range(s: Seq<(i8, u128, Seq<u8>)>, budget: nat, i: int, sum: nat)
    requires
        0 <= i,
    ensures
        0 <= session_cut(s, budget, i, sum) <= s.len(),
    decreases s.len() - i,
{
    if i < s.len() && sum + s[i].2.len() <= budget {
        lemma_session_cut_range(s, budget, i + 1, sum + s[i].2.len());
    }
}

/// The total number of bytes of the entries.
pub open spec fn total_bytes(s: Seq<(i8, Seq<u8>)>) -> nat
    decreases s.len(),
{
    if s.len() == 0 { 0 } else { total_bytes(s.drop_last()) + s.last().1.len() }
}

/// The total number of bytes of the first `i` timed entries.
pub open spec fn prefix_bytes(s: Seq<(i8, u128, Seq<u8>)>, i: int) -> nat
    decreases i,
{
    if i <= 0 || i > s.len() { 0 } else { prefix_bytes(s, i - 1) + s[i - 1].2.len() }
}

proof fn lemma_session_cut_within(s: Seq<(i8, u128, Seq<u8>)>, budget: nat, i: int, sum: nat)
    requires
        0 <= i <= s.len(),
        sum == prefix_bytes(s, i),
        sum <= budget,
    ensures
        prefix_bytes(s, session_cut(s, budget, i, sum)) <= budget,
        i <= session_cut(s, budget, i, sum),
    decreases s.len() - i,
{
    if i < s.len() && sum + s[i].2.len() <= budget {
        lemma_session_cut_within(s, budget, i + 1, sum + s[i].2.len());
    }
}

proof fn lemma_total_bytes_take(s: Seq<(i8, u128, Seq<u8>)>, k: int)
    requires
        0 <= k <= s.len(),
    ensures
        total_bytes(s.take(k).map_values(|e: (i8, u128, Seq<u8>)| (e.0, e.2))) == prefix_bytes(s, k),
    decreases k,
{
    if k > 0 {
        lemma_total_bytes_take(s, k - 1);
        let m = s.take(k).map_values(|e: (i8, u128, Seq<u8>)| (e.0, e.2));
        assert(m.drop_last() =~= s.take(k - 1).map_values(|e: (i8, u128, Seq<u8>)| (e.0, e.2)));
    }
}

/// Sorting by time only reorders: every entry comes from the input.
proof fn lemma_sort_members(s: Seq<(i8, u128, Seq<u8>)>)
    ensures
        sort_by_time(s).len() == s.len(),
        forall|k: int| 0 <= k < s.len() ==> s.contains(#[trigger] sort_by_time(s)[k]),
    decreases s.len(),
{
    if s.len() > 0 {
        let init = s.drop_last();
        lemma_sort_members(init);
        let r = sort_by_time(init);
        lemma_first_later_range(r, s.last().1, 0);
        let p = first_later(r, s.last().1, 0);
        let out = sort_by_time(s);
        assert(out == r.take(p) + seq![s.last()] + r.skip(p));
        assert forall|k: int| 0 <= k < s.len() implies s.contains(#[trigger] out[k]) by {
            if k < p {
                assert(out[k] == r[k]);
                assert(init.contains(r[k]));
                let j = choose|j: int| 0 <= j < init.len() && init[j] == r[k];
                assert(s[j] == init[j]);
            } else if k == p {
                assert(out[k] == s[s.len() - 1]);
            } else {
                assert(out[k] == r[k - 1]);
                assert(init.contains(r[k - 1]));
                let j = choose|j: int| 0 <= j < init.len() && init[j] == r[k - 1];
                assert(s[j] == init[j]);
            }
        }
    }
}

proof fn lemma_first_later_range(s: Seq<(i8, u128, Seq<u8>)>, t: u128, i: int)
    requires
        0 <= i <= s.len(),
    ensures
        i <= first_later(s, t, i) <= s.len(),
    decreases s.len() - i,
{
    if i < s.len() && s[i].1 <= t {
        lemma_first_later_range(s, t, i + 1);
    }
}

/// When a record is cut, its simplified data keeps no piece longer than the
/// piece limit and no more bytes in all than the session limit.
pub proof fn lemma_simplified_within_limits(r: Record)
    requires
        r.cuts(),
    ensures
        forall|k: int| 0 <= k < r.simplified().len() ==> (#[trigger] r.simplified()[k]).1.len() <= r.piece_limit(),
        total_bytes(r.simplified()) <= r.session_limit(),
{
    let input = tagged(r.download_data@, -1i8, true, r.piece_limit())
        + tagged(r.upload_data@, 1i8, true, r.piece_limit());
    let all = sort_by_time(input);
    lemma_sort_members(input);
    lemma_session_cut_range(all, r.session_limit(), 0, 0);
    let cut = session_cut(all, r.session_limit(), 0, 0);
    assert(prefix_bytes(all, 0) == 0);
    lemma_session_cut_within(all, r.session_limit(), 0, 0);
    lemma_total_bytes_take(all, cut);
    assert forall|k: int| 0 <= k < r.simplified().len() implies (#[trigger] r.simplified()[k]).1.len() <= r.piece_limit() by {
        assert(r.simplified()[k] == (all[k].0, all[k].2));
        assert(input.contains(all[k]));
        let j = choose|j: int| 0 <= j < input.len() && input[j] == all[k];
        let dl = tagged(r.download_data@, -1i8, true, r.piece_limit());
        if j < dl.len() {
            assert(input[j] == dl[j]);
        } else {
            assert(input[j] == tagged(r.upload_data@, 1i8, true, r.piece_limit())[j - dl.len()]);
        }
    }
}

impl Record {
    /// The file a record is saved to.
    pub open spec fn save_name_spec(&self) -> Seq<char> {
        let tail = (match self.label { Some(l) => l@, None => Seq::empty() }) + "_"@ + self.cid@ + "."@
            + (match self.serialize_format { Some(f) => f@, None => "json"@ }) + ".log"@;
        "logs/"@ + match self.global_data {
            Some(g) => "record_"@ + decimal(g.run_instance_id as nat) + "_"@ + tail,
            None => "record_."@ + tail,
        }
    }

    /// `logs/record_<run id>_<label>_<cid>.<format>.log`, or
    /// `logs/record_._<label>_<cid>.<format>.log` without run data; the
    /// format defaults to `json`.
    pub fn save_name(&self) -> (r: String)
        ensures
            r@ == self.save_name_spec(),
    {
        let mut s = String::new();
        string_push_str(&mut s, "logs/");
        match &self.global_data {
            Some(g) => {
                string_push_str(&mut s, "record_");
                push_decimal(&mut s, g.run_instance_id as usize);
                string_push_str(&mut s, "_");
            },
            None => {
                string_push_str(&mut s, "record_.");
            },
        }
        match &self.label {
            Some(l) => string_push_str(&mut s, l.as_str()),
            None => {},
        }
        string_push_str(&mut s, "_");
        string_push_str(&mut s, self.cid.as_str());
        string_push_str(&mut s, ".");
        match &self.serialize_format {
            Some(f) => string_push_str(&mut s, f.as_str()),
            None => string_push_str(&mut s, "json"),
        }
        string_push_str(&mut s, ".log");
        proof {
            let tail = (match &self.label { Some(l) => l@, None => Seq::empty() }) + "_"@ + self.cid@ + "."@
                + (match &self.serialize_format { Some(f) => f@, None => "json"@ }) + ".log"@;
            match &self.global_data {
                Some(g) => {
                    assert(s@ =~= "logs/"@ + ("record_"@ + decimal(g.run_instance_id as nat) + "_"@ + tail));
                },
                None => {
                    assert(s@ =~= "logs/"@ + ("record_."@ + tail));
                },
            }
        }
        s
    }
}

/// The saved name of a record always starts `logs/record_` and ends with
/// `_`, the connection id, `.`, the serialization format (`json` when none
/// is set, with or without run data) and `.log`; when a format is set, its
/// name ends in `.cbor.log` just when the record is saved as CBOR.
#[verifier::spinoff_prover]
#[verifier::rlimit(30)]
pub proof fn lemma_save_name_shape(r: Record)
    ensures
        ({
            let n = r.save_name_spec();
            let fmt = match r.serialize_format { Some(f) => f@, None => "json"@ };
            let end = "_"@ + r.cid@ + "."@ + fmt + ".log"@;
            &&& n.len() >= 12 + end.len()
            &&& n.take(12) == "logs/record_"@
            &&& n.skip(n.len() - end.len()) == end
            &&& (r.serialize_format is None ==> n.skip(n.len() - 9) == ".json.log"@)
            &&& (r.save_format() == SaveFormat::Cbor ==> n.skip(n.len() - 9) == ".cbor.log"@)
        }),
{
    let n = r.save_name_spec();
    let fmt = match r.serialize_format { Some(f) => f@, None => "json"@ };
    let end = "_"@ + r.cid@ + "."@ + fmt + ".log"@;
    let lab = match r.label { Some(l) => l@, None => Seq::empty() };
    let pre = match r.global_data {
        Some(g) => decimal(g.run_instance_id as nat) + "_"@,
        None => "."@,
    };
    lemma_name_literals();
    assert(n == "logs/record_"@ + (pre + lab + end)) by {
        match r.global_data {
            Some(g) => {
                let dg = decimal(g.run_instance_id as nat);
                assert(n == "logs/"@ + ("record_"@ + dg + "_"@ + (lab + end)));
                assert(n =~= ("logs/"@ + "record_"@) + (pre + lab + end));
            },
            None => {
                assert(n == "logs/"@ + ("record_."@ + (lab + end)));
                assert(n =~= ("logs/"@ + ("record_"@ + "."@)) + (lab + end));
                assert(n =~= ("logs/"@ + "record_"@) + (pre + lab + end));
            },
        }
    }
    let e0 = "_"@ + r.cid@;
    let e1 = "."@ + fmt + ".log"@;
    assert(end =~= e0 + e1);
    assert(pre + lab + end =~= (pre + lab) + (e0 + e1));
    lemma_name_ends("logs/record_"@, pre + lab, e0, e1, n);
    assert(e1.len() == 9 ==> n.skip(n.len() - 9) == e1);
}

/// A name made of a head, a middle, and an end that itself ends in a
/// tail starts with the head and ends with the end and the tail.
proof fn lemma_name_ends(head: Seq<char>, mid: Seq<char>, e0: Seq<char>, e1: Seq<char>, n: Seq<char>)
    requires
        n == head + (mid + (e0 + e1)),
    ensures
        n.len() >= head.len() + (e0 + e1).len(),
        n.take(head.len() as int) == head,
        n.skip(n.len() - (e0 + e1).len()) == e0 + e1,
        n.skip(n.len() - e1.len()) == e1,
{
    assert(n.take(head.len() as int) =~= head);
    assert(n.skip(n.len() - (e0 + e1).len()) =~= e0 + e1);
    assert(n.skip(n.len() - e1.len()) =~= e1);
}

/// The literals that saved names are made of, character by character.
proof fn lemma_name_literals()
    ensures
        "logs/"@ + "record_"@ == "logs/record_"@,
        "record_."@ == "record_"@ + "."@,
        "logs/record_"@.len() == 12,
        "json"@.len() == 4,
        "cbor"@.len() == 4,
        "."@ + "json"@ + ".log"@ == ".json.log"@,
        "."@ + "cbor"@ + ".log"@ == ".cbor.log"@,
        ".log"@.len() == 4,
        "."@.len() == 1,
{
    reveal_strlit("logs/");
    reveal_strlit("record_");
    reveal_strlit("record_.");
    reveal_strlit("logs/record_");
    reveal_strlit("json");
    reveal_strlit("cbor");
    reveal_strlit(".json.log");
    reveal_strlit(".cbor.log");
    reveal_strlit(".log");
    reveal_strlit(".");
    assert("logs/"@ + "record_"@ =~= "logs/record_"@);
    assert("record_."@ =~= "record_"@ + "."@);
    assert("."@ + "json"@ + ".log"@ =~= ".json.log"@);
    assert("."@ + "cbor"@ + ".log"@ =~= ".cbor.log"@);
}

/// Records the data of one connection as it passes.
#[derive(Debug, Clone)]
pub struct Recorder {
    pub data: Record,
}

/// A piece of `data` taken at `nanos`.
pub open spec fn piece_of(nanos: u128, data: Seq<u8>, addr: Option<Seq<char>>, p: DataPiece) -> bool {
    &&& p.nanos_since_start == nanos
    &&& piece_bytes(p) == data
    &&& match addr {
        None => p.data is Pure,
        Some(a) => p.data matches PayloadData::Addr(x, _) && x@ == a,
    }
}

/// The two records agree on everything but their data pieces.
pub open spec fn same_but_pieces(a: Record, b: Record) -> bool {
    &&& a.cid == b.cid
    &&& a.behavior == b.behavior
    &&& a.label == b.label
    &&& a.file_prefix == b.file_prefix
    &&& a.serialize_format == b.serialize_format
    &&& a.full_record == b.full_record
    &&& a.no_truncate == b.no_truncate
    &&& a.piece_truncate == b.piece_truncate
    &&& a.session_truncate == b.session_truncate
    &&& a.global_data == b.global_data
}

impl Recorder {
    /// Records downloaded `data`, seen `nanos` after the start; empty data is not recorded.
    pub fn record_d(&mut self, data: &[u8], nanos: u128)
        ensures
            same_but_pieces(final(self).data, old(self).data),
            final(self).data.upload_data == old(self).data.upload_data,
            data@.len() == 0 ==> final(self).data.download_data@ == old(self).data.download_data@,
            data@.len() > 0 ==> final(self).data.download_data@.len() == old(self).data.download_data@.len() + 1
                && final(self).data.download_data@.drop_last() == old(self).data.download_data@
                && piece_of(nanos, data@, None, final(self).data.download_data@.last()),
    {
        if data.len() == 0 {
            return;
        }
        let v = vstd::slice::slice_to_vec(data);
        self.data.download_data.push(DataPiece { nanos_since_start: nanos, data: PayloadData::Pure(v) });
        assert(self.data.download_data@.drop_last() =~= old(self).data.download_data@);
    }

    /// Records uploaded `data`, seen `nanos` after the start; empty data is not recorded.
    pub fn record_u(&mut self, data: &[u8], nanos: u128)
        ensures
            same_but_pieces(final(self).data, old(self).data),
            final(self).data.download_data == old(self).data.download_data,
            data@.len() == 0 ==> final(self).data.upload_data@ == old(self).data.upload_data@,
            data@.len() > 0 ==> final(self).data.upload_data@.len() == old(self).data.upload_data@.len() + 1
                && final(self).data.upload_data@.drop_last() == old(self).data.upload_data@
                && piece_of(nanos, data@, None, final(self).data.upload_data@.last()),
    {
        if data.len() == 0 {
            return;
        }
        let v = vstd::slice::slice_to_vec(data);
        self.data.upload_data.push(DataPiece { nanos_since_start: nanos, data: PayloadData::Pure(v) });
        assert(self.data.upload_data@.drop_last() =~= old(self).data.upload_data@);
    }

    /// Records a downloaded datagram from `ad`, seen `nanos` after the start.
    pub fn r_d_ad(&mut self, data: &[u8], ad: &str, nanos: u128)
        ensures
            same_but_pieces(final(self).data, old(self).data),
            final(self).data.upload_data == old(self).data.upload_data,
            data@.len() == 0 ==> final(self).data.download_data@ == old(self).data.download_data@,
            data@.len() > 0 ==> final(self).data.download_data@.len() == old(self).data.download_data@.len() + 1
                && final(self).data.download_data@.drop_last() == old(self).data.download_data@
                && piece_of(nanos, data@, Some(ad@), final(self).data.download_data@.last()),
    {
        if data.len() == 0 {
            return;
        }
        let v = vstd::slice::slice_to_vec(data);
        let a = ad.to_owned();
        self.data.download_data.push(DataPiece { nanos_since_start: nanos, data: PayloadData::Addr(a, v) });
        assert(self.data.download_data@.drop_last() =~= old(self).data.download_data@);
    }

    /// Records an uploaded datagram to `ad`, seen `nanos` after the start.
    pub fn r_u_ad(&mut self, data: &[u8], ad: &str, nanos: u128)
        ensures
            same_but_pieces(final(self).data, old(self).data),
            final(self).data.download_data == old(self).data.download_data,
            data@.len() == 0 ==> final(self).data.upload_data@ == old(self).data.upload_data@,
            data@.len() > 0 ==> final(self).data.upload_data@.len() == old(self).data.upload_data@.len() + 1
                && final(self).data.upload_data@.drop_last() == old(self).data.upload_data@
                && piece_of(nanos, data@, Some(ad@), final(self).data.upload_data@.last()),
    {
        if data.len() == 0 {
            return;
        }
        let v = vstd::slice::slice_to_vec(data);
        let a = ad.to_owned();
        self.data.upload_data.push(DataPiece { nanos_since_start: nanos, data: PayloadData::Addr(a, v) });
        assert(self.data.upload_data@.drop_last() =~= old(self).data.upload_data@);
    }
}


/// The settings of a recorder mapper.
#[derive(Debug, Clone, Default)]
pub struct Config {
    pub label: Option<String>,
    pub serialize_format: Option<String>,
    pub full_record: Option<bool>,
    pub no_truncate: Option<bool>,
    pub piece_truncate: Option<usize>,
    pub session_truncate: Option<usize>,
}

/// Whether `r` is the empty record of connection `cid` under `config`,
/// with `file_prefix`.
pub open spec fn fresh_record(r: Record, config: Config, cid: Seq<char>, behavior: ProxyBehavior,
    global_data: Option<SerializableGlobalData>, file_prefix: Option<Seq<char>>) -> bool {
    &&& r.cid@ == cid
    &&& r.behavior == behavior
    &&& r.global_data == global_data
    &&& r.label == config.label
    &&& r.serialize_format == config.serialize_format
    &&& r.full_record == config.full_record
    &&& r.no_truncate == config.no_truncate
    &&& r.piece_truncate == config.piece_truncate
    &&& r.session_truncate == config.session_truncate
    &&& match file_prefix { None => r.file_prefix is None, Some(p) => r.file_prefix matches Some(x) && x@ == p }
    &&& r.upload_data@.len() == 0
    &&& r.download_data@.len() == 0
}

/// A copy of an optional label or format.
fn copy_text(t: &Option<String>) -> (r: Option<String>)
    ensures
        r == *t,
{
    match t {
        None => None,
        Some(x) => {
            let y = x.clone();
            proof {
                assert(y@ == x@);
                assert(y == *x);
            }
            Some(y)
        },
    }
}

impl Recorder {
    /// The recorder of connection `cid` under `config`, with nothing
    /// recorded yet.
    pub fn for_connection(config: &Config, cid: String, behavior: ProxyBehavior,
        global_data: Option<SerializableGlobalData>) -> (r: Recorder)
        ensures
            fresh_record(r.data, *config, cid@, behavior, global_data, None),
    {
        Recorder {
            data: Record {
                cid,
                behavior,
                label: copy_text(&config.label),
                file_prefix: None,
                serialize_format: copy_text(&config.serialize_format),
                full_record: config.full_record,
                no_truncate: config.no_truncate,
                piece_truncate: config.piece_truncate,
                session_truncate: config.session_truncate,
                global_data,
                upload_data: Vec::new(),
                download_data: Vec::new(),
            },
        }
    }

    /// The two recorders of a datagram connection under `config`: one for
    /// its read side (file prefix `ac_r`), one for its write side (`ac_w`).
    pub fn for_datagrams(config: &Config, cid: String, behavior: ProxyBehavior,
        global_data: Option<SerializableGlobalData>) -> (r: (Recorder, Recorder))
        ensures
            fresh_record(r.0.data, *config, cid@, behavior, global_data, Some("ac_r"@)),
            fresh_record(r.1.data, *config, cid@, behavior, global_data, Some("ac_w"@)),
    {
        let cid2 = cid.clone();
        let mut read = Recorder::for_connection(config, cid, behavior, global_data);
        let mut write = Recorder::for_connection(config, cid2, behavior, global_data);
        read.data.file_prefix = Some("ac_r".to_owned());
        write.data.file_prefix = Some("ac_w".to_owned());
        (read, write)
    }
}

/// How a record is written to its file.
#[derive(Debug, Clone, Copy, PartialEq, Eq)]
pub enum SaveFormat {
    Json,
    Cbor,
}

/// What saving a record writes.
pub enum SavePlan {
    /// The whole record.
    Full(SaveFormat),
    /// Its simplified data.
    Simplified(SaveFormat, SimplifiedRecordData),
    /// Nothing: the simplified data is empty.
    Nothing,
}

impl Record {
    /// CBOR when the format is `cbor`, else JSON.
    pub open spec fn save_format(&self) -> SaveFormat {
        if self.serialize_format matches Some(f) && f@ == "cbor"@ { SaveFormat::Cbor } else { SaveFormat::Json }
    }

    /// What saving the record writes: the whole record when `full_record`
    /// is set; else its simplified data, taken out of the record, unless
    /// that is empty.
    pub fn save_plan(&mut self) -> (p: SavePlan)
        ensures
            old(self).full_record == Some(true) ==> p == SavePlan::Full(old(self).save_format()) && *final(self) == *old(self),
            old(self).full_record != Some(true) ==> {
                &&& final(self).upload_data@.len() == 0
                &&& final(self).download_data@.len() == 0
                &&& if old(self).simplified().len() == 0 {
                    p is Nothing
                } else {
                    p matches SavePlan::Simplified(f, sd) && f == old(self).save_format()
                        && sd.label == old(self).label
                        && sd.data@.map_values(|e: (i8, Vec<u8>)| (e.0, e.1@)) == old(self).simplified()
                }
            },
    {
        let format = match &self.serialize_format {
            Some(f) => if *f == "cbor".to_owned() { SaveFormat::Cbor } else { SaveFormat::Json },
            None => SaveFormat::Json,
        };
        proof {
            reveal_strlit("cbor");
        }
        if let Some(true) = self.full_record {
            return SavePlan::Full(format);
        }
        let sd = SimplifiedRecordData::from(self);
        if sd.data.len() == 0 {
            SavePlan::Nothing
        } else {
            SavePlan::Simplified(format, sd)
        }
    }
}

/// Where a recording connection is with saving its record.
#[derive(Debug, Clone, Copy, PartialEq, Eq, Structural)]
pub enum SaveState {
    /// Data passes and is recorded.
    Normal,
    /// The record is being saved.
    SavingToFile,
    /// The record is saved.
    Saved,
}

/// A stream connection that records what passes, and saves the record
/// when the stream ends.
pub struct RecordingConn {
    pub recorder: Recorder,
    pub state: SaveState,
}

impl RecordingConn {
    /// A connection recording into `recorder`.
    pub fn new(recorder: Recorder) -> (c: RecordingConn)
        ensures
            c.recorder == recorder,
            c.state == SaveState::Normal,
    {
        RecordingConn { recorder, state: SaveState::Normal }
    }

    /// Starts saving, once: only from the normal state, which it leaves;
    /// whether it started.
    pub fn start_save(&mut self) -> (started: bool)
        ensures
            started == (old(self).state == SaveState::Normal),
            final(self).state == (if started { SaveState::SavingToFile } else { old(self).state }),
            final(self).recorder == old(self).recorder,
    {
        if self.state == SaveState::Normal {
            self.state = SaveState::SavingToFile;
            true
        } else {
            false
        }
    }

    /// The save finished, well or not.
    pub fn save_finished(&mut self)
        ensures
            final(self).state == SaveState::Saved,
            final(self).recorder == old(self).recorder,
    {
        self.state = SaveState::Saved;
    }

    /// Whether data still passes; once saving starts, reads end and
    /// writes fail.
    pub fn is_open(&self) -> (r: bool)
        ensures
            r == (self.state == SaveState::Normal),
    {
        self.state == SaveState::Normal
    }

    /// A read gave `data`, `nanos` after the start: it is recorded; an empty
    /// read is the end of the stream and starts saving.
    pub fn on_read(&mut self, data: &[u8], nanos: u128) -> (save: bool)
        requires
            old(self).state == SaveState::Normal,
        ensures
            save == (data@.len() == 0),
            save ==> final(self).state == SaveState::SavingToFile && final(self).recorder == old(self).recorder,
            !save ==> final(self).state == SaveState::Normal
                && same_but_pieces(final(self).recorder.data, old(self).recorder.data)
                && final(self).recorder.data.upload_data == old(self).recorder.data.upload_data
                && final(self).recorder.data.download_data@.drop_last() == old(self).recorder.data.download_data@
                && final(self).recorder.data.download_data@.len() == old(self).recorder.data.download_data@.len() + 1
                && piece_of(nanos, data@, None, final(self).recorder.data.download_data@.last()),
    {
        if data.len() == 0 {
            self.start_save()
        } else {
            self.recorder.record_d(data, nanos);
            false
        }
    }

    /// A read failed: saving starts.
    pub fn on_read_error(&mut self) -> (save: bool)
        requires
            old(self).state == SaveState::Normal,
        ensures
            save,
            final(self).state == SaveState::SavingToFile,
            final(self).recorder == old(self).recorder,
    {
        self.start_save()
    }

    /// A write took `data`, `nanos` after the start: it is recorded.
    pub fn on_written(&mut self, data: &[u8], nanos: u128)
        requires
            old(self).state == SaveState::Normal,
        ensures
            final(self).state == SaveState::Normal,
            same_but_pieces(final(self).recorder.data, old(self).recorder.data),
            final(self).recorder.data.download_data == old(self).recorder.data.download_data,
            data@.len() == 0 ==> final(self).recorder.data.upload_data@ == old(self).recorder.data.upload_data@,
            data@.len() > 0 ==> final(self).recorder.data.upload_data@.len() == old(self).recorder.data.upload_data@.len() + 1
                && final(self).recorder.data.upload_data@.drop_last() == old(self).recorder.data.upload_data@
                && piece_of(nanos, data@, None, final(self).recorder.data.upload_data@.last()),
    {
        self.recorder.record_u(data, nanos);
    }
}

} // verus!
