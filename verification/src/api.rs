//! The replies of the management API.

use vstd::prelude::*;
use crate::text::{decimal, push_decimal, string_push_str};

verus! {

broadcast use vstd::string::group_string_axioms;

/// The state of the server.
#[derive(Debug, Clone)]
pub struct StatusResponse {
    /// Current status of the server.
    pub status: String,
}

/// What is known of one connection.
#[derive(Debug, Clone)]
pub struct ConnectionInfoResponse {
    /// Connection id.
    pub cid: String,
    /// When the connection was made.
    pub timestamp: String,
    /// Connection details.
    pub details: String,
}

/// A count of bytes.
#[derive(Debug, Clone, Copy)]
pub struct TrafficStatsResponse {
    /// Number of bytes.
    pub bytes: u64,
}

/// The API's description.
#[derive(Debug, Clone, Copy, Default)]
pub struct ApiDoc;

/// The reply to a status request: the server is running.
pub fn get_status() -> (r: StatusResponse)
    ensures
        r.status@ == "running"@,
{
    StatusResponse { status: "running".to_owned() }
}


/// One line for a connection: its id, ` , `, what is known of it.
pub open spec fn conn_line(id: Seq<char>, info: Seq<char>) -> Seq<char> {
    id + " , "@ + info + "\n"@
}

/// The lines for the connections, in order.
pub open spec fn conn_lines(entries: Seq<(Seq<char>, Seq<char>)>) -> Seq<char>
    decreases entries.len(),
{
    if entries.len() == 0 {
        Seq::<char>::empty()
    } else {
        conn_lines(entries.drop_last()) + conn_line(entries.last().0, entries.last().1)
    }
}

/// The entries' texts.
pub open spec fn entries_view(entries: Seq<(String, String)>) -> Seq<(Seq<char>, Seq<char>)> {
    entries.map_values(|e: (String, String)| (e.0@, e.1@))
}

/// The reply listing connections: one line per entry, in the order given
/// (the connection table's order, from the first id asked for on).
pub fn conn_infos_text(entries: &Vec<(String, String)>) -> (r: String)
    ensures
        r@ == conn_lines(entries_view(entries@)),
{
    let mut s = String::new();
    let mut i: usize = 0;
    while i < entries.len()
        invariant
            i <= entries@.len(),
            s@ == conn_lines(entries_view(entries@.take(i as int))),
        decreases entries@.len() - i,
    {
        let (id, info) = &entries[i];
        string_push_str(&mut s, id.as_str());
        string_push_str(&mut s, " , ");
        string_push_str(&mut s, info.as_str());
        string_push_str(&mut s, "\n");
        proof {
            let t = entries@.take(i + 1);
            assert(entries_view(t).drop_last() =~= entries_view(entries@.take(i as int)));
            assert(entries_view(t).last() == (id@, info@));
        }
        i = i + 1;
    }
    assert(entries@.take(entries@.len() as int) =~= entries@);
    s
}

/// The reply about one connection: `None` when it is not known, else the
/// time it was recorded at, ` , ` and what is known of it.
pub fn conn_info_text(found: Option<(String, String)>) -> (r: String)
    ensures
        r@ == match found {
            None => "None"@,
            Some((time, info)) => time@ + " , "@ + info@,
        },
{
    match found {
        None => "None".to_owned(),
        Some((time, info)) => {
            let mut s = time;
            string_push_str(&mut s, " , ");
            string_push_str(&mut s, info.as_str());
            s
        },
    }
}

/// The reply naming the last connection: its id, or nothing when there is
/// none.
pub fn last_cid_text(last: Option<String>) -> (r: String)
    ensures
        r@ == match last {
            None => Seq::<char>::empty(),
            Some(id) => id@,
        },
{
    match last {
        None => String::new(),
        Some(id) => id,
    }
}

/// One entry of a traffic record: how long ago, in milliseconds, and how
/// many bytes.
pub open spec fn flux_line(ms: nat, bytes: nat) -> Seq<char> {
    "{ -"@ + decimal(ms) + " ms , "@ + decimal(bytes) + " },\n"@
}

/// The entries of a traffic record, in order.
pub open spec fn flux_lines(points: Seq<(usize, usize)>) -> Seq<char>
    decreases points.len(),
{
    if points.len() == 0 {
        Seq::<char>::empty()
    } else {
        flux_lines(points.drop_last()) + flux_line(points.last().0 as nat, points.last().1 as nat)
    }
}

/// The reply listing a connection's traffic record.
pub fn flux_text(points: &Vec<(usize, usize)>) -> (r: String)
    ensures
        r@ == flux_lines(points@),
{
    let mut s = String::new();
    let mut i: usize = 0;
    while i < points.len()
        invariant
            i <= points@.len(),
            s@ == flux_lines(points@.take(i as int)),
        decreases points@.len() - i,
    {
        let (ms, bytes) = points[i];
        string_push_str(&mut s, "{ -");
        push_decimal(&mut s, ms);
        string_push_str(&mut s, " ms , ");
        push_decimal(&mut s, bytes);
        string_push_str(&mut s, " },\n");
        proof {
            let t = points@.take(i + 1);
            assert(t.drop_last() =~= points@.take(i as int));
            assert(t.last() == (ms, bytes));
        }
        i = i + 1;
    }
    assert(points@.take(points@.len() as int) =~= points@);
    s
}

} // verus!
