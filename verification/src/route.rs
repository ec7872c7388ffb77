//! Transparent-proxy routing: the `ip` and `iptables` command lines that
//! set up and tear down the routing, and the order in which they run.
//!
//! The library decides what runs next; the caller runs each command line
//! and reports whether it succeeded.

use vstd::prelude::*;
use crate::text::{decimal, push_decimal, split_on, string_push_str};

verus! {

broadcast use vstd::string::group_string_axioms;

/// The local network that the routing leaves alone.
pub const DEFAULT_LOCAL_NET: &'static str = "192.168.0.0/16";

/// The texts of command lines.
pub open spec fn line_texts(v: Seq<String>) -> Seq<Seq<char>> {
    v.map_values(|l: String| l@)
}

/// A command: the program and what it works on, the operation, and what
/// the operation applies to.
pub type Cmd = (Seq<char>, Seq<char>, Seq<char>);

/// The command line of a command: its three parts, separated by spaces.
pub open spec fn render(c: Cmd) -> Seq<char> {
    c.0 + " "@ + c.1 + " "@ + c.2
}

/// The command lines of the commands, in order.
pub open spec fn render_all(cs: Seq<Cmd>) -> Seq<Seq<char>> {
    cs.map_values(|c: Cmd| render(c))
}

/// An `iptables` command on the mangle table.
pub open spec fn mangle_cmd(op: Seq<char>, rest: Seq<char>) -> Cmd {
    ("iptables -t mangle"@, op, rest)
}

/// The policy rule that sends marked packets to table 100.
pub open spec fn ip_rule_cmd(op: Seq<char>) -> Cmd {
    ("ip rule"@, op, "fwmark 1 table 100"@)
}

/// The route of table 100 that delivers every packet locally.
pub open spec fn ip_route_cmd(op: Seq<char>) -> Cmd {
    ("ip route"@, op, "local 0.0.0.0/0 dev lo table 100"@)
}

/// The TPROXY rule of the `rucimp` chain for `proto` and `port`.
pub open spec fn tproxy_body(proto: Seq<char>, port: nat) -> Seq<char> {
    "rucimp -p "@ + proto + " -j TPROXY --on-port "@ + decimal(port) + " --tproxy-mark 1"@
}

/// The commands that set up transparent routing to `port`, for TCP and,
/// with `also_udp`, for UDP.
pub open spec fn setup_cmds(port: nat, also_udp: bool) -> Seq<Cmd> {
    seq![ip_rule_cmd("add"@), ip_route_cmd("add"@), mangle_cmd("-N"@, "rucimp"@), mangle_cmd("-A"@, "rucimp -d 127.0.0.1/32 -j RETURN"@), mangle_cmd("-A"@, "rucimp -d 224.0.0.0/4 -j RETURN"@), mangle_cmd("-A"@, "rucimp -d 255.255.255.255/32 -j RETURN"@), mangle_cmd("-A"@, "rucimp -d 192.168.0.0/16 -p tcp -j RETURN"@)] + (if also_udp { seq![mangle_cmd("-A"@, "rucimp -d 192.168.0.0/16 -p udp -j RETURN"@)] } else { Seq::<Cmd>::empty() }) + seq![mangle_cmd("-A"@, tproxy_body("tcp"@, port))] + (if also_udp { seq![mangle_cmd("-A"@, tproxy_body("udp"@, port))] } else { Seq::<Cmd>::empty() }) + seq![mangle_cmd("-A"@, "PREROUTING -j rucimp"@), mangle_cmd("-N"@, "rucimp_self"@), mangle_cmd("-A"@, "rucimp_self -d 224.0.0.0/4 -j RETURN"@), mangle_cmd("-A"@, "rucimp_self -d 255.255.255.255/32 -j RETURN"@), mangle_cmd("-A"@, "rucimp_self -d 192.168.0.0/16 -p tcp -j RETURN"@)] + (if also_udp { seq![mangle_cmd("-A"@, "rucimp_self -d 192.168.0.0/16 -p udp -j RETURN"@)] } else { Seq::<Cmd>::empty() }) + seq![mangle_cmd("-A"@, "rucimp_self -j RETURN -m mark --mark 0xff"@), mangle_cmd("-A"@, "rucimp_self -p tcp -j MARK --set-mark 1"@)] + (if also_udp { seq![mangle_cmd("-A"@, "rucimp_self -p udp -j MARK --set-mark 1"@)] } else { Seq::<Cmd>::empty() }) + seq![mangle_cmd("-A"@, "OUTPUT -j rucimp_self"@)]
}

/// The command lines that set up transparent routing to `port`; run in
/// this order, stopping at the first that fails.
pub open spec fn tcp_route_lines(port: nat, also_udp: bool) -> Seq<Seq<char>> {
    render_all(setup_cmds(port, also_udp))
}

/// The commands that delete the rules and routes of the routing to
/// `port`, TCP and UDP alike.
pub open spec fn rule_teardown_cmds(port: nat) -> Seq<Cmd> {
    seq![
        ip_rule_cmd("del"@),
        ip_route_cmd("del"@),
        mangle_cmd("-D"@, "rucimp -d 127.0.0.1/32 -j RETURN"@),
        mangle_cmd("-D"@, "rucimp -d 224.0.0.0/4 -j RETURN"@),
        mangle_cmd("-D"@, "rucimp -d 255.255.255.255/32 -j RETURN"@),
        mangle_cmd("-D"@, "rucimp -d 192.168.0.0/16 -p tcp -j RETURN"@),
        mangle_cmd("-D"@, "rucimp -d 192.168.0.0/16 -p udp -j RETURN"@),
        mangle_cmd("-D"@, tproxy_body("udp"@, port)),
        mangle_cmd("-D"@, tproxy_body("tcp"@, port)),
        mangle_cmd("-D"@, "PREROUTING -j rucimp"@),
        mangle_cmd("-D"@, "rucimp_self -d 224.0.0.0/4 -j RETURN"@),
        mangle_cmd("-D"@, "rucimp_self -d 255.255.255.255/32 -j RETURN"@),
        mangle_cmd("-D"@, "rucimp_self -d 192.168.0.0/16 -p tcp -j RETURN"@),
        mangle_cmd("-D"@, "rucimp_self -d 192.168.0.0/16 -p udp -j RETURN"@),
        mangle_cmd("-D"@, "rucimp_self -j RETURN -m mark --mark 0xff"@),
        mangle_cmd("-D"@, "rucimp_self -p udp -j MARK --set-mark 1"@),
        mangle_cmd("-D"@, "rucimp_self -p tcp -j MARK --set-mark 1"@),
        mangle_cmd("-D"@, "OUTPUT -j rucimp_self"@),
    ]
}

/// The commands that flush and remove the two chains.
pub open spec fn chain_removal_cmds() -> Seq<Cmd> {
    seq![
        mangle_cmd("-F"@, "rucimp"@),
        mangle_cmd("-X"@, "rucimp"@),
        mangle_cmd("-F"@, "rucimp_self"@),
        mangle_cmd("-X"@, "rucimp_self"@),
    ]
}

/// The command lines that tear the routing to `port` down: the rules and
/// routes, then the chains; every one of them runs, whether or not the
/// others fail.
pub open spec fn down_route_lines(port: nat) -> Seq<Seq<char>> {
    render_all(rule_teardown_cmds(port) + chain_removal_cmds())
}

/// The operation that undoes `op`: appending a rule is undone by deleting
/// it, adding a rule or route by deleting it, creating a chain by removing
/// it.
pub open spec fn undo_op(op: Seq<char>) -> Seq<char> {
    if op == "-A"@ {
        "-D"@
    } else if op == "add"@ {
        "del"@
    } else if op == "-N"@ {
        "-X"@
    } else {
        op
    }
}

/// The command that undoes `c`.
pub open spec fn undo_cmd(c: Cmd) -> Cmd {
    (c.0, undo_op(c.1), c.2)
}

/// Tearing the routing down undoes setting it up: every rule and route the
/// setup adds, the teardown deletes before it touches the chains; every
/// chain the setup creates, the teardown flushes and then removes.
pub proof fn lemma_teardown_undoes_setup(port: nat, also_udp: bool)
    ensures
        forall|i: int| 0 <= i < setup_cmds(port, also_udp).len() && setup_cmds(port, also_udp)[i].1 != "-N"@
            ==> #[trigger] rule_teardown_cmds(port).contains(undo_cmd(setup_cmds(port, also_udp)[i])),
        forall|i: int| 0 <= i < setup_cmds(port, also_udp).len() && setup_cmds(port, also_udp)[i].1 == "-N"@
            ==> exists|j: int| 0 < j < chain_removal_cmds().len()
                && #[trigger] chain_removal_cmds()[j] == undo_cmd(setup_cmds(port, also_udp)[i])
                && chain_removal_cmds()[j - 1] == (setup_cmds(port, also_udp)[i].0, "-F"@, setup_cmds(port, also_udp)[i].2),
{
    reveal_strlit("-A");
    reveal_strlit("add");
    reveal_strlit("-N");
    assert("add"@ != "-A"@) by {
        assert("add"@.len() != "-A"@.len());
    }
    assert("-N"@ != "-A"@) by {
        assert("-N"@[1] != "-A"@[1]);
    }
    assert("-N"@ != "add"@) by {
        assert("-N"@.len() != "add"@.len());
    }
    assert(undo_op("add"@) == "del"@);
    if also_udp {
        let s = seq![
            ip_rule_cmd("add"@),
            ip_route_cmd("add"@),
            mangle_cmd("-N"@, "rucimp"@),
            mangle_cmd("-A"@, "rucimp -d 127.0.0.1/32 -j RETURN"@),
            mangle_cmd("-A"@, "rucimp -d 224.0.0.0/4 -j RETURN"@),
            mangle_cmd("-A"@, "rucimp -d 255.255.255.255/32 -j RETURN"@),
            mangle_cmd("-A"@, "rucimp -d 192.168.0.0/16 -p tcp -j RETURN"@),
            mangle_cmd("-A"@, "rucimp -d 192.168.0.0/16 -p udp -j RETURN"@),
            mangle_cmd("-A"@, tproxy_body("tcp"@, port)),
            mangle_cmd("-A"@, tproxy_body("udp"@, port)),
            mangle_cmd("-A"@, "PREROUTING -j rucimp"@),
            mangle_cmd("-N"@, "rucimp_self"@),
            mangle_cmd("-A"@, "rucimp_self -d 224.0.0.0/4 -j RETURN"@),
            mangle_cmd("-A"@, "rucimp_self -d 255.255.255.255/32 -j RETURN"@),
            mangle_cmd("-A"@, "rucimp_self -d 192.168.0.0/16 -p tcp -j RETURN"@),
            mangle_cmd("-A"@, "rucimp_self -d 192.168.0.0/16 -p udp -j RETURN"@),
            mangle_cmd("-A"@, "rucimp_self -j RETURN -m mark --mark 0xff"@),
            mangle_cmd("-A"@, "rucimp_self -p tcp -j MARK --set-mark 1"@),
            mangle_cmd("-A"@, "rucimp_self -p udp -j MARK --set-mark 1"@),
            mangle_cmd("-A"@, "OUTPUT -j rucimp_self"@),
        ];
        assert(setup_cmds(port, also_udp) =~= s);
        assert forall|i: int| 0 <= i < s.len() && s[i].1 != "-N"@ implies #[trigger] rule_teardown_cmds(port).contains(undo_cmd(s[i])) by {
            if i == 0 {
                assert(rule_teardown_cmds(port)[0] == undo_cmd(s[0]));
            }
            if i == 1 {
                assert(rule_teardown_cmds(port)[1] == undo_cmd(s[1]));
            }
            if i == 3 {
                assert(rule_teardown_cmds(port)[2] == undo_cmd(s[3]));
            }
            if i == 4 {
                assert(rule_teardown_cmds(port)[3] == undo_cmd(s[4]));
            }
            if i == 5 {
                assert(rule_teardown_cmds(port)[4] == undo_cmd(s[5]));
            }
            if i == 6 {
                assert(rule_teardown_cmds(port)[5] == undo_cmd(s[6]));
            }
            if i == 7 {
                assert(rule_teardown_cmds(port)[6] == undo_cmd(s[7]));
            }
            if i == 8 {
                assert(rule_teardown_cmds(port)[8] == undo_cmd(s[8]));
            }
            if i == 9 {
                assert(rule_teardown_cmds(port)[7] == undo_cmd(s[9]));
            }
            if i == 10 {
                assert(rule_teardown_cmds(port)[9] == undo_cmd(s[10]));
            }
            if i == 12 {
                assert(rule_teardown_cmds(port)[10] == undo_cmd(s[12]));
            }
            if i == 13 {
                assert(rule_teardown_cmds(port)[11] == undo_cmd(s[13]));
            }
            if i == 14 {
                assert(rule_teardown_cmds(port)[12] == undo_cmd(s[14]));
            }
            if i == 15 {
                assert(rule_teardown_cmds(port)[13] == undo_cmd(s[15]));
            }
            if i == 16 {
                assert(rule_teardown_cmds(port)[14] == undo_cmd(s[16]));
            }
            if i == 17 {
                assert(rule_teardown_cmds(port)[16] == undo_cmd(s[17]));
            }
            if i == 18 {
                assert(rule_teardown_cmds(port)[15] == undo_cmd(s[18]));
            }
            if i == 19 {
                assert(rule_teardown_cmds(port)[17] == undo_cmd(s[19]));
            }
        }
        assert forall|i: int| 0 <= i < s.len() && s[i].1 == "-N"@ implies exists|j: int| 0 < j < chain_removal_cmds().len()
            && #[trigger] chain_removal_cmds()[j] == undo_cmd(s[i])
            && chain_removal_cmds()[j - 1] == (s[i].0, "-F"@, s[i].2) by {
            if i == 2 {
                assert(chain_removal_cmds()[1] == undo_cmd(s[2]));
                assert(chain_removal_cmds()[0] == (s[2].0, "-F"@, s[2].2));
            }
            if i == 11 {
                assert(chain_removal_cmds()[3] == undo_cmd(s[11]));
                assert(chain_removal_cmds()[2] == (s[11].0, "-F"@, s[11].2));
            }
        }
    } else {
        let s = seq![
            ip_rule_cmd("add"@),
            ip_route_cmd("add"@),
            mangle_cmd("-N"@, "rucimp"@),
            mangle_cmd("-A"@, "rucimp -d 127.0.0.1/32 -j RETURN"@),
            mangle_cmd("-A"@, "rucimp -d 224.0.0.0/4 -j RETURN"@),
            mangle_cmd("-A"@, "rucimp -d 255.255.255.255/32 -j RETURN"@),
            mangle_cmd("-A"@, "rucimp -d 192.168.0.0/16 -p tcp -j RETURN"@),
            mangle_cmd("-A"@, tproxy_body("tcp"@, port)),
            mangle_cmd("-A"@, "PREROUTING -j rucimp"@),
            mangle_cmd("-N"@, "rucimp_self"@),
            mangle_cmd("-A"@, "rucimp_self -d 224.0.0.0/4 -j RETURN"@),
            mangle_cmd("-A"@, "rucimp_self -d 255.255.255.255/32 -j RETURN"@),
            mangle_cmd("-A"@, "rucimp_self -d 192.168.0.0/16 -p tcp -j RETURN"@),
            mangle_cmd("-A"@, "rucimp_self -j RETURN -m mark --mark 0xff"@),
            mangle_cmd("-A"@, "rucimp_self -p tcp -j MARK --set-mark 1"@),
            mangle_cmd("-A"@, "OUTPUT -j rucimp_self"@),
        ];
        assert(setup_cmds(port, also_udp) =~= s);
        assert forall|i: int| 0 <= i < s.len() && s[i].1 != "-N"@ implies #[trigger] rule_teardown_cmds(port).contains(undo_cmd(s[i])) by {
            if i == 0 {
                assert(rule_teardown_cmds(port)[0] == undo_cmd(s[0]));
            }
            if i == 1 {
                assert(rule_teardown_cmds(port)[1] == undo_cmd(s[1]));
            }
            if i == 3 {
                assert(rule_teardown_cmds(port)[2] == undo_cmd(s[3]));
            }
            if i == 4 {
                assert(rule_teardown_cmds(port)[3] == undo_cmd(s[4]));
            }
            if i == 5 {
                assert(rule_teardown_cmds(port)[4] == undo_cmd(s[5]));
            }
            if i == 6 {
                assert(rule_teardown_cmds(port)[5] == undo_cmd(s[6]));
            }
            if i == 7 {
                assert(rule_teardown_cmds(port)[8] == undo_cmd(s[7]));
            }
            if i == 8 {
                assert(rule_teardown_cmds(port)[9] == undo_cmd(s[8]));
            }
            if i == 10 {
                assert(rule_teardown_cmds(port)[10] == undo_cmd(s[10]));
            }
            if i == 11 {
                assert(rule_teardown_cmds(port)[11] == undo_cmd(s[11]));
            }
            if i == 12 {
                assert(rule_teardown_cmds(port)[12] == undo_cmd(s[12]));
            }
            if i == 13 {
                assert(rule_teardown_cmds(port)[14] == undo_cmd(s[13]));
            }
            if i == 14 {
                assert(rule_teardown_cmds(port)[16] == undo_cmd(s[14]));
            }
            if i == 15 {
                assert(rule_teardown_cmds(port)[17] == undo_cmd(s[15]));
            }
        }
        assert forall|i: int| 0 <= i < s.len() && s[i].1 == "-N"@ implies exists|j: int| 0 < j < chain_removal_cmds().len()
            && #[trigger] chain_removal_cmds()[j] == undo_cmd(s[i])
            && chain_removal_cmds()[j - 1] == (s[i].0, "-F"@, s[i].2) by {
            if i == 2 {
                assert(chain_removal_cmds()[1] == undo_cmd(s[2]));
                assert(chain_removal_cmds()[0] == (s[2].0, "-F"@, s[2].2));
            }
            if i == 9 {
                assert(chain_removal_cmds()[3] == undo_cmd(s[9]));
                assert(chain_removal_cmds()[2] == (s[9].0, "-F"@, s[9].2));
            }
        }
    }
}

/// Appends the command line of the command `head op rest` to lines that
/// render the commands `cs`; gives the commands now rendered.
fn push_cmd(v: &mut Vec<String>, Ghost(cs): Ghost<Seq<Cmd>>, head: &str, op: &str, rest: &str) -> (r: Ghost<Seq<Cmd>>)
    requires
        line_texts(old(v)@) == render_all(cs),
    ensures
        r@ == cs.push((head@, op@, rest@)),
        line_texts(final(v)@) == render_all(r@),
{
    let mut s = String::new();
    string_push_str(&mut s, head);
    string_push_str(&mut s, " ");
    string_push_str(&mut s, op);
    string_push_str(&mut s, " ");
    string_push_str(&mut s, rest);
    assert(s@ =~= render((head@, op@, rest@)));
    v.push(s);
    assert(render_all(cs.push((head@, op@, rest@))) =~= render_all(cs).push(render((head@, op@, rest@))));
    assert(line_texts(v@) =~= render_all(cs.push((head@, op@, rest@))));
    Ghost(cs.push((head@, op@, rest@)))
}

/// Appends the TPROXY line for `proto` and `port`, with the operation `op`.
fn push_tproxy(v: &mut Vec<String>, cs: Ghost<Seq<Cmd>>, op: &str, proto: &str, port: u32) -> (r: Ghost<Seq<Cmd>>)
    requires
        line_texts(old(v)@) == render_all(cs@),
    ensures
        r@ == cs@.push(mangle_cmd(op@, tproxy_body(proto@, port as nat))),
        line_texts(final(v)@) == render_all(r@),
{
    let mut rest = String::new();
    string_push_str(&mut rest, "rucimp -p ");
    string_push_str(&mut rest, proto);
    string_push_str(&mut rest, " -j TPROXY --on-port ");
    push_decimal(&mut rest, port as usize);
    string_push_str(&mut rest, " --tproxy-mark 1");
    assert(rest@ =~= tproxy_body(proto@, port as nat));
    push_cmd(v, cs, "iptables -t mangle", op, rest.as_str())
}

/// A list of command lines to run one after the other, and how far the
/// run has got.
pub struct CommandRun {
    /// The command lines, in order.
    pub lines: Vec<String>,
    /// Whether a failed command ends the run.
    pub stop_on_error: bool,
    /// The index of the next command line to run.
    pub next: usize,
    /// The index of the first command line that failed, if one did.
    pub failed: Option<usize>,
}

impl CommandRun {
    /// The run has no command line left to run.
    pub open spec fn finished(&self) -> bool {
        self.next >= self.lines@.len() || (self.stop_on_error && self.failed is Some)
    }

    /// The run is at most at its end, and a failure lies behind it.
    pub open spec fn well_formed(&self) -> bool {
        &&& self.next <= self.lines@.len()
        &&& self.failed matches Some(i) ==> i < self.next
    }

    /// A run of `lines` that has not started.
    pub fn new(lines: Vec<String>, stop_on_error: bool) -> (r: CommandRun)
        ensures
            r.well_formed(),
            r.lines == lines,
            r.stop_on_error == stop_on_error,
            r.next == 0,
            r.failed is None,
    {
        CommandRun { lines, stop_on_error, next: 0, failed: None }
    }

    /// The command line to run now, or none when the run is over.
    pub fn current(&self) -> (r: Option<&String>)
        requires
            self.well_formed(),
        ensures
            self.finished() ==> r is None,
            !self.finished() ==> r == Some(&self.lines@[self.next as int]),
    {
        if self.next >= self.lines.len() {
            None
        } else if self.stop_on_error && self.failed.is_some() {
            None
        } else {
            Some(&self.lines[self.next])
        }
    }

    /// Records whether the current command line succeeded, and moves on.
    pub fn report(&mut self, ok: bool)
        requires
            old(self).well_formed(),
            !old(self).finished(),
        ensures
            final(self).well_formed(),
            final(self).lines == old(self).lines,
            final(self).stop_on_error == old(self).stop_on_error,
            final(self).next == old(self).next + 1,
            final(self).failed == (if !ok && old(self).failed is None {
                Some(old(self).next)
            } else {
                old(self).failed
            }),
    {
        let n = self.lines.len();
        assert(self.next < n);
        if !ok && self.failed.is_none() {
            self.failed = Some(self.next);
        }
        self.next = self.next + 1;
    }

    /// The result of a finished run: the index of the first failed command
    /// line when failures stop the run, success otherwise.
    pub fn outcome(&self) -> (r: Result<(), usize>)
        ensures
            r == (if self.stop_on_error && self.failed is Some {
                Err::<(), usize>(self.failed->0)
            } else {
                Ok::<(), usize>(())
            }),
    {
        match self.failed {
            Some(i) => if self.stop_on_error { Err(i) } else { Ok(()) },
            None => Ok(()),
        }
    }
}

/// The words of a command line: the program, then its arguments.
pub fn command_words(line: &str) -> (r: Vec<String>)
    ensures
        line_texts(r@) == split_on(line@, ' '),
{
    let r = crate::text::split_char(line, ' ');
    assert(line_texts(r@) =~= split_on(line@, ' '));
    r
}

/// The run that sets up transparent routing to `port` for TCP and, with
/// `also_udp`, for UDP: it stops at the first command line that fails.
pub fn run_tcp_route(port: u32, also_udp: bool) -> (r: CommandRun)
    ensures
        r.well_formed(),
        line_texts(r.lines@) == tcp_route_lines(port as nat, also_udp),
        r.stop_on_error,
        r.next == 0,
        r.failed is None,
{
    let mut v: Vec<String> = Vec::new();
    let mut cs: Ghost<Seq<Cmd>> = Ghost(Seq::empty());
    assert(line_texts(v@) =~= render_all(cs@));
    cs = push_cmd(&mut v, cs, "ip rule", "add", "fwmark 1 table 100");
    cs = push_cmd(&mut v, cs, "ip route", "add", "local 0.0.0.0/0 dev lo table 100");
    cs = push_cmd(&mut v, cs, "iptables -t mangle", "-N", "rucimp");
    cs = push_cmd(&mut v, cs, "iptables -t mangle", "-A", "rucimp -d 127.0.0.1/32 -j RETURN");
    cs = push_cmd(&mut v, cs, "iptables -t mangle", "-A", "rucimp -d 224.0.0.0/4 -j RETURN");
    cs = push_cmd(&mut v, cs, "iptables -t mangle", "-A", "rucimp -d 255.255.255.255/32 -j RETURN");
    cs = push_cmd(&mut v, cs, "iptables -t mangle", "-A", "rucimp -d 192.168.0.0/16 -p tcp -j RETURN");
    if also_udp {
        cs = push_cmd(&mut v, cs, "iptables -t mangle", "-A", "rucimp -d 192.168.0.0/16 -p udp -j RETURN");
    }
    cs = push_tproxy(&mut v, cs, "-A", "tcp", port);
    if also_udp {
        cs = push_tproxy(&mut v, cs, "-A", "udp", port);
    }
    cs = push_cmd(&mut v, cs, "iptables -t mangle", "-A", "PREROUTING -j rucimp");
    cs = push_cmd(&mut v, cs, "iptables -t mangle", "-N", "rucimp_self");
    cs = push_cmd(&mut v, cs, "iptables -t mangle", "-A", "rucimp_self -d 224.0.0.0/4 -j RETURN");
    cs = push_cmd(&mut v, cs, "iptables -t mangle", "-A", "rucimp_self -d 255.255.255.255/32 -j RETURN");
    cs = push_cmd(&mut v, cs, "iptables -t mangle", "-A", "rucimp_self -d 192.168.0.0/16 -p tcp -j RETURN");
    if also_udp {
        cs = push_cmd(&mut v, cs, "iptables -t mangle", "-A", "rucimp_self -d 192.168.0.0/16 -p udp -j RETURN");
    }
    cs = push_cmd(&mut v, cs, "iptables -t mangle", "-A", "rucimp_self -j RETURN -m mark --mark 0xff");
    cs = push_cmd(&mut v, cs, "iptables -t mangle", "-A", "rucimp_self -p tcp -j MARK --set-mark 1");
    if also_udp {
        cs = push_cmd(&mut v, cs, "iptables -t mangle", "-A", "rucimp_self -p udp -j MARK --set-mark 1");
    }
    cs = push_cmd(&mut v, cs, "iptables -t mangle", "-A", "OUTPUT -j rucimp_self");
    assert(cs@ =~= setup_cmds(port as nat, also_udp));
    CommandRun::new(v, true)
}

/// The run that tears the routing to `port` down: every command line runs,
/// whether or not the others fail.
pub fn down_auto_route(port: u32) -> (r: CommandRun)
    ensures
        r.well_formed(),
        line_texts(r.lines@) == down_route_lines(port as nat),
        !r.stop_on_error,
        r.next == 0,
        r.failed is None,
{
    let mut v: Vec<String> = Vec::new();
    let mut cs: Ghost<Seq<Cmd>> = Ghost(Seq::empty());
    assert(line_texts(v@) =~= render_all(cs@));
    cs = push_cmd(&mut v, cs, "ip rule", "del", "fwmark 1 table 100");
    cs = push_cmd(&mut v, cs, "ip route", "del", "local 0.0.0.0/0 dev lo table 100");
    cs = push_cmd(&mut v, cs, "iptables -t mangle", "-D", "rucimp -d 127.0.0.1/32 -j RETURN");
    cs = push_cmd(&mut v, cs, "iptables -t mangle", "-D", "rucimp -d 224.0.0.0/4 -j RETURN");
    cs = push_cmd(&mut v, cs, "iptables -t mangle", "-D", "rucimp -d 255.255.255.255/32 -j RETURN");
    cs = push_cmd(&mut v, cs, "iptables -t mangle", "-D", "rucimp -d 192.168.0.0/16 -p tcp -j RETURN");
    cs = push_cmd(&mut v, cs, "iptables -t mangle", "-D", "rucimp -d 192.168.0.0/16 -p udp -j RETURN");
    cs = push_tproxy(&mut v, cs, "-D", "udp", port);
    cs = push_tproxy(&mut v, cs, "-D", "tcp", port);
    cs = push_cmd(&mut v, cs, "iptables -t mangle", "-D", "PREROUTING -j rucimp");
    cs = push_cmd(&mut v, cs, "iptables -t mangle", "-D", "rucimp_self -d 224.0.0.0/4 -j RETURN");
    cs = push_cmd(&mut v, cs, "iptables -t mangle", "-D", "rucimp_self -d 255.255.255.255/32 -j RETURN");
    cs = push_cmd(&mut v, cs, "iptables -t mangle", "-D", "rucimp_self -d 192.168.0.0/16 -p tcp -j RETURN");
    cs = push_cmd(&mut v, cs, "iptables -t mangle", "-D", "rucimp_self -d 192.168.0.0/16 -p udp -j RETURN");
    cs = push_cmd(&mut v, cs, "iptables -t mangle", "-D", "rucimp_self -j RETURN -m mark --mark 0xff");
    cs = push_cmd(&mut v, cs, "iptables -t mangle", "-D", "rucimp_self -p udp -j MARK --set-mark 1");
    cs = push_cmd(&mut v, cs, "iptables -t mangle", "-D", "rucimp_self -p tcp -j MARK --set-mark 1");
    cs = push_cmd(&mut v, cs, "iptables -t mangle", "-D", "OUTPUT -j rucimp_self");
    cs = push_cmd(&mut v, cs, "iptables -t mangle", "-F", "rucimp");
    cs = push_cmd(&mut v, cs, "iptables -t mangle", "-X", "rucimp");
    cs = push_cmd(&mut v, cs, "iptables -t mangle", "-F", "rucimp_self");
    cs = push_cmd(&mut v, cs, "iptables -t mangle", "-X", "rucimp_self");
    assert(cs@ =~= rule_teardown_cmds(port as nat) + chain_removal_cmds());
    CommandRun::new(v, false)
}

/// Where automatic routing of a virtual interface stands; while it is up,
/// the name servers it replaced are kept. `Unset` is the state before any
/// routing was asked for.
#[derive(Debug, Clone, Default)]
pub enum AutoRouteState {
    #[default]
    Unset,
    InUp(Option<Vec<String>>),
    Down,
}

} // verus!
